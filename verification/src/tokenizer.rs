//! The core: a single-pass byte-level state machine that splits a raw byte
//! stream into cell tokens, honouring quoted fields, escaped quotes, CRLF
//! and bare-LF row endings.

use crate::model::rows_of_tokens;
use crate::text::{str_from_utf8, trim_string};
use vstd::prelude::*;
use vstd::utf8::{decode_utf8, valid_utf8};

verus! {

/// One cell token: its raw bytes, and whether it ends its row.
pub enum BytestreamReaderResult {
    LastOfLine(Vec<u8>),
    NonTerminalCell(Vec<u8>),
}

impl BytestreamReaderResult {
    /// The raw bytes of the cell.
    pub open spec fn bytes(&self) -> Seq<u8> {
        match self {
            BytestreamReaderResult::LastOfLine(v) => v@,
            BytestreamReaderResult::NonTerminalCell(v) => v@,
        }
    }

    /// True when the cell ends its row.
    pub open spec fn last_of_line(&self) -> bool {
        self is LastOfLine
    }
}

/// The tokens as plain pairs of cell bytes and row-ending flag.
pub open spec fn token_views(toks: Seq<BytestreamReaderResult>) -> Seq<(Seq<u8>, bool)> {
    toks.map_values(|t: BytestreamReaderResult| (t.bytes(), t.last_of_line()))
}

/// The tokenizer, stated over bytes; the mirror of
/// [`crate::model::tokens_of`] before UTF-8 decoding. `rem` is the input
/// still to be read, `cell` the bytes gathered for the current cell, and
/// `q` whether the cursor stands inside a quoted field.
pub open spec fn byte_tokens_of(rem: Seq<u8>, cell: Seq<u8>, q: bool) -> Seq<(Seq<u8>, bool)>
    decreases rem.len(),
{
    if rem.len() == 0 {
        if cell.len() > 0 {
            seq![(cell, true)]
        } else {
            seq![]
        }
    } else {
        let b = rem[0];
        let rest = rem.drop_first();
        if b == 0x22 {
            if q {
                if rem.len() >= 2 && rem[1] == 0x22 {
                    byte_tokens_of(rem.skip(2), cell.push(0x22), true)
                } else {
                    byte_tokens_of(rest, cell, false)
                }
            } else {
                byte_tokens_of(rest, cell, true)
            }
        } else if b == 0x2C {
            if q {
                byte_tokens_of(rest, cell.push(0x2C), true)
            } else {
                seq![(cell, false)] + byte_tokens_of(rest, seq![], false)
            }
        } else if b == 0x0D {
            if q {
                byte_tokens_of(rest, cell.push(0x0D), true)
            } else if rem.len() >= 2 && rem[1] == 0x0A {
                seq![(cell, true)] + byte_tokens_of(rem.skip(2), seq![], false)
            } else {
                byte_tokens_of(rest, cell.push(0x0D), false)
            }
        } else if b == 0x0A {
            if q {
                byte_tokens_of(rest, cell.push(0x0A), true)
            } else {
                seq![(cell, true)] + byte_tokens_of(rest, seq![], false)
            }
        } else {
            byte_tokens_of(rest, cell.push(b), q)
        }
    }
}

/// The byte tokens with each cell decoded from UTF-8; meaningful when every
/// cell is valid UTF-8.
pub open spec fn decode_tokens(toks: Seq<(Seq<u8>, bool)>) -> Seq<(Seq<char>, bool)> {
    toks.map_values(|t: (Seq<u8>, bool)| (decode_utf8(t.0), t.1))
}

/// True when every cell of the given tokens is valid UTF-8.
pub open spec fn tokens_all_valid(toks: Seq<(Seq<u8>, bool)>) -> bool {
    forall|k: int| 0 <= k < toks.len() ==> valid_utf8((#[trigger] toks[k]).0)
}

/// True when every cell that the bytes tokenize to is valid UTF-8; the
/// condition under which the parse of a raw byte vector is defined.
pub open spec fn tokens_decodable(bytes: Seq<u8>) -> bool {
    tokens_all_valid(byte_tokens_of(bytes, seq![], false))
}

/// The table that a raw byte stream parses to, cell by decoded cell;
/// meaningful when `tokens_decodable` holds of the bytes.
pub open spec fn parse_bytes(bytes: Seq<u8>) -> Seq<Seq<Seq<char>>> {
    rows_of_tokens(decode_tokens(byte_tokens_of(bytes, seq![], false)), seq![])
}

/// A cursor over an owned byte buffer.
pub struct CSVReader {
    bytes: Vec<u8>,
    ptr: usize,
    len: usize,
}

impl CSVReader {
    /// The cursor stands inside the buffer and `len` caches its length.
    pub closed spec fn wf(&self) -> bool {
        self.len == self.bytes@.len() && self.ptr <= self.len
    }

    /// The bytes not yet consumed.
    pub closed spec fn remaining(&self) -> Seq<u8> {
        self.bytes@.skip(self.ptr as int)
    }

    fn eof(&self) -> (r: bool)
        requires
            self.wf(),
        ensures
            r == (self.remaining().len() == 0),
    {
        self.ptr == self.len
    }

    fn pop(&mut self) -> (r: Result<u8, ()>)
        requires
            old(self).wf(),
        ensures
            final(self).wf(),
            old(self).remaining().len() == 0 ==> r is Err && *final(self) == *old(self),
            old(self).remaining().len() > 0 ==> r == Ok::<u8, ()>(old(self).remaining()[0])
                && final(self).remaining() == old(self).remaining().drop_first(),
    {
        if self.eof() {
            Err(())
        } else {
            let output = self.bytes[self.ptr];
            self.ptr = self.ptr + 1;
            proof {
                assert(old(self).remaining().drop_first() =~= self.remaining());
            }
            Ok(output)
        }
    }

    fn peek(&self) -> (r: Result<u8, ()>)
        requires
            self.wf(),
        ensures
            self.remaining().len() == 0 ==> r is Err,
            self.remaining().len() > 0 ==> r == Ok::<u8, ()>(self.remaining()[0]),
    {
        if self.eof() {
            Err(())
        } else {
            Ok(self.bytes[self.ptr])
        }
    }

    /// Wraps a byte vector in a cursor that stands at its start.
    pub fn from_vec(input: Vec<u8>) -> (r: Self)
        ensures
            r.wf(),
            r.remaining() == input@,
    {
        let len = input.len();
        let r = Self { bytes: input, ptr: 0, len: len };
        proof {
            assert(r.remaining() =~= r.bytes@);
        }
        r
    }

    /// Runs the state machine over the remaining bytes and returns the cell
    /// tokens, consuming the whole buffer.
    pub fn to_bytestream_reader_results(&mut self) -> (r: Vec<BytestreamReaderResult>)
        requires
            old(self).wf(),
        ensures
            final(self).wf(),
            token_views(r@) == byte_tokens_of(old(self).remaining(), seq![], false),
    {
        let ghost all = byte_tokens_of(old(self).remaining(), seq![], false);
        let mut output: Vec<BytestreamReaderResult> = Vec::new();
        let mut current_cell: Vec<u8> = Vec::new();
        let mut in_quotes: bool = false;
        proof {
            assert(token_views(output@) =~= Seq::<(Seq<u8>, bool)>::empty());
            assert(token_views(output@) + byte_tokens_of(self.remaining(), current_cell@, in_quotes)
                =~= all);
        }
        while !self.eof()
            invariant
                self.wf(),
                token_views(output@) + byte_tokens_of(
                    self.remaining(),
                    current_cell@,
                    in_quotes,
                ) == all,
            decreases self.remaining().len(),
        {
            let ghost rem0 = self.remaining();
            let ghost cell0 = current_cell@;
            let b = match self.pop() {
                Ok(b) => b,
                Err(()) => {
                    proof {
                        assert(false);
                    }
                    0
                },
            };
            if b == 0x22 {
                if in_quotes {
                    let next_is_quote = match self.peek() {
                        Ok(nb) => nb == 0x22,
                        Err(()) => false,
                    };
                    if next_is_quote {
                        current_cell.push(0x22);
                        let _ = self.pop();
                        proof {
                            assert(rem0.drop_first().drop_first() =~= rem0.skip(2));
                        }
                    } else {
                        in_quotes = false;
                    }
                } else {
                    in_quotes = true;
                }
            } else if b == 0x2C {
                if in_quotes {
                    current_cell.push(0x2C);
                } else {
                    output.push(BytestreamReaderResult::NonTerminalCell(current_cell));
                    current_cell = Vec::new();
                    proof {
                        assert(token_views(output@) =~= token_views(output@.drop_last()).push(
                            (cell0, false),
                        ));
                        assert(token_views(output@) + byte_tokens_of(
                            self.remaining(),
                            current_cell@,
                            in_quotes,
                        ) =~= token_views(output@.drop_last()) + (seq![(cell0, false)]
                            + byte_tokens_of(self.remaining(), seq![], false)));
                    }
                }
            } else if b == 0x0D {
                if in_quotes {
                    current_cell.push(0x0D);
                } else {
                    let next_is_lf = match self.peek() {
                        Ok(nb) => nb == 0x0A,
                        Err(()) => false,
                    };
                    if next_is_lf {
                        let _ = self.pop();
                        proof {
                            assert(rem0.drop_first().drop_first() =~= rem0.skip(2));
                        }
                        output.push(BytestreamReaderResult::LastOfLine(current_cell));
                        current_cell = Vec::new();
                        proof {
                            assert(token_views(output@) =~= token_views(output@.drop_last()).push(
                                (cell0, true),
                            ));
                            assert(token_views(output@) + byte_tokens_of(
                                self.remaining(),
                                current_cell@,
                                in_quotes,
                            ) =~= token_views(output@.drop_last()) + (seq![(cell0, true)]
                                + byte_tokens_of(self.remaining(), seq![], false)));
                        }
                    } else {
                        current_cell.push(0x0D);
                    }
                }
            } else if b == 0x0A {
                if in_quotes {
                    current_cell.push(0x0A);
                } else {
                    output.push(BytestreamReaderResult::LastOfLine(current_cell));
                    current_cell = Vec::new();
                    proof {
                        assert(token_views(output@) =~= token_views(output@.drop_last()).push(
                            (cell0, true),
                        ));
                        assert(token_views(output@) + byte_tokens_of(
                            self.remaining(),
                            current_cell@,
                            in_quotes,
                        ) =~= token_views(output@.drop_last()) + (seq![(cell0, true)]
                            + byte_tokens_of(self.remaining(), seq![], false)));
                    }
                }
            } else {
                current_cell.push(b);
            }
        }
        proof {
            assert(self.remaining() =~= Seq::<u8>::empty());
        }
        if !current_cell.is_empty() {
            output.push(BytestreamReaderResult::LastOfLine(current_cell));
            proof {
                assert(token_views(output@) =~= token_views(output@.drop_last()).push(
                    (output@.last().bytes(), true),
                ));
                assert(token_views(output@) =~= all);
            }
        } else {
            proof {
                assert(token_views(output@) + Seq::<(Seq<u8>, bool)>::empty() =~= token_views(
                    output@,
                ));
            }
        }
        output
    }

    /// Tokenizes the remaining bytes, decodes each cell as UTF-8, trims it,
    /// and groups the cells into rows.
    pub fn to_unheadered_csv_input_table_contents(&mut self) -> (r: Vec<Vec<String>>)
        requires
            old(self).wf(),
            tokens_decodable(old(self).remaining()),
        ensures
            final(self).wf(),
            r.deep_view() == rows_of_tokens(
                decode_tokens(byte_tokens_of(old(self).remaining(), seq![], false)),
                seq![],
            ),
    {
        let results = self.to_bytestream_reader_results();
        rows_from_results(&results).unwrap()
    }
}

/// Decodes each cell token as UTF-8, trims it, and groups the cells into
/// rows; `None` when some cell is not valid UTF-8.
pub fn rows_from_results(results: &Vec<BytestreamReaderResult>) -> (r: Option<Vec<Vec<String>>>)
    ensures
        r is Some <==> tokens_all_valid(token_views(results@)),
        r matches Some(t) ==> t.deep_view() == rows_of_tokens(
            decode_tokens(token_views(results@)),
            seq![],
        ),
{
    let ghost toks = token_views(results@);
    let mut table: Vec<Vec<String>> = Vec::new();
    let mut current_row: Vec<String> = Vec::new();
    let n = results.len();
    let mut i: usize = 0;
    proof {
        assert(decode_tokens(toks).skip(0) =~= decode_tokens(toks));
        assert(table.deep_view() =~= Seq::<Seq<Seq<char>>>::empty());
        assert(current_row.deep_view() =~= Seq::<Seq<char>>::empty());
        assert(table.deep_view() + rows_of_tokens(
            decode_tokens(toks).skip(0),
            current_row.deep_view(),
        ) =~= rows_of_tokens(decode_tokens(toks), seq![]));
    }
    while i < n
        invariant
            n == results@.len(),
            i <= n,
            toks == token_views(results@),
            forall|k: int| 0 <= k < i ==> valid_utf8((#[trigger] toks[k]).0),
            rows_of_tokens(decode_tokens(toks), seq![]) == table.deep_view() + rows_of_tokens(
                decode_tokens(toks).skip(i as int),
                current_row.deep_view(),
            ),
        decreases n - i,
    {
        let ghost drest = decode_tokens(toks).skip(i as int);
        let ghost tbl0 = table.deep_view();
        let ghost cur0 = current_row.deep_view();
        proof {
            assert(toks[i as int] == (results@[i as int].bytes(),
                results@[i as int].last_of_line()));
            assert(decode_tokens(toks)[i as int] == (decode_utf8(toks[i as int].0),
                toks[i as int].1));
            assert(drest[0] == decode_tokens(toks)[i as int]);
            assert(drest.drop_first() =~= decode_tokens(toks).skip(i as int + 1));
        }
        let (raw, is_last) = match &results[i] {
            BytestreamReaderResult::NonTerminalCell(ntc) => (ntc, false),
            BytestreamReaderResult::LastOfLine(ll) => (ll, true),
        };
        let decoded = match str_from_utf8(raw) {
            Some(decoded) => decoded,
            None => {
                proof {
                    assert(!valid_utf8(toks[i as int].0));
                }
                return None;
            },
        };
        let cell = trim_string(decoded);
        proof {
            assert(raw@ == toks[i as int].0);
            assert(is_last == toks[i as int].1);
            assert(cell@ == crate::model::trim(decode_utf8(toks[i as int].0)));
            assert(cell@ == crate::model::trim(drest[0].0));
        }
        current_row.push(cell);
        proof {
            assert(current_row.deep_view() =~= cur0.push(cell@));
        }
        if is_last {
            table.push(current_row);
            current_row = Vec::new();
            proof {
                assert(table.deep_view() =~= tbl0.push(cur0.push(cell@)));
                assert(current_row.deep_view() =~= Seq::<Seq<char>>::empty());
                assert(rows_of_tokens(drest, cur0) == seq![cur0.push(cell@)] + rows_of_tokens(
                    drest.drop_first(),
                    seq![],
                ));
                assert(tbl0 + (seq![cur0.push(cell@)] + rows_of_tokens(
                    drest.drop_first(),
                    seq![],
                )) =~= table.deep_view() + rows_of_tokens(
                    drest.drop_first(),
                    current_row.deep_view(),
                ));
            }
        } else {
            proof {
                assert(rows_of_tokens(drest, cur0) == rows_of_tokens(
                    drest.drop_first(),
                    cur0.push(cell@),
                ));
            }
        }
        i = i + 1;
    }
    proof {
        assert(decode_tokens(toks).skip(n as int) =~= Seq::<(Seq<char>, bool)>::empty());
        assert(table.deep_view() + Seq::<Seq<Seq<char>>>::empty() =~= table.deep_view());
    }
    Some(table)
}

} // verus!
