//! A CSV table with no header: an ordered sequence of rows of text cells,
//! possibly ragged, with parsing from bytes or text and serialization back
//! to CSV text.

use crate::encoding::{lemma_parse_bytes_of_encoding, lemma_parse_bytes_of_valid};
use crate::model::{
    escape_quotes, needs_quoting, parse_csv, sanitize, stringify_row, stringify_table,
};
use crate::text::push_char;
use crate::tokenizer::{parse_bytes, rows_from_results, tokens_decodable, CSVReader};
use vstd::prelude::*;
use vstd::utf8::{decode_utf8, valid_utf8};

verus! {

/// Escaping one more character appends its escaped form.
proof fn lemma_escape_push(t: Seq<char>, c: char)
    ensures
        escape_quotes(t.push(c)) == escape_quotes(t) + (if c == '"' {
            seq!['"', '"']
        } else {
            seq![c]
        }),
    decreases t.len(),
{
    let tail = if c == '"' {
        seq!['"', '"']
    } else {
        seq![c]
    };
    if t.len() == 0 {
        assert(t.push(c) =~= seq![c]);
        assert(seq![c][0] == c);
        assert(seq![c].drop_first() =~= Seq::<char>::empty());
        assert(escape_quotes(Seq::<char>::empty()) =~= Seq::<char>::empty());
        assert(escape_quotes(seq![c]) =~= tail);
        assert(escape_quotes(t) + tail =~= tail);
    } else {
        assert(t.push(c)[0] == t[0]);
        assert(t.push(c).drop_first() =~= t.drop_first().push(c));
        lemma_escape_push(t.drop_first(), c);
        assert(escape_quotes(t.push(c)) =~= escape_quotes(t) + tail);
    }
}

/// Serializing one more cell of a row appends a comma and the cell's
/// sanitized form.
proof fn lemma_stringify_row_push(row: Seq<Seq<char>>, c: Seq<char>)
    requires
        row.len() > 0,
    ensures
        stringify_row(row.push(c)) == stringify_row(row) + seq![','] + sanitize(c),
    decreases row.len(),
{
    if row.len() == 1 {
        assert(row.push(c).drop_first() =~= seq![c]);
        assert(seq![c][0] == c);
        assert(stringify_row(seq![c]) == sanitize(c));
        assert(stringify_row(row.push(c)) =~= stringify_row(row) + seq![','] + sanitize(c));
    } else {
        assert(row.push(c)[0] == row[0]);
        assert(row.push(c).drop_first() =~= row.drop_first().push(c));
        lemma_stringify_row_push(row.drop_first(), c);
        assert(stringify_row(row.push(c)) =~= stringify_row(row) + seq![','] + sanitize(c));
    }
}

/// Serializing one more row of a table appends a CRLF and the row.
proof fn lemma_stringify_table_push(t: Seq<Seq<Seq<char>>>, row: Seq<Seq<char>>)
    requires
        t.len() > 0,
    ensures
        stringify_table(t.push(row)) == stringify_table(t) + seq!['\r', '\n'] + stringify_row(row),
    decreases t.len(),
{
    if t.len() == 1 {
        assert(t.push(row).drop_first() =~= seq![row]);
        assert(seq![row][0] == row);
        assert(stringify_table(seq![row]) == stringify_row(row));
        assert(stringify_table(t.push(row)) =~= stringify_table(t) + seq!['\r', '\n']
            + stringify_row(row));
    } else {
        assert(t.push(row)[0] == t[0]);
        assert(t.push(row).drop_first() =~= t.drop_first().push(row));
        lemma_stringify_table_push(t.drop_first(), row);
        assert(stringify_table(t.push(row)) =~= stringify_table(t) + seq!['\r', '\n']
            + stringify_row(row));
    }
}

/// An owned copy of a row of cells.
pub(crate) fn clone_row(row: &Vec<String>) -> (r: Vec<String>)
    ensures
        r@ == row@,
{
    let mut r: Vec<String> = Vec::new();
    let mut j: usize = 0;
    while j < row.len()
        invariant
            j <= row@.len(),
            r@ == row@.take(j as int),
        decreases row@.len() - j,
    {
        r.push(row[j].clone());
        proof {
            assert(row@.take(j as int + 1) =~= row@.take(j as int).push(row@[j as int]));
        }
        j = j + 1;
    }
    proof {
        assert(row@.take(row@.len() as int) =~= row@);
    }
    r
}

/// A CSV table with no header.
#[derive(Clone)]
pub struct UnheaderedCSVTable(Vec<Vec<String>>);

impl View for UnheaderedCSVTable {
    type V = Seq<Seq<Seq<char>>>;

    /// The table as a sequence of rows of cell texts.
    closed spec fn view(&self) -> Seq<Seq<Seq<char>>> {
        self.0.deep_view()
    }
}

impl UnheaderedCSVTable {
    /// Declares a new table around an existing vec (table) of vecs (rows)
    /// of strings (cells).
    pub fn from_rows(rows: Vec<Vec<String>>) -> (r: Self)
        ensures
            r@ == rows.deep_view(),
    {
        Self(rows)
    }

    /// Pushes a new row (vector of strings) to this table.
    pub fn push_row(&mut self, input: Vec<String>)
        ensures
            final(self)@ == old(self)@.push(input.deep_view()),
    {
        let ghost before = self.0.deep_view();
        let ghost row = input.deep_view();
        self.0.push(input);
        proof {
            assert(self.0.deep_view() =~= before.push(row));
        }
    }

    /// Gets a row by index; out-of-range indices report a failure.
    pub fn get_row(&self, row_index: usize) -> (r: Result<Vec<String>, ()>)
        ensures
            r is Ok <==> row_index < self@.len(),
            r matches Ok(v) ==> v.deep_view() == self@[row_index as int],
    {
        if row_index < self.0.len() {
            let v = clone_row(&self.0[row_index]);
            proof {
                assert(v.deep_view() =~= self.0@[row_index as int].deep_view());
            }
            Ok(v)
        } else {
            Err(())
        }
    }

    /// Returns the number of rows in the table.
    pub fn len(&self) -> (n: usize)
        ensures
            n == self@.len(),
    {
        self.0.len()
    }

    /// Returns all members of a column as a vector of string results; a
    /// row too short to reach the column reports a failure for that row
    /// alone.
    pub fn get_column(&self, input: usize) -> (r: Vec<Result<String, ()>>)
        ensures
            r@.len() == self@.len(),
            forall|i: int|
                0 <= i < r@.len() ==> ((#[trigger] r@[i]) is Ok <==> input < self@[i].len()),
            forall|i: int|
                0 <= i < r@.len() ==> ((#[trigger] r@[i]) matches Ok(s) ==> s@
                    == self@[i][input as int]),
    {
        let mut r: Vec<Result<String, ()>> = Vec::new();
        let mut i: usize = 0;
        while i < self.0.len()
            invariant
                i <= self@.len(),
                self@.len() == self.0@.len(),
                r@.len() == i,
                forall|k: int|
                    0 <= k < i ==> ((#[trigger] r@[k]) is Ok <==> input < self@[k].len()),
                forall|k: int|
                    0 <= k < i ==> ((#[trigger] r@[k]) matches Ok(s) ==> s@
                        == self@[k][input as int]),
            decreases self.0@.len() - i,
        {
            proof {
                assert(self@[i as int] =~= self.0@[i as int].deep_view());
            }
            if input < self.0[i].len() {
                r.push(Ok(self.0[i][input].clone()));
            } else {
                r.push(Err(()));
            }
            i = i + 1;
        }
        r
    }

    /// Returns the contents of an indexed cell as a string result.
    pub fn get_cell(&self, row: usize, column: usize) -> (r: Result<String, ()>)
        ensures
            r is Ok <==> (row < self@.len() && column < self@[row as int].len()),
            r matches Ok(s) ==> s@ == self@[row as int][column as int],
    {
        if row < self.0.len() {
            proof {
                assert(self@[row as int] =~= self.0@[row as int].deep_view());
            }
            if column < self.0[row].len() {
                Ok(self.0[row][column].clone())
            } else {
                Err(())
            }
        } else {
            Err(())
        }
    }

    /// Wraps the cell in quotes, doubling inner quotes, when it holds a
    /// quote, comma, carriage return or line feed; leaves it alone
    /// otherwise.
    pub fn csv_sanitize(y: String) -> (r: String)
        ensures
            r@ == sanitize(y@),
    {
        let n = y.as_str().unicode_len();
        let mut j: usize = 0;
        let mut special: bool = false;
        while j < n
            invariant
                j <= n,
                n == y@.len(),
                special ==> needs_quoting(y@),
                !special ==> forall|k: int|
                    0 <= k < j ==> !((#[trigger] y@[k]) == '"' || y@[k] == ',' || y@[k] == '\r'
                        || y@[k] == '\n'),
            decreases n - j,
        {
            let c = y.as_str().get_char(j);
            if c == '"' || c == ',' || c == '\r' || c == '\n' {
                special = true;
                proof {
                    assert(y@.contains(c));
                }
            }
            j = j + 1;
        }
        if special {
            let mut r = String::new();
            push_char(&mut r, '"');
            proof {
                assert(y@.take(0) =~= Seq::<char>::empty());
                assert(escape_quotes(y@.take(0)) =~= Seq::<char>::empty());
                assert(r@ =~= seq!['"'] + escape_quotes(y@.take(0)));
            }
            let mut j: usize = 0;
            while j < n
                invariant
                    j <= n,
                    n == y@.len(),
                    needs_quoting(y@),
                    r@ == seq!['"'] + escape_quotes(y@.take(j as int)),
                decreases n - j,
            {
                let c = y.as_str().get_char(j);
                if c == '"' {
                    push_char(&mut r, '"');
                    push_char(&mut r, '"');
                } else {
                    push_char(&mut r, c);
                }
                proof {
                    lemma_escape_push(y@.take(j as int), c);
                    assert(y@.take(j as int + 1) =~= y@.take(j as int).push(c));
                    if c == '"' {
                        assert(r@ =~= seq!['"'] + (escape_quotes(y@.take(j as int)) + seq![
                            '"',
                            '"',
                        ]));
                    } else {
                        assert(r@ =~= seq!['"'] + (escape_quotes(y@.take(j as int)) + seq![c]));
                    }
                }
                j = j + 1;
            }
            push_char(&mut r, '"');
            proof {
                assert(y@.take(n as int) =~= y@);
                assert(r@ =~= seq!['"'] + escape_quotes(y@) + seq!['"']);
            }
            r
        } else {
            proof {
                if needs_quoting(y@) {
                    if y@.contains('"') {
                        let k = choose|k: int| 0 <= k < y@.len() && y@[k] == '"';
                        assert(false);
                    } else if y@.contains(',') {
                        let k = choose|k: int| 0 <= k < y@.len() && y@[k] == ',';
                        assert(false);
                    } else if y@.contains('\r') {
                        let k = choose|k: int| 0 <= k < y@.len() && y@[k] == '\r';
                        assert(false);
                    } else {
                        let k = choose|k: int| 0 <= k < y@.len() && y@[k] == '\n';
                        assert(false);
                    }
                }
            }
            y
        }
    }

    /// The serialized form of one row: its sanitized cells joined by
    /// commas.
    fn stringify_row_of(row: &Vec<String>) -> (r: String)
        ensures
            r@ == stringify_row(row.deep_view()),
    {
        let mut r = String::new();
        let mut j: usize = 0;
        proof {
            assert(row.deep_view().take(0) =~= Seq::<Seq<char>>::empty());
        }
        while j < row.len()
            invariant
                j <= row@.len(),
                row.deep_view().len() == row@.len(),
                r@ == stringify_row(row.deep_view().take(j as int)),
            decreases row@.len() - j,
        {
            let ghost prefix = row.deep_view().take(j as int);
            proof {
                assert(row.deep_view()[j as int] == row@[j as int]@);
                assert(row.deep_view().take(j as int + 1) =~= prefix.push(row@[j as int]@));
            }
            let piece = Self::csv_sanitize(row[j].clone());
            if j > 0 {
                r.append(",");
                proof {
                    reveal_strlit(",");
                    assert(","@ =~= seq![',']);
                    lemma_stringify_row_push(prefix, row@[j as int]@);
                }
            } else {
                proof {
                    assert(prefix.len() == 0);
                    assert(stringify_row(prefix.push(row@[j as int]@)) == sanitize(row@[j as int]@));
                }
            }
            r.append(piece.as_str());
            proof {
                assert(r@ =~= stringify_row(row.deep_view().take(j as int + 1)));
            }
            j = j + 1;
        }
        proof {
            assert(row.deep_view().take(row@.len() as int) =~= row.deep_view());
        }
        r
    }

    /// Turns this table into a string that can serve as the contents of a
    /// CSV file: rows joined by CRLF, with no trailing terminator.
    pub fn stringify(&self) -> (r: String)
        ensures
            r@ == stringify_table(self@),
    {
        let mut r = String::new();
        let mut i: usize = 0;
        proof {
            assert(self@.take(0) =~= Seq::<Seq<Seq<char>>>::empty());
        }
        while i < self.0.len()
            invariant
                i <= self.0@.len(),
                self@.len() == self.0@.len(),
                r@ == stringify_table(self@.take(i as int)),
            decreases self.0@.len() - i,
        {
            let ghost prefix = self@.take(i as int);
            proof {
                assert(self@[i as int] == self.0@[i as int].deep_view());
                assert(self@.take(i as int + 1) =~= prefix.push(self@[i as int]));
            }
            let piece = Self::stringify_row_of(&self.0[i]);
            if i > 0 {
                r.append("\r\n");
                proof {
                    reveal_strlit("\r\n");
                    assert("\r\n"@ =~= seq!['\r', '\n']);
                    lemma_stringify_table_push(prefix, self@[i as int]);
                }
            } else {
                proof {
                    assert(prefix.len() == 0);
                    assert(stringify_table(prefix.push(self@[i as int])) == stringify_row(
                        self@[i as int],
                    ));
                }
            }
            r.append(piece.as_str());
            proof {
                assert(r@ =~= stringify_table(self@.take(i as int + 1)));
            }
            i = i + 1;
        }
        proof {
            assert(self@.take(self.0@.len() as int) =~= self@);
        }
        r
    }

    /// Turns a byte vector (like the contents of a CSV file) into a table.
    /// Every cell the bytes tokenize to must be valid UTF-8, which holds in
    /// particular of any byte vector that is valid UTF-8 as a whole; for
    /// arbitrary bytes see [`Self::try_from_byte_vector`].
    pub fn from_byte_vector(input: Vec<u8>) -> (r: Self)
        requires
            tokens_decodable(input@),
        ensures
            r@ == parse_bytes(input@),
            valid_utf8(input@) ==> r@ == parse_csv(decode_utf8(input@)),
    {
        proof {
            if valid_utf8(input@) {
                lemma_parse_bytes_of_valid(input@);
            }
        }
        let mut reader = CSVReader::from_vec(input);
        Self(reader.to_unheadered_csv_input_table_contents())
    }

    /// Turns a byte vector into a table, reporting a failure when some
    /// cell of the input is not valid UTF-8.
    pub fn try_from_byte_vector(input: Vec<u8>) -> (r: Option<Self>)
        ensures
            r is Some <==> tokens_decodable(input@),
            r matches Some(t) ==> t@ == parse_bytes(input@),
    {
        let mut reader = CSVReader::from_vec(input);
        let results = reader.to_bytestream_reader_results();
        match rows_from_results(&results) {
            Some(rows) => Some(Self(rows)),
            None => None,
        }
    }

    /// Turns a string (like the contents of a CSV file) into a table.
    pub fn from_string(input: &str) -> (r: UnheaderedCSVTable)
        ensures
            r@ == parse_csv(input@),
    {
        let bytes = input.as_bytes_vec();
        proof {
            lemma_parse_bytes_of_encoding(input@);
        }
        let mut reader = CSVReader::from_vec(bytes);
        Self(reader.to_unheadered_csv_input_table_contents())
    }
}

} // verus!
