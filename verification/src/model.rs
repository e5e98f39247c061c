//! The mathematical model of the library, stated over character sequences:
//! what a character stream parses to, and what a table serializes to.

use vstd::prelude::*;

verus! {

/// The characters removed from both ends of a cell: space, tab, carriage
/// return and line feed.
pub open spec fn is_csv_whitespace(c: char) -> bool {
    c == ' ' || c == '\t' || c == '\r' || c == '\n'
}

/// `s` without its leading whitespace.
pub open spec fn trim_front(s: Seq<char>) -> Seq<char>
    decreases s.len(),
{
    if s.len() > 0 && is_csv_whitespace(s[0]) {
        trim_front(s.drop_first())
    } else {
        s
    }
}

/// `s` without its trailing whitespace.
pub open spec fn trim_back(s: Seq<char>) -> Seq<char>
    decreases s.len(),
{
    if s.len() > 0 && is_csv_whitespace(s.last()) {
        trim_back(s.drop_last())
    } else {
        s
    }
}

/// `s` without leading or trailing whitespace.
pub open spec fn trim(s: Seq<char>) -> Seq<char> {
    trim_back(trim_front(s))
}

/// The tokenizer, stated over characters. `rem` is the input still to be
/// read, `cell` the content gathered for the current cell, and `q` says
/// whether the cursor stands inside a quoted field. Each token carries the
/// raw text of one cell and a flag that is true when the cell ends its row.
///
/// A lone carriage return outside quotes that is not followed by a line
/// feed is kept as ordinary cell content; only CRLF and bare LF end a row.
/// At the end of the input a nonempty pending cell is flushed as a final
/// row-ending token; an empty one is dropped.
pub open spec fn tokens_of(rem: Seq<char>, cell: Seq<char>, q: bool) -> Seq<(Seq<char>, bool)>
    decreases rem.len(),
{
    if rem.len() == 0 {
        if cell.len() > 0 {
            seq![(cell, true)]
        } else {
            seq![]
        }
    } else {
        let c = rem[0];
        let rest = rem.drop_first();
        if c == '"' {
            if q {
                if rem.len() >= 2 && rem[1] == '"' {
                    tokens_of(rem.skip(2), cell.push('"'), true)
                } else {
                    tokens_of(rest, cell, false)
                }
            } else {
                tokens_of(rest, cell, true)
            }
        } else if c == ',' {
            if q {
                tokens_of(rest, cell.push(','), true)
            } else {
                seq![(cell, false)] + tokens_of(rest, seq![], false)
            }
        } else if c == '\r' {
            if q {
                tokens_of(rest, cell.push('\r'), true)
            } else if rem.len() >= 2 && rem[1] == '\n' {
                seq![(cell, true)] + tokens_of(rem.skip(2), seq![], false)
            } else {
                tokens_of(rest, cell.push('\r'), false)
            }
        } else if c == '\n' {
            if q {
                tokens_of(rest, cell.push('\n'), true)
            } else {
                seq![(cell, true)] + tokens_of(rest, seq![], false)
            }
        } else {
            tokens_of(rest, cell.push(c), q)
        }
    }
}

/// Groups a token stream into rows. Every cell is trimmed as it is stored.
/// `current` holds the cells of the row under construction; a row-ending
/// token closes it. Cells left pending when the tokens run out are dropped,
/// which can only happen when the input ended just after a comma.
pub open spec fn rows_of_tokens(toks: Seq<(Seq<char>, bool)>, current: Seq<Seq<char>>) -> Seq<
    Seq<Seq<char>>,
>
    decreases toks.len(),
{
    if toks.len() == 0 {
        seq![]
    } else {
        let cell = trim(toks[0].0);
        if toks[0].1 {
            seq![current.push(cell)] + rows_of_tokens(toks.drop_first(), seq![])
        } else {
            rows_of_tokens(toks.drop_first(), current.push(cell))
        }
    }
}

/// The table that a character sequence parses to.
pub open spec fn parse_csv(s: Seq<char>) -> Seq<Seq<Seq<char>>> {
    rows_of_tokens(tokens_of(s, seq![], false), seq![])
}

/// True when serializing the cell requires wrapping it in quotes: it holds
/// a quote, a comma, a carriage return or a line feed.
pub open spec fn needs_quoting(s: Seq<char>) -> bool {
    s.contains('"') || s.contains(',') || s.contains('\r') || s.contains('\n')
}

/// `s` with every quote character doubled.
pub open spec fn escape_quotes(s: Seq<char>) -> Seq<char>
    decreases s.len(),
{
    if s.len() == 0 {
        seq![]
    } else if s[0] == '"' {
        seq!['"', '"'] + escape_quotes(s.drop_first())
    } else {
        seq![s[0]] + escape_quotes(s.drop_first())
    }
}

/// The serialized form of one cell: quoted with inner quotes doubled when
/// the cell holds a special character, the cell itself otherwise.
pub open spec fn sanitize(s: Seq<char>) -> Seq<char> {
    if needs_quoting(s) {
        seq!['"'] + escape_quotes(s) + seq!['"']
    } else {
        s
    }
}

/// The serialized form of one row: its sanitized cells joined by commas.
pub open spec fn stringify_row(row: Seq<Seq<char>>) -> Seq<char>
    decreases row.len(),
{
    if row.len() == 0 {
        seq![]
    } else if row.len() == 1 {
        sanitize(row[0])
    } else {
        sanitize(row[0]) + seq![','] + stringify_row(row.drop_first())
    }
}

/// The serialized form of a table: its rows joined by CRLF, with no
/// trailing row terminator.
pub open spec fn stringify_table(t: Seq<Seq<Seq<char>>>) -> Seq<char>
    decreases t.len(),
{
    if t.len() == 0 {
        seq![]
    } else if t.len() == 1 {
        stringify_row(t[0])
    } else {
        stringify_row(t[0]) + seq!['\r', '\n'] + stringify_table(t.drop_first())
    }
}

/// The decimal digit `d` as a character, for `d < 10`.
pub open spec fn decimal_digit(d: nat) -> char {
    if d == 0 {
        '0'
    } else if d == 1 {
        '1'
    } else if d == 2 {
        '2'
    } else if d == 3 {
        '3'
    } else if d == 4 {
        '4'
    } else if d == 5 {
        '5'
    } else if d == 6 {
        '6'
    } else if d == 7 {
        '7'
    } else if d == 8 {
        '8'
    } else {
        '9'
    }
}

/// The decimal writing of `n`, most significant digit first.
pub open spec fn decimal(n: nat) -> Seq<char>
    decreases n,
{
    if n < 10 {
        seq![decimal_digit(n)]
    } else {
        decimal(n / 10).push(decimal_digit(n % 10))
    }
}

} // verus!
