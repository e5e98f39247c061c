//! The laws of the parser and serializer: line-ending tolerance, and the
//! round-trip law that serializing a table and parsing the result yields
//! the table back, quoting and escaping included. `stringify` and
//! `from_string` promise exactly `stringify_table` and `parse_csv` of
//! their arguments, so the laws carry over to them.

use crate::model::{
    escape_quotes, needs_quoting, parse_csv, rows_of_tokens, sanitize, stringify_row,
    stringify_table, tokens_of, trim,
};
use vstd::prelude::*;

verus! {

/// A character with structural meaning to the tokenizer.
pub open spec fn is_special_char(c: char) -> bool {
    c == '"' || c == ',' || c == '\r' || c == '\n'
}

/// True when no character of the cell is structural.
pub open spec fn no_specials(s: Seq<char>) -> bool {
    forall|k: int| 0 <= k < s.len() ==> !is_special_char(#[trigger] s[k])
}

/// A cell that needs no quoting has no structural character anywhere.
proof fn lemma_unquoted_no_specials(s: Seq<char>)
    requires
        !needs_quoting(s),
    ensures
        no_specials(s),
{
    assert forall|k: int| 0 <= k < s.len() implies !is_special_char(#[trigger] s[k]) by {
        if s[k] == '"' {
            assert(s.contains('"'));
        } else if s[k] == ',' {
            assert(s.contains(','));
        } else if s[k] == '\r' {
            assert(s.contains('\r'));
        } else if s[k] == '\n' {
            assert(s.contains('\n'));
        }
    }
}

/// A row whose cells are already trimmed, so that the trim applied on
/// parsing gives them back unchanged.
pub open spec fn trimmed_row(r: Seq<Seq<char>>) -> bool {
    forall|j: int| 0 <= j < r.len() ==> trim(#[trigger] r[j]) == r[j]
}

/// The tokens that one serialized row comes back as: each cell in order,
/// the last one ending the row.
pub open spec fn row_tokens(r: Seq<Seq<char>>) -> Seq<(Seq<char>, bool)> {
    Seq::new(r.len(), |i: int| (r[i], i == r.len() - 1))
}

/// The tokens that a whole serialized table comes back as.
pub open spec fn table_tokens(t: Seq<Seq<Seq<char>>>) -> Seq<(Seq<char>, bool)>
    decreases t.len(),
{
    if t.len() == 0 {
        seq![]
    } else {
        row_tokens(t[0]) + table_tokens(t.drop_first())
    }
}

/// Characters without structural meaning pass into the current cell.
proof fn lemma_tokens_plain_prefix(pre: Seq<char>, rest: Seq<char>, cell: Seq<char>, q: bool)
    requires
        no_specials(pre),
    ensures
        tokens_of(pre + rest, cell, q) == tokens_of(rest, cell + pre, q),
    decreases pre.len(),
{
    if pre.len() == 0 {
        assert(pre + rest =~= rest);
        assert(cell + pre =~= cell);
    } else {
        let c = pre[0];
        assert((pre + rest)[0] == c);
        assert(!is_special_char(c));
        assert((pre + rest).drop_first() =~= pre.drop_first() + rest);
        lemma_tokens_plain_prefix(pre.drop_first(), rest, cell.push(c), q);
        assert(cell.push(c) + pre.drop_first() =~= cell + pre);
    }
}

/// Inside a quoted field, escaped content runs into the current cell
/// until the closing quote, which must not be doubled by what follows.
proof fn lemma_tokens_escaped(c: Seq<char>, rest: Seq<char>, cell: Seq<char>)
    requires
        rest.len() == 0 || rest[0] != '"',
    ensures
        tokens_of(escape_quotes(c) + (seq!['"'] + rest), cell, true) == tokens_of(
            rest,
            cell + c,
            false,
        ),
    decreases c.len(),
{
    if c.len() == 0 {
        assert(escape_quotes(c) + (seq!['"'] + rest) =~= seq!['"'] + rest);
        let rem = seq!['"'] + rest;
        assert(rem[0] == '"');
        if rem.len() >= 2 {
            assert(rem[1] == rest[0]);
            assert(rem[1] != '"');
        }
        assert(rem.drop_first() =~= rest);
        assert(cell + c =~= cell);
    } else if c[0] == '"' {
        let rem = escape_quotes(c) + (seq!['"'] + rest);
        assert(escape_quotes(c) == seq!['"', '"'] + escape_quotes(c.drop_first()));
        assert(rem[0] == '"');
        assert(rem[1] == '"');
        assert(rem.len() >= 2);
        assert(rem.skip(2) =~= escape_quotes(c.drop_first()) + (seq!['"'] + rest));
        lemma_tokens_escaped(c.drop_first(), rest, cell.push('"'));
        assert(cell.push('"') + c.drop_first() =~= cell + c);
    } else {
        let rem = escape_quotes(c) + (seq!['"'] + rest);
        assert(escape_quotes(c) == seq![c[0]] + escape_quotes(c.drop_first()));
        assert(rem[0] == c[0]);
        assert(rem.drop_first() =~= escape_quotes(c.drop_first()) + (seq!['"'] + rest));
        lemma_tokens_escaped(c.drop_first(), rest, cell.push(c[0]));
        assert(cell.push(c[0]) + c.drop_first() =~= cell + c);
    }
}

/// One serialized cell at the start of the input runs into the current
/// cell, quoted or not, when what follows is a separator, a CRLF or the
/// end of the input.
proof fn lemma_tokens_cell(c: Seq<char>, rest: Seq<char>)
    requires
        rest.len() == 0 || rest[0] == ',' || rest[0] == '\r',
    ensures
        tokens_of(sanitize(c) + rest, seq![], false) == tokens_of(rest, c, false),
{
    if needs_quoting(c) {
        let rem = sanitize(c) + rest;
        assert(rem =~= seq!['"'] + (escape_quotes(c) + (seq!['"'] + rest)));
        assert(rem[0] == '"');
        assert(rem.drop_first() =~= escape_quotes(c) + (seq!['"'] + rest));
        lemma_tokens_escaped(c, rest, seq![]);
        assert(Seq::<char>::empty() + c =~= c);
    } else {
        lemma_unquoted_no_specials(c);
        assert(sanitize(c) + rest =~= c + rest);
        lemma_tokens_plain_prefix(c, rest, seq![], false);
        assert(Seq::<char>::empty() + c =~= c);
    }
}

/// A CRLF outside quotes ends the row.
proof fn lemma_tokens_crlf(rest: Seq<char>, cell: Seq<char>)
    ensures
        tokens_of(seq!['\r', '\n'] + rest, cell, false) == seq![(cell, true)] + tokens_of(
            rest,
            seq![],
            false,
        ),
{
    let rem = seq!['\r', '\n'] + rest;
    assert(rem[0] == '\r');
    assert(rem[1] == '\n');
    assert(rem.len() >= 2);
    assert(rem.skip(2) =~= rest);
}

/// Line-ending tolerance: outside a quoted field, a CRLF and a bare LF
/// end the row in exactly the same way, so inputs differing only in their
/// unquoted line endings parse to the same table.
pub proof fn lemma_line_ending_tolerance(rest: Seq<char>, cell: Seq<char>)
    ensures
        tokens_of(seq!['\r', '\n'] + rest, cell, false) == tokens_of(
            seq!['\n'] + rest,
            cell,
            false,
        ),
{
    lemma_tokens_crlf(rest, cell);
    let rem = seq!['\n'] + rest;
    assert(rem[0] == '\n');
    assert(rem.drop_first() =~= rest);
}

/// A serialized row followed by a CRLF and more input tokenizes to the
/// row's tokens followed by the tokens of the rest.
proof fn lemma_row_tokens_mid(r: Seq<Seq<char>>, rest: Seq<char>)
    requires
        r.len() > 0,
    ensures
        tokens_of(stringify_row(r) + seq!['\r', '\n'] + rest, seq![], false) == row_tokens(r)
            + tokens_of(rest, seq![], false),
    decreases r.len(),
{
    if r.len() == 1 {
        assert(stringify_row(r) + seq!['\r', '\n'] + rest =~= sanitize(r[0]) + (seq!['\r', '\n']
            + rest));
        lemma_tokens_cell(r[0], seq!['\r', '\n'] + rest);
        lemma_tokens_crlf(rest, r[0]);
        assert(row_tokens(r) =~= seq![(r[0], true)]);
    } else {
        let r1 = r.drop_first();
        let tail = seq![','] + (stringify_row(r1) + seq!['\r', '\n'] + rest);
        assert(stringify_row(r) + seq!['\r', '\n'] + rest =~= sanitize(r[0]) + tail);
        lemma_tokens_cell(r[0], tail);
        // The comma closes the first cell.
        assert(tail[0] == ',');
        assert(tail.drop_first() =~= stringify_row(r1) + seq!['\r', '\n'] + rest);
        assert(tokens_of(tail, r[0], false) == seq![(r[0], false)] + tokens_of(
            stringify_row(r1) + seq!['\r', '\n'] + rest,
            seq![],
            false,
        ));
        lemma_row_tokens_mid(r1, rest);
        assert(row_tokens(r) =~= seq![(r[0], false)] + row_tokens(r1));
        assert(seq![(r[0], false)] + (row_tokens(r1) + tokens_of(rest, seq![], false))
            =~= row_tokens(r) + tokens_of(rest, seq![], false));
    }
}

/// A serialized row at the end of the input tokenizes to the row's
/// tokens, provided its last cell is nonempty; an empty final cell would
/// leave nothing to flush at the end of the input.
proof fn lemma_row_tokens_last(r: Seq<Seq<char>>)
    requires
        r.len() > 0,
        r.last().len() > 0,
    ensures
        tokens_of(stringify_row(r), seq![], false) == row_tokens(r),
    decreases r.len(),
{
    if r.len() == 1 {
        assert(stringify_row(r) =~= sanitize(r[0]) + Seq::<char>::empty());
        lemma_tokens_cell(r[0], seq![]);
        assert(r[0].len() > 0);
        assert(row_tokens(r) =~= seq![(r[0], true)]);
    } else {
        let r1 = r.drop_first();
        let tail = seq![','] + stringify_row(r1);
        assert(stringify_row(r) =~= sanitize(r[0]) + tail);
        lemma_tokens_cell(r[0], tail);
        assert(tail[0] == ',');
        assert(tail.drop_first() =~= stringify_row(r1));
        assert(r1.last() == r.last());
        lemma_row_tokens_last(r1);
        assert(row_tokens(r) =~= seq![(r[0], false)] + row_tokens(r1));
        assert(seq![(r[0], false)] + row_tokens(r1) =~= row_tokens(r));
    }
}

/// True when every row of the table may stand in the round trip:
/// nonempty, with every cell already trimmed.
pub open spec fn trimmed_table(t: Seq<Seq<Seq<char>>>) -> bool {
    forall|i: int| 0 <= i < t.len() ==> (#[trigger] t[i]).len() > 0 && trimmed_row(t[i])
}

/// A serialized table tokenizes to the concatenation of its rows' tokens.
proof fn lemma_table_tokens(t: Seq<Seq<Seq<char>>>)
    requires
        t.len() > 0,
        trimmed_table(t),
        t.last().last().len() > 0,
    ensures
        tokens_of(stringify_table(t), seq![], false) == table_tokens(t),
    decreases t.len(),
{
    if t.len() == 1 {
        lemma_row_tokens_last(t[0]);
        assert(table_tokens(t.drop_first()) =~= Seq::<(Seq<char>, bool)>::empty());
        assert(row_tokens(t[0]) + table_tokens(t.drop_first()) =~= row_tokens(t[0]));
    } else {
        let t1 = t.drop_first();
        assert(trimmed_table(t1)) by {
            assert(forall|i: int| 0 <= i < t1.len() ==> t1[i] == t[i + 1]);
        }
        assert(t1.last() == t.last());
        assert(stringify_table(t) =~= stringify_row(t[0]) + seq!['\r', '\n'] + stringify_table(
            t1,
        ));
        lemma_row_tokens_mid(t[0], stringify_table(t1));
        lemma_table_tokens(t1);
    }
}

/// Grouping the tokens of one row extends the current row and closes it.
proof fn lemma_rows_of_row_tokens(
    r: Seq<Seq<char>>,
    toks: Seq<(Seq<char>, bool)>,
    cur: Seq<Seq<char>>,
)
    requires
        r.len() > 0,
        trimmed_row(r),
    ensures
        rows_of_tokens(row_tokens(r) + toks, cur) == seq![cur + r] + rows_of_tokens(toks, seq![]),
    decreases r.len(),
{
    let all = row_tokens(r) + toks;
    assert(all[0] == (r[0], r.len() == 1));
    assert(trim(r[0]) == r[0]);
    if r.len() == 1 {
        assert(all.drop_first() =~= toks);
        assert(cur.push(r[0]) =~= cur + r);
    } else {
        let r1 = r.drop_first();
        assert(trimmed_row(r1)) by {
            assert(forall|j: int| 0 <= j < r1.len() ==> r1[j] == r[j + 1]);
        }
        assert(all.drop_first() =~= row_tokens(r1) + toks);
        lemma_rows_of_row_tokens(r1, toks, cur.push(r[0]));
        assert(cur.push(r[0]) + r1 =~= cur + r);
    }
}

/// Grouping the tokens of a serialized table restores its rows.
proof fn lemma_rows_of_table_tokens(t: Seq<Seq<Seq<char>>>)
    requires
        trimmed_table(t),
    ensures
        rows_of_tokens(table_tokens(t), seq![]) == t,
    decreases t.len(),
{
    if t.len() == 0 {
        assert(rows_of_tokens(table_tokens(t), seq![]) =~= t);
    } else {
        let t1 = t.drop_first();
        assert(trimmed_table(t1)) by {
            assert(forall|i: int| 0 <= i < t1.len() ==> t1[i] == t[i + 1]);
        }
        lemma_rows_of_row_tokens(t[0], table_tokens(t1), seq![]);
        lemma_rows_of_table_tokens(t1);
        assert(Seq::<Seq<char>>::empty() + t[0] =~= t[0]);
        assert(seq![t[0]] + t1 =~= t);
    }
}

/// The round trip: serializing a table and parsing the result yields the
/// table back, whenever every cell is already trimmed, every row has at
/// least one cell, and the last cell of the last row is nonempty. Cells
/// holding quotes, commas, carriage returns or line feeds are covered:
/// the serializer quotes them and the parser unquotes them again. The
/// serializer writes no trailing row terminator, so a final empty cell
/// leaves nothing for the parser to flush: the table holding one row
/// `[""]` serializes to the empty string, which parses to no rows at all.
pub proof fn lemma_stringify_parse_round_trip(t: Seq<Seq<Seq<char>>>)
    requires
        trimmed_table(t),
        t.len() > 0 ==> t.last().last().len() > 0,
    ensures
        parse_csv(stringify_table(t)) == t,
{
    if t.len() == 0 {
        assert(stringify_table(t) =~= Seq::<char>::empty());
        assert(parse_csv(stringify_table(t)) =~= t);
    } else {
        lemma_table_tokens(t);
        lemma_rows_of_table_tokens(t);
    }
}

} // verus!
