//! A CSV table with a header: the first row of an unheadered table read as
//! column names, with every row padded to one width. Duplicate column
//! names resolve to the rightmost occurrence (last write wins); missing
//! header cells get synthetic names equal to their stringified index.

use crate::model::{decimal, parse_csv, stringify_table};
use crate::text::usize_to_string;
use crate::tokenizer::{parse_bytes, tokens_decodable};
use crate::unheadered::{clone_row, UnheaderedCSVTable};
use vstd::prelude::*;

verus! {

/// The widest row of the table, the header row included; zero for an
/// empty table.
pub open spec fn max_width(t: Seq<Seq<Seq<char>>>) -> nat
    decreases t.len(),
{
    if t.len() == 0 {
        0
    } else {
        let m = max_width(t.drop_last());
        if t.last().len() > m {
            t.last().len()
        } else {
            m
        }
    }
}

/// Every row is at most `max_width` wide.
proof fn lemma_max_width(t: Seq<Seq<Seq<char>>>)
    ensures
        forall|i: int| 0 <= i < t.len() ==> (#[trigger] t[i]).len() <= max_width(t),
    decreases t.len(),
{
    if t.len() > 0 {
        lemma_max_width(t.drop_last());
        assert(forall|i: int| 0 <= i < t.len() - 1 ==> t.drop_last()[i] == t[i]);
    }
}

/// The header row padded to width `w` with synthetic names: the decimal
/// writing of each missing column's index.
pub open spec fn pad_header(row: Seq<Seq<char>>, w: nat) -> Seq<Seq<char>> {
    if row.len() >= w {
        row
    } else {
        row + Seq::new((w - row.len()) as nat, |i: int| decimal((row.len() + i) as nat))
    }
}

/// A data row padded to width `w` with empty cells.
pub open spec fn pad_row(row: Seq<Seq<char>>, w: nat) -> Seq<Seq<char>> {
    if row.len() >= w {
        row
    } else {
        row + Seq::new((w - row.len()) as nat, |i: int| Seq::<char>::empty())
    }
}

/// The header that balancing an unheadered table produces.
pub open spec fn balance_header(t: Seq<Seq<Seq<char>>>) -> Seq<Seq<char>> {
    if t.len() == 0 {
        pad_header(seq![], 0)
    } else {
        pad_header(t[0], max_width(t))
    }
}

/// The data rows that balancing an unheadered table produces: every row
/// after the first, padded to the table's width.
pub open spec fn balance_rows(t: Seq<Seq<Seq<char>>>) -> Seq<Seq<Seq<char>>> {
    if t.len() == 0 {
        seq![]
    } else {
        Seq::new((t.len() - 1) as nat, |i: int| pad_row(t[i + 1], max_width(t)))
    }
}

/// The index that a column name resolves to: the rightmost position of
/// the name in the header, so that a duplicate name overwrites earlier
/// mappings.
pub open spec fn last_index_of(header: Seq<Seq<char>>, name: Seq<char>) -> Option<int>
    decreases header.len(),
{
    if header.len() == 0 {
        None
    } else if header.last() == name {
        Some(header.len() - 1)
    } else {
        last_index_of(header.drop_last(), name)
    }
}

/// The number of distinct column names in the header; what the name to
/// index mapping retains after duplicates overwrite one another.
pub open spec fn distinct_count(header: Seq<Seq<char>>) -> nat
    decreases header.len(),
{
    if header.len() == 0 {
        0
    } else if header.drop_first().contains(header[0]) {
        distinct_count(header.drop_first())
    } else {
        distinct_count(header.drop_first()) + 1
    }
}

/// The pairs of column name and cell for one row, in header order, each
/// name taken at its rightmost occurrence only.
pub open spec fn headered_pairs(header: Seq<Seq<char>>, row: Seq<Seq<char>>, i: int) -> Seq<
    (Seq<char>, Seq<char>),
>
    decreases header.len() - i,
{
    if i < 0 || i >= header.len() {
        seq![]
    } else if header.skip(i + 1).contains(header[i]) {
        headered_pairs(header, row, i + 1)
    } else {
        seq![(header[i], row[i])] + headered_pairs(header, row, i + 1)
    }
}

/// True when no column name occurs twice in the header.
pub open spec fn distinct_names(header: Seq<Seq<char>>) -> bool {
    forall|i: int, j: int| 0 <= i < j < header.len() ==> header[i] != header[j]
}

/// True when the name at position `i` of the header occurs again to its
/// right.
fn name_again_later(header: &Vec<String>, i: usize) -> (dup: bool)
    requires
        i < header@.len(),
    ensures
        dup == header.deep_view().skip(i as int + 1).contains(header.deep_view()[i as int]),
{
    let ghost dv = header.deep_view();
    let n = header.len();
    let mut j: usize = i + 1;
    let mut found: bool = false;
    while j < n
        invariant
            i < j <= n,
            n == dv.len(),
            dv == header.deep_view(),
            found ==> dv.skip(i as int + 1).contains(dv[i as int]),
            !found ==> forall|k: int| i < k < j ==> dv[k] != dv[i as int],
        decreases n - j,
    {
        if header[j].eq(&header[i]) {
            found = true;
            proof {
                assert(dv[j as int] == dv[i as int]);
                assert(dv.skip(i as int + 1)[j - i - 1] == dv[j as int]);
            }
        }
        j = j + 1;
    }
    proof {
        if !found {
            assert forall|m: int|
                0 <= m < dv.skip(i as int + 1).len() implies (#[trigger] dv.skip(i as int + 1)[m])
                != dv[i as int] by {
                assert(dv.skip(i as int + 1)[m] == dv[i as int + 1 + m]);
            }
        }
    }
    found
}

/// A CSV table with a header (thus each column is named).
#[derive(Clone)]
pub struct HeaderedCSVTable {
    header: Vec<String>,
    rows: Vec<Vec<String>>,
}

impl HeaderedCSVTable {
    /// The column names, in column order, padded to the table's width.
    pub closed spec fn spec_header(&self) -> Seq<Seq<char>> {
        self.header.deep_view()
    }

    /// The data rows of the table, the header row excluded.
    pub closed spec fn spec_rows(&self) -> Seq<Seq<Seq<char>>> {
        self.rows.deep_view()
    }

    /// Every data row is exactly as wide as the header; balancing
    /// establishes this and nothing disturbs it.
    pub open spec fn wf(&self) -> bool {
        forall|i: int|
            0 <= i < self.spec_rows().len() ==> (#[trigger] self.spec_rows()[i]).len()
                == self.spec_header().len()
    }

    /// Creates a headered table from an unheadered one by reading its
    /// first row as the header. The width becomes the widest row of the
    /// input; the header is padded with stringified indices, the data
    /// rows with empty cells.
    pub fn from_unheadered_csv_table(input: UnheaderedCSVTable) -> (r: Self)
        ensures
            r.spec_header() == balance_header(input@),
            r.spec_rows() == balance_rows(input@),
            r.wf(),
    {
        let ghost t = input@;
        let mut top_row: Vec<String> = match input.get_row(0) {
            Ok(v) => v,
            Err(()) => Vec::new(),
        };
        let ghost head0: Seq<Seq<char>> = if t.len() == 0 {
            seq![]
        } else {
            t[0]
        };
        proof {
            if t.len() == 0 {
                assert(top_row.deep_view() =~= head0);
            }
        }
        let mut max_rows_size = top_row.len();
        let n = input.len();
        let mut i: usize = 1;
        proof {
            assert(top_row.deep_view().len() == top_row@.len());
            if t.len() > 0 {
                assert(top_row.deep_view() == t[0]);
                assert(t.take(1).drop_last() =~= Seq::<Seq<Seq<char>>>::empty());
                assert(t.take(1).last() == t[0]);
                assert(max_width(Seq::<Seq<Seq<char>>>::empty()) == 0);
                assert(max_rows_size == max_width(t.take(1)));
            } else {
                assert(head0.len() == 0);
                assert(max_rows_size == 0);
                assert(max_rows_size == max_width(t));
            }
        }
        while i < n
            invariant
                1 <= i <= n || (n == 0 && i == 1),
                n == t.len(),
                t == input@,
                top_row.deep_view() == head0,
                n > 0 ==> max_rows_size == max_width(t.take(i as int)),
                n == 0 ==> max_rows_size == max_width(t),
                max_rows_size <= usize::MAX,
            decreases n - i,
        {
            let row = match input.get_row(i) {
                Ok(v) => v,
                Err(()) => Vec::new(),
            };
            proof {
                assert(t.take(i as int + 1).drop_last() =~= t.take(i as int));
                assert(t.take(i as int + 1).last() == t[i as int]);
            }
            if row.len() > max_rows_size {
                max_rows_size = row.len();
            }
            i = i + 1;
        }
        proof {
            if n > 0 {
                assert(t.take(n as int) =~= t);
            }
        }
        let ghost w = max_width(t);
        let ghost h0len = head0.len();
        while top_row.len() < max_rows_size
            invariant
                max_rows_size == w,
                h0len <= top_row.deep_view().len(),
                top_row.deep_view().len() <= h0len || top_row.deep_view().len() <= w,
                top_row.deep_view() == head0 + Seq::new(
                    (top_row.deep_view().len() - h0len) as nat,
                    |k: int| decimal((h0len + k) as nat),
                ),
            decreases max_rows_size - top_row.len(),
        {
            let ghost before = top_row.deep_view();
            let name = usize_to_string(top_row.len());
            top_row.push(name);
            proof {
                assert(top_row.deep_view() =~= before.push(decimal(before.len() as nat)));
                assert(top_row.deep_view() =~= head0 + Seq::new(
                    (top_row.deep_view().len() - h0len) as nat,
                    |k: int| decimal((h0len + k) as nat),
                ));
            }
        }
        proof {
            lemma_max_width(t);
            if t.len() > 0 {
                assert(head0.len() <= w);
            }
            assert(top_row.deep_view() =~= pad_header(head0, w));
            assert(top_row.deep_view() =~= balance_header(t));
        }
        let mut rows: Vec<Vec<String>> = Vec::new();
        let mut i: usize = 1;
        proof {
            assert(rows.deep_view() =~= balance_rows(t).take(0));
        }
        while i < n
            invariant
                1 <= i <= n || (n == 0 && i == 1),
                n == t.len(),
                t == input@,
                max_rows_size == w,
                w == max_width(t),
                rows.deep_view() == balance_rows(t).take(i as int - 1),
            decreases n - i,
        {
            let mut this_row = match input.get_row(i) {
                Ok(v) => v,
                Err(()) => Vec::new(),
            };
            let ghost r0 = t[i as int];
            let ghost r0len = r0.len();
            proof {
                lemma_max_width(t);
                assert(this_row.deep_view() + Seq::new(
                    (this_row.deep_view().len() - r0len) as nat,
                    |k: int| Seq::<char>::empty(),
                ) =~= this_row.deep_view());
            }
            while this_row.len() < max_rows_size
                invariant
                    max_rows_size == w,
                    r0len <= this_row.deep_view().len(),
                    this_row.deep_view().len() <= r0len || this_row.deep_view().len() <= w,
                    this_row.deep_view() == r0 + Seq::new(
                        (this_row.deep_view().len() - r0len) as nat,
                        |k: int| Seq::<char>::empty(),
                    ),
                decreases max_rows_size - this_row.len(),
            {
                let ghost before = this_row.deep_view();
                this_row.push(String::new());
                proof {
                    assert(this_row.deep_view() =~= before.push(Seq::<char>::empty()));
                    assert(this_row.deep_view() =~= r0 + Seq::new(
                        (this_row.deep_view().len() - r0len) as nat,
                        |k: int| Seq::<char>::empty(),
                    ));
                }
            }
            proof {
                lemma_max_width(t);
                assert(this_row.deep_view() =~= pad_row(r0, w));
            }
            rows.push(this_row);
            proof {
                assert(rows.deep_view() =~= balance_rows(t).take(i as int - 1).push(
                    pad_row(r0, w),
                ));
                assert(balance_rows(t) == Seq::new(
                    (t.len() - 1) as nat,
                    |k: int| pad_row(t[k + 1], max_width(t)),
                ));
                assert(balance_rows(t)[i as int - 1] == pad_row(t[(i as int - 1) + 1], max_width(
                    t,
                )));
                assert(balance_rows(t)[i as int - 1] == pad_row(r0, w));
                assert(rows.deep_view() =~= balance_rows(t).take(i as int));
            }
            i = i + 1;
        }
        proof {
            if n == 0 {
                assert(rows.deep_view() =~= balance_rows(t));
            } else {
                assert(balance_rows(t).take(n as int - 1) =~= balance_rows(t));
            }
        }
        let r = Self { header: top_row, rows };
        proof {
            lemma_max_width(t);
            assert forall|k: int|
                0 <= k < r.spec_rows().len() implies (#[trigger] r.spec_rows()[k]).len()
                == r.spec_header().len() by {
                assert(r.spec_rows()[k] == pad_row(t[k + 1], w));
            }
        }
        r
    }

    /// Gets an indexed row as a vector of strings. Index 0 refers to the
    /// first data row; the header is not counted.
    pub fn get_unheadered_row(&self, input: usize) -> (r: Result<Vec<String>, ()>)
        ensures
            r is Ok <==> input < self.spec_rows().len(),
            r matches Ok(v) ==> v.deep_view() == self.spec_rows()[input as int],
    {
        if input < self.rows.len() {
            let v = clone_row(&self.rows[input]);
            proof {
                assert(v.deep_view() =~= self.rows@[input as int].deep_view());
            }
            Ok(v)
        } else {
            Err(())
        }
    }

    /// Gets an indexed row as pairs of column name and cell, each name
    /// resolved to its rightmost column. Index 0 refers to the first data
    /// row.
    pub fn get_headered_row(&self, input: usize) -> (r: Result<Vec<(String, String)>, ()>)
        requires
            self.wf(),
        ensures
            r is Ok <==> input < self.spec_rows().len(),
            r matches Ok(v) ==> v.deep_view() == headered_pairs(
                self.spec_header(),
                self.spec_rows()[input as int],
                0,
            ),
    {
        if input >= self.rows.len() {
            return Err(());
        }
        let ghost h = self.spec_header();
        let ghost row = self.spec_rows()[input as int];
        let n = self.header.len();
        let mut v: Vec<(String, String)> = Vec::new();
        let mut j: usize = 0;
        proof {
            assert(v.deep_view() + headered_pairs(h, row, 0) =~= headered_pairs(h, row, 0));
        }
        while j < n
            invariant
                j <= n,
                n == h.len(),
                h == self.spec_header(),
                row == self.spec_rows()[input as int],
                input < self.spec_rows().len(),
                self.wf(),
                headered_pairs(h, row, 0) == v.deep_view() + headered_pairs(h, row, j as int),
            decreases n - j,
        {
            let ghost v0 = v.deep_view();
            let dup = name_again_later(&self.header, j);
            if !dup {
                proof {
                    assert(row.len() == h.len());
                    assert(self.spec_rows()[input as int] == self.rows@[input as int].deep_view());
                }
                let name = self.header[j].clone();
                let cell = self.rows[input][j].clone();
                v.push((name, cell));
                proof {
                    assert(v.deep_view() =~= v0.push((h[j as int], row[j as int])));
                    assert(headered_pairs(h, row, j as int) == seq![(h[j as int], row[j as int])]
                        + headered_pairs(h, row, j as int + 1));
                    assert(v0 + (seq![(h[j as int], row[j as int])] + headered_pairs(
                        h,
                        row,
                        j as int + 1,
                    )) =~= v.deep_view() + headered_pairs(h, row, j as int + 1));
                }
            }
            j = j + 1;
        }
        proof {
            assert(headered_pairs(h, row, n as int) =~= Seq::<(Seq<char>, Seq<char>)>::empty());
            assert(v.deep_view() + headered_pairs(h, row, n as int) =~= v.deep_view());
        }
        Ok(v)
    }

    /// Gets the number of rows in the table, the header not counted.
    pub fn number_of_rows(&self) -> (n: usize)
        ensures
            n == self.spec_rows().len(),
    {
        self.rows.len()
    }

    /// Gets the number of columns: the number of distinct column names,
    /// since a duplicate name overwrites its earlier mapping.
    pub fn number_of_columns(&self) -> (n: usize)
        ensures
            n == distinct_count(self.spec_header()),
    {
        let ghost h = self.spec_header();
        let hn = self.header.len();
        let mut count: usize = 0;
        let mut i: usize = 0;
        proof {
            assert(h.skip(0) =~= h);
        }
        while i < hn
            invariant
                i <= hn,
                hn == h.len(),
                h == self.spec_header(),
                count <= i,
                distinct_count(h) == count + distinct_count(h.skip(i as int)),
            decreases hn - i,
        {
            let dup = name_again_later(&self.header, i);
            proof {
                assert(h.skip(i as int)[0] == h[i as int]);
                assert(h.skip(i as int).drop_first() =~= h.skip(i as int + 1));
                assert forall|m: int|
                    0 <= m < h.skip(i as int).drop_first().len() implies h.skip(
                    i as int,
                ).drop_first()[m] == h.skip(i as int + 1)[m] by {}
                assert(h.skip(i as int).drop_first().contains(h[i as int]) == h.skip(
                    i as int + 1,
                ).contains(h[i as int]));
            }
            if !dup {
                count = count + 1;
            }
            i = i + 1;
        }
        proof {
            assert(h.skip(hn as int) =~= Seq::<Seq<char>>::empty());
        }
        count
    }

    /// The rightmost column whose name matches, if any.
    fn find_column(&self, name: &str) -> (r: Option<usize>)
        ensures
            r is Some <==> last_index_of(self.spec_header(), name@) is Some,
            r matches Some(ci) ==> last_index_of(self.spec_header(), name@) == Some(ci as int),
    {
        let ghost h = self.spec_header();
        let needle = name.to_owned();
        let mut j = self.header.len();
        proof {
            assert(h.take(j as int) =~= h);
        }
        while j > 0
            invariant
                j <= h.len(),
                h == self.spec_header(),
                needle@ == name@,
                last_index_of(h, name@) == last_index_of(h.take(j as int), name@),
            decreases j,
        {
            proof {
                assert(h.take(j as int).last() == h[j as int - 1]);
                assert(h.take(j as int).drop_last() =~= h.take(j as int - 1));
            }
            if self.header[j - 1].eq(&needle) {
                return Some(j - 1);
            }
            j = j - 1;
        }
        proof {
            assert(h.take(0) =~= Seq::<Seq<char>>::empty());
        }
        None
    }

    /// Gets the cells of a named column as a vector of string results. A
    /// name that no column carries yields one failure per row, so callers
    /// can still enumerate rows.
    pub fn get_column(&self, input: &str) -> (r: Vec<Result<String, ()>>)
        ensures
            r@.len() == self.spec_rows().len(),
            last_index_of(self.spec_header(), input@) is None ==> forall|i: int|
                0 <= i < r@.len() ==> (#[trigger] r@[i]) is Err,
            last_index_of(self.spec_header(), input@) matches Some(ci) ==> forall|i: int|
                0 <= i < r@.len() ==> (((#[trigger] r@[i]) is Ok <==> ci
                    < self.spec_rows()[i].len()) && (r@[i] matches Ok(s) ==> s@
                    == self.spec_rows()[i][ci])),
    {
        let n = self.rows.len();
        let mut r: Vec<Result<String, ()>> = Vec::new();
        match self.find_column(input) {
            None => {
                let mut i: usize = 0;
                while i < n
                    invariant
                        i <= n,
                        r@.len() == i,
                        forall|k: int| 0 <= k < i ==> (#[trigger] r@[k]) is Err,
                    decreases n - i,
                {
                    r.push(Err(()));
                    i = i + 1;
                }
                r
            },
            Some(ci) => {
                let mut i: usize = 0;
                while i < n
                    invariant
                        i <= n,
                        n == self.spec_rows().len(),
                        r@.len() == i,
                        last_index_of(self.spec_header(), input@) == Some(ci as int),
                        forall|k: int|
                            0 <= k < i ==> (((#[trigger] r@[k]) is Ok <==> ci
                                < self.spec_rows()[k].len()) && (r@[k] matches Ok(s) ==> s@
                                == self.spec_rows()[k][ci as int])),
                    decreases n - i,
                {
                    proof {
                        assert(self.spec_rows()[i as int] =~= self.rows@[i as int].deep_view());
                    }
                    if ci < self.rows[i].len() {
                        r.push(Ok(self.rows[i][ci].clone()));
                    } else {
                        r.push(Err(()));
                    }
                    i = i + 1;
                }
                r
            },
        }
    }

    /// Returns the value of the cell at a row index and a column name as
    /// a string result.
    pub fn get_cell(&self, row: usize, column: &str) -> (r: Result<String, ()>)
        ensures
            r is Ok <==> (last_index_of(self.spec_header(), column@) matches Some(ci) && row
                < self.spec_rows().len() && ci < self.spec_rows()[row as int].len()),
            r matches Ok(s) ==> (last_index_of(self.spec_header(), column@) matches Some(ci) && s@
                == self.spec_rows()[row as int][ci]),
    {
        match self.find_column(column) {
            None => Err(()),
            Some(ci) => {
                if row < self.rows.len() {
                    proof {
                        assert(self.spec_rows()[row as int] =~= self.rows@[row as int].deep_view());
                    }
                    if ci < self.rows[row].len() {
                        Ok(self.rows[row][ci].clone())
                    } else {
                        Err(())
                    }
                } else {
                    Err(())
                }
            },
        }
    }

    /// True when no two columns carry the same name; the condition under
    /// which the table can be written back as CSV text.
    pub fn has_distinct_names(&self) -> (r: bool)
        ensures
            r == distinct_names(self.spec_header()),
    {
        let ghost h = self.spec_header();
        let n = self.header.len();
        let mut i: usize = 0;
        while i < n
            invariant
                i <= n,
                n == h.len(),
                h == self.spec_header(),
                forall|a: int, b: int| 0 <= a < i && a < b < h.len() ==> h[a] != h[b],
            decreases n - i,
        {
            if name_again_later(&self.header, i) {
                proof {
                    let hi = h[i as int];
                    let m = choose|m: int|
                        0 <= m < h.skip(i as int + 1).len() && (#[trigger] h.skip(i as int + 1)[m])
                            == hi;
                    assert(h[i as int + 1 + m] == h[i as int]);
                    assert(!distinct_names(h));
                }
                return false;
            }
            proof {
                assert forall|b: int| i < b < h.len() implies h[i as int] != h[b] by {
                    assert(h.skip(i as int + 1)[b - i - 1] == h[b]);
                }
            }
            i = i + 1;
        }
        true
    }

    /// Turns this table back into an unheadered one: the header row
    /// rebuilt from the name to index mapping, followed by the data rows.
    /// The names must be distinct, as the inverse of the mapping is
    /// otherwise not defined for every column.
    pub fn to_unheadered_csv_input_table(&self) -> (r: UnheaderedCSVTable)
        requires
            distinct_names(self.spec_header()),
        ensures
            r@ == seq![self.spec_header()] + self.spec_rows(),
    {
        let mut all_rows: Vec<Vec<String>> = Vec::new();
        all_rows.push(clone_row(&self.header));
        proof {
            assert(all_rows.deep_view() =~= seq![self.spec_header()] + self.spec_rows().take(0));
        }
        let n = self.rows.len();
        let mut i: usize = 0;
        while i < n
            invariant
                i <= n,
                n == self.spec_rows().len(),
                all_rows.deep_view() == seq![self.spec_header()] + self.spec_rows().take(i as int),
            decreases n - i,
        {
            let ghost before = all_rows.deep_view();
            all_rows.push(clone_row(&self.rows[i]));
            proof {
                assert(all_rows.deep_view() =~= before.push(self.spec_rows()[i as int]));
                assert(self.spec_rows().take(i as int + 1) =~= self.spec_rows().take(
                    i as int,
                ).push(self.spec_rows()[i as int]));
                assert(all_rows.deep_view() =~= seq![self.spec_header()] + self.spec_rows().take(
                    i as int + 1,
                ));
            }
            i = i + 1;
        }
        proof {
            assert(self.spec_rows().take(n as int) =~= self.spec_rows());
        }
        UnheaderedCSVTable::from_rows(all_rows)
    }

    /// Turns this table into a string that can serve as the contents of a
    /// CSV file; the header row comes first.
    pub fn stringify(&self) -> (r: String)
        requires
            distinct_names(self.spec_header()),
        ensures
            r@ == stringify_table(seq![self.spec_header()] + self.spec_rows()),
    {
        self.to_unheadered_csv_input_table().stringify()
    }

    /// Turns a byte vector (like the contents of a CSV file) into a
    /// headered table; the first row of the input becomes the header.
    pub fn from_byte_vector(input: Vec<u8>) -> (r: Self)
        requires
            tokens_decodable(input@),
        ensures
            r.spec_header() == balance_header(parse_bytes(input@)),
            r.spec_rows() == balance_rows(parse_bytes(input@)),
            r.wf(),
    {
        Self::from_unheadered_csv_table(UnheaderedCSVTable::from_byte_vector(input))
    }

    /// Turns a byte vector into a headered table, reporting a failure
    /// when some cell of the input is not valid UTF-8.
    pub fn try_from_byte_vector(input: Vec<u8>) -> (r: Option<Self>)
        ensures
            r is Some <==> tokens_decodable(input@),
            r matches Some(t) ==> t.spec_header() == balance_header(parse_bytes(input@))
                && t.spec_rows() == balance_rows(parse_bytes(input@)) && t.wf(),
    {
        match UnheaderedCSVTable::try_from_byte_vector(input) {
            Some(t) => Some(Self::from_unheadered_csv_table(t)),
            None => None,
        }
    }

    /// Turns a string (like the contents of a CSV file) into a headered
    /// table; the first row becomes the header.
    pub fn from_string(input: &str) -> (r: Self)
        ensures
            r.spec_header() == balance_header(parse_csv(input@)),
            r.spec_rows() == balance_rows(parse_csv(input@)),
            r.wf(),
    {
        Self::from_unheadered_csv_table(UnheaderedCSVTable::from_string(input))
    }
}

} // verus!
