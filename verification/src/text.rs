//! Executable text helpers: whitespace trimming, decimal formatting of an
//! index, and the two trusted wrappers around `String` operations of std
//! that vstd gives no specification.

use crate::model::{decimal, decimal_digit, is_csv_whitespace, trim, trim_back, trim_front};
use vstd::prelude::*;
use vstd::utf8::{decode_utf8, valid_utf8};

verus! {

/// Relies on `String::push`: appends the character to the end of the string.
#[verifier::external_body]
pub(crate) fn push_char(s: &mut String, c: char)
    ensures
        final(s)@ == old(s)@.push(c),
{
    s.push(c);
}

/// Relies on `str::from_utf8`: it succeeds exactly on valid UTF-8 input,
/// and then returns the str whose characters the bytes encode.
#[verifier::external_body]
pub(crate) fn str_from_utf8<'a>(v: &'a Vec<u8>) -> (r: Option<&'a str>)
    ensures
        r is Some <==> valid_utf8(v@),
        r matches Some(s) ==> s@ == decode_utf8(v@),
{
    core::str::from_utf8(v.as_slice()).ok()
}

fn is_ws_char(c: char) -> (r: bool)
    ensures
        r == is_csv_whitespace(c),
{
    c == ' ' || c == '\t' || c == '\r' || c == '\n'
}

/// Removes leading and trailing whitespace from a string.
pub fn trim_string(s: &str) -> (r: String)
    ensures
        r@ == trim(s@),
{
    let n = s.unicode_len();
    let mut start: usize = 0;
    proof {
        assert(s@.skip(0) =~= s@);
    }
    while start < n && is_ws_char(s.get_char(start))
        invariant
            n == s@.len(),
            start <= n,
            trim_front(s@.skip(start as int)) == trim_front(s@),
        decreases n - start,
    {
        proof {
            assert(s@.skip(start as int).drop_first() =~= s@.skip(start as int + 1));
        }
        start = start + 1;
    }
    proof {
        if start == n {
            assert(s@.skip(start as int) =~= Seq::<char>::empty());
        }
        assert(trim_front(s@) == s@.skip(start as int));
    }
    let mut end: usize = n;
    while end > start && is_ws_char(s.get_char(end - 1))
        invariant
            n == s@.len(),
            start <= end <= n,
            trim_front(s@) == s@.skip(start as int),
            trim_back(s@.subrange(start as int, end as int)) == trim(s@),
        decreases end,
    {
        proof {
            let sub = s@.subrange(start as int, end as int);
            assert(sub.last() == s@[end - 1]);
            assert(sub.drop_last() =~= s@.subrange(start as int, end as int - 1));
        }
        end = end - 1;
    }
    proof {
        let sub = s@.subrange(start as int, end as int);
        if end == start {
            assert(sub =~= Seq::<char>::empty());
        }
        assert(trim(s@) == sub);
    }
    let piece = s.substring_char(start, end);
    piece.to_owned()
}

fn digit_char(d: u8) -> (c: char)
    requires
        d < 10,
    ensures
        c == decimal_digit(d as nat),
{
    if d == 0 {
        '0'
    } else if d == 1 {
        '1'
    } else if d == 2 {
        '2'
    } else if d == 3 {
        '3'
    } else if d == 4 {
        '4'
    } else if d == 5 {
        '5'
    } else if d == 6 {
        '6'
    } else if d == 7 {
        '7'
    } else if d == 8 {
        '8'
    } else {
        '9'
    }
}

/// Writes `n` in decimal, for the synthetic names of padded header columns.
pub fn usize_to_string(n: usize) -> (r: String)
    ensures
        r@ == decimal(n as nat),
{
    let mut low: Vec<char> = Vec::new();
    let mut m = n;
    while m >= 10
        invariant
            decimal(n as nat) == decimal(m as nat) + low@.reverse(),
        decreases m,
    {
        let d = (m % 10) as u8;
        let c = digit_char(d);
        proof {
            assert(decimal(m as nat) == decimal(m as nat / 10).push(decimal_digit(m as nat % 10)));
            assert(m as nat / 10 == (m / 10) as nat);
            assert(m as nat % 10 == (m % 10) as nat);
            assert(low@.push(c).reverse() =~= seq![c] + low@.reverse());
            assert(decimal(m as nat / 10) + (seq![c] + low@.reverse()) =~= (decimal(
                m as nat / 10,
            ).push(c)) + low@.reverse());
        }
        low.push(c);
        m = m / 10;
    }
    let mut r = String::new();
    let first = digit_char(m as u8);
    push_char(&mut r, first);
    proof {
        assert(decimal(m as nat) =~= seq![first]);
        assert(r@ =~= seq![first] + low@.skip(low@.len() as int).reverse());
        assert(low@.skip(low@.len() as int).reverse() =~= Seq::<char>::empty());
    }
    let mut i = low.len();
    while i > 0
        invariant
            i <= low.len(),
            decimal(n as nat) == seq![first] + low@.reverse(),
            r@ == seq![first] + low@.skip(i as int).reverse(),
        decreases i,
    {
        i = i - 1;
        let c = low[i];
        push_char(&mut r, c);
        proof {
            assert(low@.skip(i as int) =~= seq![c] + low@.skip(i as int + 1));
            assert(low@.skip(i as int).reverse() =~= low@.skip(i as int + 1).reverse().push(c));
            assert(r@ =~= seq![first] + low@.skip(i as int).reverse());
        }
    }
    proof {
        assert(low@.skip(0).reverse() =~= low@.reverse());
    }
    r
}

} // verus!
