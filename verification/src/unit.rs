//! Executable parsing of a single unit line, proved to return exactly what
//! [`crate::model::parse_unit_spec`] describes.

use vstd::prelude::*;
use vstd::string::StrSliceExecFns;
use vstd::string::StringExecFns;

use crate::LocalizationUnit;
use crate::model::digits_start;
use crate::model::digits_val;
use crate::model::find_char;
use crate::model::is_digit;
use crate::model::is_space;
use crate::model::parse_unit_spec;
use crate::model::trim_back;
use crate::text::space_char;

verus! {

/// Executable twin of [`is_digit`].
pub fn digit_ch(c: char) -> (r: bool)
    ensures
        r == is_digit(c),
{
    let u = c as u32;
    48 <= u && u <= 57
}

/// What [`find_char`] returns: the first occurrence, or -1 when absent.
pub(crate) proof fn lemma_find_char(s: Seq<char>, c: char)
    ensures
        find_char(s, c) == -1 ==> forall|k: int| 0 <= k < s.len() ==> s[k] != c,
        find_char(s, c) != -1 ==> 0 <= find_char(s, c) < s.len() && s[find_char(s, c)] == c && (
        forall|k: int| 0 <= k < find_char(s, c) ==> s[k] != c),
    decreases s.len(),
{
    if s.len() == 0 {
    } else if s[0] == c {
    } else {
        let s1 = s.drop_first();
        lemma_find_char(s1, c);
        assert forall|k: int| 1 <= k < s.len() implies s[k] == s1[k - 1] by {}
    }
}

/// The first occurrence determines [`find_char`].
pub(crate) proof fn lemma_find_char_at(s: Seq<char>, c: char, j: int)
    requires
        0 <= j < s.len(),
        s[j] == c,
        forall|k: int| 0 <= k < j ==> s[k] != c,
    ensures
        find_char(s, c) == j,
{
    lemma_find_char(s, c);
    let f = find_char(s, c);
    if f == -1 {
        assert(s[j] != c);
    } else {
        if f < j {
            assert(s[f] != c);
        }
        if f > j {
            assert(s[j] != c);
        }
    }
}

/// A character that occurs nowhere makes [`find_char`] return -1.
pub(crate) proof fn lemma_find_char_none(s: Seq<char>, c: char)
    requires
        forall|k: int| 0 <= k < s.len() ==> s[k] != c,
    ensures
        find_char(s, c) == -1,
{
    lemma_find_char(s, c);
    let f = find_char(s, c);
    if f != -1 {
        assert(s[f] != c);
    }
}

/// First position of `c` within `v[lo..hi]`, if any.
pub fn find_in_range(v: &Vec<char>, lo: usize, hi: usize, c: char) -> (r: Option<usize>)
    requires
        lo <= hi <= v@.len(),
    ensures
        match r {
            Some(q) => lo <= q < hi && v@[q as int] == c && find_char(
                v@.subrange(lo as int, hi as int),
                c,
            ) == q - lo,
            None => find_char(v@.subrange(lo as int, hi as int), c) == -1,
        },
{
    let ghost s = v@.subrange(lo as int, hi as int);
    let mut i = lo;
    while i < hi
        invariant
            lo <= i <= hi <= v@.len(),
            s == v@.subrange(lo as int, hi as int),
            forall|k: int| 0 <= k < i - lo ==> s[k] != c,
        decreases hi - i,
    {
        if v[i] == c {
            proof {
                assert(s[i - lo] == c);
                lemma_find_char_at(s, c, i - lo);
            }
            return Some(i);
        }
        proof {
            assert(s[i - lo] == v@[i as int]);
        }
        i = i + 1;
    }
    proof {
        lemma_find_char_none(s, c);
    }
    None
}

/// What [`digits_start`] returns: the start of the maximal digit suffix.
pub(crate) proof fn lemma_digits_start(s: Seq<char>)
    ensures
        0 <= digits_start(s) <= s.len(),
        forall|k: int| digits_start(s) <= k < s.len() ==> is_digit(s[k]),
        digits_start(s) > 0 ==> !is_digit(s[digits_start(s) - 1]),
    decreases s.len(),
{
    if s.len() > 0 && is_digit(s[s.len() - 1]) {
        let s1 = s.drop_last();
        lemma_digits_start(s1);
        assert forall|k: int| digits_start(s) <= k < s.len() implies is_digit(s[k]) by {
            if k < s.len() - 1 {
                assert(s[k] == s1[k]);
            }
        }
    }
}

/// The maximal digit suffix determines [`digits_start`].
pub(crate) proof fn lemma_digits_start_at(s: Seq<char>, d: int)
    requires
        0 <= d <= s.len(),
        forall|k: int| d <= k < s.len() ==> is_digit(s[k]),
        d == 0 || !is_digit(s[d - 1]),
    ensures
        digits_start(s) == d,
{
    lemma_digits_start(s);
    let d0 = digits_start(s);
    if d0 < d {
        assert(is_digit(s[d - 1]));
    }
    if d0 > d {
        assert(is_digit(s[d0 - 1]));
    }
}

/// Start of the maximal digit run that ends `v[lo..hi]`.
pub fn digits_span(v: &Vec<char>, lo: usize, hi: usize) -> (r: usize)
    requires
        lo <= hi <= v@.len(),
    ensures
        lo <= r <= hi,
        digits_start(v@.subrange(lo as int, hi as int)) == r - lo,
        forall|k: int| r <= k < hi ==> is_digit(v@[k]),
{
    let mut d = hi;
    while d > lo && digit_ch(v[d - 1])
        invariant
            lo <= d <= hi <= v@.len(),
            forall|k: int| d <= k < hi ==> is_digit(v@[k]),
        decreases d,
    {
        d = d - 1;
    }
    proof {
        let s = v@.subrange(lo as int, hi as int);
        assert forall|k: int| d - lo <= k < s.len() implies is_digit(s[k]) by {
            assert(s[k] == v@[lo + k]);
        }
        if d > lo {
            assert(s[d - lo - 1] == v@[d - 1]);
        }
        lemma_digits_start_at(s, d as int - lo as int);
    }
    d
}

/// A digit sequence reads as a non-negative number.
pub(crate) proof fn lemma_digits_val_nonneg(s: Seq<char>)
    requires
        forall|k: int| 0 <= k < s.len() ==> is_digit(s[k]),
    ensures
        digits_val(s) >= 0,
    decreases s.len(),
{
    if s.len() > 0 {
        let s1 = s.drop_last();
        assert forall|k: int| 0 <= k < s1.len() implies is_digit(s1[k]) by {
            assert(s1[k] == s[k]);
        }
        lemma_digits_val_nonneg(s1);
        assert(is_digit(s[s.len() - 1]));
    }
}

/// Reading more digits can only increase the value.
pub(crate) proof fn lemma_digits_val_prefix(s: Seq<char>, k: int)
    requires
        forall|j: int| 0 <= j < s.len() ==> is_digit(s[j]),
        0 <= k <= s.len(),
    ensures
        digits_val(s.take(k)) <= digits_val(s),
    decreases s.len(),
{
    if k == s.len() {
        assert(s.take(k) =~= s);
    } else {
        let s1 = s.drop_last();
        assert forall|j: int| 0 <= j < s1.len() implies is_digit(s1[j]) by {
            assert(s1[j] == s[j]);
        }
        assert(s.take(k) =~= s1.take(k));
        lemma_digits_val_prefix(s1, k);
        lemma_digits_val_nonneg(s1);
        assert(is_digit(s[s.len() - 1]));
    }
}

/// The decimal value of the digit run `v[lo..hi]` as an `i32`, or `None`
/// when it exceeds `i32::MAX`.
pub fn parse_version(v: &Vec<char>, lo: usize, hi: usize) -> (r: Option<i32>)
    requires
        lo <= hi <= v@.len(),
        forall|k: int| lo <= k < hi ==> is_digit(v@[k]),
    ensures
        match r {
            Some(x) => digits_val(v@.subrange(lo as int, hi as int)) == x as int,
            None => digits_val(v@.subrange(lo as int, hi as int)) > i32::MAX,
        },
{
    let ghost ds = v@.subrange(lo as int, hi as int);
    proof {
        assert forall|k: int| 0 <= k < ds.len() implies is_digit(ds[k]) by {
            assert(ds[k] == v@[lo + k]);
        }
    }
    let mut acc: u64 = 0;
    let mut i = lo;
    while i < hi
        invariant
            lo <= i <= hi <= v@.len(),
            ds == v@.subrange(lo as int, hi as int),
            forall|k: int| 0 <= k < ds.len() ==> is_digit(ds[k]),
            acc == digits_val(ds.take(i as int - lo as int)),
            acc <= 0x7fff_ffff,
        decreases hi - i,
    {
        proof {
            assert(ds[i - lo] == v@[i as int]);
            assert(is_digit(ds[i - lo]));
        }
        let u = v[i] as u32;
        let d = (u - 48) as u64;
        let acc2 = acc * 10 + d;
        proof {
            let pre = ds.take(i as int - lo as int);
            let pre1 = ds.take(i as int - lo as int + 1);
            assert(pre1.drop_last() =~= pre);
            assert(pre1[pre1.len() - 1] == ds[i - lo]);
            assert(digits_val(pre1) == acc2);
        }
        if acc2 > 0x7fff_ffff {
            proof {
                lemma_digits_val_prefix(ds, i as int - lo as int + 1);
            }
            return None;
        }
        acc = acc2;
        i = i + 1;
    }
    proof {
        assert(ds.take(hi as int - lo as int) =~= ds);
    }
    Some(acc as i32)
}

/// Parse the trimmed line `v[lo..hi]` as a unit line, building the key and
/// value strings out of `content` (whose characters are `v`).
pub fn parse_unit_range(content: &str, v: &Vec<char>, lo: usize, hi: usize) -> (r: Option<
    LocalizationUnit,
>)
    requires
        v@ == content@,
        lo <= hi <= v@.len(),
    ensures
        match r {
            Some(u) => parse_unit_spec(v@.subrange(lo as int, hi as int)) == Some(u@),
            None => parse_unit_spec(v@.subrange(lo as int, hi as int)) is None,
        },
{
    let ghost t = v@.subrange(lo as int, hi as int);
    if hi == lo || v[hi - 1] != '"' {
        proof {
            if hi > lo {
                assert(t[t.len() - 1] == v@[hi - 1]);
            }
        }
        return None;
    }
    proof {
        assert(t[t.len() - 1] == v@[hi - 1]);
    }
    let q = match find_in_range(v, lo, hi, '"') {
        Some(q) => q,
        None => {
            return None;
        },
    };
    if q + 1 >= hi {
        return None;
    }
    // Trim the whitespace that must separate the key/version part from the
    // opening quote.
    let mut m_hi = q;
    while m_hi > lo && space_char(v[m_hi - 1])
        invariant
            lo <= m_hi <= q,
            q < v@.len(),
            forall|k: int| m_hi <= k < q ==> is_space(v@[k]),
        decreases m_hi,
    {
        m_hi = m_hi - 1;
    }
    let ghost head = t.subrange(0, q - lo);
    proof {
        assert(head =~= v@.subrange(lo as int, q as int));
        assert forall|k: int| m_hi - lo <= k < head.len() implies is_space(head[k]) by {
            assert(head[k] == v@[lo + k]);
        }
        if m_hi > lo {
            assert(head[m_hi - lo - 1] == v@[m_hi - 1]);
        }
        crate::text::lemma_trim_back_take(head, m_hi as int - lo as int);
        assert(head.take(m_hi as int - lo as int) =~= v@.subrange(lo as int, m_hi as int));
    }
    if m_hi >= q {
        return None;
    }
    let ghost m = trim_back(head);
    let d = digits_span(v, lo, m_hi);
    proof {
        assert(m == v@.subrange(lo as int, m_hi as int));
        assert(digits_start(m) == d - lo);
    }
    if d == lo || v[d - 1] != ':' {
        proof {
            let before = m.subrange(0, d - lo);
            if d > lo {
                assert(before[before.len() - 1] == v@[d - 1]);
            }
        }
        return None;
    }
    let ghost before = m.subrange(0, d - lo);
    proof {
        assert(before[before.len() - 1] == v@[d - 1]);
    }
    let version: Option<i32> = if d == m_hi {
        proof {
            assert(m.subrange(d - lo, m.len() as int).len() == 0);
        }
        None
    } else {
        match parse_version(v, d, m_hi) {
            Some(x) => {
                proof {
                    assert(m.subrange(d - lo, m.len() as int) =~= v@.subrange(
                        d as int,
                        m_hi as int,
                    ));
                }
                Some(x)
            },
            None => {
                proof {
                    assert(m.subrange(d - lo, m.len() as int) =~= v@.subrange(
                        d as int,
                        m_hi as int,
                    ));
                }
                return None;
            },
        }
    };
    let key = String::from_str(content.substring_char(lo, d - 1));
    let value = String::from_str(content.substring_char(q + 1, hi - 1));
    let u = LocalizationUnit { key, version, value };
    proof {
        assert(before.subrange(0, before.len() - 1) =~= v@.subrange(lo as int, d as int - 1));
        assert(t.subrange(q - lo + 1, t.len() - 1) =~= v@.subrange(q as int + 1, hi as int - 1));
        if d != m_hi {
            assert(m.subrange(d - lo, m.len() as int) =~= v@.subrange(d as int, m_hi as int));
        }
    }
    Some(u)
}

} // verus!
