//! Executable character-level helpers, each proved against the spec
//! functions of [`crate::model`]: reading a string into characters,
//! splitting into lines, trimming, and comparing ranges.

use vstd::prelude::*;
use vstd::string::StrSliceExecFns;

use crate::model::is_space;
use crate::model::split_lines;
use crate::model::split_lines_from;
use crate::model::strip_cr;
use crate::model::trim_back;
use crate::model::trim_front;
use crate::model::trim_spec;

verus! {

/// Executable twin of [`is_space`].
pub fn space_char(c: char) -> (r: bool)
    ensures
        r == is_space(c),
{
    c == ' ' || c == '\t' || c == '\n' || c == '\r' || c == '\u{000b}' || c == '\u{000c}'
}

/// The characters of a string as a vector, for constant-time indexing.
pub fn chars_vec(s: &str) -> (r: Vec<char>)
    ensures
        r@ == s@,
{
    let n = s.unicode_len();
    let mut r: Vec<char> = Vec::new();
    let mut i: usize = 0;
    while i < n
        invariant
            n == s@.len(),
            i <= n,
            r@ == s@.take(i as int),
        decreases n - i,
    {
        let c = s.get_char(i);
        r.push(c);
        proof {
            assert(s@.take((i + 1) as int) =~= s@.take(i as int).push(s@[i as int]));
        }
        i = i + 1;
    }
    proof {
        assert(s@.take(n as int) =~= s@);
    }
    r
}

/// If the first `j` characters of `s` are whitespace and the one at `j` (if
/// any) is not, trimming the front of `s` drops exactly those `j` characters.
pub(crate) proof fn lemma_trim_front_skip(s: Seq<char>, j: int)
    requires
        0 <= j <= s.len(),
        forall|k: int| 0 <= k < j ==> is_space(s[k]),
        j == s.len() || !is_space(s[j]),
    ensures
        trim_front(s) == s.skip(j),
    decreases j,
{
    if j == 0 {
        assert(s.skip(0) =~= s);
    } else {
        assert(is_space(s[0]));
        let s1 = s.drop_first();
        assert forall|k: int| 0 <= k < j - 1 implies is_space(s1[k]) by {
            assert(s1[k] == s[k + 1]);
        }
        lemma_trim_front_skip(s1, j - 1);
        assert(s1.skip(j - 1) =~= s.skip(j));
    }
}

/// If the characters of `s` from `j` on are whitespace and the one before `j`
/// (if any) is not, trimming the back of `s` keeps exactly the first `j`.
pub(crate) proof fn lemma_trim_back_take(s: Seq<char>, j: int)
    requires
        0 <= j <= s.len(),
        forall|k: int| j <= k < s.len() ==> is_space(s[k]),
        j == 0 || !is_space(s[j - 1]),
    ensures
        trim_back(s) == s.take(j),
    decreases s.len() - j,
{
    if j == s.len() {
        assert(s.take(j) =~= s);
    } else {
        assert(is_space(s[s.len() - 1]));
        let s1 = s.drop_last();
        lemma_trim_back_take(s1, j);
        assert(s1.take(j) =~= s.take(j));
    }
}

/// The trimmed span inside `v[lo..hi]`: returns `(a, b)` with
/// `lo <= a <= b <= hi` such that `v[a..b]` is the trimmed line.
pub fn trim_range(v: &Vec<char>, lo: usize, hi: usize) -> (r: (usize, usize))
    requires
        lo <= hi <= v@.len(),
    ensures
        lo <= r.0 <= r.1 <= hi,
        v@.subrange(r.0 as int, r.1 as int) == trim_spec(v@.subrange(lo as int, hi as int)),
{
    let mut a = lo;
    while a < hi && space_char(v[a])
        invariant
            lo <= a <= hi <= v@.len(),
            forall|k: int| lo <= k < a ==> is_space(v@[k]),
        decreases hi - a,
    {
        a = a + 1;
    }
    let mut b = hi;
    while b > a && space_char(v[b - 1])
        invariant
            a <= b <= hi <= v@.len(),
            forall|k: int| b <= k < hi ==> is_space(v@[k]),
        decreases b,
    {
        b = b - 1;
    }
    proof {
        let s = v@.subrange(lo as int, hi as int);
        assert forall|k: int| 0 <= k < a - lo implies is_space(s[k]) by {
            assert(s[k] == v@[lo + k]);
        }
        lemma_trim_front_skip(s, a as int - lo as int);
        let s1 = s.skip(a as int - lo as int);
        assert(s1 =~= v@.subrange(a as int, hi as int));
        assert forall|k: int| b - a <= k < s1.len() implies is_space(s1[k]) by {
            assert(s1[k] == v@[a + k]);
        }
        lemma_trim_back_take(s1, b as int - a as int);
        assert(s1.take(b as int - a as int) =~= v@.subrange(a as int, b as int));
    }
    (a, b)
}

/// Whether two ranges of `v` hold the same characters.
pub fn range_eq(v: &Vec<char>, a_lo: usize, a_hi: usize, b_lo: usize, b_hi: usize) -> (r: bool)
    requires
        a_lo <= a_hi <= v@.len(),
        b_lo <= b_hi <= v@.len(),
    ensures
        r == (v@.subrange(a_lo as int, a_hi as int) == v@.subrange(b_lo as int, b_hi as int)),
{
    let ghost sa = v@.subrange(a_lo as int, a_hi as int);
    let ghost sb = v@.subrange(b_lo as int, b_hi as int);
    let n = a_hi - a_lo;
    if b_hi - b_lo != n {
        proof {
            assert(sa.len() == a_hi - a_lo);
            assert(sb.len() == b_hi - b_lo);
        }
        return false;
    }
    let mut i: usize = 0;
    while i < n
        invariant
            i <= n,
            n == a_hi - a_lo,
            n == b_hi - b_lo,
            a_lo <= a_hi <= v@.len(),
            b_lo <= b_hi <= v@.len(),
            sa == v@.subrange(a_lo as int, a_hi as int),
            sb == v@.subrange(b_lo as int, b_hi as int),
            forall|k: int| 0 <= k < i ==> sa[k] == sb[k],
        decreases n - i,
    {
        if v[a_lo + i] != v[b_lo + i] {
            proof {
                assert(sa[i as int] != sb[i as int]);
            }
            return false;
        }
        i = i + 1;
    }
    proof {
        assert(sa =~= sb);
    }
    true
}

/// The lines of `rs` read as character ranges of `v`.
pub open spec fn ranges_lines(rs: Seq<(usize, usize)>, v: Seq<char>) -> Seq<Seq<char>> {
    rs.map_values(|p: (usize, usize)| v.subrange(p.0 as int, p.1 as int))
}

/// The line boundaries of `v`: one `(start, end)` range per line of
/// [`split_lines`], in order.
pub fn line_ranges(v: &Vec<char>) -> (r: Vec<(usize, usize)>)
    ensures
        ranges_lines(r@, v@) == split_lines(v@),
        forall|k: int|
            0 <= k < r@.len() ==> (#[trigger] r@[k]).0 <= r@[k].1 <= v@.len(),
{
    let n = v.len();
    let mut r: Vec<(usize, usize)> = Vec::new();
    let mut start: usize = 0;
    let mut i: usize = 0;
    proof {
        assert(v@.skip(0) =~= v@);
        assert(v@.subrange(0, 0) =~= Seq::<char>::empty());
        assert(ranges_lines(r@, v@) + split_lines_from(v@, Seq::empty()) =~= split_lines_from(
            v@,
            Seq::empty(),
        ));
    }
    while i < n
        invariant
            start <= i <= n,
            n == v@.len(),
            forall|k: int| 0 <= k < r@.len() ==> (#[trigger] r@[k]).0 <= r@[k].1 <= n,
            split_lines(v@) == ranges_lines(r@, v@) + split_lines_from(
                v@.skip(i as int),
                v@.subrange(start as int, i as int),
            ),
        decreases n - i,
    {
        let ghost cur = v@.subrange(start as int, i as int);
        let ghost rest = v@.skip(i as int);
        if v[i] == '\n' {
            let end = if i > start && v[i - 1] == '\r' {
                i - 1
            } else {
                i
            };
            proof {
                assert(rest[0] == '\n');
                assert(rest.drop_first() =~= v@.skip((i + 1) as int));
                assert(strip_cr(cur) =~= v@.subrange(start as int, end as int));
                assert(split_lines_from(rest, cur) == seq![strip_cr(cur)] + split_lines_from(
                    v@.skip((i + 1) as int),
                    Seq::empty(),
                ));
            }
            r.push((start, end));
            proof {
                assert(ranges_lines(r@, v@) =~= ranges_lines(r@.drop_last(), v@).push(
                    v@.subrange(start as int, end as int),
                ));
                assert(v@.subrange((i + 1) as int, (i + 1) as int) =~= Seq::<char>::empty());
                assert(ranges_lines(r@.drop_last(), v@).push(v@.subrange(start as int, end as int))
                    + split_lines_from(v@.skip((i + 1) as int), Seq::empty())
                    =~= ranges_lines(r@.drop_last(), v@) + (seq![
                    v@.subrange(start as int, end as int),
                ] + split_lines_from(v@.skip((i + 1) as int), Seq::empty())));
            }
            start = i + 1;
        } else {
            proof {
                assert(rest[0] == v@[i as int]);
                assert(rest[0] != '\n');
                assert(rest.drop_first() =~= v@.skip((i + 1) as int));
                assert(cur.push(v@[i as int]) =~= v@.subrange(start as int, (i + 1) as int));
                assert(split_lines_from(rest, cur) == split_lines_from(
                    v@.skip((i + 1) as int),
                    v@.subrange(start as int, (i + 1) as int),
                ));
            }
        }
        i = i + 1;
    }
    proof {
        assert(v@.skip(n as int) =~= Seq::<char>::empty());
    }
    if start < n {
        let ghost cur = v@.subrange(start as int, n as int);
        proof {
            assert(cur.len() > 0);
            assert(split_lines_from(Seq::empty(), cur) == seq![cur]);
        }
        r.push((start, n));
        proof {
            assert(ranges_lines(r@, v@) =~= ranges_lines(r@.drop_last(), v@) + seq![cur]);
        }
    } else {
        proof {
            let ghost cur = v@.subrange(start as int, n as int);
            assert(cur.len() == 0);
            assert(split_lines_from(Seq::empty(), cur) =~= Seq::<Seq<char>>::empty());
            assert(ranges_lines(r@, v@) + Seq::<Seq<char>>::empty() =~= ranges_lines(r@, v@));
        }
    }
    r
}

} // verus!
