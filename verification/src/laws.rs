//! General properties of the parser, stated and proved once for all inputs:
//! the unit-line round trip, completeness and order of the grouping, the
//! distinctness of languages, header recognition by the line-start prefix
//! alone, the behaviour of comment-only groups, and the absence of silent
//! skipping of malformed lines.

use vstd::arithmetic::div_mod::lemma_fundamental_div_mod;
use vstd::prelude::*;

use crate::model::GroupView;
use crate::model::UnitView;
use crate::model::digit_val;
use crate::model::digits_start;
use crate::model::digits_val;
use crate::model::find_char;
use crate::model::header_lang;
use crate::model::is_digit;
use crate::model::is_header;
use crate::model::is_skip;
use crate::model::is_space;
use crate::model::parse_spec;
use crate::model::parse_unit_spec;
use crate::model::scan_from;
use crate::model::split_lines;
use crate::model::trim_back;
use crate::model::trim_spec;

verus! {

/// The character of one decimal digit.
pub open spec fn char_of_digit(d: int) -> char {
    if d == 0 {
        '0'
    } else if d == 1 {
        '1'
    } else if d == 2 {
        '2'
    } else if d == 3 {
        '3'
    } else if d == 4 {
        '4'
    } else if d == 5 {
        '5'
    } else if d == 6 {
        '6'
    } else if d == 7 {
        '7'
    } else if d == 8 {
        '8'
    } else {
        '9'
    }
}

/// The decimal digits of a non-negative number, most significant first.
pub open spec fn dec_digits(n: int) -> Seq<char>
    decreases n,
{
    if n <= 9 {
        seq![char_of_digit(n)]
    } else {
        dec_digits(n / 10).push(char_of_digit(n % 10))
    }
}

/// The digits of the version field: empty when there is none.
pub open spec fn version_digits(v: Option<i32>) -> Seq<char> {
    match v {
        None => Seq::empty(),
        Some(x) => dec_digits(x as int),
    }
}

/// A unit re-serialized in the source form `key:version "value"`, with the
/// version digits omitted when the unit has no version.
pub open spec fn unit_line(u: UnitView) -> Seq<char> {
    u.key + seq![':'] + version_digits(u.version) + seq![' ', '"'] + u.value + seq!['"']
}

/// The decimal digits of `n` really spell `n`.
proof fn lemma_dec_digits(n: int)
    requires
        n >= 0,
    ensures
        dec_digits(n).len() >= 1,
        forall|k: int| 0 <= k < dec_digits(n).len() ==> is_digit(dec_digits(n)[k]),
        digits_val(dec_digits(n)) == n,
    decreases n,
{
    if n <= 9 {
        let s = seq![char_of_digit(n)];
        assert(is_digit(char_of_digit(n)));
        assert(s.drop_last() =~= Seq::<char>::empty());
        assert(digits_val(Seq::<char>::empty()) == 0);
        assert(s[s.len() - 1] == char_of_digit(n));
        assert(digits_val(s) == digits_val(s.drop_last()) * 10 + digit_val(s[s.len() - 1]));
        assert(digits_val(s) == digit_val(char_of_digit(n)));
        assert(digit_val(char_of_digit(n)) == n);
    } else {
        lemma_fundamental_div_mod(n, 10);
        let q = n / 10;
        let m = n % 10;
        assert(0 <= m < 10);
        assert(1 <= q < n);
        lemma_dec_digits(q);
        let s = dec_digits(n);
        let s0 = dec_digits(q);
        assert(s == s0.push(char_of_digit(m)));
        assert(s.drop_last() =~= s0);
        assert(s[s.len() - 1] == char_of_digit(m));
        assert(is_digit(char_of_digit(m)));
        assert(digit_val(char_of_digit(m)) == m);
        assert(digits_val(s) == digits_val(s0) * 10 + m);
        assert forall|k: int| 0 <= k < s.len() implies is_digit(s[k]) by {
            if k < s.len() - 1 {
                assert(s[k] == s0[k]);
            }
        }
    }
}

/// Digits are not whitespace, not quotes, and not colons.
proof fn lemma_digit_char_classes(c: char)
    requires
        is_digit(c),
    ensures
        !is_space(c),
        c != '"',
        c != ':',
{
    assert(' ' as u32 == 32);
    assert('\t' as u32 == 9);
    assert('\n' as u32 == 10);
    assert('\r' as u32 == 13);
    assert('\u{000b}' as u32 == 11);
    assert('\u{000c}' as u32 == 12);
    assert('"' as u32 == 34);
    assert(':' as u32 == 58);
}

/// Re-serializing a unit and parsing the line again yields the unit back,
/// for every unit whose key holds no double quote and whose version, if
/// present, is non-negative.
pub proof fn lemma_unit_round_trip(u: UnitView)
    requires
        forall|k: int| 0 <= k < u.key.len() ==> u.key[k] != '"',
        u.version matches Some(x) ==> x >= 0,
    ensures
        parse_unit_spec(unit_line(u)) == Some(u),
{
    let kn = u.key.len() as int;
    let dd = version_digits(u.version);
    let dn = dd.len() as int;
    let vn = u.value.len() as int;
    let s = unit_line(u);
    match u.version {
        Some(x) => lemma_dec_digits(x as int),
        None => (),
    }
    assert(forall|k: int| 0 <= k < dn ==> is_digit(dd[k]));
    assert(s.len() == kn + dn + vn + 4);
    assert forall|k: int| 0 <= k < kn implies s[k] == u.key[k] by {}
    assert(s[kn] == ':');
    assert forall|k: int| 0 <= k < dn implies s[kn + 1 + k] == dd[k] by {}
    assert(s[kn + 1 + dn] == ' ');
    assert(s[kn + dn + 2] == '"');
    assert forall|k: int| 0 <= k < vn implies s[kn + dn + 3 + k] == u.value[k] by {}
    assert(s[s.len() - 1] == '"');

    let q = kn + dn + 2;
    assert forall|k: int| 0 <= k < q implies s[k] != '"' by {
        if k < kn {
            assert(s[k] == u.key[k]);
        } else if k == kn {
            assert(s[k] == ':');
        } else if k < kn + 1 + dn {
            assert(s[k] == dd[k - kn - 1]);
            lemma_digit_char_classes(s[k]);
        } else {
            assert(s[k] == ' ');
        }
    }
    crate::unit::lemma_find_char_at(s, '"', q);
    assert(find_char(s, '"') == q);
    assert(q < s.len() - 1);

    assert(s.subrange(q + 1, s.len() - 1) =~= u.value);

    let head = s.subrange(0, q);
    let head2 = u.key + seq![':'] + dd;
    assert(head =~= head2.push(' '));
    assert(head.drop_last() =~= head2);
    if dn > 0 {
        assert(head2[head2.len() - 1] == dd[dn - 1]);
        lemma_digit_char_classes(head2[head2.len() - 1]);
        assert(!is_space(head2[head2.len() - 1]));
    } else {
        assert(head2[head2.len() - 1] == ':');
        assert(':' as u32 == 58);
        assert(!is_space(head2[head2.len() - 1]));
    }
    assert(trim_back(head) == trim_back(head2));
    crate::text::lemma_trim_back_take(head2, head2.len() as int);
    assert(head2.take(head2.len() as int) =~= head2);
    let m = trim_back(head);
    assert(m == head2);
    assert(m.len() < head.len());

    assert forall|k: int| kn + 1 <= k < m.len() implies is_digit(m[k]) by {
        assert(m[k] == dd[k - kn - 1]);
    }
    assert(m[kn] == ':');
    assert(!is_digit(':')) by {
        assert(':' as u32 == 58);
    }
    crate::unit::lemma_digits_start_at(m, kn + 1);
    assert(digits_start(m) == kn + 1);

    let before = m.subrange(0, kn + 1);
    assert(before[before.len() - 1] == ':');
    assert(before.subrange(0, before.len() - 1) =~= u.key);
    let ds = m.subrange(kn + 1, m.len() as int);
    assert(ds =~= dd);
    match u.version {
        None => {
            assert(ds.len() == 0);
            assert(parse_unit_spec(s) == Some(UnitView { key: u.key, version: None, value: u.value }));
        },
        Some(x) => {
            assert(digits_val(ds) == x as int);
            assert(digits_val(ds) <= i32::MAX);
            assert(parse_unit_spec(s) == Some(
                UnitView { key: u.key, version: Some(x), value: u.value },
            ));
        },
    }
}

/// A line is a header exactly when it begins with the two characters `l_`:
/// the prefix counts only at the start of the line, so `l_` occurring
/// anywhere else (in a key, in value text) never opens a group.
pub proof fn lemma_header_is_line_start_prefix(line: Seq<char>)
    ensures
        is_header(line) <==> (line.len() >= 2 && line.subrange(0, 2) =~= "l_"@),
{
    reveal_strlit("l_");
    if line.len() >= 2 {
        assert(line.subrange(0, 2).len() == 2);
        assert(line.subrange(0, 2)[0] == line[0]);
        assert(line.subrange(0, 2)[1] == line[1]);
        if is_header(line) {
            assert(line.subrange(0, 2) =~= "l_"@);
        }
    }
}

/// The units that the lines from `i` on contribute to the group of `lang`,
/// in source order.  `cur` is the language owning the current range, if any;
/// lines before the first header are owned by nobody.  The walk ends at the
/// first malformed line, where the parse itself fails.
pub open spec fn owned_units(
    lines: Seq<Seq<char>>,
    i: int,
    cur: Option<Seq<char>>,
    lang: Seq<char>,
) -> Seq<UnitView>
    decreases lines.len() - i,
{
    if i < 0 || i >= lines.len() {
        Seq::empty()
    } else {
        let line = lines[i];
        if is_header(line) {
            owned_units(lines, i + 1, Some(header_lang(line)), lang)
        } else if cur is None {
            owned_units(lines, i + 1, cur, lang)
        } else if is_skip(trim_spec(line)) {
            owned_units(lines, i + 1, cur, lang)
        } else {
            match parse_unit_spec(trim_spec(line)) {
                Some(u) => (if cur == Some(lang) {
                    seq![u]
                } else {
                    Seq::empty()
                }) + owned_units(lines, i + 1, cur, lang),
                None => Seq::empty(),
            }
        }
    }
}

/// The language owning the current line range: that of group `cur`, if any.
spec fn cur_lang(gs: Seq<GroupView>, cur: int) -> Option<Seq<char>> {
    if cur < 0 {
        None
    } else {
        Some(gs[cur].lang)
    }
}

/// The main induction behind the grouping laws: a successful pass extends
/// every present group by exactly the units its language owns from line `i`
/// on, adds only groups of fresh languages filled the same way, keeps all
/// languages distinct, and gives every header line a group.
proof fn lemma_scan_units(lines: Seq<Seq<char>>, i: int, gs: Seq<GroupView>, cur: int)
    requires
        0 <= i <= lines.len(),
        -1 <= cur < gs.len(),
        forall|a: int, b: int| 0 <= a < b < gs.len() ==> gs[a].lang != gs[b].lang,
        scan_from(lines, i, gs, cur) is Ok,
    ensures
        ({
            let gsf = scan_from(lines, i, gs, cur)->Ok_0;
            let c = cur_lang(gs, cur);
            &&& gs.len() <= gsf.len()
            &&& forall|j: int| 0 <= j < gs.len() ==> gsf[j].lang == gs[j].lang
            &&& forall|j: int|
                0 <= j < gs.len() ==> gsf[j].units == gs[j].units + owned_units(
                    lines,
                    i,
                    c,
                    gs[j].lang,
                )
            &&& forall|j: int|
                gs.len() <= j < gsf.len() ==> gsf[j].units == owned_units(
                    lines,
                    i,
                    c,
                    gsf[j].lang,
                )
            &&& forall|a: int, b: int| 0 <= a < b < gsf.len() ==> gsf[a].lang != gsf[b].lang
            &&& forall|k: int|
                i <= k < lines.len() && is_header(lines[k]) ==> exists|j: int|
                    0 <= j < gsf.len() && gsf[j].lang == header_lang(lines[k])
        }),
    decreases lines.len() - i,
{
    let gsf = scan_from(lines, i, gs, cur)->Ok_0;
    let c = cur_lang(gs, cur);
    if i == lines.len() {
        assert(gsf == gs);
        assert forall|j: int| 0 <= j < gs.len() implies gsf[j].units == gs[j].units + owned_units(
            lines,
            i,
            c,
            gs[j].lang,
        ) by {
            assert(owned_units(lines, i, c, gs[j].lang) =~= Seq::<UnitView>::empty());
            assert(gs[j].units + Seq::<UnitView>::empty() =~= gs[j].units);
        }
    } else {
        let line = lines[i];
        if is_header(line) {
            let lang = header_lang(line);
            crate::lemma_find_lang(gs, lang);
            let f = crate::model::find_lang(gs, lang);
            if f >= 0 {
                assert(scan_from(lines, i, gs, cur) == scan_from(lines, i + 1, gs, f));
                lemma_scan_units(lines, i + 1, gs, f);
                assert(cur_lang(gs, f) == Some(lang));
                assert forall|lg: Seq<char>| #[trigger]
                    owned_units(lines, i, c, lg) == owned_units(lines, i + 1, Some(lang), lg) by {}
                assert(0 <= f < gsf.len() && gsf[f].lang == lang);
            } else {
                let g_new = GroupView { lang: lang, units: Seq::empty() };
                let gs2 = gs.push(g_new);
                assert(scan_from(lines, i, gs, cur) == scan_from(
                    lines,
                    i + 1,
                    gs2,
                    gs.len() as int,
                ));
                assert forall|a: int, b: int|
                    0 <= a < b < gs2.len() implies gs2[a].lang != gs2[b].lang by {
                    if b == gs.len() {
                        assert(gs[a].lang != lang);
                    }
                }
                lemma_scan_units(lines, i + 1, gs2, gs.len() as int);
                assert(gs2[gs.len() as int].lang == lang);
                assert(cur_lang(gs2, gs.len() as int) == Some(lang));
                assert forall|lg: Seq<char>| #[trigger]
                    owned_units(lines, i, c, lg) == owned_units(lines, i + 1, Some(lang), lg) by {}
                assert forall|j: int|
                    0 <= j < gs.len() implies gsf[j].units == gs[j].units + owned_units(
                    lines,
                    i,
                    c,
                    gs[j].lang,
                ) by {
                    assert(gs2[j] == gs[j]);
                }
                assert forall|j: int|
                    gs.len() <= j < gsf.len() implies gsf[j].units == owned_units(
                    lines,
                    i,
                    c,
                    gsf[j].lang,
                ) by {
                    if j == gs.len() {
                        assert(gsf[j].units == gs2[j].units + owned_units(
                            lines,
                            i + 1,
                            Some(lang),
                            gs2[j].lang,
                        ));
                        assert(Seq::<UnitView>::empty() + owned_units(
                            lines,
                            i + 1,
                            Some(lang),
                            lang,
                        ) =~= owned_units(lines, i + 1, Some(lang), lang));
                        assert(gsf[j].lang == lang);
                    }
                }
                assert(0 <= gs.len() < gsf.len() && gsf[gs.len() as int].lang == lang);
            }
        } else if cur < 0 {
            assert(scan_from(lines, i, gs, cur) == scan_from(lines, i + 1, gs, cur));
            lemma_scan_units(lines, i + 1, gs, cur);
            assert forall|lg: Seq<char>| #[trigger]
                owned_units(lines, i, c, lg) == owned_units(lines, i + 1, c, lg) by {}
        } else {
            let t = trim_spec(line);
            if is_skip(t) {
                assert(scan_from(lines, i, gs, cur) == scan_from(lines, i + 1, gs, cur));
                lemma_scan_units(lines, i + 1, gs, cur);
                assert forall|lg: Seq<char>| #[trigger]
                    owned_units(lines, i, c, lg) == owned_units(lines, i + 1, c, lg) by {}
            } else {
                match parse_unit_spec(t) {
                    Some(u) => {
                        let g_new = GroupView {
                            lang: gs[cur].lang,
                            units: gs[cur].units.push(u),
                        };
                        let gs2 = gs.update(cur, g_new);
                        assert(scan_from(lines, i, gs, cur) == scan_from(lines, i + 1, gs2, cur));
                        assert forall|k: int| 0 <= k < gs2.len() implies gs2[k].lang == gs[k].lang
                            by {}
                        lemma_scan_units(lines, i + 1, gs2, cur);
                        assert(cur_lang(gs2, cur) == c);
                        assert forall|j: int|
                            0 <= j < gs.len() implies gsf[j].units == gs[j].units + owned_units(
                            lines,
                            i,
                            c,
                            gs[j].lang,
                        ) by {
                            if j == cur {
                                assert(gsf[j].units == gs[j].units.push(u) + owned_units(
                                    lines,
                                    i + 1,
                                    c,
                                    gs[j].lang,
                                ));
                                assert(gs[j].units.push(u) + owned_units(
                                    lines,
                                    i + 1,
                                    c,
                                    gs[j].lang,
                                ) =~= gs[j].units + (seq![u] + owned_units(
                                    lines,
                                    i + 1,
                                    c,
                                    gs[j].lang,
                                )));
                            } else {
                                if j < cur {
                                    assert(gs[j].lang != gs[cur].lang);
                                } else {
                                    assert(gs[cur].lang != gs[j].lang);
                                }
                                assert(c != Some(gs[j].lang));
                                assert(Seq::<UnitView>::empty() + owned_units(
                                    lines,
                                    i + 1,
                                    c,
                                    gs[j].lang,
                                ) =~= owned_units(lines, i + 1, c, gs[j].lang));
                            }
                        }
                        assert forall|j: int|
                            gs.len() <= j < gsf.len() implies gsf[j].units == owned_units(
                            lines,
                            i,
                            c,
                            gsf[j].lang,
                        ) by {
                            assert(gsf[cur].lang == gs[cur].lang);
                            assert(gsf[cur].lang != gsf[j].lang);
                            assert(c != Some(gsf[j].lang));
                            assert(Seq::<UnitView>::empty() + owned_units(
                                lines,
                                i + 1,
                                c,
                                gsf[j].lang,
                            ) =~= owned_units(lines, i + 1, c, gsf[j].lang));
                        }
                    },
                    None => {
                        assert(scan_from(lines, i, gs, cur) is Err);
                        assert(false);
                    },
                }
            }
        }
    }
}

/// Grouping completeness and order preservation: on a successful parse,
/// every group holds exactly the units that the lines owned by its language
/// produce, in source order (so no unit is lost, duplicated or reordered);
/// no two groups share a language; and every header line of the input has a
/// group for its language, even when no unit line follows it.
pub proof fn lemma_parse_groups(content: Seq<char>)
    requires
        parse_spec(content) is Ok,
    ensures
        ({
            let gs = parse_spec(content)->Ok_0;
            let lines = split_lines(content);
            &&& forall|j: int|
                0 <= j < gs.len() ==> gs[j].units == owned_units(
                    lines,
                    0,
                    None::<Seq<char>>,
                    gs[j].lang,
                )
            &&& forall|a: int, b: int| 0 <= a < b < gs.len() ==> gs[a].lang != gs[b].lang
            &&& forall|k: int|
                0 <= k < lines.len() && is_header(lines[k]) ==> exists|j: int|
                    0 <= j < gs.len() && gs[j].lang == header_lang(lines[k])
        }),
{
    lemma_scan_units(split_lines(content), 0, Seq::empty(), -1);
}

/// Behind [`lemma_parse_group_langs`]: a pass only ever adds groups for
/// languages named by header lines it has seen.
proof fn lemma_scan_group_langs(lines: Seq<Seq<char>>, i: int, gs: Seq<GroupView>, cur: int)
    requires
        0 <= i <= lines.len(),
        -1 <= cur < gs.len(),
        scan_from(lines, i, gs, cur) is Ok,
    ensures
        ({
            let gsf = scan_from(lines, i, gs, cur)->Ok_0;
            forall|j: int|
                0 <= j < gsf.len() ==> (exists|k: int|
                    0 <= k < gs.len() && gs[k].lang == #[trigger] gsf[j].lang) || (exists|k: int|
                    i <= k < lines.len() && is_header(lines[k]) && header_lang(lines[k])
                        == gsf[j].lang)
        }),
    decreases lines.len() - i,
{
    let gsf = scan_from(lines, i, gs, cur)->Ok_0;
    if i == lines.len() {
        assert forall|j: int| 0 <= j < gsf.len() implies (exists|k: int|
            0 <= k < gs.len() && gs[k].lang == #[trigger] gsf[j].lang) || (exists|k: int|
            i <= k < lines.len() && is_header(lines[k]) && header_lang(lines[k])
                == gsf[j].lang) by {
            assert(0 <= j < gs.len() && gs[j].lang == gsf[j].lang);
        }
    } else {
        let line = lines[i];
        let gs2: Seq<GroupView>;
        let cur2: int;
        if is_header(line) {
            let lang = header_lang(line);
            let f = crate::model::find_lang(gs, lang);
            crate::lemma_find_lang(gs, lang);
            if f >= 0 {
                gs2 = gs;
                cur2 = f;
            } else {
                gs2 = gs.push(GroupView { lang: lang, units: Seq::empty() });
                cur2 = gs.len() as int;
            }
        } else if cur < 0 {
            gs2 = gs;
            cur2 = cur;
        } else {
            let t = trim_spec(line);
            if is_skip(t) {
                gs2 = gs;
                cur2 = cur;
            } else {
                match parse_unit_spec(t) {
                    Some(u) => {
                        gs2 = gs.update(
                            cur,
                            GroupView { lang: gs[cur].lang, units: gs[cur].units.push(u) },
                        );
                        cur2 = cur;
                    },
                    None => {
                        assert(scan_from(lines, i, gs, cur) is Err);
                        assert(false);
                        gs2 = gs;
                        cur2 = cur;
                    },
                }
            }
        }
        assert(forall|k: int| 0 <= k < gs.len() ==> #[trigger] gs2[k].lang == gs[k].lang);
        assert(gs2.len() == gs.len() || (gs2.len() == gs.len() + 1 && is_header(lines[i])
            && gs2[gs.len() as int].lang == header_lang(lines[i])));
        assert(scan_from(lines, i, gs, cur) == scan_from(lines, i + 1, gs2, cur2));
        lemma_scan_group_langs(lines, i + 1, gs2, cur2);
        assert forall|j: int| 0 <= j < gsf.len() implies (exists|k: int|
            0 <= k < gs.len() && gs[k].lang == #[trigger] gsf[j].lang) || (exists|k: int|
            i <= k < lines.len() && is_header(lines[k]) && header_lang(lines[k])
                == gsf[j].lang) by {
            if exists|k: int| 0 <= k < gs2.len() && gs2[k].lang == gsf[j].lang {
                let k = choose|k: int| 0 <= k < gs2.len() && gs2[k].lang == gsf[j].lang;
                if k < gs.len() {
                    assert(gs[k].lang == gs2[k].lang);
                } else {
                    assert(gs2.len() > gs.len());
                    assert(k == gs.len());
                    assert(is_header(lines[i]) && header_lang(lines[i]) == gs2[k].lang);
                }
            } else {
                let k = choose|k: int|
                    i + 1 <= k < lines.len() && is_header(lines[k]) && header_lang(lines[k])
                        == gsf[j].lang;
                assert(i <= k < lines.len() && is_header(lines[k]) && header_lang(lines[k])
                    == gsf[j].lang);
            }
        }
    }
}

/// No group out of nowhere: on a successful parse, the language of the group
/// at any index `j` of the result is the language of some header line of the
/// input.
pub proof fn lemma_parse_group_langs(content: Seq<char>, j: int)
    requires
        parse_spec(content) is Ok,
        0 <= j < parse_spec(content)->Ok_0.len(),
    ensures
        exists|k: int|
            0 <= k < split_lines(content).len() && is_header(#[trigger] split_lines(content)[k])
                && header_lang(split_lines(content)[k]) == parse_spec(content)->Ok_0[j].lang,
{
    let lines = split_lines(content);
    let gs0: Seq<GroupView> = Seq::empty();
    lemma_scan_group_langs(lines, 0, gs0, -1);
    let r = scan_from(lines, 0, gs0, -1);
    assert(parse_spec(content) == r);
    let gsf = r->Ok_0;
    // A ground occurrence of the group's language, so that the conclusion of
    // the induction lemma applies at this index.
    let lg = gsf[j].lang;
    if exists|k: int| 0 <= k < gs0.len() && gs0[k].lang == gsf[j].lang {
        let k = choose|k: int| 0 <= k < gs0.len() && gs0[k].lang == gsf[j].lang;
        assert(false);
    }
    let k = choose|k: int|
        0 <= k < lines.len() && is_header(lines[k]) && header_lang(lines[k]) == gsf[j].lang;
    assert(0 <= k < split_lines(content).len() && is_header(split_lines(content)[k])
        && header_lang(split_lines(content)[k]) == parse_spec(content)->Ok_0[j].lang);
}

/// Behind [`lemma_parse_no_silent_skip`]: a successful pass from line `i`
/// leaves no owned, non-skipped line unparsed.
proof fn lemma_scan_ok_lines(lines: Seq<Seq<char>>, i: int, gs: Seq<GroupView>, cur: int)
    requires
        0 <= i <= lines.len(),
        scan_from(lines, i, gs, cur) is Ok,
    ensures
        forall|k: int|
            i <= k < lines.len() && !is_header(#[trigger] lines[k]) && !is_skip(
                trim_spec(lines[k]),
            ) && (cur >= 0 || exists|h: int| i <= h < k && is_header(lines[h]))
                ==> parse_unit_spec(trim_spec(lines[k])) is Some,
    decreases lines.len() - i,
{
    if i < lines.len() {
        let line = lines[i];
        if is_header(line) {
            let lang = header_lang(line);
            let f = crate::model::find_lang(gs, lang);
            if f >= 0 {
                lemma_scan_ok_lines(lines, i + 1, gs, f);
            } else {
                lemma_scan_ok_lines(
                    lines,
                    i + 1,
                    gs.push(GroupView { lang: lang, units: Seq::empty() }),
                    gs.len() as int,
                );
            }
            assert forall|k: int|
                i <= k < lines.len() && !is_header(#[trigger] lines[k]) && !is_skip(
                    trim_spec(lines[k]),
                ) && (cur >= 0 || exists|h: int| i <= h < k && is_header(lines[h]))
                    implies parse_unit_spec(trim_spec(lines[k])) is Some by {
                assert(k > i);
            }
        } else if cur < 0 {
            lemma_scan_ok_lines(lines, i + 1, gs, cur);
            assert forall|k: int|
                i <= k < lines.len() && !is_header(#[trigger] lines[k]) && !is_skip(
                    trim_spec(lines[k]),
                ) && (exists|h: int| i <= h < k && is_header(lines[h]))
                    implies parse_unit_spec(trim_spec(lines[k])) is Some by {
                let h = choose|h: int| i <= h < k && is_header(lines[h]);
                assert(h != i);
                assert(i + 1 <= h < k && is_header(lines[h]));
            }
        } else {
            let t = trim_spec(line);
            if is_skip(t) {
                lemma_scan_ok_lines(lines, i + 1, gs, cur);
            } else {
                match parse_unit_spec(t) {
                    Some(u) => {
                        lemma_scan_ok_lines(
                            lines,
                            i + 1,
                            gs.update(
                                cur,
                                GroupView {
                                    lang: gs[cur].lang,
                                    units: gs[cur].units.push(u),
                                },
                            ),
                            cur,
                        );
                    },
                    None => {
                        assert(scan_from(lines, i, gs, cur) is Err);
                        assert(false);
                    },
                }
            }
        }
    }
}

/// No silent skipping: when the parse succeeds, every line that some header
/// owns and that is neither blank nor a comment did match the unit grammar.
/// Together with the parse contract, which returns the error of the first
/// malformed line, a malformed owned line therefore always fails the call.
pub proof fn lemma_parse_no_silent_skip(content: Seq<char>)
    requires
        parse_spec(content) is Ok,
    ensures
        forall|k: int|
            0 <= k < split_lines(content).len() && !is_header(
                #[trigger] split_lines(content)[k],
            ) && !is_skip(trim_spec(split_lines(content)[k])) && (exists|h: int|
                0 <= h < k && is_header(split_lines(content)[h])) ==> parse_unit_spec(
                trim_spec(split_lines(content)[k]),
            ) is Some,
{
    lemma_scan_ok_lines(split_lines(content), 0, Seq::empty(), -1);
}

/// A text whose lines own no units makes [`owned_units`] empty.
proof fn lemma_owned_units_all_skip(
    lines: Seq<Seq<char>>,
    i: int,
    cur: Option<Seq<char>>,
    lang: Seq<char>,
)
    requires
        0 <= i <= lines.len(),
        forall|k: int|
            i <= k < lines.len() ==> is_header(#[trigger] lines[k]) || is_skip(
                trim_spec(lines[k]),
            ),
    ensures
        owned_units(lines, i, cur, lang) == Seq::<UnitView>::empty(),
    decreases lines.len() - i,
{
    if i < lines.len() {
        if is_header(lines[i]) {
            lemma_owned_units_all_skip(lines, i + 1, Some(header_lang(lines[i])), lang);
        } else {
            lemma_owned_units_all_skip(lines, i + 1, cur, lang);
        }
    }
}

/// A pass over header, comment and blank lines alone never fails.
proof fn lemma_scan_skip_ok(lines: Seq<Seq<char>>, i: int, gs: Seq<GroupView>, cur: int)
    requires
        0 <= i <= lines.len(),
        forall|k: int|
            i <= k < lines.len() ==> is_header(#[trigger] lines[k]) || is_skip(
                trim_spec(lines[k]),
            ),
    ensures
        scan_from(lines, i, gs, cur) is Ok,
    decreases lines.len() - i,
{
    if i < lines.len() {
        let line = lines[i];
        if is_header(line) {
            let lang = header_lang(line);
            let f = crate::model::find_lang(gs, lang);
            if f >= 0 {
                lemma_scan_skip_ok(lines, i + 1, gs, f);
            } else {
                lemma_scan_skip_ok(
                    lines,
                    i + 1,
                    gs.push(GroupView { lang: lang, units: Seq::empty() }),
                    gs.len() as int,
                );
            }
        } else {
            lemma_scan_skip_ok(lines, i + 1, gs, cur);
        }
    }
}

/// Comment and blank lines alone produce no units: a text made only of
/// header, comment and blank lines parses successfully, and every group of
/// the result has an empty unit list (while, by [`lemma_parse_groups`],
/// every header line still has its group).
pub proof fn lemma_comment_blank_groups(content: Seq<char>)
    requires
        forall|k: int|
            0 <= k < split_lines(content).len() ==> is_header(
                #[trigger] split_lines(content)[k],
            ) || is_skip(trim_spec(split_lines(content)[k])),
    ensures
        parse_spec(content) is Ok,
        forall|j: int|
            0 <= j < parse_spec(content)->Ok_0.len() ==> parse_spec(content)->Ok_0[j].units
                == Seq::<UnitView>::empty(),
{
    let lines = split_lines(content);
    lemma_scan_skip_ok(lines, 0, Seq::empty(), -1);
    lemma_parse_groups(content);
    let gs = parse_spec(content)->Ok_0;
    assert forall|j: int| 0 <= j < gs.len() implies gs[j].units == Seq::<UnitView>::empty() by {
        lemma_owned_units_all_skip(lines, 0, None::<Seq<char>>, gs[j].lang);
    }
}

} // verus!
