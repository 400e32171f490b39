//! A verified parser for line-oriented game localisation text.
//!
//! The input is a single text blob.  Lines starting with the literal prefix
//! `l_` open a language group; the lines that follow, up to the next header,
//! belong to that group.  Inside a group, blank lines and lines starting with
//! `#` (after trimming) are skipped, and every other line must match the unit
//! grammar `<key>:<version>? <whitespace>+ "<value>"`.  The first line that
//! does not match fails the whole parse with the offending line and its
//! position.
//!
//! The contract of [`Localization::parse`] states that the returned value is
//! exactly [`model::parse_spec`] of the input, a purely mathematical
//! description of the format found in [`model`].

use vstd::prelude::*;

pub mod laws;
pub mod model;
mod text;
mod unit;

use vstd::string::StrSliceExecFns;
use vstd::string::StringExecFns;

use crate::model::ErrView;
use crate::model::GroupView;
use crate::model::UnitView;
use crate::model::find_lang;
use crate::model::header_lang;
use crate::model::is_header;
use crate::model::is_skip;
use crate::model::parse_spec;
use crate::model::scan_from;
use crate::model::split_lines;
use crate::model::trim_spec;
use crate::text::ranges_lines;

verus! {

/// One localisation entry: a key, an optional non-negative version and the
/// quoted value text.
#[derive(Debug, PartialEq)]
pub struct LocalizationUnit {
    pub key: String,
    pub version: Option<i32>,
    pub value: String,
}

/// All units of one language, in the order their lines appear in the source.
#[derive(Debug, PartialEq)]
pub struct Localization {
    pub lang: String,
    pub units: Vec<LocalizationUnit>,
}

/// A failed parse: the language group being filled, the raw offending line
/// and its 1-based line number in the input.
#[derive(Debug, PartialEq)]
pub struct ParseError {
    pub lang: String,
    pub line: String,
    pub line_number: usize,
}

impl View for LocalizationUnit {
    type V = UnitView;

    open spec fn view(&self) -> UnitView {
        UnitView { key: self.key@, version: self.version, value: self.value@ }
    }
}

impl View for Localization {
    type V = GroupView;

    open spec fn view(&self) -> GroupView {
        GroupView {
            lang: self.lang@,
            units: self.units@.map_values(|u: LocalizationUnit| u@),
        }
    }
}

impl View for ParseError {
    type V = ErrView;

    open spec fn view(&self) -> ErrView {
        ErrView { lang: self.lang@, line: self.line@, line_number: self.line_number as int }
    }
}

/// The groups a vector of localizations stands for.
pub open spec fn locs_view(v: Seq<Localization>) -> Seq<GroupView> {
    v.map_values(|l: Localization| l@)
}

/// What [`find_lang`] returns: the first group with that language, or -1.
pub(crate) proof fn lemma_find_lang(gs: Seq<GroupView>, lang: Seq<char>)
    ensures
        find_lang(gs, lang) == -1 ==> forall|k: int| 0 <= k < gs.len() ==> gs[k].lang != lang,
        find_lang(gs, lang) != -1 ==> 0 <= find_lang(gs, lang) < gs.len() && gs[find_lang(
            gs,
            lang,
        )].lang == lang && (forall|k: int| 0 <= k < find_lang(gs, lang) ==> gs[k].lang != lang),
    decreases gs.len(),
{
    if gs.len() == 0 {
    } else if gs[0].lang == lang {
    } else {
        let gs1 = gs.drop_first();
        lemma_find_lang(gs1, lang);
        assert forall|k: int| 1 <= k < gs.len() implies gs[k] == gs1[k - 1] by {}
    }
}

/// The first group with the language determines [`find_lang`].
pub(crate) proof fn lemma_find_lang_at(gs: Seq<GroupView>, lang: Seq<char>, j: int)
    requires
        0 <= j < gs.len(),
        gs[j].lang == lang,
        forall|k: int| 0 <= k < j ==> gs[k].lang != lang,
    ensures
        find_lang(gs, lang) == j,
{
    lemma_find_lang(gs, lang);
    let f = find_lang(gs, lang);
    if f == -1 {
        assert(gs[j].lang != lang);
    } else {
        if f < j {
            assert(gs[f].lang != lang);
        }
        if f > j {
            assert(gs[j].lang != lang);
        }
    }
}

/// A language held by no group makes [`find_lang`] return -1.
pub(crate) proof fn lemma_find_lang_none(gs: Seq<GroupView>, lang: Seq<char>)
    requires
        forall|k: int| 0 <= k < gs.len() ==> gs[k].lang != lang,
    ensures
        find_lang(gs, lang) == -1,
{
    lemma_find_lang(gs, lang);
    let f = find_lang(gs, lang);
    if f != -1 {
        assert(gs[f].lang != lang);
    }
}

/// Append one unit to the group at index `j`, leaving everything else as is.
fn push_unit(locs: &mut Vec<Localization>, j: usize, u: LocalizationUnit)
    requires
        j < old(locs)@.len(),
    ensures
        final(locs)@.len() == old(locs)@.len(),
        forall|k: int| 0 <= k < final(locs)@.len() && k != j ==> final(locs)@[k] == old(locs)@[k],
        final(locs)@[j as int].lang == old(locs)@[j as int].lang,
        final(locs)@[j as int].units@ == old(locs)@[j as int].units@.push(u),
{
    let loc = &mut locs[j];
    loc.units.push(u);
}

impl Localization {
    /// Parse a whole localisation text into one `Localization` per language,
    /// in order of first appearance of each language's header line.
    ///
    /// The result is exactly what [`parse_spec`] describes: lines before the
    /// first header are discarded, blank and comment lines are skipped, a
    /// repeated language header appends to the existing group, and the first
    /// line inside a group that fails the unit grammar fails the whole parse
    /// with that line and its 1-based position.
    pub fn parse(content: &str) -> (r: Result<Vec<Localization>, ParseError>)
        ensures
            match r {
                Ok(v) => parse_spec(content@) == Ok::<Seq<GroupView>, ErrView>(locs_view(v@)),
                Err(e) => parse_spec(content@) == Err::<Seq<GroupView>, ErrView>(e@),
            },
    {
        let v = crate::text::chars_vec(content);
        let lines = crate::text::line_ranges(&v);
        let ghost ls = split_lines(content@);
        let mut locs: Vec<Localization> = Vec::new();
        let mut langs_r: Vec<(usize, usize)> = Vec::new();
        let mut cur: Option<usize> = None;
        let mut li: usize = 0;
        proof {
            assert(locs_view(locs@) =~= Seq::<GroupView>::empty());
        }
        while li < lines.len()
            invariant
                v@ == content@,
                ls == split_lines(content@),
                ranges_lines(lines@, v@) == ls,
                lines@.len() == ls.len(),
                li <= lines@.len(),
                forall|k: int|
                    0 <= k < lines@.len() ==> (#[trigger] lines@[k]).0 <= lines@[k].1 <= v@.len(),
                locs@.len() == langs_r@.len(),
                forall|k: int|
                    0 <= k < locs@.len() ==> (#[trigger] langs_r@[k]).0 <= langs_r@[k].1
                        <= v@.len() && v@.subrange(
                        langs_r@[k].0 as int,
                        langs_r@[k].1 as int,
                    ) == locs@[k].lang@,
                (match cur {
                    Some(j) => j < locs@.len(),
                    None => true,
                }),
                scan_from(
                    ls,
                    li as int,
                    locs_view(locs@),
                    (match cur {
                        Some(j) => j as int,
                        None => -1,
                    }),
                ) == parse_spec(content@),
            decreases lines@.len() - li,
        {
            let p = lines[li];
            let lo: usize = p.0;
            let hi: usize = p.1;
            let ghost line = ls[li as int];
            let ghost gs0 = locs_view(locs@);
            let ghost c0: int = match cur {
                Some(j) => j as int,
                None => -1,
            };
            proof {
                assert(ranges_lines(lines@, v@)[li as int] == v@.subrange(lo as int, hi as int));
            }
            let is_hdr = hi - lo >= 2 && v[lo] == 'l' && v[lo + 1] == '_';
            proof {
                if hi - lo >= 2 {
                    assert(line[0] == v@[lo as int]);
                    assert(line[1] == v@[lo as int + 1]);
                }
                assert(is_hdr == is_header(line));
            }
            if is_hdr {
                let lang_lo = lo + 2;
                let lang_hi = if hi > lang_lo && v[hi - 1] == ':' {
                    hi - 1
                } else {
                    hi
                };
                let ghost lang_seq = v@.subrange(lang_lo as int, lang_hi as int);
                proof {
                    let rest = line.skip(2);
                    assert(rest =~= v@.subrange(lang_lo as int, hi as int));
                    if rest.len() > 0 {
                        assert(rest[rest.len() - 1] == v@[hi as int - 1]);
                    }
                    assert(header_lang(line) =~= lang_seq);
                }
                let n_groups = locs.len();
                let mut j: usize = 0;
                while j < n_groups && !crate::text::range_eq(
                    &v,
                    langs_r[j].0,
                    langs_r[j].1,
                    lang_lo,
                    lang_hi,
                )
                    invariant
                        j <= n_groups,
                        n_groups == locs@.len(),
                        locs@.len() == langs_r@.len(),
                        lang_lo <= lang_hi <= v@.len(),
                        lang_seq == v@.subrange(lang_lo as int, lang_hi as int),
                        forall|k: int|
                            0 <= k < locs@.len() ==> (#[trigger] langs_r@[k]).0 <= langs_r@[k].1
                                <= v@.len() && v@.subrange(
                                langs_r@[k].0 as int,
                                langs_r@[k].1 as int,
                            ) == locs@[k].lang@,
                        forall|k: int| 0 <= k < j ==> locs@[k].lang@ != lang_seq,
                    decreases n_groups - j,
                {
                    j = j + 1;
                }
                proof {
                    assert forall|k: int| 0 <= k < gs0.len() implies gs0[k].lang == locs@[k].lang@
                        by {}
                }
                if j < n_groups {
                    proof {
                        lemma_find_lang_at(gs0, lang_seq, j as int);
                        assert(scan_from(ls, li as int, gs0, c0) == scan_from(
                            ls,
                            li as int + 1,
                            gs0,
                            j as int,
                        ));
                    }
                    cur = Some(j);
                } else {
                    let lang_string = String::from_str(content.substring_char(lang_lo, lang_hi));
                    proof {
                        lemma_find_lang_none(gs0, lang_seq);
                        assert(scan_from(ls, li as int, gs0, c0) == scan_from(
                            ls,
                            li as int + 1,
                            gs0.push(GroupView { lang: lang_seq, units: Seq::empty() }),
                            gs0.len() as int,
                        ));
                    }
                    locs.push(Localization { lang: lang_string, units: Vec::new() });
                    langs_r.push((lang_lo, lang_hi));
                    cur = Some(n_groups);
                    proof {
                        assert(Seq::<LocalizationUnit>::empty().map_values(
                            |u: LocalizationUnit| u@,
                        ) =~= Seq::<UnitView>::empty());
                        assert(locs_view(locs@) =~= gs0.push(
                            GroupView { lang: lang_seq, units: Seq::empty() },
                        ));
                    }
                }
            } else {
                match cur {
                    None => {
                        proof {
                            assert(scan_from(ls, li as int, gs0, c0) == scan_from(
                                ls,
                                li as int + 1,
                                gs0,
                                c0,
                            ));
                        }
                    },
                    Some(cj) => {
                        let t = crate::text::trim_range(&v, lo, hi);
                        let tlo: usize = t.0;
                        let thi: usize = t.1;
                        let ghost tr = trim_spec(line);
                        proof {
                            assert(tr == v@.subrange(tlo as int, thi as int));
                            if thi > tlo {
                                assert(tr[0] == v@[tlo as int]);
                            }
                        }
                        if thi == tlo || v[tlo] == '#' {
                            proof {
                                assert(is_skip(tr));
                                assert(scan_from(ls, li as int, gs0, c0) == scan_from(
                                    ls,
                                    li as int + 1,
                                    gs0,
                                    c0,
                                ));
                            }
                        } else {
                            proof {
                                assert(!is_skip(tr));
                            }
                            match crate::unit::parse_unit_range(content, &v, tlo, thi) {
                                Some(u) => {
                                    let ghost gnew = GroupView {
                                        lang: gs0[cj as int].lang,
                                        units: gs0[cj as int].units.push(u@),
                                    };
                                    proof {
                                        assert(scan_from(ls, li as int, gs0, c0) == scan_from(
                                            ls,
                                            li as int + 1,
                                            gs0.update(cj as int, gnew),
                                            c0,
                                        ));
                                    }
                                    push_unit(&mut locs, cj, u);
                                    proof {
                                        assert forall|k: int|
                                            0 <= k < locs@.len() implies locs_view(locs@)[k]
                                            == gs0.update(cj as int, gnew)[k] by {
                                            if k == cj as int {
                                                assert(locs@[k].units@.map_values(
                                                    |x: LocalizationUnit| x@,
                                                ) =~= gs0[k].units.push(u@));
                                            }
                                        }
                                        assert(locs_view(locs@) =~= gs0.update(cj as int, gnew));
                                    }
                                },
                                None => {
                                    let lp = langs_r[cj];
                                    let e = ParseError {
                                        lang: String::from_str(
                                            content.substring_char(lp.0, lp.1),
                                        ),
                                        line: String::from_str(content.substring_char(lo, hi)),
                                        line_number: li + 1,
                                    };
                                    proof {
                                        assert(scan_from(ls, li as int, gs0, c0) == Err::<
                                            Seq<GroupView>,
                                            ErrView,
                                        >(
                                            ErrView {
                                                lang: gs0[cj as int].lang,
                                                line: line,
                                                line_number: li as int + 1,
                                            },
                                        ));
                                        assert(e@ == ErrView {
                                            lang: gs0[cj as int].lang,
                                            line: line,
                                            line_number: li as int + 1,
                                        });
                                    }
                                    return Err(e);
                                },
                            }
                        }
                    },
                }
            }
            li = li + 1;
        }
        proof {
            assert(scan_from(
                ls,
                li as int,
                locs_view(locs@),
                (match cur {
                    Some(j) => j as int,
                    None => -1,
                }),
            ) == Ok::<Seq<GroupView>, ErrView>(locs_view(locs@)));
        }
        Ok(locs)
    }
}

} // verus!
