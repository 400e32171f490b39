//! Mathematical model of the localisation text format.
//!
//! Everything here is specification-level: the line splitting, the unit-line
//! grammar and the grouping of lines under language headers are defined as
//! spec functions over sequences of characters.  The executable parser is
//! proved to return exactly what `parse_spec` describes.

use vstd::prelude::*;

verus! {

/// Model of one parsed unit line: a key, an optional version and a value.
pub ghost struct UnitView {
    pub key: Seq<char>,
    pub version: Option<i32>,
    pub value: Seq<char>,
}

/// Model of one language group: the language name (header text without the
/// `l_` prefix and without a trailing colon) and its units in source order.
pub ghost struct GroupView {
    pub lang: Seq<char>,
    pub units: Seq<UnitView>,
}

/// Model of a parse failure: the group being filled, the offending raw line
/// and its 1-based position in the line sequence.
pub ghost struct ErrView {
    pub lang: Seq<char>,
    pub line: Seq<char>,
    pub line_number: int,
}

/// The whitespace characters recognised when trimming a line and when
/// separating the key/version part from the quoted value.
pub open spec fn is_space(c: char) -> bool {
    c == ' ' || c == '\t' || c == '\n' || c == '\r' || c == '\u{000b}' || c == '\u{000c}'
}

/// Decimal digit.
pub open spec fn is_digit(c: char) -> bool {
    48 <= c as u32 && c as u32 <= 57
}

/// Numeric value of one decimal digit character.
pub open spec fn digit_val(c: char) -> int {
    c as u32 - 48
}

/// A sequence with its leading whitespace removed.
pub open spec fn trim_front(s: Seq<char>) -> Seq<char>
    decreases s.len(),
{
    if s.len() > 0 && is_space(s[0]) {
        trim_front(s.drop_first())
    } else {
        s
    }
}

/// A sequence with its trailing whitespace removed.
pub open spec fn trim_back(s: Seq<char>) -> Seq<char>
    decreases s.len(),
{
    if s.len() > 0 && is_space(s[s.len() - 1]) {
        trim_back(s.drop_last())
    } else {
        s
    }
}

/// A sequence with leading and trailing whitespace removed.
pub open spec fn trim_spec(s: Seq<char>) -> Seq<char> {
    trim_back(trim_front(s))
}

/// Index of the first occurrence of `c` in `s`, or -1 if there is none.
pub open spec fn find_char(s: Seq<char>, c: char) -> int
    decreases s.len(),
{
    if s.len() == 0 {
        -1
    } else if s[0] == c {
        0
    } else {
        let r = find_char(s.drop_first(), c);
        if r < 0 {
            -1
        } else {
            r + 1
        }
    }
}

/// Start of the maximal run of digits that ends `s`: the smallest index such
/// that everything from it to the end of `s` is a digit.
pub open spec fn digits_start(s: Seq<char>) -> int
    decreases s.len(),
{
    if s.len() > 0 && is_digit(s[s.len() - 1]) {
        digits_start(s.drop_last())
    } else {
        s.len() as int
    }
}

/// Value of a digit sequence read as a decimal number.
pub open spec fn digits_val(s: Seq<char>) -> int
    decreases s.len(),
{
    if s.len() == 0 {
        0
    } else {
        digits_val(s.drop_last()) * 10 + digit_val(s[s.len() - 1])
    }
}

/// The unit-line grammar, applied to an already trimmed line `t`:
/// `<key> ':' <digits>? <whitespace>+ '"' <value> '"'` where the value opens
/// at the first double quote of the line and closes at its final character.
/// `None` means the line is malformed.  A version whose digits exceed
/// `i32::MAX` does not fit the version field and also counts as malformed.
pub open spec fn parse_unit_spec(t: Seq<char>) -> Option<UnitView> {
    let q = find_char(t, '"');
    if t.len() == 0 || t[t.len() - 1] != '"' {
        None
    } else if q < 0 || q >= t.len() - 1 {
        None
    } else {
        let value = t.subrange(q + 1, t.len() - 1);
        let head = t.subrange(0, q);
        let m = trim_back(head);
        if m.len() >= head.len() {
            None
        } else {
            let d = digits_start(m);
            let before = m.subrange(0, d);
            if before.len() == 0 || before[before.len() - 1] != ':' {
                None
            } else {
                let key = before.subrange(0, before.len() - 1);
                let ds = m.subrange(d, m.len() as int);
                if ds.len() == 0 {
                    Some(UnitView { key, version: None, value })
                } else if digits_val(ds) <= i32::MAX {
                    Some(UnitView { key, version: Some(digits_val(ds) as i32), value })
                } else {
                    None
                }
            }
        }
    }
}

/// A trimmed line that produces no unit: blank, or a comment.
pub open spec fn is_skip(t: Seq<char>) -> bool {
    t.len() == 0 || t[0] == '#'
}

/// A header line starts with the literal prefix `l_`, with no leading
/// whitespace tolerated.
pub open spec fn is_header(line: Seq<char>) -> bool {
    line.len() >= 2 && line[0] == 'l' && line[1] == '_'
}

/// The language name of a header line: the text after the `l_` prefix, with
/// one conventional trailing colon removed if present.
pub open spec fn header_lang(line: Seq<char>) -> Seq<char> {
    let rest = line.skip(2);
    if rest.len() > 0 && rest[rest.len() - 1] == ':' {
        rest.drop_last()
    } else {
        rest
    }
}

/// One carriage return removed from the end of a line, as the split on
/// newlines does for `\r\n` endings.
pub open spec fn strip_cr(s: Seq<char>) -> Seq<char> {
    if s.len() > 0 && s[s.len() - 1] == '\r' {
        s.drop_last()
    } else {
        s
    }
}

/// Splitting into lines, one character at a time: `cur` is the part of the
/// current line read so far.  A final line without a newline is kept; a final
/// empty segment after a trailing newline is not.
pub open spec fn split_lines_from(s: Seq<char>, cur: Seq<char>) -> Seq<Seq<char>>
    decreases s.len(),
{
    if s.len() == 0 {
        if cur.len() == 0 {
            Seq::empty()
        } else {
            seq![cur]
        }
    } else if s[0] == '\n' {
        seq![strip_cr(cur)] + split_lines_from(s.drop_first(), Seq::empty())
    } else {
        split_lines_from(s.drop_first(), cur.push(s[0]))
    }
}

/// The line sequence of a text: split on `\n`, with a `\r` left by a `\r\n`
/// ending removed, and no final empty line after a trailing newline.
pub open spec fn split_lines(s: Seq<char>) -> Seq<Seq<char>> {
    split_lines_from(s, Seq::empty())
}

/// Index of the first group with the given language, or -1 if there is none.
pub open spec fn find_lang(gs: Seq<GroupView>, lang: Seq<char>) -> int
    decreases gs.len(),
{
    if gs.len() == 0 {
        -1
    } else if gs[0].lang == lang {
        0
    } else {
        let r = find_lang(gs.drop_first(), lang);
        if r < 0 {
            -1
        } else {
            r + 1
        }
    }
}

/// The grouping pass over the line sequence, from line `i` on.  `gs` holds the
/// groups built so far, in order of first appearance of their language; `cur`
/// is the index of the group owning the current lines, or -1 before the first
/// header.  A header line selects (or creates) the group of its language, so
/// a repeated language merges by appending.  Lines before the first header
/// are discarded; blank and comment lines are skipped; every other line must
/// match the unit grammar or the whole parse fails.
pub open spec fn scan_from(
    lines: Seq<Seq<char>>,
    i: int,
    gs: Seq<GroupView>,
    cur: int,
) -> Result<Seq<GroupView>, ErrView>
    decreases lines.len() - i,
{
    if i < 0 || i >= lines.len() {
        Ok(gs)
    } else {
        let line = lines[i];
        if is_header(line) {
            let lang = header_lang(line);
            let j = find_lang(gs, lang);
            if j >= 0 {
                scan_from(lines, i + 1, gs, j)
            } else {
                scan_from(
                    lines,
                    i + 1,
                    gs.push(GroupView { lang, units: Seq::empty() }),
                    gs.len() as int,
                )
            }
        } else if cur < 0 {
            scan_from(lines, i + 1, gs, cur)
        } else {
            let t = trim_spec(line);
            if is_skip(t) {
                scan_from(lines, i + 1, gs, cur)
            } else {
                match parse_unit_spec(t) {
                    Some(u) => scan_from(
                        lines,
                        i + 1,
                        gs.update(cur, GroupView { lang: gs[cur].lang, units: gs[cur].units.push(u) }),
                        cur,
                    ),
                    None => Err(ErrView { lang: gs[cur].lang, line: line, line_number: i + 1 }),
                }
            }
        }
    }
}

/// What parsing a whole text means: split it into lines and run the grouping
/// pass from an empty state.
pub open spec fn parse_spec(content: Seq<char>) -> Result<Seq<GroupView>, ErrView> {
    scan_from(split_lines(content), 0, Seq::empty(), -1)
}

} // verus!
