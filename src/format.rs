use vstd::prelude::*;

verus! {

broadcast use vstd::string::group_string_axioms;

/// Supported input formats.
#[derive(Debug, Clone, Copy, PartialEq, Eq, Structural)]
pub enum Format {
    Json,
    Csv,
    KeyValueConfig,
}

/// The characters with the Unicode `White_Space` property.
pub open spec fn is_white(c: char) -> bool {
    ('\u{9}' <= c && c <= '\u{d}') || c == ' ' || c == '\u{85}' || c == '\u{a0}' || c == '\u{1680}'
        || ('\u{2000}' <= c && c <= '\u{200a}') || c == '\u{2028}' || c == '\u{2029}' || c
        == '\u{202f}' || c == '\u{205f}' || c == '\u{3000}'
}

pub fn is_white_char(c: char) -> (r: bool)
    ensures
        r == is_white(c),
{
    ('\u{9}' <= c && c <= '\u{d}') || c == ' ' || c == '\u{85}' || c == '\u{a0}' || c == '\u{1680}'
        || ('\u{2000}' <= c && c <= '\u{200a}') || c == '\u{2028}' || c == '\u{2029}' || c
        == '\u{202f}' || c == '\u{205f}' || c == '\u{3000}'
}

/// The format of `s` judged from `i` on. Before the first visible character
/// (`in_line` false) white space, line breaks included, is skipped; a
/// visible `[` means JSON. From there to the end of that line (`in_line`
/// true) a comma means CSV. Anything else is a key-value config.
pub open spec fn format_from(s: Seq<char>, i: nat, in_line: bool) -> Format
    decreases s.len() - i,
{
    if i >= s.len() {
        Format::KeyValueConfig
    } else if !in_line {
        if is_white(s[i as int]) {
            format_from(s, i + 1, false)
        } else if s[i as int] == '[' {
            Format::Json
        } else if s[i as int] == ',' {
            Format::Csv
        } else {
            format_from(s, i + 1, true)
        }
    } else if s[i as int] == '\n' {
        Format::KeyValueConfig
    } else if s[i as int] == ',' {
        Format::Csv
    } else {
        format_from(s, i + 1, true)
    }
}

/// Detect the format of `content` from its first non-blank line: one that
/// starts with `[` is JSON, one that holds a comma is CSV, and otherwise the
/// content is a key-value config.
pub fn detect_format(content: &str) -> (r: Format)
    ensures
        r == format_from(content@, 0, false),
{
    let mut decided: Option<Format> = None;
    let mut in_line = false;
    for c in it: content.chars()
        invariant
            it.seq() == content@,
            decided is None ==> format_from(content@, 0, false) == format_from(
                content@,
                it.index() as nat,
                in_line,
            ),
            decided matches Some(f) ==> format_from(content@, 0, false) == f,
    {
        if decided.is_none() {
            if !in_line {
                if is_white_char(c) {
                } else if c == '[' {
                    decided = Some(Format::Json);
                } else if c == ',' {
                    decided = Some(Format::Csv);
                } else {
                    in_line = true;
                }
            } else if c == '\n' {
                decided = Some(Format::KeyValueConfig);
            } else if c == ',' {
                decided = Some(Format::Csv);
            }
        }
    }
    match decided {
        Some(f) => f,
        None => Format::KeyValueConfig,
    }
}

} // verus!
