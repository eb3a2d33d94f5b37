//! Pointing the user at the right part of the manual.

use vstd::prelude::*;

verus! {

/// Whether a character counts as whitespace: the characters with the
/// Unicode `White_Space` property.
pub open spec fn spec_is_whitespace(c: char) -> bool {
    c == ' ' || c == '\t' || c == '\n' || c == '\u{b}' || c == '\u{c}' || c == '\r'
        || c == '\u{85}' || c == '\u{a0}' || c == '\u{1680}' || ('\u{2000}' <= c && c <= '\u{200a}')
        || c == '\u{2028}' || c == '\u{2029}' || c == '\u{202f}' || c == '\u{205f}'
        || c == '\u{3000}'
}

/// Exec counterpart of `spec_is_whitespace`.
pub fn is_whitespace_char(c: char) -> (r: bool)
    ensures
        r == spec_is_whitespace(c),
{
    c == ' ' || c == '\t' || c == '\n' || c == '\u{b}' || c == '\u{c}' || c == '\r'
        || c == '\u{85}' || c == '\u{a0}' || c == '\u{1680}' || ('\u{2000}' <= c && c <= '\u{200a}')
        || c == '\u{2028}' || c == '\u{2029}' || c == '\u{202f}' || c == '\u{205f}'
        || c == '\u{3000}'
}

/// The view of `get_manpage_cmd(section)`: the section is quoted exactly
/// when it holds whitespace.
pub open spec fn spec_manpage_cmd(section: Seq<char>) -> Seq<char> {
    let quoted = if exists|i: int| 0 <= i < section.len() && spec_is_whitespace(section[i]) {
        "\""@ + section + "\""@
    } else {
        section
    };
    "man -P 'less -p "@ + quoted + "$' skeld"@
}

/// The shell command that opens the launcher's manual at `section`.
pub fn get_manpage_cmd(section: &str) -> (r: String)
    ensures
        r@ == spec_manpage_cmd(section@),
{
    let chars = crate::strutil::str_to_chars(section);
    let n = chars.len();
    let mut has_ws = false;
    let mut i: usize = 0;
    while i < n
        invariant
            i <= n,
            n == chars@.len(),
            chars@ == section@,
            has_ws == exists|j: int| 0 <= j < i && spec_is_whitespace(section@[j]),
        decreases n - i,
    {
        if is_whitespace_char(chars[i]) {
            has_ws = true;
        }
        i = i + 1;
    }
    let mut r = String::from_str("man -P 'less -p ");
    if has_ws {
        r.append("\"");
        r.append(section);
        r.append("\"");
    }
    else {
        r.append(section);
    }
    r.append("$' skeld");
    r
}

} // verus!
