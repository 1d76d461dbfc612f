//! Character classes of the lexical grammar and the runs of characters they
//! delimit.
use vstd::prelude::*;

verus! {

/// Number of columns that a tab adds to an indentation width.
pub const TAB_WIDTH: usize = 4;

/// ASCII lowercase letter.
pub open spec fn is_lower(c: char) -> bool {
    'a' <= c && c <= 'z'
}

/// ASCII uppercase letter.
pub open spec fn is_upper(c: char) -> bool {
    'A' <= c && c <= 'Z'
}

/// ASCII decimal digit.
pub open spec fn is_digit(c: char) -> bool {
    '0' <= c && c <= '9'
}

/// Whether `c` is alphabetic or numeric, as `char::is_alphanumeric` decides
/// it from the Unicode character database.
pub uninterp spec fn alnum_of(c: char) -> bool;

/// Relies on `char::is_alphanumeric`: its result depends on the character
/// alone, and on ASCII it holds of the letters and digits.
#[verifier::external_body]
pub(crate) fn is_alphanumeric(c: char) -> (r: bool)
    ensures
        r == alnum_of(c),
        c <= '\x7f' ==> r == (is_lower(c) || is_upper(c) || is_digit(c)),
{
    c.is_alphanumeric()
}

/// The characters with the Unicode `White_Space` property.
pub open spec fn whitespace_of(c: char) -> bool {
    ||| c == ' '
    ||| '\t' <= c <= '\r'
    ||| c == '\u{85}'
    ||| c == '\u{a0}'
    ||| c == '\u{1680}'
    ||| '\u{2000}' <= c <= '\u{200a}'
    ||| c == '\u{2028}'
    ||| c == '\u{2029}'
    ||| c == '\u{202f}'
    ||| c == '\u{205f}'
    ||| c == '\u{3000}'
}

/// Whether `c` is whitespace, as `char::is_whitespace` decides it.
pub fn is_whitespace(c: char) -> (r: bool)
    ensures
        r == whitespace_of(c),
{
    c == ' ' || ('\t' <= c && c <= '\r') || c == '\u{85}' || c == '\u{a0}' || c == '\u{1680}'
        || ('\u{2000}' <= c && c <= '\u{200a}') || c == '\u{2028}' || c == '\u{2029}' || c
        == '\u{202f}' || c == '\u{205f}' || c == '\u{3000}'
}

/// A character that can start a word: an ASCII letter or an underscore.
pub open spec fn is_word_start(c: char) -> bool {
    is_lower(c) || is_upper(c) || c == '_'
}

/// A character that can continue a word.
pub open spec fn is_word(c: char) -> bool {
    alnum_of(c) || c == '_'
}

/// A character of a value identifier: an ASCII letter, digit or underscore.
pub open spec fn is_ident_char(c: char) -> bool {
    is_lower(c) || is_upper(c) || is_digit(c) || c == '_'
}

/// Whitespace inside a line: skipped between tokens, never a token itself.
pub open spec fn is_blank(c: char) -> bool {
    whitespace_of(c) && c != '\n'
}

/// A character of indentation: a space or a tab.
pub open spec fn is_indent(c: char) -> bool {
    c == ' ' || c == '\t'
}

/// Columns that an indentation character adds to an indentation width.
pub open spec fn indent_width(c: char) -> nat {
    if c == '\t' {
        TAB_WIDTH as nat
    } else {
        1
    }
}

/// The classes of characters that the scanner consumes in runs.
#[derive(Clone, Copy, Debug, PartialEq, Eq, Structural)]
pub enum CharClass {
    Blank,
    /// Spaces and tabs.
    Indent,
    /// ASCII letters, digits and underscores.
    Ident,
    Word,
    Digit,
    /// Alphanumeric characters.
    Alnum,
    /// Anything but a line feed.
    InLine,
}

pub open spec fn in_class(class: CharClass, c: char) -> bool {
    match class {
        CharClass::Blank => is_blank(c),
        CharClass::Indent => is_indent(c),
        CharClass::Ident => is_ident_char(c),
        CharClass::Word => is_word(c),
        CharClass::Digit => is_digit(c),
        CharClass::Alnum => alnum_of(c),
        CharClass::InLine => c != '\n',
    }
}

/// The character at `i`, if there is one.
pub open spec fn char_at(s: Seq<char>, i: int) -> Option<char> {
    if 0 <= i < s.len() {
        Some(s[i])
    } else {
        None
    }
}

/// The end of the longest run of characters of `class` that starts at `i`.
pub open spec fn run_end(s: Seq<char>, i: int, class: CharClass) -> int
    decreases s.len() - i,
{
    if 0 <= i < s.len() && in_class(class, s[i]) {
        run_end(s, i + 1, class)
    } else {
        i
    }
}

/// The width of the run of spaces and tabs that starts at `i`.
pub open spec fn indent_run_width(s: Seq<char>, i: int) -> nat
    decreases s.len() - i,
{
    if 0 <= i < s.len() && is_indent(s[i]) {
        indent_width(s[i]) + indent_run_width(s, i + 1)
    } else {
        0
    }
}

pub proof fn lemma_run_end_bounds(s: Seq<char>, i: int, class: CharClass)
    requires
        0 <= i <= s.len(),
    ensures
        i <= run_end(s, i, class) <= s.len(),
        forall|k: int| i <= k < run_end(s, i, class) ==> in_class(class, #[trigger] s[k]),
        run_end(s, i, class) < s.len() ==> !in_class(class, s[run_end(s, i, class)]),
    decreases s.len() - i,
{
    if i < s.len() && in_class(class, s[i]) {
        lemma_run_end_bounds(s, i + 1, class);
    }
}

pub proof fn lemma_indent_run_width_bound(s: Seq<char>, i: int)
    requires
        0 <= i <= s.len(),
    ensures
        indent_run_width(s, i) <= TAB_WIDTH * (s.len() - i),
    decreases s.len() - i,
{
    if i < s.len() && is_indent(s[i]) {
        lemma_indent_run_width_bound(s, i + 1);
    }
}

pub fn class_contains(class: CharClass, c: char) -> (r: bool)
    ensures
        r == in_class(class, c),
{
    match class {
        CharClass::Blank => c != '\n' && is_whitespace(c),
        CharClass::Indent => c == ' ' || c == '\t',
        CharClass::Ident => ('a' <= c && c <= 'z') || ('A' <= c && c <= 'Z') || ('0' <= c && c
            <= '9') || c == '_',
        CharClass::Word => c == '_' || is_alphanumeric(c),
        CharClass::Digit => '0' <= c && c <= '9',
        CharClass::Alnum => is_alphanumeric(c),
        CharClass::InLine => c != '\n',
    }
}

/// Finds where the run of `class` that starts at `i` ends.
pub fn find_run_end(s: &Vec<char>, i: usize, class: CharClass) -> (r: usize)
    requires
        i <= s@.len(),
    ensures
        r == run_end(s@, i as int, class),
{
    let mut j: usize = i;
    while j < s.len() && class_contains(class, s[j])
        invariant
            i <= j <= s@.len(),
            run_end(s@, i as int, class) == run_end(s@, j as int, class),
        decreases s@.len() - j,
    {
        j = j + 1;
    }
    j
}

} // verus!
