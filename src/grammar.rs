//! The lexical grammar as mathematics: what token stands at a position of the
//! text, and where it ends.
use vstd::prelude::*;
use crate::chars::{
    char_at, is_blank, is_digit, is_lower, is_upper, is_word_start, lemma_run_end_bounds, run_end,
    whitespace_of, CharClass,
};
use crate::token::{KindView, TokenType};

verus! {

pub open spec fn msg_unrecognized() -> Seq<char> {
    "unrecognized character"@
}

pub open spec fn msg_identifier() -> Seq<char> {
    "invalid identifier: must be snake_case"@
}

pub open spec fn msg_variable() -> Seq<char> {
    "invalid variable name: must be snake_case"@
}

pub open spec fn msg_generics() -> Seq<char> {
    "expected a type identifier followed by ',' or '>'"@
}

pub open spec fn msg_unterminated() -> Seq<char> {
    "unterminated string literal"@
}

pub open spec fn msg_int_range() -> Seq<char> {
    "integer literal out of range"@
}

/// A value identifier: `[a-z][a-z0-9_]*`, with no two underscores in a row and
/// no underscore at the end.
pub open spec fn valid_value_ident(w: Seq<char>) -> bool {
    &&& w.len() > 0
    &&& is_lower(w[0])
    &&& forall|i: int| 0 <= i < w.len() ==> is_lower(#[trigger] w[i]) || is_digit(w[i]) || w[i] == '_'
    &&& forall|i: int| 0 <= i < w.len() - 1 ==> !(#[trigger] w[i] == '_' && w[i + 1] == '_')
    &&& w[w.len() - 1] != '_'
}

/// The keyword that a value identifier spells, if any.
pub open spec fn keyword(w: Seq<char>) -> Option<TokenType> {
    if w == "func"@ {
        Some(TokenType::Func)
    } else if w == "struct"@ {
        Some(TokenType::Struct)
    } else if w == "trait"@ || w == "protocol"@ {
        Some(TokenType::Trait)
    } else if w == "new"@ {
        Some(TokenType::New)
    } else if w == "return"@ {
        Some(TokenType::Return)
    } else if w == "constrain"@ || w == "constrained"@ {
        Some(TokenType::Constrain)
    } else if w == "field"@ {
        Some(TokenType::Field)
    } else if w == "method"@ {
        Some(TokenType::Method)
    } else if w == "if"@ {
        Some(TokenType::If)
    } else if w == "else"@ {
        Some(TokenType::Else)
    } else if w == "foreach"@ {
        Some(TokenType::Foreach)
    } else if w == "in"@ {
        Some(TokenType::In)
    } else if w == "match"@ {
        Some(TokenType::Match)
    } else if w == "true"@ {
        Some(TokenType::Bool(true))
    } else if w == "false"@ {
        Some(TokenType::Bool(false))
    } else {
        None
    }
}

/// The number that a sequence of decimal digits denotes.
pub open spec fn digits_value(d: Seq<char>) -> int
    decreases d.len(),
{
    if d.len() == 0 {
        0
    } else {
        digits_value(d.drop_last()) * 10 + (d.last() as int - '0' as int)
    }
}

/// The character that an escape `\c` stands for.
pub open spec fn unescape(c: char) -> char {
    if c == 'n' {
        '\n'
    } else if c == 't' {
        '\t'
    } else if c == 'r' {
        '\r'
    } else {
        c
    }
}

/// The contents of a string literal whose body starts at `q`, and the position
/// after its closing quote; `None` when the text ends first.
pub open spec fn string_body(s: Seq<char>, q: int) -> Option<(Seq<char>, int)>
    decreases s.len() - q,
{
    if q < 0 || q >= s.len() {
        None
    } else if s[q] == '"' {
        Some((Seq::empty(), q + 1))
    } else if s[q] == '\\' {
        if q + 1 >= s.len() {
            None
        } else {
            match string_body(s, q + 2) {
                Some((t, e)) => Some((seq![unescape(s[q + 1])] + t, e)),
                None => None,
            }
        }
    } else {
        match string_body(s, q + 1) {
            Some((t, e)) => Some((seq![s[q]] + t, e)),
            None => None,
        }
    }
}

/// Where the blanks at the end of `w[..i]` begin.
pub open spec fn trail_start(w: Seq<char>, i: int) -> int
    decreases i,
{
    if 0 < i <= w.len() && is_blank(w[i - 1]) {
        trail_start(w, i - 1)
    } else {
        i
    }
}

/// `w` without its leading and trailing blanks.
pub open spec fn trim(w: Seq<char>) -> Seq<char> {
    let a = run_end(w, 0, CharClass::Blank);
    let b = trail_start(w, w.len() as int);
    if a < b {
        w.subrange(a, b)
    } else {
        Seq::empty()
    }
}

/// The list `Name, Name, ... >` that starts at `q`: the names and the position
/// after `>`, or the position where the list goes wrong.
pub open spec fn generic_list(s: Seq<char>, q: int) -> Result<(Seq<Seq<char>>, int), int>
    decreases s.len() - q,
{
    if q < 0 || q >= s.len() || !is_upper(s[q]) {
        Err(q)
    } else {
        let e = run_end(s, q + 1, CharClass::Word);
        let name = s.subrange(q, e);
        if char_at(s, e) == Some('>') {
            Ok((seq![name], e + 1))
        } else if char_at(s, e) == Some(',') {
            let n = run_end(s, e + 1, CharClass::Blank);
            proof {
                lemma_run_end_bounds(s, q + 1, CharClass::Word);
                lemma_run_end_bounds(s, e + 1, CharClass::Blank);
            }
            match generic_list(s, n) {
                Ok((rest, end)) => Ok((seq![name] + rest, end)),
                Err(x) => Err(x),
            }
        } else {
            Err(e)
        }
    }
}

/// The operators and punctuation: the token that `c`, followed by `n`, starts,
/// and how many characters it takes. Two characters are taken whenever they
/// form a token. `}#` closes the block that `#{` opens; `)#` and `]#` end an
/// expression region.
pub open spec fn operator(c: char, n: Option<char>) -> Option<(TokenType, int)> {
    if c == '-' {
        if n == Some('>') { Some((TokenType::Arrow, 2)) } else { Some((TokenType::Minus, 1)) }
    } else if c == ':' {
        if n == Some('=') {
            Some((TokenType::DeclareAssign, 2))
        } else if n == Some(':') {
            Some((TokenType::DoubleColon, 2))
        } else {
            Some((TokenType::Colon, 1))
        }
    } else if c == '<' {
        if n == Some('<') {
            Some((TokenType::LeftShift, 2))
        } else if n == Some('=') {
            Some((TokenType::LessEqual, 2))
        } else {
            Some((TokenType::LessThan, 1))
        }
    } else if c == '>' {
        if n == Some('>') {
            Some((TokenType::RightShift, 2))
        } else if n == Some('=') {
            Some((TokenType::GreaterEqual, 2))
        } else {
            Some((TokenType::GreaterThan, 1))
        }
    } else if c == '=' {
        if n == Some('=') {
            Some((TokenType::Equal, 2))
        } else if n == Some('>') {
            Some((TokenType::FatArrow, 2))
        } else {
            Some((TokenType::Assign, 1))
        }
    } else if c == '!' {
        if n == Some('=') { Some((TokenType::NotEqual, 2)) } else { Some((TokenType::Not, 1)) }
    } else if c == '&' {
        if n == Some('&') { Some((TokenType::And, 2)) } else { Some((TokenType::BitwiseAnd, 1)) }
    } else if c == '|' {
        if n == Some('}') {
            Some((TokenType::ListBraceClose, 2))
        } else if n == Some('>') {
            Some((TokenType::Pipe, 2))
        } else if n == Some('|') {
            Some((TokenType::Or, 2))
        } else {
            Some((TokenType::BitwiseOr, 1))
        }
    } else if c == '{' {
        if n == Some('|') {
            Some((TokenType::ListBraceOpen, 2))
        } else {
            Some((TokenType::OpenBracket('{'), 1))
        }
    } else if c == '(' || c == '[' {
        Some((TokenType::OpenBracket(c), 1))
    } else if c == '}' {
        if n == Some('#') {
            Some((TokenType::CloseHashBrace, 2))
        } else {
            Some((TokenType::CloseBracket('}'), 1))
        }
    } else if c == ')' || c == ']' {
        if n == Some('#') {
            Some((TokenType::ExprEnd, 2))
        } else {
            Some((TokenType::CloseBracket(c), 1))
        }
    } else if c == '#' {
        if n == Some('{') {
            Some((TokenType::OpenHashBrace, 2))
        } else if n == Some('[') {
            Some((TokenType::ExprStart, 2))
        } else {
            None
        }
    } else if c == '~' {
        if n == Some('>') { Some((TokenType::WavyArrow, 2)) } else { Some((TokenType::BitwiseNot, 1)) }
    } else if c == '+' {
        Some((TokenType::Plus, 1))
    } else if c == '*' {
        Some((TokenType::Multiply, 1))
    } else if c == '/' {
        Some((TokenType::Divide, 1))
    } else if c == '%' {
        Some((TokenType::Modulo, 1))
    } else if c == '^' {
        Some((TokenType::BitwiseXor, 1))
    } else if c == ',' {
        Some((TokenType::Comma, 1))
    } else if c == '.' {
        Some((TokenType::Dot, 1))
    } else {
        None
    }
}

/// A word at `p` (its first character, then ASCII letters, digits and
/// underscores): a keyword, a value identifier, or an error when it breaks
/// the identifier rules.
pub open spec fn lex_word(s: Seq<char>, p: int) -> (KindView, int) {
    let e = run_end(s, p + 1, CharClass::Ident);
    let w = s.subrange(p, e);
    if valid_value_ident(w) {
        match keyword(w) {
            Some(k) => (KindView::Plain(k), e),
            None => (KindView::Identifier(w), e),
        }
    } else {
        (KindView::Error(msg_identifier()), e)
    }
}

/// `$` at `p` and the word after it.
pub open spec fn lex_variable(s: Seq<char>, p: int) -> (KindView, int) {
    let e = run_end(s, p + 1, CharClass::Ident);
    let w = s.subrange(p + 1, e);
    if valid_value_ident(w) {
        (KindView::Variable(w), e)
    } else {
        (KindView::Error(msg_variable()), e)
    }
}

/// A number at `p`: digits, then `.` and digits for a float.
pub open spec fn lex_number(s: Seq<char>, p: int) -> (KindView, int) {
    let e = run_end(s, p, CharClass::Digit);
    if char_at(s, e) == Some('.') && e + 1 < s.len() && is_digit(s[e + 1]) {
        let f = run_end(s, e + 1, CharClass::Digit);
        (KindView::Float(s.subrange(p, f)), f)
    } else if digits_value(s.subrange(p, e)) <= i64::MAX {
        (KindView::Plain(TokenType::Integer(digits_value(s.subrange(p, e)) as i64)), e)
    } else {
        (KindView::Error(msg_int_range()), e)
    }
}

/// A string literal whose opening quote is at `p`.
pub open spec fn lex_string(s: Seq<char>, p: int) -> (KindView, int) {
    match string_body(s, p + 1) {
        Some((t, e)) => (KindView::Str(t), e),
        None => (KindView::Error(msg_unterminated()), s.len() as int),
    }
}

/// A line comment `--` at `p`: the rest of the line, trimmed.
pub open spec fn lex_comment(s: Seq<char>, p: int) -> (KindView, int) {
    let e = run_end(s, p + 2, CharClass::InLine);
    (KindView::Comment(trim(s.subrange(p + 2, e))), e)
}

/// A type annotation `:` at `p`: blanks, then the type's name.
pub open spec fn lex_type(s: Seq<char>, p: int) -> (KindView, int) {
    let q = run_end(s, p + 1, CharClass::Blank);
    let e = run_end(s, q, CharClass::Alnum);
    (KindView::Type(s.subrange(q, e)), e)
}

/// A generic list `<Name, ...>` whose `<` is at `p`.
pub open spec fn lex_generics(s: Seq<char>, p: int) -> (KindView, int) {
    match generic_list(s, p + 1) {
        Ok((names, e)) => (KindView::Generics(names), e),
        Err(x) => (KindView::Error(msg_generics()), x),
    }
}

/// The token that starts at `p`, where no blank stands, and the position after it.
pub open spec fn lex_at(s: Seq<char>, p: int) -> (KindView, int) {
    if p < 0 || p >= s.len() {
        (KindView::Plain(TokenType::EOF), p)
    } else {
        let c = s[p];
        let n = char_at(s, p + 1);
        if c == '\n' {
            (KindView::Plain(TokenType::Newline), p + 1)
        } else if c == '"' {
            lex_string(s, p)
        } else if is_digit(c) {
            lex_number(s, p)
        } else if is_word_start(c) {
            lex_word(s, p)
        } else if c == '$' {
            lex_variable(s, p)
        } else if c == '-' && n == Some('-') {
            lex_comment(s, p)
        } else if c == ':' && n is Some && (whitespace_of(n->0) || is_upper(n->0)) {
            lex_type(s, p)
        } else if c == '<' && n is Some && is_upper(n->0) {
            lex_generics(s, p)
        } else {
            match operator(c, n) {
                Some((k, w)) => (KindView::Plain(k), p + w),
                None => (KindView::Error(msg_unrecognized()), p + 1),
            }
        }
    }
}

/// An opening bracket.
pub open spec fn is_open_bracket(c: char) -> bool {
    c == '(' || c == '[' || c == '{'
}

/// The closing bracket that matches an opening one.
pub open spec fn closing(c: char) -> char {
    if c == '(' {
        ')'
    } else if c == '[' {
        ']'
    } else {
        '}'
    }
}

/// The opening bracket that matches a closing one.
pub open spec fn opening(c: char) -> char {
    if c == ')' {
        '('
    } else if c == ']' {
        '['
    } else {
        '{'
    }
}

/// Brackets pair up: an opening bracket at `p` yields one token tagged with
/// itself, its matching closing bracket at `q` yields one token tagged with
/// that closing bracket, and each tag leads back to the other. The exceptions
/// are the two-character tokens that begin with a bracket: `{|`, and a closing
/// bracket followed by `#`.
pub proof fn lemma_brackets_pair(s: Seq<char>, p: int, q: int)
    requires
        0 <= p < s.len(),
        0 <= q < s.len(),
        is_open_bracket(s[p]),
        s[q] == closing(s[p]),
        !(s[p] == '{' && char_at(s, p + 1) == Some('|')),
        char_at(s, q + 1) != Some('#'),
    ensures
        lex_at(s, p) == (KindView::Plain(TokenType::OpenBracket(s[p])), p + 1),
        lex_at(s, q) == (KindView::Plain(TokenType::CloseBracket(closing(s[p]))), q + 1),
        opening(closing(s[p])) == s[p],
{
}

/// A line comment ends where its line does: the token after it, if any, is
/// the newline.
pub proof fn lemma_comment_then_newline(s: Seq<char>, p: int)
    requires
        0 <= p,
        p + 1 < s.len(),
        s[p] == '-',
        s[p + 1] == '-',
    ensures
        lex_at(s, p) == lex_comment(s, p),
        lex_at(s, p).1 == s.len() || (s[lex_at(s, p).1] == '\n' && lex_at(s, lex_at(s, p).1) == (
        KindView::Plain(TokenType::Newline), lex_at(s, p).1 + 1)),
        forall|i: int| p <= i < lex_at(s, p).1 ==> #[trigger] s[i] != '\n',
{
    lemma_run_end_bounds(s, p + 2, CharClass::InLine);
}

pub proof fn lemma_string_body_bounds(s: Seq<char>, q: int)
    requires
        0 <= q,
    ensures
        string_body(s, q) matches Some((t, e)) ==> q < e <= s.len(),
    decreases s.len() - q,
{
    if 0 <= q < s.len() && s[q] != '"' {
        if s[q] == '\\' {
            if q + 1 < s.len() {
                lemma_string_body_bounds(s, q + 2);
            }
        } else {
            lemma_string_body_bounds(s, q + 1);
        }
    }
}

pub proof fn lemma_generic_list_bounds(s: Seq<char>, q: int)
    requires
        0 <= q <= s.len(),
    ensures
        generic_list(s, q) matches Ok((names, e)) ==> q < e <= s.len(),
        generic_list(s, q) matches Err(x) ==> q <= x <= s.len(),
    decreases s.len() - q,
{
    if q < s.len() && is_upper(s[q]) {
        let e = run_end(s, q + 1, CharClass::Word);
        lemma_run_end_bounds(s, q + 1, CharClass::Word);
        if char_at(s, e) == Some(',') {
            let n = run_end(s, e + 1, CharClass::Blank);
            lemma_run_end_bounds(s, e + 1, CharClass::Blank);
            lemma_generic_list_bounds(s, n);
        }
    }
}

/// Every token but the end of input takes at least one character, and none
/// reaches past the text; the end of input stands only at its end.
pub proof fn lemma_lex_at_bounds(s: Seq<char>, p: int)
    requires
        0 <= p <= s.len(),
    ensures
        p <= lex_at(s, p).1 <= s.len(),
        p < s.len() ==> p < lex_at(s, p).1,
        lex_at(s, p).0 == KindView::Plain(TokenType::EOF) <==> p == s.len(),
{
    if p < s.len() {
        let c = s[p];
        if c == '"' {
            lemma_string_body_bounds(s, p + 1);
        } else if is_digit(c) {
            lemma_run_end_bounds(s, p, CharClass::Digit);
            let e = run_end(s, p, CharClass::Digit);
            if e + 1 < s.len() {
                lemma_run_end_bounds(s, e + 1, CharClass::Digit);
            }
        } else if is_word_start(c) {
            lemma_run_end_bounds(s, p + 1, CharClass::Ident);
        } else if c == '$' {
            lemma_run_end_bounds(s, p + 1, CharClass::Ident);
        } else if c == '-' && char_at(s, p + 1) == Some('-') {
            lemma_run_end_bounds(s, p + 2, CharClass::InLine);
        } else if c == ':' {
            lemma_run_end_bounds(s, p + 1, CharClass::Blank);
            lemma_run_end_bounds(s, run_end(s, p + 1, CharClass::Blank), CharClass::Alnum);
        } else if c == '<' {
            lemma_generic_list_bounds(s, p + 1);
        }
    }
}

} // verus!
