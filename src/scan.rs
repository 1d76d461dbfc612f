//! Scanners: each reads one kind of token from the characters of the text and
//! is proved to agree with the grammar.
use vstd::prelude::*;
use vstd::string::*;
use crate::chars::{
    char_at, class_contains, find_run_end, is_digit, is_lower, is_whitespace, is_word_start,
    lemma_run_end_bounds, run_end, CharClass,
};
use crate::grammar::{
    digits_value, keyword, lex_comment, lex_number, lex_string, lex_type, lex_variable, lex_word,
    generic_list, lex_at, lex_generics, operator, string_body, trail_start, trim, valid_value_ident,
};
use crate::token::TokenType;

verus! {

/// Relies on `String::push`: appends one character to the end of the string.
#[verifier::external_body]
fn push_char(s: &mut String, c: char)
    ensures
        final(s)@ == old(s)@.push(c),
{
    s.push(c);
}

/// The characters `s[a..b]` as a string.
pub fn text_of(s: &Vec<char>, a: usize, b: usize) -> (r: String)
    requires
        a <= b <= s@.len(),
    ensures
        r@ == s@.subrange(a as int, b as int),
{
    let mut out = String::new();
    let mut i: usize = a;
    while i < b
        invariant
            a <= i <= b <= s@.len(),
            out@ == s@.subrange(a as int, i as int),
        decreases b - i,
    {
        push_char(&mut out, s[i]);
        assert(s@.subrange(a as int, i + 1) =~= s@.subrange(a as int, i as int).push(s@[i as int]));
        i = i + 1;
    }
    out
}

/// Whether `s[a..b]` spells `lit`.
pub fn spells(s: &Vec<char>, a: usize, b: usize, lit: &str) -> (r: bool)
    requires
        a <= b <= s@.len(),
    ensures
        r == (s@.subrange(a as int, b as int) == lit@),
{
    let n = lit.unicode_len();
    if b - a != n {
        return false;
    }
    let mut i: usize = 0;
    while i < n
        invariant
            n == lit@.len(),
            b - a == n,
            a <= b <= s@.len(),
            0 <= i <= n,
            forall|k: int| 0 <= k < i ==> s@[a + k] == lit@[k],
        decreases n - i,
    {
        if s[a + i] != lit.get_char(i) {
            assert(s@.subrange(a as int, b as int)[i as int] != lit@[i as int]);
            return false;
        }
        i = i + 1;
    }
    assert(s@.subrange(a as int, b as int) =~= lit@);
    true
}

/// Whether `s[a..b]` is a value identifier.
pub fn is_value_ident(s: &Vec<char>, a: usize, b: usize) -> (r: bool)
    requires
        a <= b <= s@.len(),
    ensures
        r == valid_value_ident(s@.subrange(a as int, b as int)),
{
    let ghost w = s@.subrange(a as int, b as int);
    if a == b {
        return false;
    }
    if !('a' <= s[a] && s[a] <= 'z') {
        return false;
    }
    if s[b - 1] == '_' {
        return false;
    }
    let mut i: usize = a;
    while i < b
        invariant
            a < b <= s@.len(),
            a <= i <= b,
            w == s@.subrange(a as int, b as int),
            forall|k: int| 0 <= k < i - a ==> is_lower(#[trigger] w[k]) || is_digit(w[k]) || w[k] == '_',
            forall|k: int| 0 <= k < i - a && k < w.len() - 1 ==> !(#[trigger] w[k] == '_' && w[k + 1] == '_'),
        decreases b - i,
    {
        let c = s[i];
        if !(('a' <= c && c <= 'z') || ('0' <= c && c <= '9') || c == '_') {
            assert(!(is_lower(w[i - a]) || is_digit(w[i - a]) || w[i - a] == '_'));
            return false;
        }
        if c == '_' && i + 1 < b && s[i + 1] == '_' {
            assert(w[i - a] == '_' && w[i - a + 1] == '_');
            return false;
        }
        i = i + 1;
    }
    true
}

/// The keyword that `s[a..b]` spells, if any.
pub fn keyword_of(s: &Vec<char>, a: usize, b: usize) -> (r: Option<TokenType>)
    requires
        a <= b <= s@.len(),
    ensures
        r == keyword(s@.subrange(a as int, b as int)),
{
    if spells(s, a, b, "func") {
        Some(TokenType::Func)
    } else if spells(s, a, b, "struct") {
        Some(TokenType::Struct)
    } else if spells(s, a, b, "trait") || spells(s, a, b, "protocol") {
        Some(TokenType::Trait)
    } else if spells(s, a, b, "new") {
        Some(TokenType::New)
    } else if spells(s, a, b, "return") {
        Some(TokenType::Return)
    } else if spells(s, a, b, "constrain") || spells(s, a, b, "constrained") {
        Some(TokenType::Constrain)
    } else if spells(s, a, b, "field") {
        Some(TokenType::Field)
    } else if spells(s, a, b, "method") {
        Some(TokenType::Method)
    } else if spells(s, a, b, "if") {
        Some(TokenType::If)
    } else if spells(s, a, b, "else") {
        Some(TokenType::Else)
    } else if spells(s, a, b, "foreach") {
        Some(TokenType::Foreach)
    } else if spells(s, a, b, "in") {
        Some(TokenType::In)
    } else if spells(s, a, b, "match") {
        Some(TokenType::Match)
    } else if spells(s, a, b, "true") {
        Some(TokenType::Bool(true))
    } else if spells(s, a, b, "false") {
        Some(TokenType::Bool(false))
    } else {
        None
    }
}

/// The word at `p`: a keyword, an identifier, or an error.
pub fn scan_word(s: &Vec<char>, p: usize) -> (r: (TokenType, usize))
    requires
        p < s@.len(),
        is_word_start(s@[p as int]),
    ensures
        (r.0@, r.1 as int) == lex_word(s@, p as int),
        p < r.1 <= s@.len(),
{
    let n = s.len();
    assert(p + 1 <= n);
    let e = find_run_end(s, p + 1, CharClass::Ident);
    proof {
        lemma_run_end_bounds(s@, p + 1, CharClass::Ident);
    }
    if is_value_ident(s, p, e) {
        match keyword_of(s, p, e) {
            Some(k) => (k, e),
            None => (TokenType::Identifier(text_of(s, p, e)), e),
        }
    } else {
        (TokenType::Error("invalid identifier: must be snake_case".to_string()), e)
    }
}

/// The operator or punctuation that `c`, followed by `n`, starts, and its
/// length.
pub fn operator_of(c: char, n: Option<char>) -> (r: Option<(TokenType, usize)>)
    ensures
        match r {
            Some((k, w)) => operator(c, n) == Some((k, w as int)),
            None => operator(c, n) is None,
        },
{
    if c == '-' {
        if n == Some('>') { Some((TokenType::Arrow, 2)) } else { Some((TokenType::Minus, 1)) }
    } else if c == ':' {
        if n == Some('=') {
            Some((TokenType::DeclareAssign, 2))
        } else if n == Some(':') {
            Some((TokenType::DoubleColon, 2))
        } else {
            Some((TokenType::Colon, 1))
        }
    } else if c == '<' {
        if n == Some('<') {
            Some((TokenType::LeftShift, 2))
        } else if n == Some('=') {
            Some((TokenType::LessEqual, 2))
        } else {
            Some((TokenType::LessThan, 1))
        }
    } else if c == '>' {
        if n == Some('>') {
            Some((TokenType::RightShift, 2))
        } else if n == Some('=') {
            Some((TokenType::GreaterEqual, 2))
        } else {
            Some((TokenType::GreaterThan, 1))
        }
    } else if c == '=' {
        if n == Some('=') {
            Some((TokenType::Equal, 2))
        } else if n == Some('>') {
            Some((TokenType::FatArrow, 2))
        } else {
            Some((TokenType::Assign, 1))
        }
    } else if c == '!' {
        if n == Some('=') { Some((TokenType::NotEqual, 2)) } else { Some((TokenType::Not, 1)) }
    } else if c == '&' {
        if n == Some('&') { Some((TokenType::And, 2)) } else { Some((TokenType::BitwiseAnd, 1)) }
    } else if c == '|' {
        if n == Some('}') {
            Some((TokenType::ListBraceClose, 2))
        } else if n == Some('>') {
            Some((TokenType::Pipe, 2))
        } else if n == Some('|') {
            Some((TokenType::Or, 2))
        } else {
            Some((TokenType::BitwiseOr, 1))
        }
    } else if c == '{' {
        if n == Some('|') {
            Some((TokenType::ListBraceOpen, 2))
        } else {
            Some((TokenType::OpenBracket('{'), 1))
        }
    } else if c == '(' || c == '[' {
        Some((TokenType::OpenBracket(c), 1))
    } else if c == '}' {
        if n == Some('#') {
            Some((TokenType::CloseHashBrace, 2))
        } else {
            Some((TokenType::CloseBracket('}'), 1))
        }
    } else if c == ')' || c == ']' {
        if n == Some('#') {
            Some((TokenType::ExprEnd, 2))
        } else {
            Some((TokenType::CloseBracket(c), 1))
        }
    } else if c == '#' {
        if n == Some('{') {
            Some((TokenType::OpenHashBrace, 2))
        } else if n == Some('[') {
            Some((TokenType::ExprStart, 2))
        } else {
            None
        }
    } else if c == '~' {
        if n == Some('>') { Some((TokenType::WavyArrow, 2)) } else { Some((TokenType::BitwiseNot, 1)) }
    } else if c == '+' {
        Some((TokenType::Plus, 1))
    } else if c == '*' {
        Some((TokenType::Multiply, 1))
    } else if c == '/' {
        Some((TokenType::Divide, 1))
    } else if c == '%' {
        Some((TokenType::Modulo, 1))
    } else if c == '^' {
        Some((TokenType::BitwiseXor, 1))
    } else if c == ',' {
        Some((TokenType::Comma, 1))
    } else if c == '.' {
        Some((TokenType::Dot, 1))
    } else {
        None
    }
}

/// `$` at `p` and the word after it: a variable, or an error.
pub fn scan_variable(s: &Vec<char>, p: usize) -> (r: (TokenType, usize))
    requires
        p < s@.len(),
    ensures
        (r.0@, r.1 as int) == lex_variable(s@, p as int),
        p < r.1 <= s@.len(),
{
    let n = s.len();
    assert(p + 1 <= n);
    let e = find_run_end(s, p + 1, CharClass::Ident);
    proof {
        lemma_run_end_bounds(s@, p + 1, CharClass::Ident);
    }
    if is_value_ident(s, p + 1, e) {
        (TokenType::Variable(text_of(s, p + 1, e)), e)
    } else {
        (TokenType::Error("invalid variable name: must be snake_case".to_string()), e)
    }
}

/// A number at `p`: an integer, a float, or an error when the integer does
/// not fit in an `i64`.
pub fn scan_number(s: &Vec<char>, p: usize) -> (r: (TokenType, usize))
    requires
        p < s@.len(),
        is_digit(s@[p as int]),
    ensures
        (r.0@, r.1 as int) == lex_number(s@, p as int),
        p < r.1 <= s@.len(),
{
    let e = find_run_end(s, p, CharClass::Digit);
    proof {
        lemma_run_end_bounds(s@, p as int, CharClass::Digit);
    }
    if e < s.len() && s[e] == '.' && e + 1 < s.len() && '0' <= s[e + 1] && s[e + 1] <= '9' {
        let f = find_run_end(s, e + 1, CharClass::Digit);
        proof {
            lemma_run_end_bounds(s@, e + 1, CharClass::Digit);
        }
        return (TokenType::Float(text_of(s, p, f)), f);
    }
    let mut acc: i64 = 0;
    let mut overflow = false;
    let mut i: usize = p;
    while i < e
        invariant
            p <= i <= e <= s@.len(),
            forall|k: int| p <= k < e ==> is_digit(#[trigger] s@[k]),
            acc >= 0,
            !overflow ==> acc as int == digits_value(s@.subrange(p as int, i as int)),
            overflow ==> digits_value(s@.subrange(p as int, i as int)) > i64::MAX,
        decreases e - i,
    {
        let ghost prev = digits_value(s@.subrange(p as int, i as int));
        assert(s@.subrange(p as int, i + 1).drop_last() =~= s@.subrange(p as int, i as int));
        let d = (s[i] as u32 - '0' as u32) as i64;
        assert(digits_value(s@.subrange(p as int, i + 1)) == prev * 10 + d);
        if overflow {
            assert(prev * 10 + d > i64::MAX) by (nonlinear_arith)
                requires
                    prev > i64::MAX,
                    d >= 0,
            ;
        } else if acc > (i64::MAX - d) / 10 {
            assert(prev * 10 + d > i64::MAX) by (nonlinear_arith)
                requires
                    prev == acc,
                    acc > (i64::MAX - d) / 10,
                    0 <= d <= 9,
            ;
            overflow = true;
        } else {
            assert(acc * 10 + d <= i64::MAX) by (nonlinear_arith)
                requires
                    acc <= (i64::MAX - d) / 10,
                    0 <= acc,
                    0 <= d <= 9,
            ;
            acc = acc * 10 + d;
        }
        i = i + 1;
    }
    assert(s@.subrange(p as int, i as int) == s@.subrange(p as int, e as int));
    if overflow {
        (TokenType::Error("integer literal out of range".to_string()), e)
    } else {
        (TokenType::Integer(acc), e)
    }
}

/// `r` with `pre` put in front of the contents it finds.
pub open spec fn prefixed(pre: Seq<char>, r: Option<(Seq<char>, int)>) -> Option<(Seq<char>, int)> {
    match r {
        Some((t, e)) => Some((pre + t, e)),
        None => None,
    }
}

/// A string literal whose opening quote is at `p`.
pub fn scan_string(s: &Vec<char>, p: usize) -> (r: (TokenType, usize))
    requires
        p < s@.len(),
    ensures
        (r.0@, r.1 as int) == lex_string(s@, p as int),
        p < r.1 <= s@.len(),
{
    let n = s.len();
    let mut out = String::new();
    let mut q: usize = p + 1;
    assert(prefixed(out@, string_body(s@, q as int)) == string_body(s@, q as int)) by {
        assert(out@ == Seq::<char>::empty());
        match string_body(s@, q as int) {
            Some((t, e)) => assert(Seq::<char>::empty() + t =~= t),
            None => {},
        }
    }
    while q < n
        invariant
            n == s@.len(),
            p + 1 <= q <= n,
            prefixed(out@, string_body(s@, q as int)) == string_body(s@, p + 1),
        decreases n - q,
    {
        let c = s[q];
        if c == '"' {
            assert(out@ + Seq::<char>::empty() =~= out@);
            return (TokenType::String(out), q + 1);
        }
        let ghost before = out@;
        if c == '\\' {
            if q + 1 >= n {
                return (TokenType::Error("unterminated string literal".to_string()), n);
            }
            let d = s[q + 1];
            let u = if d == 'n' {
                '\n'
            } else if d == 't' {
                '\t'
            } else if d == 'r' {
                '\r'
            } else {
                d
            };
            push_char(&mut out, u);
            proof {
                match string_body(s@, q + 2) {
                    Some((t, e)) => assert(before.push(u) + t =~= before + (seq![u] + t)),
                    None => {},
                }
            }
            q = q + 2;
        } else {
            push_char(&mut out, c);
            proof {
                match string_body(s@, q + 1) {
                    Some((t, e)) => assert(before.push(c) + t =~= before + (seq![c] + t)),
                    None => {},
                }
            }
            q = q + 1;
        }
    }
    (TokenType::Error("unterminated string literal".to_string()), n)
}

/// The characters `s[a..b]`.
fn chars_of(s: &Vec<char>, a: usize, b: usize) -> (r: Vec<char>)
    requires
        a <= b <= s@.len(),
    ensures
        r@ == s@.subrange(a as int, b as int),
{
    let mut out: Vec<char> = Vec::new();
    let mut i: usize = a;
    while i < b
        invariant
            a <= i <= b <= s@.len(),
            out@ == s@.subrange(a as int, i as int),
        decreases b - i,
    {
        out.push(s[i]);
        assert(s@.subrange(a as int, i + 1) =~= s@.subrange(a as int, i as int).push(s@[i as int]));
        i = i + 1;
    }
    out
}

/// The characters of `w` without leading and trailing blanks.
pub fn trimmed(w: &Vec<char>) -> (r: String)
    ensures
        r@ == trim(w@),
{
    let a = find_run_end(w, 0, CharClass::Blank);
    let mut b: usize = w.len();
    while b > 0 && class_contains(CharClass::Blank, w[b - 1])
        invariant
            b <= w@.len(),
            trail_start(w@, w@.len() as int) == trail_start(w@, b as int),
        decreases b,
    {
        b = b - 1;
    }
    if a < b {
        text_of(w, a, b)
    } else {
        String::new()
    }
}

/// A line comment whose `--` is at `p`.
pub fn scan_comment(s: &Vec<char>, p: usize) -> (r: (TokenType, usize))
    requires
        p + 2 <= s@.len(),
    ensures
        (r.0@, r.1 as int) == lex_comment(s@, p as int),
        p < r.1 <= s@.len(),
{
    let n = s.len();
    assert(p + 2 <= n);
    let e = find_run_end(s, p + 2, CharClass::InLine);
    proof {
        lemma_run_end_bounds(s@, p + 2, CharClass::InLine);
    }
    let raw = chars_of(s, p + 2, e);
    (TokenType::Comment(trimmed(&raw)), e)
}

/// A type annotation whose `:` is at `p`.
pub fn scan_type(s: &Vec<char>, p: usize) -> (r: (TokenType, usize))
    requires
        p < s@.len(),
    ensures
        (r.0@, r.1 as int) == lex_type(s@, p as int),
        p < r.1 <= s@.len(),
{
    let n = s.len();
    assert(p + 1 <= n);
    let q = find_run_end(s, p + 1, CharClass::Blank);
    proof {
        lemma_run_end_bounds(s@, p + 1, CharClass::Blank);
    }
    let e = find_run_end(s, q, CharClass::Alnum);
    proof {
        lemma_run_end_bounds(s@, q as int, CharClass::Alnum);
    }
    (TokenType::Type(text_of(s, q, e)), e)
}

/// `r` with the names `pre` put in front of the list it finds.
pub open spec fn names_prefixed(pre: Seq<Seq<char>>, r: Result<(Seq<Seq<char>>, int), int>) -> Result<
    (Seq<Seq<char>>, int),
    int,
> {
    match r {
        Ok((rest, e)) => Ok((pre + rest, e)),
        Err(x) => Err(x),
    }
}

pub open spec fn names_view(v: Seq<String>) -> Seq<Seq<char>> {
    v.map_values(|n: String| n@)
}

/// A generic list `<Name, ...>` whose `<` is at `p`.
pub fn scan_generics(s: &Vec<char>, p: usize) -> (r: (TokenType, usize))
    requires
        p < s@.len(),
    ensures
        (r.0@, r.1 as int) == lex_generics(s@, p as int),
        p < r.1 <= s@.len(),
{
    let n = s.len();
    let mut names: Vec<String> = Vec::new();
    let mut q: usize = p + 1;
    assert(names_prefixed(names_view(names@), generic_list(s@, q as int)) == generic_list(s@, q as int)) by {
        assert(names_view(names@) =~= Seq::<Seq<char>>::empty());
        match generic_list(s@, q as int) {
            Ok((rest, e)) => assert(Seq::<Seq<char>>::empty() + rest =~= rest),
            Err(x) => {},
        }
    }
    loop
        invariant
            n == s@.len(),
            p + 1 <= q <= n,
            names_prefixed(names_view(names@), generic_list(s@, q as int)) == generic_list(s@, p + 1),
        decreases n - q,
    {
        if q >= n || !('A' <= s[q] && s[q] <= 'Z') {
            return (TokenType::Error("expected a type identifier followed by ',' or '>'".to_string()), q);
        }
        let e = find_run_end(s, q + 1, CharClass::Word);
        proof {
            lemma_run_end_bounds(s@, q + 1, CharClass::Word);
        }
        let ghost before = names_view(names@);
        let ghost name = s@.subrange(q as int, e as int);
        if e < n && s[e] == '>' {
            names.push(text_of(s, q, e));
            assert(names_view(names@) =~= before.push(name));
            assert(before.push(name) =~= before + seq![name]);
            return (TokenType::GenericTypeIdentifiers(names), e + 1);
        } else if e < n && s[e] == ',' {
            names.push(text_of(s, q, e));
            assert(names_view(names@) =~= before.push(name));
            let next = find_run_end(s, e + 1, CharClass::Blank);
            proof {
                lemma_run_end_bounds(s@, e + 1, CharClass::Blank);
                match generic_list(s@, next as int) {
                    Ok((rest, x)) => assert(before.push(name) + rest =~= before + (seq![name] + rest)),
                    Err(x) => {},
                }
            }
            q = next;
        } else {
            return (TokenType::Error("expected a type identifier followed by ',' or '>'".to_string()), e);
        }
    }
}

/// The token that starts at `p`, where no blank stands, and the position
/// after it.
pub fn scan_token(s: &Vec<char>, p: usize) -> (r: (TokenType, usize))
    requires
        p <= s@.len(),
    ensures
        (r.0@, r.1 as int) == lex_at(s@, p as int),
        p < s@.len() ==> p < r.1 <= s@.len(),
        p >= s@.len() ==> r.1 == p,
{
    let len = s.len();
    if p >= len {
        return (TokenType::EOF, p);
    }
    let c = s[p];
    let n = if p + 1 < len {
        Some(s[p + 1])
    } else {
        None
    };
    assert(n == char_at(s@, p + 1));
    if c == '\n' {
        (TokenType::Newline, p + 1)
    } else if c == '"' {
        scan_string(s, p)
    } else if '0' <= c && c <= '9' {
        scan_number(s, p)
    } else if ('a' <= c && c <= 'z') || ('A' <= c && c <= 'Z') || c == '_' {
        scan_word(s, p)
    } else if c == '$' {
        scan_variable(s, p)
    } else if c == '-' && n == Some('-') {
        scan_comment(s, p)
    } else if c == ':' && n.is_some() && (is_whitespace(s[p + 1]) || ('A' <= s[p + 1] && s[p + 1] <= 'Z')) {
        scan_type(s, p)
    } else if c == '<' && n.is_some() && 'A' <= s[p + 1] && s[p + 1] <= 'Z' {
        scan_generics(s, p)
    } else {
        match operator_of(c, n) {
            Some((k, w)) => (k, p + w),
            None => (TokenType::Error("unrecognized character".to_string()), p + 1),
        }
    }
}

} // verus!
