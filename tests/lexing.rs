use petram::lexer::Lexer;
use petram::chars::is_whitespace;
use petram::{LexError, TokenType};

fn kinds(source: &str) -> Vec<TokenType> {
    let mut lexer = Lexer::new(source);
    lexer
        .tokenize()
        .expect("lexing failed")
        .into_iter()
        .map(|t| t.token_type)
        .collect()
}

fn first(source: &str) -> TokenType {
    let mut lexer = Lexer::new(source);
    lexer.next_token().expect("lexing failed").token_type
}

fn s(text: &str) -> String {
    text.to_string()
}

#[test]
fn indentation_round_trip() {
    let source = "a\n    b\n        c\n    d\ne\n";
    let mut lexer = Lexer::new(source);
    let tokens = lexer.tokenize().unwrap();
    let structural: Vec<TokenType> = tokens
        .iter()
        .map(|t| t.token_type.clone())
        .filter(|k| matches!(k, TokenType::Indent | TokenType::Dedent))
        .collect();
    assert_eq!(
        structural,
        vec![TokenType::Indent, TokenType::Indent, TokenType::Dedent, TokenType::Dedent]
    );
    assert_eq!(lexer.indentation(), &vec![0]);
    assert_eq!(tokens.last().unwrap().token_type, TokenType::EOF);
}

#[test]
fn indentation_token_order() {
    assert_eq!(
        kinds("a\n    b\nc"),
        vec![
            TokenType::Identifier(s("a")),
            TokenType::Newline,
            TokenType::Indent,
            TokenType::Identifier(s("b")),
            TokenType::Newline,
            TokenType::Dedent,
            TokenType::Identifier(s("c")),
            TokenType::EOF,
        ]
    );
}

#[test]
fn dedents_come_one_per_call() {
    let mut lexer = Lexer::new("a\n    b\n        c\nd");
    let mut seen = Vec::new();
    loop {
        let t = lexer.next_token().unwrap();
        let done = t.token_type == TokenType::EOF;
        seen.push(t.token_type);
        if done {
            break;
        }
    }
    let n = seen.len();
    assert_eq!(seen[n - 4], TokenType::Dedent);
    assert_eq!(seen[n - 3], TokenType::Dedent);
    assert_eq!(seen[n - 2], TokenType::Identifier(s("d")));
    assert_eq!(lexer.indentation(), &vec![0]);
}

#[test]
fn tab_counts_as_four_columns() {
    assert_eq!(
        kinds("a\n\tb\n    c\n"),
        vec![
            TokenType::Identifier(s("a")),
            TokenType::Newline,
            TokenType::Indent,
            TokenType::Identifier(s("b")),
            TokenType::Newline,
            TokenType::Identifier(s("c")),
            TokenType::Newline,
            TokenType::Dedent,
            TokenType::EOF,
        ]
    );
}

#[test]
fn mismatched_dedent_is_fatal() {
    // widths 0, 4, 8, then 7, which was never pushed
    let mut lexer = Lexer::new("a\n    b\n        c\n       d\n");
    assert_eq!(lexer.tokenize().unwrap_err(), LexError::MismatchedIndentation { line: 4 });
}

#[test]
fn mismatched_dedent_keeps_failing() {
    let mut lexer = Lexer::new("a\n        b\n    c\n");
    let mut result = lexer.next_token();
    while let Ok(t) = &result {
        assert_ne!(t.token_type, TokenType::EOF);
        result = lexer.next_token();
    }
    assert_eq!(result.unwrap_err(), LexError::MismatchedIndentation { line: 3 });
    assert_eq!(lexer.next_token().unwrap_err(), LexError::MismatchedIndentation { line: 3 });
}

#[test]
fn variable_snake_case() {
    assert_eq!(kinds("$foo_bar"), vec![TokenType::Variable(s("foo_bar")), TokenType::EOF]);
}

#[test]
fn variable_camel_case_is_error() {
    assert!(matches!(first("$FooBar"), TokenType::Error(_)));
    assert_eq!(kinds("$FooBar").len(), 2);
}

#[test]
fn variable_double_underscore_is_error() {
    assert!(matches!(first("$foo__bar"), TokenType::Error(_)));
    assert_eq!(kinds("$foo__bar").len(), 2);
}

#[test]
fn variable_without_name_is_error() {
    assert!(matches!(first("$ x"), TokenType::Error(_)));
}

#[test]
fn generic_type_list() {
    assert_eq!(
        kinds("<Foo,Bar>"),
        vec![TokenType::GenericTypeIdentifiers(vec![s("Foo"), s("Bar")]), TokenType::EOF]
    );
    assert_eq!(
        first("<Foo, Bar>"),
        TokenType::GenericTypeIdentifiers(vec![s("Foo"), s("Bar")])
    );
}

#[test]
fn generic_list_without_comma_is_error() {
    assert!(matches!(first("<Foo Bar>"), TokenType::Error(_)));
}

#[test]
fn comment_then_newline() {
    assert_eq!(
        kinds("-- hi\n"),
        vec![TokenType::Comment(s("hi")), TokenType::Newline, TokenType::EOF]
    );
}

#[test]
fn comment_payload_is_trimmed() {
    assert_eq!(first("--   two words \t"), TokenType::Comment(s("two words")));
    assert_eq!(first("--"), TokenType::Comment(s("")));
}

#[test]
fn float_literal() {
    match first("3.14") {
        TokenType::Float(text) => {
            assert_eq!(text, "3.14");
            assert_eq!(text.parse::<f64>().unwrap(), 3.14);
        }
        other => panic!("expected a float, got {:?}", other),
    }
}

#[test]
fn integer_literal() {
    assert_eq!(kinds("42"), vec![TokenType::Integer(42), TokenType::EOF]);
}

#[test]
fn integer_limits() {
    assert_eq!(first("9223372036854775807"), TokenType::Integer(i64::MAX));
    assert!(matches!(first("9223372036854775808"), TokenType::Error(_)));
}

#[test]
fn dot_without_digits_is_not_a_float() {
    assert_eq!(
        kinds("3.x"),
        vec![
            TokenType::Integer(3),
            TokenType::Dot,
            TokenType::Identifier(s("x")),
            TokenType::EOF
        ]
    );
}

#[test]
fn brackets_carry_their_delimiter() {
    assert_eq!(
        kinds("( [ { } ] )"),
        vec![
            TokenType::OpenBracket('('),
            TokenType::OpenBracket('['),
            TokenType::OpenBracket('{'),
            TokenType::CloseBracket('}'),
            TokenType::CloseBracket(']'),
            TokenType::CloseBracket(')'),
            TokenType::EOF,
        ]
    );
}

#[test]
fn two_character_punctuation() {
    assert_eq!(
        kinds("-> :: := << <= >> >= == => != && |} |> || {| #{ }# #[ ]# )# ~>"),
        vec![
            TokenType::Arrow,
            TokenType::DoubleColon,
            TokenType::DeclareAssign,
            TokenType::LeftShift,
            TokenType::LessEqual,
            TokenType::RightShift,
            TokenType::GreaterEqual,
            TokenType::Equal,
            TokenType::FatArrow,
            TokenType::NotEqual,
            TokenType::And,
            TokenType::ListBraceClose,
            TokenType::Pipe,
            TokenType::Or,
            TokenType::ListBraceOpen,
            TokenType::OpenHashBrace,
            TokenType::CloseHashBrace,
            TokenType::ExprStart,
            TokenType::ExprEnd,
            TokenType::ExprEnd,
            TokenType::WavyArrow,
            TokenType::EOF,
        ]
    );
}

#[test]
fn one_character_punctuation() {
    assert_eq!(
        kinds("- :< > = ! & | ~ + * / % ^ , ."),
        vec![
            TokenType::Minus,
            TokenType::Colon,
            TokenType::LessThan,
            TokenType::GreaterThan,
            TokenType::Assign,
            TokenType::Not,
            TokenType::BitwiseAnd,
            TokenType::BitwiseOr,
            TokenType::BitwiseNot,
            TokenType::Plus,
            TokenType::Multiply,
            TokenType::Divide,
            TokenType::Modulo,
            TokenType::BitwiseXor,
            TokenType::Comma,
            TokenType::Dot,
            TokenType::EOF,
        ]
    );
}

#[test]
fn type_annotation() {
    assert_eq!(
        kinds("x: Int"),
        vec![TokenType::Identifier(s("x")), TokenType::Type(s("Int")), TokenType::EOF]
    );
    assert_eq!(
        kinds("x:Int32"),
        vec![TokenType::Identifier(s("x")), TokenType::Type(s("Int32")), TokenType::EOF]
    );
}

#[test]
fn colon_before_lowercase_is_plain() {
    assert_eq!(
        kinds("a:b"),
        vec![
            TokenType::Identifier(s("a")),
            TokenType::Colon,
            TokenType::Identifier(s("b")),
            TokenType::EOF
        ]
    );
}

#[test]
fn keywords_and_booleans() {
    assert_eq!(
        kinds("func struct trait protocol new return constrain constrained field method if else foreach in match true false"),
        vec![
            TokenType::Func,
            TokenType::Struct,
            TokenType::Trait,
            TokenType::Trait,
            TokenType::New,
            TokenType::Return,
            TokenType::Constrain,
            TokenType::Constrain,
            TokenType::Field,
            TokenType::Method,
            TokenType::If,
            TokenType::Else,
            TokenType::Foreach,
            TokenType::In,
            TokenType::Match,
            TokenType::Bool(true),
            TokenType::Bool(false),
            TokenType::EOF,
        ]
    );
}

#[test]
fn identifier_rules() {
    assert_eq!(first("foo_bar2"), TokenType::Identifier(s("foo_bar2")));
    assert!(matches!(first("fooBar"), TokenType::Error(_)));
    assert!(matches!(first("foo_"), TokenType::Error(_)));
    assert!(matches!(first("_foo"), TokenType::Error(_)));
    assert!(matches!(first("Foo"), TokenType::Error(_)));
    assert_eq!(kinds("fooBar x").len(), 3);
}

#[test]
fn string_escapes() {
    assert_eq!(
        first("\"a\\n\\t\\r\\\\\\\"\\qb\""),
        TokenType::String(s("a\n\t\r\\\"qb"))
    );
    assert_eq!(first("\"\""), TokenType::String(s("")));
}

#[test]
fn unterminated_string_is_error() {
    assert!(matches!(first("\"abc"), TokenType::Error(_)));
    assert_eq!(kinds("\"abc\\").len(), 2);
}

#[test]
fn unrecognized_character_is_error() {
    assert_eq!(
        kinds("@ x"),
        vec![
            TokenType::Error(s("unrecognized character")),
            TokenType::Identifier(s("x")),
            TokenType::EOF
        ]
    );
    assert!(matches!(first("#"), TokenType::Error(_)));
}

#[test]
fn positions_mark_first_character() {
    let mut lexer = Lexer::new("ab  cd\n  x");
    let tokens = lexer.tokenize().unwrap();
    let positions: Vec<(usize, usize)> = tokens.iter().map(|t| (t.line, t.column)).collect();
    // ab, cd, newline, indent, x, eof
    assert_eq!(positions, vec![(1, 0), (1, 4), (1, 6), (2, 0), (2, 2), (2, 3)]);
}

#[test]
fn end_of_input_repeats() {
    let mut lexer = Lexer::new("x");
    assert_eq!(lexer.next_token().unwrap().token_type, TokenType::Identifier(s("x")));
    for _ in 0..3 {
        assert_eq!(lexer.next_token().unwrap().token_type, TokenType::EOF);
    }
}

#[test]
fn end_of_input_after_dedent_repeats() {
    let mut lexer = Lexer::new("a\n    b\n");
    let tokens = lexer.tokenize().unwrap();
    let n = tokens.len();
    assert_eq!(tokens[n - 2].token_type, TokenType::Dedent);
    assert_eq!(tokens[n - 1].token_type, TokenType::EOF);
    let again = lexer.next_token().unwrap();
    assert_eq!(again.token_type, TokenType::EOF);
    assert_eq!((again.line, again.column), (tokens[n - 1].line, tokens[n - 1].column));
    assert_eq!(lexer.indentation(), &vec![0]);
}

#[test]
fn empty_source() {
    assert_eq!(kinds(""), vec![TokenType::EOF]);
}

#[test]
fn carriage_return_is_blank() {
    assert_eq!(
        kinds("a\r\nb"),
        vec![
            TokenType::Identifier(s("a")),
            TokenType::Newline,
            TokenType::Identifier(s("b")),
            TokenType::EOF
        ]
    );
}

#[test]
fn cursor_peeks_and_advances() {
    let mut lexer = Lexer::new("héllo world");
    assert_eq!(lexer.peek(), Some('h'));
    assert_eq!(lexer.peek_next(), Some('h'));
    assert_eq!(lexer.peek_by(3), Some(s("hél")));
    assert_eq!(lexer.peek_by(40), None);
    assert_eq!(lexer.advance(), Some('h'));
    lexer.advance_by(4);
    assert_eq!(lexer.peek(), Some(' '));
    lexer.advance_up_to(|c| c == 'r');
    assert_eq!(lexer.peek(), Some('r'));
    lexer.advance_up_to(|c| c == 'r');
    assert_eq!(lexer.peek(), Some('r'));
    lexer.advance_by(100);
    assert_eq!(lexer.peek(), None);
    assert_eq!(lexer.advance(), None);
}

#[test]
fn skip_whitespace_reports_width() {
    let mut lexer = Lexer::new(" \t x");
    assert_eq!(lexer.skip_whitespace(), 6);
    assert_eq!(lexer.peek(), Some('x'));
}

#[test]
fn handlers_consume_their_token() {
    let mut lexer = Lexer::new("\"a\\tb\" 12 foo_bar Baz9 qUx");
    assert_eq!(lexer.handle_string(), Some(s("a\tb")));
    lexer.skip_whitespace();
    assert_eq!(lexer.handle_number(), TokenType::Integer(12));
    lexer.skip_whitespace();
    assert_eq!(lexer.parse_identifier(), Some((s("foo_bar"), 10)));
    lexer.skip_whitespace();
    assert_eq!(lexer.parse_type_identifier(), Some(s("Baz9")));
    lexer.skip_whitespace();
    assert_eq!(lexer.parse_type_identifier(), None);
    assert_eq!(lexer.parse_identifier(), None);
    assert_eq!(lexer.peek(), None);
}

#[test]
fn handle_identifier_takes_the_word() {
    let mut lexer = Lexer::new("Ab_1+");
    assert_eq!(lexer.handle_identifier(), s("Ab_1"));
    assert_eq!(lexer.peek(), Some('+'));
}

#[test]
fn handle_string_unterminated() {
    let mut lexer = Lexer::new("\"abc");
    assert_eq!(lexer.handle_string(), None);
    assert_eq!(lexer.peek(), None);
}

#[test]
fn handle_indentation_emits_structure() {
    let mut lexer = Lexer::new("    x");
    let t = lexer.handle_indentation().unwrap().unwrap();
    assert_eq!(t.token_type, TokenType::Indent);
    assert_eq!((t.line, t.column), (1, 0));
    assert!(lexer.handle_indentation().unwrap().is_none());
    assert_eq!(lexer.indentation(), &vec![0, 4]);
}

#[test]
fn error_token_carries_message() {
    let lexer = Lexer::new("");
    let t = lexer.error_token("bad", 3, 7);
    assert_eq!(t.token_type, TokenType::Error(s("bad")));
    assert_eq!((t.line, t.column), (3, 7));
}

#[test]
fn peek_next_is_the_next_character() {
    let mut lexer = Lexer::new("ab");
    assert_eq!(lexer.peek_next(), Some('a'));
    lexer.advance();
    assert_eq!(lexer.peek_next(), Some('b'));
    lexer.advance();
    assert_eq!(lexer.peek_next(), None);
}

#[test]
fn advance_up_to_takes_a_predicate() {
    let mut lexer = Lexer::new("abc123 x");
    lexer.advance_up_to(|c| c.is_ascii_digit());
    assert_eq!(lexer.peek(), Some('1'));
    lexer.advance_up_to(|c| c == '#');
    assert_eq!(lexer.peek(), None);
}

#[test]
fn type_identifier_continues_with_unicode_letters() {
    let mut lexer = Lexer::new("A\u{e9}b,");
    assert_eq!(lexer.parse_type_identifier(), Some(s("A\u{e9}b")));
    assert_eq!(lexer.peek(), Some(','));
}

#[test]
fn handle_identifier_takes_unicode_letters() {
    let mut lexer = Lexer::new("\u{e9}t\u{e9} x");
    assert_eq!(lexer.handle_identifier(), s("\u{e9}t\u{e9}"));
    assert_eq!(lexer.peek(), Some(' '));
}

#[test]
fn unicode_names_in_types_and_generics() {
    assert_eq!(
        kinds("x: Gr\u{f6}\u{df}e"),
        vec![TokenType::Identifier(s("x")), TokenType::Type(s("Gr\u{f6}\u{df}e")), TokenType::EOF]
    );
    assert_eq!(
        first("<Caf\u{e9}, B>"),
        TokenType::GenericTypeIdentifiers(vec![s("Caf\u{e9}"), s("B")])
    );
}

#[test]
fn non_ascii_letter_ends_a_value_identifier() {
    assert_eq!(
        kinds("caf\u{e9} x"),
        vec![
            TokenType::Identifier(s("caf")),
            TokenType::Error(s("unrecognized character")),
            TokenType::Identifier(s("x")),
            TokenType::EOF
        ]
    );
}

#[test]
fn parse_identifier_takes_ascii_only() {
    let mut lexer = Lexer::new("fo\u{e9}");
    assert_eq!(lexer.parse_identifier(), Some((s("fo"), 0)));
    assert_eq!(lexer.peek(), Some('\u{e9}'));
}

#[test]
fn indentation_counts_only_spaces_and_tabs() {
    let mut lexer = Lexer::new("\u{0c}    x");
    assert_eq!(lexer.skip_whitespace(), 0);
    assert_eq!(lexer.peek(), Some('\u{0c}'));
    assert_eq!(
        kinds("a\n\u{0c}    x"),
        vec![
            TokenType::Identifier(s("a")),
            TokenType::Newline,
            TokenType::Identifier(s("x")),
            TokenType::EOF
        ]
    );
    assert_eq!(
        kinds("a\n    b\n        c\n    \u{0c}    d\n"),
        vec![
            TokenType::Identifier(s("a")),
            TokenType::Newline,
            TokenType::Indent,
            TokenType::Identifier(s("b")),
            TokenType::Newline,
            TokenType::Indent,
            TokenType::Identifier(s("c")),
            TokenType::Newline,
            TokenType::Dedent,
            TokenType::Identifier(s("d")),
            TokenType::Newline,
            TokenType::Dedent,
            TokenType::EOF
        ]
    );
}

#[test]
fn whitespace_agrees_with_std() {
    for code in 0..=0x10ffffu32 {
        if let Some(c) = char::from_u32(code) {
            assert_eq!(is_whitespace(c), c.is_whitespace(), "{:?}", c);
        }
    }
}

#[test]
fn dedents_due_between_dedents() {
    let mut lexer = Lexer::new("a\n    b\n        c\nd");
    let mut due = Vec::new();
    loop {
        let t = lexer.next_token().unwrap();
        if t.token_type == TokenType::Dedent {
            due.push(lexer.dedents_due());
        }
        if t.token_type == TokenType::EOF {
            break;
        }
    }
    assert_eq!(due, vec![true, true]);
    assert!(!lexer.dedents_due());
}

#[test]
fn all_whitespace_between_tokens_is_skipped() {
    assert_eq!(
        kinds("a\u{0c}b\u{0b}c\u{a0}d\u{2003}e"),
        vec![
            TokenType::Identifier(s("a")),
            TokenType::Identifier(s("b")),
            TokenType::Identifier(s("c")),
            TokenType::Identifier(s("d")),
            TokenType::Identifier(s("e")),
            TokenType::EOF
        ]
    );
}

#[test]
fn colon_before_line_feed_is_empty_type() {
    assert_eq!(
        kinds("x:\ny"),
        vec![
            TokenType::Identifier(s("x")),
            TokenType::Type(s("")),
            TokenType::Newline,
            TokenType::Identifier(s("y")),
            TokenType::EOF
        ]
    );
}
