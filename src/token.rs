//! Tokens and their mathematical model.
use vstd::prelude::*;

verus! {

/// What a token is.
#[derive(Debug, Clone, PartialEq)]
pub enum TokenType {
    // Keywords
    Func,
    Struct,
    Trait,
    New,
    Return,
    Constrain,
    Field,
    Method,
    If,
    Else,
    Foreach,
    In,
    Match,
    // Identifiers and literals
    Identifier(String),
    Integer(i64),
    /// A floating-point literal, kept as its source text `digits.digits`;
    /// `str::parse::<f64>` turns it into a number.
    Float(String),
    String(String),
    Bool(bool),
    Variable(String),
    // Types
    Type(String),
    GenericTypeIdentifiers(Vec<String>),
    // Operators
    Plus,
    Minus,
    Multiply,
    Divide,
    Modulo,
    Equal,
    NotEqual,
    LessThan,
    GreaterThan,
    LessEqual,
    GreaterEqual,
    And,
    Or,
    Not,
    BitwiseAnd,
    BitwiseOr,
    BitwiseXor,
    BitwiseNot,
    LeftShift,
    RightShift,
    Assign,
    DeclareAssign,
    Colon,
    Arrow,
    FatArrow,
    WavyArrow,
    Pipe,
    DoubleColon,
    // Brackets, tagged with their delimiter
    OpenBracket(char),
    CloseBracket(char),
    /// `{|`
    ListBraceOpen,
    /// `|}`
    ListBraceClose,
    /// `#{`
    OpenHashBrace,
    /// `}#`
    CloseHashBrace,
    /// `#[`
    ExprStart,
    /// `)#` or `]#`
    ExprEnd,
    // Structure
    Comment(String),
    Error(String),
    Indent,
    Dedent,
    Newline,
    EOF,
    // Other delimiters
    Comma,
    Dot,
}

/// The model of a token's kind: text payloads as character sequences, every
/// other kind as itself.
pub enum KindView {
    Plain(TokenType),
    Identifier(Seq<char>),
    Float(Seq<char>),
    Str(Seq<char>),
    Variable(Seq<char>),
    Type(Seq<char>),
    Generics(Seq<Seq<char>>),
    Comment(Seq<char>),
    Error(Seq<char>),
}

impl View for TokenType {
    type V = KindView;

    open spec fn view(&self) -> KindView {
        match self {
            TokenType::Identifier(s) => KindView::Identifier(s@),
            TokenType::Float(s) => KindView::Float(s@),
            TokenType::String(s) => KindView::Str(s@),
            TokenType::Variable(s) => KindView::Variable(s@),
            TokenType::Type(s) => KindView::Type(s@),
            TokenType::GenericTypeIdentifiers(v) => KindView::Generics(
                v@.map_values(|n: String| n@),
            ),
            TokenType::Comment(s) => KindView::Comment(s@),
            TokenType::Error(s) => KindView::Error(s@),
            _ => KindView::Plain(*self),
        }
    }
}

/// A token and the position of its first character.
#[derive(Debug, Clone)]
pub struct Token {
    pub token_type: TokenType,
    pub line: usize,
    pub column: usize,
}

pub struct TokenView {
    pub kind: KindView,
    pub line: int,
    pub column: int,
}

impl View for Token {
    type V = TokenView;

    open spec fn view(&self) -> TokenView {
        TokenView { kind: self.token_type@, line: self.line as int, column: self.column as int }
    }
}

/// The failure that stops lexing: a dedent that lands on no enclosing
/// indentation width.
#[derive(Debug, Clone, Copy, PartialEq, Eq, Structural)]
pub enum LexError {
    MismatchedIndentation { line: usize },
}

} // verus!
