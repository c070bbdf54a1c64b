use vstd::prelude::*;

use crate::span::Span;

verus! {

/// The kinds of token of the language.
#[derive(Debug)]
pub enum TokenKind {
    Import,
    Body,
    Let,
    Func,
    Return,
    If,
    Else,
    While,
    Do,
    For,
    New,
    IntType,
    FloatType,
    StringType,
    BoolType,
    True,
    False,
    Identifier(String),
    IntLiteral(i64),
    /// A float literal, kept as its source text (digits, one dot, digits).
    FloatLiteral(String),
    StringLiteral(String),
    LParen,
    RParen,
    LBrace,
    RBrace,
    LBracket,
    RBracket,
    Colon,
    Semicolon,
    Comma,
    Dot,
    Question,
    Plus,
    Minus,
    Arrow,
    Star,
    Percent,
    Slash,
    Assign,
    EqEq,
    Bang,
    NotEq,
    Greater,
    GreaterEq,
    Less,
    LessEq,
    AndAnd,
    OrOr,
    Eof,
}

/// A token kind as plain values.
pub enum Kind {
    Import,
    Body,
    Let,
    Func,
    Return,
    If,
    Else,
    While,
    Do,
    For,
    New,
    IntType,
    FloatType,
    StringType,
    BoolType,
    True,
    False,
    Identifier(Seq<char>),
    IntLiteral(i64),
    FloatLiteral(Seq<char>),
    StringLiteral(Seq<char>),
    LParen,
    RParen,
    LBrace,
    RBrace,
    LBracket,
    RBracket,
    Colon,
    Semicolon,
    Comma,
    Dot,
    Question,
    Plus,
    Minus,
    Arrow,
    Star,
    Percent,
    Slash,
    Assign,
    EqEq,
    Bang,
    NotEq,
    Greater,
    GreaterEq,
    Less,
    LessEq,
    AndAnd,
    OrOr,
    Eof,
}

impl View for TokenKind {
    type V = Kind;

    open spec fn view(&self) -> Kind {
        match self {
            TokenKind::Import => Kind::Import,
            TokenKind::Body => Kind::Body,
            TokenKind::Let => Kind::Let,
            TokenKind::Func => Kind::Func,
            TokenKind::Return => Kind::Return,
            TokenKind::If => Kind::If,
            TokenKind::Else => Kind::Else,
            TokenKind::While => Kind::While,
            TokenKind::Do => Kind::Do,
            TokenKind::For => Kind::For,
            TokenKind::New => Kind::New,
            TokenKind::IntType => Kind::IntType,
            TokenKind::FloatType => Kind::FloatType,
            TokenKind::StringType => Kind::StringType,
            TokenKind::BoolType => Kind::BoolType,
            TokenKind::True => Kind::True,
            TokenKind::False => Kind::False,
            TokenKind::Identifier(s) => Kind::Identifier(s@),
            TokenKind::IntLiteral(v) => Kind::IntLiteral(*v),
            TokenKind::FloatLiteral(s) => Kind::FloatLiteral(s@),
            TokenKind::StringLiteral(s) => Kind::StringLiteral(s@),
            TokenKind::LParen => Kind::LParen,
            TokenKind::RParen => Kind::RParen,
            TokenKind::LBrace => Kind::LBrace,
            TokenKind::RBrace => Kind::RBrace,
            TokenKind::LBracket => Kind::LBracket,
            TokenKind::RBracket => Kind::RBracket,
            TokenKind::Colon => Kind::Colon,
            TokenKind::Semicolon => Kind::Semicolon,
            TokenKind::Comma => Kind::Comma,
            TokenKind::Dot => Kind::Dot,
            TokenKind::Question => Kind::Question,
            TokenKind::Plus => Kind::Plus,
            TokenKind::Minus => Kind::Minus,
            TokenKind::Arrow => Kind::Arrow,
            TokenKind::Star => Kind::Star,
            TokenKind::Percent => Kind::Percent,
            TokenKind::Slash => Kind::Slash,
            TokenKind::Assign => Kind::Assign,
            TokenKind::EqEq => Kind::EqEq,
            TokenKind::Bang => Kind::Bang,
            TokenKind::NotEq => Kind::NotEq,
            TokenKind::Greater => Kind::Greater,
            TokenKind::GreaterEq => Kind::GreaterEq,
            TokenKind::Less => Kind::Less,
            TokenKind::LessEq => Kind::LessEq,
            TokenKind::AndAnd => Kind::AndAnd,
            TokenKind::OrOr => Kind::OrOr,
            TokenKind::Eof => Kind::Eof,
        }
    }
}

impl TokenKind {
    /// A copy of this token kind.
    pub fn duplicate(&self) -> (r: TokenKind)
        ensures
            r@ == self@,
    {
        match self {
            TokenKind::Import => TokenKind::Import,
            TokenKind::Body => TokenKind::Body,
            TokenKind::Let => TokenKind::Let,
            TokenKind::Func => TokenKind::Func,
            TokenKind::Return => TokenKind::Return,
            TokenKind::If => TokenKind::If,
            TokenKind::Else => TokenKind::Else,
            TokenKind::While => TokenKind::While,
            TokenKind::Do => TokenKind::Do,
            TokenKind::For => TokenKind::For,
            TokenKind::New => TokenKind::New,
            TokenKind::IntType => TokenKind::IntType,
            TokenKind::FloatType => TokenKind::FloatType,
            TokenKind::StringType => TokenKind::StringType,
            TokenKind::BoolType => TokenKind::BoolType,
            TokenKind::True => TokenKind::True,
            TokenKind::False => TokenKind::False,
            TokenKind::Identifier(s) => TokenKind::Identifier(s.clone()),
            TokenKind::IntLiteral(v) => TokenKind::IntLiteral(*v),
            TokenKind::FloatLiteral(s) => TokenKind::FloatLiteral(s.clone()),
            TokenKind::StringLiteral(s) => TokenKind::StringLiteral(s.clone()),
            TokenKind::LParen => TokenKind::LParen,
            TokenKind::RParen => TokenKind::RParen,
            TokenKind::LBrace => TokenKind::LBrace,
            TokenKind::RBrace => TokenKind::RBrace,
            TokenKind::LBracket => TokenKind::LBracket,
            TokenKind::RBracket => TokenKind::RBracket,
            TokenKind::Colon => TokenKind::Colon,
            TokenKind::Semicolon => TokenKind::Semicolon,
            TokenKind::Comma => TokenKind::Comma,
            TokenKind::Dot => TokenKind::Dot,
            TokenKind::Question => TokenKind::Question,
            TokenKind::Plus => TokenKind::Plus,
            TokenKind::Minus => TokenKind::Minus,
            TokenKind::Arrow => TokenKind::Arrow,
            TokenKind::Star => TokenKind::Star,
            TokenKind::Percent => TokenKind::Percent,
            TokenKind::Slash => TokenKind::Slash,
            TokenKind::Assign => TokenKind::Assign,
            TokenKind::EqEq => TokenKind::EqEq,
            TokenKind::Bang => TokenKind::Bang,
            TokenKind::NotEq => TokenKind::NotEq,
            TokenKind::Greater => TokenKind::Greater,
            TokenKind::GreaterEq => TokenKind::GreaterEq,
            TokenKind::Less => TokenKind::Less,
            TokenKind::LessEq => TokenKind::LessEq,
            TokenKind::AndAnd => TokenKind::AndAnd,
            TokenKind::OrOr => TokenKind::OrOr,
            TokenKind::Eof => TokenKind::Eof,
        }
    }
}

#[derive(Debug)]
pub struct Token {
    pub kind: TokenKind,
    pub span: Span,
}

/// A token as plain values.
pub struct TokenView {
    pub kind: Kind,
    pub span: Span,
}

impl View for Token {
    type V = TokenView;

    open spec fn view(&self) -> TokenView {
        TokenView { kind: self.kind@, span: self.span }
    }
}

impl Token {
    /// A copy of this token.
    pub fn duplicate(&self) -> (r: Token)
        ensures
            r@ == self@,
    {
        Token { kind: self.kind.duplicate(), span: self.span }
    }
}


/// Number of each kind of token, to test a token's kind without its payload.
pub const TAG_IMPORT: u8 = 0;
pub const TAG_BODY: u8 = 1;
pub const TAG_LET: u8 = 2;
pub const TAG_FUNC: u8 = 3;
pub const TAG_RETURN: u8 = 4;
pub const TAG_IF: u8 = 5;
pub const TAG_ELSE: u8 = 6;
pub const TAG_WHILE: u8 = 7;
pub const TAG_DO: u8 = 8;
pub const TAG_FOR: u8 = 9;
pub const TAG_NEW: u8 = 10;
pub const TAG_INT_TYPE: u8 = 11;
pub const TAG_FLOAT_TYPE: u8 = 12;
pub const TAG_STRING_TYPE: u8 = 13;
pub const TAG_BOOL_TYPE: u8 = 14;
pub const TAG_TRUE: u8 = 15;
pub const TAG_FALSE: u8 = 16;
pub const TAG_IDENTIFIER: u8 = 17;
pub const TAG_INT_LITERAL: u8 = 18;
pub const TAG_FLOAT_LITERAL: u8 = 19;
pub const TAG_STRING_LITERAL: u8 = 20;
pub const TAG_L_PAREN: u8 = 21;
pub const TAG_R_PAREN: u8 = 22;
pub const TAG_L_BRACE: u8 = 23;
pub const TAG_R_BRACE: u8 = 24;
pub const TAG_L_BRACKET: u8 = 25;
pub const TAG_R_BRACKET: u8 = 26;
pub const TAG_COLON: u8 = 27;
pub const TAG_SEMICOLON: u8 = 28;
pub const TAG_COMMA: u8 = 29;
pub const TAG_DOT: u8 = 30;
pub const TAG_QUESTION: u8 = 31;
pub const TAG_PLUS: u8 = 32;
pub const TAG_MINUS: u8 = 33;
pub const TAG_ARROW: u8 = 34;
pub const TAG_STAR: u8 = 35;
pub const TAG_PERCENT: u8 = 36;
pub const TAG_SLASH: u8 = 37;
pub const TAG_ASSIGN: u8 = 38;
pub const TAG_EQ_EQ: u8 = 39;
pub const TAG_BANG: u8 = 40;
pub const TAG_NOT_EQ: u8 = 41;
pub const TAG_GREATER: u8 = 42;
pub const TAG_GREATER_EQ: u8 = 43;
pub const TAG_LESS: u8 = 44;
pub const TAG_LESS_EQ: u8 = 45;
pub const TAG_AND_AND: u8 = 46;
pub const TAG_OR_OR: u8 = 47;
pub const TAG_EOF: u8 = 48;

pub open spec fn kind_tag(k: Kind) -> u8 {
    match k {
        Kind::Import => 0,
        Kind::Body => 1,
        Kind::Let => 2,
        Kind::Func => 3,
        Kind::Return => 4,
        Kind::If => 5,
        Kind::Else => 6,
        Kind::While => 7,
        Kind::Do => 8,
        Kind::For => 9,
        Kind::New => 10,
        Kind::IntType => 11,
        Kind::FloatType => 12,
        Kind::StringType => 13,
        Kind::BoolType => 14,
        Kind::True => 15,
        Kind::False => 16,
        Kind::Identifier(_) => 17,
        Kind::IntLiteral(_) => 18,
        Kind::FloatLiteral(_) => 19,
        Kind::StringLiteral(_) => 20,
        Kind::LParen => 21,
        Kind::RParen => 22,
        Kind::LBrace => 23,
        Kind::RBrace => 24,
        Kind::LBracket => 25,
        Kind::RBracket => 26,
        Kind::Colon => 27,
        Kind::Semicolon => 28,
        Kind::Comma => 29,
        Kind::Dot => 30,
        Kind::Question => 31,
        Kind::Plus => 32,
        Kind::Minus => 33,
        Kind::Arrow => 34,
        Kind::Star => 35,
        Kind::Percent => 36,
        Kind::Slash => 37,
        Kind::Assign => 38,
        Kind::EqEq => 39,
        Kind::Bang => 40,
        Kind::NotEq => 41,
        Kind::Greater => 42,
        Kind::GreaterEq => 43,
        Kind::Less => 44,
        Kind::LessEq => 45,
        Kind::AndAnd => 46,
        Kind::OrOr => 47,
        Kind::Eof => 48,
    }
}

impl TokenKind {
    pub fn tag(&self) -> (t: u8)
        ensures
            t == kind_tag(self@),
    {
        match self {
            TokenKind::Import => 0,
            TokenKind::Body => 1,
            TokenKind::Let => 2,
            TokenKind::Func => 3,
            TokenKind::Return => 4,
            TokenKind::If => 5,
            TokenKind::Else => 6,
            TokenKind::While => 7,
            TokenKind::Do => 8,
            TokenKind::For => 9,
            TokenKind::New => 10,
            TokenKind::IntType => 11,
            TokenKind::FloatType => 12,
            TokenKind::StringType => 13,
            TokenKind::BoolType => 14,
            TokenKind::True => 15,
            TokenKind::False => 16,
            TokenKind::Identifier(_) => 17,
            TokenKind::IntLiteral(_) => 18,
            TokenKind::FloatLiteral(_) => 19,
            TokenKind::StringLiteral(_) => 20,
            TokenKind::LParen => 21,
            TokenKind::RParen => 22,
            TokenKind::LBrace => 23,
            TokenKind::RBrace => 24,
            TokenKind::LBracket => 25,
            TokenKind::RBracket => 26,
            TokenKind::Colon => 27,
            TokenKind::Semicolon => 28,
            TokenKind::Comma => 29,
            TokenKind::Dot => 30,
            TokenKind::Question => 31,
            TokenKind::Plus => 32,
            TokenKind::Minus => 33,
            TokenKind::Arrow => 34,
            TokenKind::Star => 35,
            TokenKind::Percent => 36,
            TokenKind::Slash => 37,
            TokenKind::Assign => 38,
            TokenKind::EqEq => 39,
            TokenKind::Bang => 40,
            TokenKind::NotEq => 41,
            TokenKind::Greater => 42,
            TokenKind::GreaterEq => 43,
            TokenKind::Less => 44,
            TokenKind::LessEq => 45,
            TokenKind::AndAnd => 46,
            TokenKind::OrOr => 47,
            TokenKind::Eof => 48,
        }
    }
}

/// Length of a token's string literal, or 0 for other tokens.
pub open spec fn token_str_len(t: TokenView) -> nat {
    match t.kind {
        Kind::StringLiteral(s) => s.len(),
        _ => 0,
    }
}

} // verus!
