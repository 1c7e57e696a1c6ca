use vstd::prelude::*;

verus! {

/// Position of a token in the source: character offsets and the line on which it ends.
#[derive(Clone, Copy, Debug, PartialEq, Eq, Structural)]
pub struct Span {
    pub start: usize,
    pub end: usize,
    pub line: usize,
}

/// The kind of a token. `S` is the text type: `String` in executable code,
/// `Seq<char>` in specifications. A number literal keeps the digits it was written with.
#[derive(Debug)]
pub enum TokenKind<S> {
    Number(S),
    StringLit(S),
    Ident(S),
    LParen,
    RParen,
    LBrace,
    RBrace,
    LBracket,
    RBracket,
    Semicolon,
    Comma,
    Colon,
    ColonColon,
    Dot,
    Plus,
    PlusEq,
    PlusPlus,
    Minus,
    MinusEq,
    MinusMinus,
    Star,
    StarEq,
    StarStar,
    Slash,
    SlashEq,
    Percent,
    Eq,
    EqEq,
    FatArrow,
    Bang,
    BangEq,
    Lt,
    LtEq,
    LtLt,
    Gt,
    GtEq,
    GtGt,
    And,
    Ampersand,
    Or,
    Pipe,
    Caret,
    Tilde,
    Fn,
    Let,
    If,
    Else,
    While,
    Loop,
    For,
    Return,
    Thread,
    Define,
    Break,
    Continue,
    This,
    Include,
    As,
    Using,
    True,
    False,
    Nil,
    Eof,
}

/// The abstract view of a token kind: its text payload taken by its character sequence.
pub open spec fn kind_view(k: TokenKind<String>) -> TokenKind<Seq<char>> {
    match k {
        TokenKind::Number(s) => TokenKind::Number(s@),
        TokenKind::StringLit(s) => TokenKind::StringLit(s@),
        TokenKind::Ident(s) => TokenKind::Ident(s@),
        TokenKind::LParen => TokenKind::LParen,
        TokenKind::RParen => TokenKind::RParen,
        TokenKind::LBrace => TokenKind::LBrace,
        TokenKind::RBrace => TokenKind::RBrace,
        TokenKind::LBracket => TokenKind::LBracket,
        TokenKind::RBracket => TokenKind::RBracket,
        TokenKind::Semicolon => TokenKind::Semicolon,
        TokenKind::Comma => TokenKind::Comma,
        TokenKind::Colon => TokenKind::Colon,
        TokenKind::ColonColon => TokenKind::ColonColon,
        TokenKind::Dot => TokenKind::Dot,
        TokenKind::Plus => TokenKind::Plus,
        TokenKind::PlusEq => TokenKind::PlusEq,
        TokenKind::PlusPlus => TokenKind::PlusPlus,
        TokenKind::Minus => TokenKind::Minus,
        TokenKind::MinusEq => TokenKind::MinusEq,
        TokenKind::MinusMinus => TokenKind::MinusMinus,
        TokenKind::Star => TokenKind::Star,
        TokenKind::StarEq => TokenKind::StarEq,
        TokenKind::StarStar => TokenKind::StarStar,
        TokenKind::Slash => TokenKind::Slash,
        TokenKind::SlashEq => TokenKind::SlashEq,
        TokenKind::Percent => TokenKind::Percent,
        TokenKind::Eq => TokenKind::Eq,
        TokenKind::EqEq => TokenKind::EqEq,
        TokenKind::FatArrow => TokenKind::FatArrow,
        TokenKind::Bang => TokenKind::Bang,
        TokenKind::BangEq => TokenKind::BangEq,
        TokenKind::Lt => TokenKind::Lt,
        TokenKind::LtEq => TokenKind::LtEq,
        TokenKind::LtLt => TokenKind::LtLt,
        TokenKind::Gt => TokenKind::Gt,
        TokenKind::GtEq => TokenKind::GtEq,
        TokenKind::GtGt => TokenKind::GtGt,
        TokenKind::And => TokenKind::And,
        TokenKind::Ampersand => TokenKind::Ampersand,
        TokenKind::Or => TokenKind::Or,
        TokenKind::Pipe => TokenKind::Pipe,
        TokenKind::Caret => TokenKind::Caret,
        TokenKind::Tilde => TokenKind::Tilde,
        TokenKind::Fn => TokenKind::Fn,
        TokenKind::Let => TokenKind::Let,
        TokenKind::If => TokenKind::If,
        TokenKind::Else => TokenKind::Else,
        TokenKind::While => TokenKind::While,
        TokenKind::Loop => TokenKind::Loop,
        TokenKind::For => TokenKind::For,
        TokenKind::Return => TokenKind::Return,
        TokenKind::Thread => TokenKind::Thread,
        TokenKind::Define => TokenKind::Define,
        TokenKind::Break => TokenKind::Break,
        TokenKind::Continue => TokenKind::Continue,
        TokenKind::This => TokenKind::This,
        TokenKind::Include => TokenKind::Include,
        TokenKind::As => TokenKind::As,
        TokenKind::Using => TokenKind::Using,
        TokenKind::True => TokenKind::True,
        TokenKind::False => TokenKind::False,
        TokenKind::Nil => TokenKind::Nil,
        TokenKind::Eof => TokenKind::Eof,
    }
}

/// A number identifying the variant of a token kind, ignoring its payload.
pub open spec fn kind_tag<S>(k: TokenKind<S>) -> nat {
    match k {
        TokenKind::Number(_) => 0,
        TokenKind::StringLit(_) => 1,
        TokenKind::Ident(_) => 2,
        TokenKind::LParen => 3,
        TokenKind::RParen => 4,
        TokenKind::LBrace => 5,
        TokenKind::RBrace => 6,
        TokenKind::LBracket => 7,
        TokenKind::RBracket => 8,
        TokenKind::Semicolon => 9,
        TokenKind::Comma => 10,
        TokenKind::Colon => 11,
        TokenKind::ColonColon => 12,
        TokenKind::Dot => 13,
        TokenKind::Plus => 14,
        TokenKind::PlusEq => 15,
        TokenKind::PlusPlus => 16,
        TokenKind::Minus => 17,
        TokenKind::MinusEq => 18,
        TokenKind::MinusMinus => 19,
        TokenKind::Star => 20,
        TokenKind::StarEq => 21,
        TokenKind::StarStar => 22,
        TokenKind::Slash => 23,
        TokenKind::SlashEq => 24,
        TokenKind::Percent => 25,
        TokenKind::Eq => 26,
        TokenKind::EqEq => 27,
        TokenKind::FatArrow => 28,
        TokenKind::Bang => 29,
        TokenKind::BangEq => 30,
        TokenKind::Lt => 31,
        TokenKind::LtEq => 32,
        TokenKind::LtLt => 33,
        TokenKind::Gt => 34,
        TokenKind::GtEq => 35,
        TokenKind::GtGt => 36,
        TokenKind::And => 37,
        TokenKind::Ampersand => 38,
        TokenKind::Or => 39,
        TokenKind::Pipe => 40,
        TokenKind::Caret => 41,
        TokenKind::Tilde => 42,
        TokenKind::Fn => 43,
        TokenKind::Let => 44,
        TokenKind::If => 45,
        TokenKind::Else => 46,
        TokenKind::While => 47,
        TokenKind::Loop => 48,
        TokenKind::For => 49,
        TokenKind::Return => 50,
        TokenKind::Thread => 51,
        TokenKind::Define => 52,
        TokenKind::Break => 53,
        TokenKind::Continue => 54,
        TokenKind::This => 55,
        TokenKind::Include => 56,
        TokenKind::As => 57,
        TokenKind::Using => 58,
        TokenKind::True => 59,
        TokenKind::False => 60,
        TokenKind::Nil => 61,
        TokenKind::Eof => 62,
    }
}

impl<S> TokenKind<S> {
    /// The variant number of this kind (see `kind_tag`).
    pub fn tag(&self) -> (t: u8)
        ensures t as nat == kind_tag(*self),
    {
        match self {
            TokenKind::Number(_) => 0,
            TokenKind::StringLit(_) => 1,
            TokenKind::Ident(_) => 2,
            TokenKind::LParen => 3,
            TokenKind::RParen => 4,
            TokenKind::LBrace => 5,
            TokenKind::RBrace => 6,
            TokenKind::LBracket => 7,
            TokenKind::RBracket => 8,
            TokenKind::Semicolon => 9,
            TokenKind::Comma => 10,
            TokenKind::Colon => 11,
            TokenKind::ColonColon => 12,
            TokenKind::Dot => 13,
            TokenKind::Plus => 14,
            TokenKind::PlusEq => 15,
            TokenKind::PlusPlus => 16,
            TokenKind::Minus => 17,
            TokenKind::MinusEq => 18,
            TokenKind::MinusMinus => 19,
            TokenKind::Star => 20,
            TokenKind::StarEq => 21,
            TokenKind::StarStar => 22,
            TokenKind::Slash => 23,
            TokenKind::SlashEq => 24,
            TokenKind::Percent => 25,
            TokenKind::Eq => 26,
            TokenKind::EqEq => 27,
            TokenKind::FatArrow => 28,
            TokenKind::Bang => 29,
            TokenKind::BangEq => 30,
            TokenKind::Lt => 31,
            TokenKind::LtEq => 32,
            TokenKind::LtLt => 33,
            TokenKind::Gt => 34,
            TokenKind::GtEq => 35,
            TokenKind::GtGt => 36,
            TokenKind::And => 37,
            TokenKind::Ampersand => 38,
            TokenKind::Or => 39,
            TokenKind::Pipe => 40,
            TokenKind::Caret => 41,
            TokenKind::Tilde => 42,
            TokenKind::Fn => 43,
            TokenKind::Let => 44,
            TokenKind::If => 45,
            TokenKind::Else => 46,
            TokenKind::While => 47,
            TokenKind::Loop => 48,
            TokenKind::For => 49,
            TokenKind::Return => 50,
            TokenKind::Thread => 51,
            TokenKind::Define => 52,
            TokenKind::Break => 53,
            TokenKind::Continue => 54,
            TokenKind::This => 55,
            TokenKind::Include => 56,
            TokenKind::As => 57,
            TokenKind::Using => 58,
            TokenKind::True => 59,
            TokenKind::False => 60,
            TokenKind::Nil => 61,
            TokenKind::Eof => 62,
        }
    }
}

impl TokenKind<String> {
    /// A copy of this kind, with the same view.
    pub fn duplicate(&self) -> (r: TokenKind<String>)
        ensures kind_view(r) == kind_view(*self),
    {
        match self {
            TokenKind::Number(s) => TokenKind::Number(s.clone()),
            TokenKind::StringLit(s) => TokenKind::StringLit(s.clone()),
            TokenKind::Ident(s) => TokenKind::Ident(s.clone()),
            TokenKind::LParen => TokenKind::LParen,
            TokenKind::RParen => TokenKind::RParen,
            TokenKind::LBrace => TokenKind::LBrace,
            TokenKind::RBrace => TokenKind::RBrace,
            TokenKind::LBracket => TokenKind::LBracket,
            TokenKind::RBracket => TokenKind::RBracket,
            TokenKind::Semicolon => TokenKind::Semicolon,
            TokenKind::Comma => TokenKind::Comma,
            TokenKind::Colon => TokenKind::Colon,
            TokenKind::ColonColon => TokenKind::ColonColon,
            TokenKind::Dot => TokenKind::Dot,
            TokenKind::Plus => TokenKind::Plus,
            TokenKind::PlusEq => TokenKind::PlusEq,
            TokenKind::PlusPlus => TokenKind::PlusPlus,
            TokenKind::Minus => TokenKind::Minus,
            TokenKind::MinusEq => TokenKind::MinusEq,
            TokenKind::MinusMinus => TokenKind::MinusMinus,
            TokenKind::Star => TokenKind::Star,
            TokenKind::StarEq => TokenKind::StarEq,
            TokenKind::StarStar => TokenKind::StarStar,
            TokenKind::Slash => TokenKind::Slash,
            TokenKind::SlashEq => TokenKind::SlashEq,
            TokenKind::Percent => TokenKind::Percent,
            TokenKind::Eq => TokenKind::Eq,
            TokenKind::EqEq => TokenKind::EqEq,
            TokenKind::FatArrow => TokenKind::FatArrow,
            TokenKind::Bang => TokenKind::Bang,
            TokenKind::BangEq => TokenKind::BangEq,
            TokenKind::Lt => TokenKind::Lt,
            TokenKind::LtEq => TokenKind::LtEq,
            TokenKind::LtLt => TokenKind::LtLt,
            TokenKind::Gt => TokenKind::Gt,
            TokenKind::GtEq => TokenKind::GtEq,
            TokenKind::GtGt => TokenKind::GtGt,
            TokenKind::And => TokenKind::And,
            TokenKind::Ampersand => TokenKind::Ampersand,
            TokenKind::Or => TokenKind::Or,
            TokenKind::Pipe => TokenKind::Pipe,
            TokenKind::Caret => TokenKind::Caret,
            TokenKind::Tilde => TokenKind::Tilde,
            TokenKind::Fn => TokenKind::Fn,
            TokenKind::Let => TokenKind::Let,
            TokenKind::If => TokenKind::If,
            TokenKind::Else => TokenKind::Else,
            TokenKind::While => TokenKind::While,
            TokenKind::Loop => TokenKind::Loop,
            TokenKind::For => TokenKind::For,
            TokenKind::Return => TokenKind::Return,
            TokenKind::Thread => TokenKind::Thread,
            TokenKind::Define => TokenKind::Define,
            TokenKind::Break => TokenKind::Break,
            TokenKind::Continue => TokenKind::Continue,
            TokenKind::This => TokenKind::This,
            TokenKind::Include => TokenKind::Include,
            TokenKind::As => TokenKind::As,
            TokenKind::Using => TokenKind::Using,
            TokenKind::True => TokenKind::True,
            TokenKind::False => TokenKind::False,
            TokenKind::Nil => TokenKind::Nil,
            TokenKind::Eof => TokenKind::Eof,
        }
    }
}

/// A token: its kind and where it stands in the source.
#[derive(Debug)]
pub struct Token {
    pub kind: TokenKind<String>,
    pub span: Span,
}

/// The abstract view of a token.
pub open spec fn token_view(t: Token) -> (TokenKind<Seq<char>>, Span) {
    (kind_view(t.kind), t.span)
}

/// The abstract view of a sequence of tokens.
pub open spec fn tokens_view(ts: Seq<Token>) -> Seq<(TokenKind<Seq<char>>, Span)> {
    ts.map_values(|t: Token| token_view(t))
}

impl Token {
    /// A copy of this token, with the same view.
    pub fn duplicate(&self) -> (r: Token)
        ensures token_view(r) == token_view(*self),
    {
        Token { kind: self.kind.duplicate(), span: self.span }
    }
}

} // verus!
