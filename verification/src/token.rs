use vstd::prelude::*;

verus! {

/// The kinds of lexical tokens of Lox.
///
/// `String` carries the text between the quotes, `Identifier` the name, and
/// `Number` the literal's digits (with the fractional part, if any), which a
/// caller turns into a floating-point value.
#[derive(Debug, Clone)]
pub enum TokenType {
    LeftParen,
    RightParen,
    LeftBrace,
    RightBrace,
    Comma,
    Dot,
    Minus,
    Plus,
    Semicolon,
    Slash,
    Star,
    Bang,
    BangEqual,
    Equal,
    EqualEqual,
    Greater,
    GreaterEqual,
    Less,
    LessEqual,
    Identifier(String),
    String(String),
    Number(String),
    And,
    Class,
    Else,
    False,
    Fun,
    For,
    If,
    Nil,
    Or,
    Print,
    Return,
    Super,
    This,
    True,
    Var,
    While,
    Eof,
}

/// The mathematical model of a `TokenType`: text payloads become sequences
/// of characters.
pub enum SpecTokenType {
    LeftParen,
    RightParen,
    LeftBrace,
    RightBrace,
    Comma,
    Dot,
    Minus,
    Plus,
    Semicolon,
    Slash,
    Star,
    Bang,
    BangEqual,
    Equal,
    EqualEqual,
    Greater,
    GreaterEqual,
    Less,
    LessEqual,
    Identifier(Seq<char>),
    String(Seq<char>),
    Number(Seq<char>),
    And,
    Class,
    Else,
    False,
    Fun,
    For,
    If,
    Nil,
    Or,
    Print,
    Return,
    Super,
    This,
    True,
    Var,
    While,
    Eof,
}

impl View for TokenType {
    type V = SpecTokenType;

    open spec fn view(&self) -> SpecTokenType {
        match self {
            TokenType::LeftParen => SpecTokenType::LeftParen,
            TokenType::RightParen => SpecTokenType::RightParen,
            TokenType::LeftBrace => SpecTokenType::LeftBrace,
            TokenType::RightBrace => SpecTokenType::RightBrace,
            TokenType::Comma => SpecTokenType::Comma,
            TokenType::Dot => SpecTokenType::Dot,
            TokenType::Minus => SpecTokenType::Minus,
            TokenType::Plus => SpecTokenType::Plus,
            TokenType::Semicolon => SpecTokenType::Semicolon,
            TokenType::Slash => SpecTokenType::Slash,
            TokenType::Star => SpecTokenType::Star,
            TokenType::Bang => SpecTokenType::Bang,
            TokenType::BangEqual => SpecTokenType::BangEqual,
            TokenType::Equal => SpecTokenType::Equal,
            TokenType::EqualEqual => SpecTokenType::EqualEqual,
            TokenType::Greater => SpecTokenType::Greater,
            TokenType::GreaterEqual => SpecTokenType::GreaterEqual,
            TokenType::Less => SpecTokenType::Less,
            TokenType::LessEqual => SpecTokenType::LessEqual,
            TokenType::Identifier(s) => SpecTokenType::Identifier(s@),
            TokenType::String(s) => SpecTokenType::String(s@),
            TokenType::Number(s) => SpecTokenType::Number(s@),
            TokenType::And => SpecTokenType::And,
            TokenType::Class => SpecTokenType::Class,
            TokenType::Else => SpecTokenType::Else,
            TokenType::False => SpecTokenType::False,
            TokenType::Fun => SpecTokenType::Fun,
            TokenType::For => SpecTokenType::For,
            TokenType::If => SpecTokenType::If,
            TokenType::Nil => SpecTokenType::Nil,
            TokenType::Or => SpecTokenType::Or,
            TokenType::Print => SpecTokenType::Print,
            TokenType::Return => SpecTokenType::Return,
            TokenType::Super => SpecTokenType::Super,
            TokenType::This => SpecTokenType::This,
            TokenType::True => SpecTokenType::True,
            TokenType::Var => SpecTokenType::Var,
            TokenType::While => SpecTokenType::While,
            TokenType::Eof => SpecTokenType::Eof,
        }
    }
}

/// A number that tells the kinds of token apart, payloads aside.
pub open spec fn spec_tag(t: SpecTokenType) -> u8 {
    match t {
        SpecTokenType::LeftParen => 0,
        SpecTokenType::RightParen => 1,
        SpecTokenType::LeftBrace => 2,
        SpecTokenType::RightBrace => 3,
        SpecTokenType::Comma => 4,
        SpecTokenType::Dot => 5,
        SpecTokenType::Minus => 6,
        SpecTokenType::Plus => 7,
        SpecTokenType::Semicolon => 8,
        SpecTokenType::Slash => 9,
        SpecTokenType::Star => 10,
        SpecTokenType::Bang => 11,
        SpecTokenType::BangEqual => 12,
        SpecTokenType::Equal => 13,
        SpecTokenType::EqualEqual => 14,
        SpecTokenType::Greater => 15,
        SpecTokenType::GreaterEqual => 16,
        SpecTokenType::Less => 17,
        SpecTokenType::LessEqual => 18,
        SpecTokenType::Identifier(_) => 19,
        SpecTokenType::String(_) => 20,
        SpecTokenType::Number(_) => 21,
        SpecTokenType::And => 22,
        SpecTokenType::Class => 23,
        SpecTokenType::Else => 24,
        SpecTokenType::False => 25,
        SpecTokenType::Fun => 26,
        SpecTokenType::For => 27,
        SpecTokenType::If => 28,
        SpecTokenType::Nil => 29,
        SpecTokenType::Or => 30,
        SpecTokenType::Print => 31,
        SpecTokenType::Return => 32,
        SpecTokenType::Super => 33,
        SpecTokenType::This => 34,
        SpecTokenType::True => 35,
        SpecTokenType::Var => 36,
        SpecTokenType::While => 37,
        SpecTokenType::Eof => 38,
    }
}

/// Two kinds of token with the same tag and no payload are the same kind.
pub proof fn lemma_tag_determines_plain_kind(a: SpecTokenType, b: SpecTokenType)
    requires
        spec_tag(a) == spec_tag(b),
        !(a is Identifier || a is String || a is Number),
    ensures
        a == b,
{
}

impl TokenType {
    pub(crate) fn tag(&self) -> (r: u8)
        ensures
            r == spec_tag(self@),
    {
        match self {
            TokenType::LeftParen => 0,
            TokenType::RightParen => 1,
            TokenType::LeftBrace => 2,
            TokenType::RightBrace => 3,
            TokenType::Comma => 4,
            TokenType::Dot => 5,
            TokenType::Minus => 6,
            TokenType::Plus => 7,
            TokenType::Semicolon => 8,
            TokenType::Slash => 9,
            TokenType::Star => 10,
            TokenType::Bang => 11,
            TokenType::BangEqual => 12,
            TokenType::Equal => 13,
            TokenType::EqualEqual => 14,
            TokenType::Greater => 15,
            TokenType::GreaterEqual => 16,
            TokenType::Less => 17,
            TokenType::LessEqual => 18,
            TokenType::Identifier(_) => 19,
            TokenType::String(_) => 20,
            TokenType::Number(_) => 21,
            TokenType::And => 22,
            TokenType::Class => 23,
            TokenType::Else => 24,
            TokenType::False => 25,
            TokenType::Fun => 26,
            TokenType::For => 27,
            TokenType::If => 28,
            TokenType::Nil => 29,
            TokenType::Or => 30,
            TokenType::Print => 31,
            TokenType::Return => 32,
            TokenType::Super => 33,
            TokenType::This => 34,
            TokenType::True => 35,
            TokenType::Var => 36,
            TokenType::While => 37,
            TokenType::Eof => 38,
        }
    }

    /// Whether two token types are equal, payloads included.
    pub fn same_as(&self, other: &TokenType) -> (r: bool)
        ensures
            r == (self@ == other@),
    {
        match (self, other) {
            (TokenType::Identifier(a), TokenType::Identifier(b)) => a.eq(b),
            (TokenType::String(a), TokenType::String(b)) => a.eq(b),
            (TokenType::Number(a), TokenType::Number(b)) => a.eq(b),
            (TokenType::Identifier(_), _) => false,
            (TokenType::String(_), _) => false,
            (TokenType::Number(_), _) => false,
            _ => {
                let r = self.tag() == other.tag();
                proof {
                    if r {
                        lemma_tag_determines_plain_kind(self@, other@);
                    }
                }
                r
            }
        }
    }

    /// A copy of this token type.
    pub fn duplicate(&self) -> (r: TokenType)
        ensures
            r == *self,
    {
        match self {
            TokenType::LeftParen => TokenType::LeftParen,
            TokenType::RightParen => TokenType::RightParen,
            TokenType::LeftBrace => TokenType::LeftBrace,
            TokenType::RightBrace => TokenType::RightBrace,
            TokenType::Comma => TokenType::Comma,
            TokenType::Dot => TokenType::Dot,
            TokenType::Minus => TokenType::Minus,
            TokenType::Plus => TokenType::Plus,
            TokenType::Semicolon => TokenType::Semicolon,
            TokenType::Slash => TokenType::Slash,
            TokenType::Star => TokenType::Star,
            TokenType::Bang => TokenType::Bang,
            TokenType::BangEqual => TokenType::BangEqual,
            TokenType::Equal => TokenType::Equal,
            TokenType::EqualEqual => TokenType::EqualEqual,
            TokenType::Greater => TokenType::Greater,
            TokenType::GreaterEqual => TokenType::GreaterEqual,
            TokenType::Less => TokenType::Less,
            TokenType::LessEqual => TokenType::LessEqual,
            TokenType::Identifier(s) => TokenType::Identifier(s.clone()),
            TokenType::String(s) => TokenType::String(s.clone()),
            TokenType::Number(s) => TokenType::Number(s.clone()),
            TokenType::And => TokenType::And,
            TokenType::Class => TokenType::Class,
            TokenType::Else => TokenType::Else,
            TokenType::False => TokenType::False,
            TokenType::Fun => TokenType::Fun,
            TokenType::For => TokenType::For,
            TokenType::If => TokenType::If,
            TokenType::Nil => TokenType::Nil,
            TokenType::Or => TokenType::Or,
            TokenType::Print => TokenType::Print,
            TokenType::Return => TokenType::Return,
            TokenType::Super => TokenType::Super,
            TokenType::This => TokenType::This,
            TokenType::True => TokenType::True,
            TokenType::Var => TokenType::Var,
            TokenType::While => TokenType::While,
            TokenType::Eof => TokenType::Eof,
        }
    }
}

/// A token: its kind, the source text it was read from, and the line it ends on.
#[derive(Debug, Clone)]
pub struct Token {
    pub token_type: TokenType,
    pub lexeme: String,
    pub line: usize,
}

/// The mathematical model of a `Token`.
pub struct SpecToken {
    pub kind: SpecTokenType,
    pub lexeme: Seq<char>,
    pub line: nat,
}

impl View for Token {
    type V = SpecToken;

    open spec fn view(&self) -> SpecToken {
        SpecToken { kind: self.token_type@, lexeme: self.lexeme@, line: self.line as nat }
    }
}

impl Token {
    /// A copy of this token.
    pub fn duplicate(&self) -> (r: Token)
        ensures
            r == *self,
    {
        Token { token_type: self.token_type.duplicate(), lexeme: self.lexeme.clone(), line: self.line }
    }
}

} // verus!
