//! The token model: the classification of lexical units, the token record
//! with its lexeme and line number, and the reserved-word table.

use vstd::prelude::*;
use vstd::string::StringExecFns;

verus! {

/// The classification of one lexical unit.  Literal kinds carry their
/// payload; every reserved word is a kind of its own, not an identifier plus
/// a lookup.  A number literal's payload is the exact decimal text of the
/// literal; the caller chooses the floating-point width when it parses that
/// text, so the scanner itself stays free of floating point.
#[derive(Debug, PartialEq)]
pub enum TokenType {
    // Single-character tokens
    LeftParen,
    RightParen,
    LeftBrace,
    RightBrace,
    Comma,
    Dot,
    Minus,
    Plus,
    Semicolon,
    Slash,
    Star,
    // One- or two-character operators
    Bang,
    BangEqual,
    Equal,
    EqualEqual,
    Greater,
    GreaterEqual,
    Less,
    LessEqual,
    // Literals
    Literal(LiteralType),
    // Reserved words
    And,
    Class,
    Else,
    False,
    Fun,
    For,
    If,
    Nil,
    Or,
    Print,
    Return,
    Super,
    This,
    True,
    Var,
    While,
    // End of input
    EOF,
}

/// The payload of a literal token.
#[derive(Debug, PartialEq)]
pub enum LiteralType {
    /// The identifier's spelling, exactly as it stands in the source.
    Identifier(String),
    /// The text between the quotes of a string literal, quotes excluded,
    /// embedded newlines included.
    String(String),
    /// The decimal text of a number literal: digits, optionally followed by
    /// `.` and at least one more digit.
    Number(String),
}

/// One scanned token: its kind, the exact substring of the source that
/// produced it (empty for the end-of-input token), and the 1-based line on
/// which it started.
#[derive(Debug, PartialEq)]
pub struct Token {
    pub token_type: TokenType,
    pub lexeme: String,
    pub line: usize,
}

/// Mathematical model of a literal payload: the payload text as a sequence
/// of characters.
pub enum SpecLiteral {
    Identifier(Seq<char>),
    String(Seq<char>),
    Number(Seq<char>),
}

/// Mathematical model of a token kind.
pub enum SpecTokenType {
    LeftParen,
    RightParen,
    LeftBrace,
    RightBrace,
    Comma,
    Dot,
    Minus,
    Plus,
    Semicolon,
    Slash,
    Star,
    Bang,
    BangEqual,
    Equal,
    EqualEqual,
    Greater,
    GreaterEqual,
    Less,
    LessEqual,
    Literal(SpecLiteral),
    And,
    Class,
    Else,
    False,
    Fun,
    For,
    If,
    Nil,
    Or,
    Print,
    Return,
    Super,
    This,
    True,
    Var,
    While,
    EOF,
}

/// Mathematical model of a token.
pub struct SpecToken {
    pub token_type: SpecTokenType,
    pub lexeme: Seq<char>,
    pub line: nat,
}

impl View for LiteralType {
    type V = SpecLiteral;

    open spec fn view(&self) -> SpecLiteral {
        match self {
            LiteralType::Identifier(s) => SpecLiteral::Identifier(s@),
            LiteralType::String(s) => SpecLiteral::String(s@),
            LiteralType::Number(s) => SpecLiteral::Number(s@),
        }
    }
}

impl View for TokenType {
    type V = SpecTokenType;

    open spec fn view(&self) -> SpecTokenType {
        match self {
            TokenType::LeftParen => SpecTokenType::LeftParen,
            TokenType::RightParen => SpecTokenType::RightParen,
            TokenType::LeftBrace => SpecTokenType::LeftBrace,
            TokenType::RightBrace => SpecTokenType::RightBrace,
            TokenType::Comma => SpecTokenType::Comma,
            TokenType::Dot => SpecTokenType::Dot,
            TokenType::Minus => SpecTokenType::Minus,
            TokenType::Plus => SpecTokenType::Plus,
            TokenType::Semicolon => SpecTokenType::Semicolon,
            TokenType::Slash => SpecTokenType::Slash,
            TokenType::Star => SpecTokenType::Star,
            TokenType::Bang => SpecTokenType::Bang,
            TokenType::BangEqual => SpecTokenType::BangEqual,
            TokenType::Equal => SpecTokenType::Equal,
            TokenType::EqualEqual => SpecTokenType::EqualEqual,
            TokenType::Greater => SpecTokenType::Greater,
            TokenType::GreaterEqual => SpecTokenType::GreaterEqual,
            TokenType::Less => SpecTokenType::Less,
            TokenType::LessEqual => SpecTokenType::LessEqual,
            TokenType::Literal(l) => SpecTokenType::Literal(l@),
            TokenType::And => SpecTokenType::And,
            TokenType::Class => SpecTokenType::Class,
            TokenType::Else => SpecTokenType::Else,
            TokenType::False => SpecTokenType::False,
            TokenType::Fun => SpecTokenType::Fun,
            TokenType::For => SpecTokenType::For,
            TokenType::If => SpecTokenType::If,
            TokenType::Nil => SpecTokenType::Nil,
            TokenType::Or => SpecTokenType::Or,
            TokenType::Print => SpecTokenType::Print,
            TokenType::Return => SpecTokenType::Return,
            TokenType::Super => SpecTokenType::Super,
            TokenType::This => SpecTokenType::This,
            TokenType::True => SpecTokenType::True,
            TokenType::Var => SpecTokenType::Var,
            TokenType::While => SpecTokenType::While,
            TokenType::EOF => SpecTokenType::EOF,
        }
    }
}

impl View for Token {
    type V = SpecToken;

    open spec fn view(&self) -> SpecToken {
        SpecToken { token_type: self.token_type@, lexeme: self.lexeme@, line: self.line as nat }
    }
}

impl Clone for LiteralType {
    /// A clone carries the same payload text.
    fn clone(&self) -> (r: Self)
        ensures
            r@ == self@,
    {
        match self {
            LiteralType::Identifier(s) => LiteralType::Identifier(s.clone()),
            LiteralType::String(s) => LiteralType::String(s.clone()),
            LiteralType::Number(s) => LiteralType::Number(s.clone()),
        }
    }
}

impl Clone for TokenType {
    /// A clone models the same kind.
    fn clone(&self) -> (r: Self)
        ensures
            r@ == self@,
    {
        match self {
            TokenType::LeftParen => TokenType::LeftParen,
            TokenType::RightParen => TokenType::RightParen,
            TokenType::LeftBrace => TokenType::LeftBrace,
            TokenType::RightBrace => TokenType::RightBrace,
            TokenType::Comma => TokenType::Comma,
            TokenType::Dot => TokenType::Dot,
            TokenType::Minus => TokenType::Minus,
            TokenType::Plus => TokenType::Plus,
            TokenType::Semicolon => TokenType::Semicolon,
            TokenType::Slash => TokenType::Slash,
            TokenType::Star => TokenType::Star,
            TokenType::Bang => TokenType::Bang,
            TokenType::BangEqual => TokenType::BangEqual,
            TokenType::Equal => TokenType::Equal,
            TokenType::EqualEqual => TokenType::EqualEqual,
            TokenType::Greater => TokenType::Greater,
            TokenType::GreaterEqual => TokenType::GreaterEqual,
            TokenType::Less => TokenType::Less,
            TokenType::LessEqual => TokenType::LessEqual,
            TokenType::Literal(l) => TokenType::Literal(l.clone()),
            TokenType::And => TokenType::And,
            TokenType::Class => TokenType::Class,
            TokenType::Else => TokenType::Else,
            TokenType::False => TokenType::False,
            TokenType::Fun => TokenType::Fun,
            TokenType::For => TokenType::For,
            TokenType::If => TokenType::If,
            TokenType::Nil => TokenType::Nil,
            TokenType::Or => TokenType::Or,
            TokenType::Print => TokenType::Print,
            TokenType::Return => TokenType::Return,
            TokenType::Super => TokenType::Super,
            TokenType::This => TokenType::This,
            TokenType::True => TokenType::True,
            TokenType::Var => TokenType::Var,
            TokenType::While => TokenType::While,
            TokenType::EOF => TokenType::EOF,
        }
    }
}

impl Clone for Token {
    /// A clone models the same token.
    fn clone(&self) -> (r: Self)
        ensures
            r@ == self@,
    {
        Token {
            token_type: self.token_type.clone(),
            lexeme: self.lexeme.clone(),
            line: self.line,
        }
    }
}

impl Token {
    /// Builds a token record from its parts.
    pub fn new(token_type: TokenType, lexeme: String, line: usize) -> (t: Token)
        ensures
            t.token_type == token_type,
            t.lexeme == lexeme,
            t.line == line,
    {
        Token { token_type, lexeme, line }
    }
}

/// The reserved-word table as a mathematical function: the keyword kind for
/// each of the sixteen reserved spellings, `None` for every other spelling.
pub open spec fn spec_keyword(w: Seq<char>) -> Option<SpecTokenType> {
    if w == "and"@ {
        Some(SpecTokenType::And)
    } else if w == "class"@ {
        Some(SpecTokenType::Class)
    } else if w == "else"@ {
        Some(SpecTokenType::Else)
    } else if w == "false"@ {
        Some(SpecTokenType::False)
    } else if w == "fun"@ {
        Some(SpecTokenType::Fun)
    } else if w == "for"@ {
        Some(SpecTokenType::For)
    } else if w == "if"@ {
        Some(SpecTokenType::If)
    } else if w == "nil"@ {
        Some(SpecTokenType::Nil)
    } else if w == "or"@ {
        Some(SpecTokenType::Or)
    } else if w == "print"@ {
        Some(SpecTokenType::Print)
    } else if w == "return"@ {
        Some(SpecTokenType::Return)
    } else if w == "super"@ {
        Some(SpecTokenType::Super)
    } else if w == "this"@ {
        Some(SpecTokenType::This)
    } else if w == "true"@ {
        Some(SpecTokenType::True)
    } else if w == "var"@ {
        Some(SpecTokenType::Var)
    } else if w == "while"@ {
        Some(SpecTokenType::While)
    } else {
        None
    }
}

/// Looks up an identifier's exact spelling in the reserved-word table.
/// Case-sensitive, whole-lexeme match only.
pub fn reserved_to_tokentype(id: &String) -> (r: Option<TokenType>)
    ensures
        match r {
            Some(t) => spec_keyword(id@) == Some(t@),
            None => spec_keyword(id@) is None,
        },
{
    if *id == String::from_str("and") {
        Some(TokenType::And)
    } else if *id == String::from_str("class") {
        Some(TokenType::Class)
    } else if *id == String::from_str("else") {
        Some(TokenType::Else)
    } else if *id == String::from_str("false") {
        Some(TokenType::False)
    } else if *id == String::from_str("fun") {
        Some(TokenType::Fun)
    } else if *id == String::from_str("for") {
        Some(TokenType::For)
    } else if *id == String::from_str("if") {
        Some(TokenType::If)
    } else if *id == String::from_str("nil") {
        Some(TokenType::Nil)
    } else if *id == String::from_str("or") {
        Some(TokenType::Or)
    } else if *id == String::from_str("print") {
        Some(TokenType::Print)
    } else if *id == String::from_str("return") {
        Some(TokenType::Return)
    } else if *id == String::from_str("super") {
        Some(TokenType::Super)
    } else if *id == String::from_str("this") {
        Some(TokenType::This)
    } else if *id == String::from_str("true") {
        Some(TokenType::True)
    } else if *id == String::from_str("var") {
        Some(TokenType::Var)
    } else if *id == String::from_str("while") {
        Some(TokenType::While)
    } else {
        None
    }
}

} // verus!
