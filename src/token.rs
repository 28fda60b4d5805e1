use vstd::prelude::*;

verus! {

/// The lexical categories of the language, without their payloads.
#[derive(Debug, Clone, Copy, PartialEq, Eq, Structural)]
pub enum TokenKind {
    Integer,
    Plus,
    Minus,
    Multiply,
    Divide,
    LParen,
    RParen,
    Begin,
    End,
    Dot,
    Id,
    Assign,
    Semi,
    Eof,
}

/// One token, as the lexer hands it to the parser.
#[derive(Debug, PartialEq, Eq)]
pub enum Token {
    Integer(i32),
    Plus,
    Minus,
    Multiply,
    Divide,
    LParen,
    RParen,
    Begin,
    End,
    Dot,
    Id(String),
    Assign,
    Semi,
    Eof,
}

/// The mathematical model of a token: an identifier is its sequence of characters.
pub enum TokenView {
    Integer(i32),
    Plus,
    Minus,
    Multiply,
    Divide,
    LParen,
    RParen,
    Begin,
    End,
    Dot,
    Id(Seq<char>),
    Assign,
    Semi,
    Eof,
}

impl TokenView {
    pub open spec fn kind(self) -> TokenKind {
        match self {
            TokenView::Integer(_) => TokenKind::Integer,
            TokenView::Plus => TokenKind::Plus,
            TokenView::Minus => TokenKind::Minus,
            TokenView::Multiply => TokenKind::Multiply,
            TokenView::Divide => TokenKind::Divide,
            TokenView::LParen => TokenKind::LParen,
            TokenView::RParen => TokenKind::RParen,
            TokenView::Begin => TokenKind::Begin,
            TokenView::End => TokenKind::End,
            TokenView::Dot => TokenKind::Dot,
            TokenView::Id(_) => TokenKind::Id,
            TokenView::Assign => TokenKind::Assign,
            TokenView::Semi => TokenKind::Semi,
            TokenView::Eof => TokenKind::Eof,
        }
    }
}

impl View for Token {
    type V = TokenView;

    open spec fn view(&self) -> TokenView {
        match self {
            Token::Integer(v) => TokenView::Integer(*v),
            Token::Plus => TokenView::Plus,
            Token::Minus => TokenView::Minus,
            Token::Multiply => TokenView::Multiply,
            Token::Divide => TokenView::Divide,
            Token::LParen => TokenView::LParen,
            Token::RParen => TokenView::RParen,
            Token::Begin => TokenView::Begin,
            Token::End => TokenView::End,
            Token::Dot => TokenView::Dot,
            Token::Id(s) => TokenView::Id(s@),
            Token::Assign => TokenView::Assign,
            Token::Semi => TokenView::Semi,
            Token::Eof => TokenView::Eof,
        }
    }
}

impl Token {
    /// The category of this token, ignoring its payload.
    pub fn kind(&self) -> (k: TokenKind)
        ensures
            k == self@.kind(),
    {
        match self {
            Token::Integer(_) => TokenKind::Integer,
            Token::Plus => TokenKind::Plus,
            Token::Minus => TokenKind::Minus,
            Token::Multiply => TokenKind::Multiply,
            Token::Divide => TokenKind::Divide,
            Token::LParen => TokenKind::LParen,
            Token::RParen => TokenKind::RParen,
            Token::Begin => TokenKind::Begin,
            Token::End => TokenKind::End,
            Token::Dot => TokenKind::Dot,
            Token::Id(_) => TokenKind::Id,
            Token::Assign => TokenKind::Assign,
            Token::Semi => TokenKind::Semi,
            Token::Eof => TokenKind::Eof,
        }
    }

    /// A representative integer token, for matching by kind.
    pub fn tt_integer() -> (t: Token)
        ensures
            t@ == TokenView::Integer(0),
    {
        Token::Integer(0)
    }

    pub fn tt_plus() -> (t: Token)
        ensures
            t@ == TokenView::Plus,
    {
        Token::Plus
    }

    pub fn tt_minus() -> (t: Token)
        ensures
            t@ == TokenView::Minus,
    {
        Token::Minus
    }

    pub fn tt_multiply() -> (t: Token)
        ensures
            t@ == TokenView::Multiply,
    {
        Token::Multiply
    }

    pub fn tt_divide() -> (t: Token)
        ensures
            t@ == TokenView::Divide,
    {
        Token::Divide
    }

    pub fn tt_lparen() -> (t: Token)
        ensures
            t@ == TokenView::LParen,
    {
        Token::LParen
    }

    pub fn tt_rparen() -> (t: Token)
        ensures
            t@ == TokenView::RParen,
    {
        Token::RParen
    }

    pub fn tt_begin() -> (t: Token)
        ensures
            t@ == TokenView::Begin,
    {
        Token::Begin
    }

    pub fn tt_end() -> (t: Token)
        ensures
            t@ == TokenView::End,
    {
        Token::End
    }

    pub fn tt_dot() -> (t: Token)
        ensures
            t@ == TokenView::Dot,
    {
        Token::Dot
    }

    /// A representative identifier token (with an empty name), for matching by kind.
    pub fn tt_id() -> (t: Token)
        ensures
            t@ == TokenView::Id(Seq::empty()),
    {
        Token::Id(String::new())
    }

    pub fn tt_assign() -> (t: Token)
        ensures
            t@ == TokenView::Assign,
    {
        Token::Assign
    }

    pub fn tt_semi() -> (t: Token)
        ensures
            t@ == TokenView::Semi,
    {
        Token::Semi
    }
}

} // verus!
