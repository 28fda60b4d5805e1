use vstd::prelude::*;
use crate::token::TokenKind;

verus! {

/// Every way that lexing, parsing or evaluating a line can fail.
#[derive(Debug, PartialEq, Eq)]
pub enum Error {
    /// A character that starts no token, with its position (in characters).
    Lex { ch: char, pos: usize },
    /// The lookahead token does not fit the grammar. `expected` names the one
    /// kind that was required, where a single kind was.
    Syntax { expected: Option<TokenKind>, found: TokenKind },
    /// A division whose right operand evaluated to zero.
    DivideByZero,
    /// A variable that was read before any assignment to it.
    UndefinedVariable(String),
    /// A literal or an intermediate result outside the range of `i32`.
    Overflow,
}

/// The mathematical model of an error: a name is its sequence of characters.
pub enum ErrorView {
    Lex { ch: char, pos: nat },
    Syntax { expected: Option<TokenKind>, found: TokenKind },
    DivideByZero,
    UndefinedVariable(Seq<char>),
    Overflow,
}

impl View for Error {
    type V = ErrorView;

    open spec fn view(&self) -> ErrorView {
        match self {
            Error::Lex { ch, pos } => ErrorView::Lex { ch: *ch, pos: *pos as nat },
            Error::Syntax { expected, found } => ErrorView::Syntax {
                expected: *expected,
                found: *found,
            },
            Error::DivideByZero => ErrorView::DivideByZero,
            Error::UndefinedVariable(name) => ErrorView::UndefinedVariable(name@),
            Error::Overflow => ErrorView::Overflow,
        }
    }
}

/// The model of a result whose error is an `Error`.
pub open spec fn result_view<T: View>(r: Result<T, Error>) -> Result<T::V, ErrorView> {
    match r {
        Ok(v) => Ok(v@),
        Err(e) => Err(e@),
    }
}

/// The model of a result whose error is an `Error` and whose value is kept as it is.
pub open spec fn error_view<T>(r: Result<T, Error>) -> Result<T, ErrorView> {
    match r {
        Ok(v) => Ok(v),
        Err(e) => Err(e@),
    }
}

} // verus!
