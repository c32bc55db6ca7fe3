//! The token type produced by scanning, its mathematical view, and the
//! lexical error type.

use vstd::prelude::*;

verus! {

/// One lexical unit of the language.
///
/// `Identifier` carries a non-empty run of ASCII letters and digits that
/// starts with a letter and is not a reserved keyword; `Number` carries the
/// value of a run of ASCII decimal digits; `EOC` ("end of computation") is
/// the literal terminator character `.` of a program text.
#[derive(Debug, PartialEq, Eq)]
pub enum Token {
    Identifier(String),
    Number(i32),
    Computation,
    Variable,
    Plus,
    Minus,
    Times,
    Divide,
    Remainder,
    Assignment,
    Openpar,
    Closepar,
    Semicolon,
    EOC,
}

/// The mathematical value of a [`Token`]: an identifier's name as a
/// character sequence and a number as an unbounded integer, so that
/// contracts can speak of tokens without executable types.
pub ghost enum TokenView {
    Identifier(Seq<char>),
    Number(int),
    Computation,
    Variable,
    Plus,
    Minus,
    Times,
    Divide,
    Remainder,
    Assignment,
    Openpar,
    Closepar,
    Semicolon,
    EOC,
}

impl View for Token {
    type V = TokenView;

    open spec fn view(&self) -> TokenView {
        match self {
            Token::Identifier(name) => TokenView::Identifier(name@),
            Token::Number(value) => TokenView::Number(*value as int),
            Token::Computation => TokenView::Computation,
            Token::Variable => TokenView::Variable,
            Token::Plus => TokenView::Plus,
            Token::Minus => TokenView::Minus,
            Token::Times => TokenView::Times,
            Token::Divide => TokenView::Divide,
            Token::Remainder => TokenView::Remainder,
            Token::Assignment => TokenView::Assignment,
            Token::Openpar => TokenView::Openpar,
            Token::Closepar => TokenView::Closepar,
            Token::Semicolon => TokenView::Semicolon,
            Token::EOC => TokenView::EOC,
        }
    }
}

/// A lexical error. Every error is fatal to the scan attempt that raised
/// it: the tokenizer reports it and leaves its cursor where it stood.
#[derive(Clone, Copy, Debug, PartialEq, Eq, Structural)]
pub enum LexError {
    /// `<` was read but the character after it is not `-`.
    MalformedAssignment,
    /// A character that starts no token: not whitespace, not a letter or
    /// digit, not one of the symbol characters, not `<`.
    UnexpectedCharacter,
    /// A digit run whose value does not fit a 32-bit signed integer.
    NumberOverflow,
    /// The scan reached the end of the input before finding a token, or
    /// `<` is the last character of the input.
    OutOfBounds,
}

} // verus!
