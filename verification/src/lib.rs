//! Lexical analysis for a small imperative expression language
//! (`computation ... var ... <- ... ;` programs ended by `.`).
//!
//! The library scans a source text, held as a byte sequence, into discrete
//! tokens: keywords, identifiers, decimal numbers, arithmetic operators, the
//! two-character assignment arrow `<-`, parentheses, `;`, and the terminator
//! `.`. Scanning is a pure function of the input text and the cursor; the
//! spec function [`scan::token_at`] states exactly which token (or which
//! lexical error) each scan step yields, and every public operation is
//! verified against it.

pub mod laws;
pub mod scan;
pub mod token;
pub mod tokenizer;

pub use token::LexError;
pub use token::Token;
pub use token::TokenView;
pub use tokenizer::Tokenizer;
