//! A scanner for `let <identifier> = <unsigned integer>;` statements.
//!
//! The scanner walks the source one character at a time through four phases
//! (keyword, identifier, equals sign, value) and records one binding for each
//! statement it recognises. [`grammar`] holds the mathematical description of
//! that machine, [`parser`] the executable scanner proved against it, and
//! [`laws`] what follows for well-formed input.
pub mod failure;
pub mod grammar;
pub mod laws;
pub mod number;
pub mod parser;
pub mod text;
pub mod value;

pub use failure::ParseFailure;
pub use grammar::ParserState;
pub use parser::Parser;
pub use value::VarType;
