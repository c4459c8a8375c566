//! A translator and a bounded-tape virtual machine for the eight-command
//! tape language: `<` `>` `+` `-` `.` `,` `[` `]`.
//!
//! [`interpreter::Interpreter::build`] turns source text into instructions
//! with resolved jump targets; [`interpreter::Interpreter::execute`] runs
//! them against a tape of 30,000 byte cells and two byte streams.
pub mod folding;
pub mod instruction;
pub mod interpreter;
pub mod laws;
pub mod machine;
pub mod semantics;
pub mod source;
pub mod stream;
pub mod text;
