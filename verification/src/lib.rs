//! An interpreter core for Kardz, a small stack language whose memory is a
//! deck: a stack of stacks of byte-valued cards.
//!
//! The crate has two halves.
//!
//! - [`parser`] turns a source text into a tree of [`instr::Instr`], over
//!   the tokens that [`lexer`] finds in it. [`parser_laws`] proves that it
//!   is the inverse of writing a program down, and [`transparency`] that
//!   white space and comments change nothing.
//! - [`machine`] executes such a tree one transition at a time against a
//!   [`deck::Deck`], and leaves the reading and writing of characters to its
//!   caller. [`semantics`] says what a program means by its shape alone,
//!   [`agreement`] proves that the machine does just that, and
//!   [`machine_laws`] holds what else is proved of the machine.

pub mod agreement;
pub mod deck;
pub mod instr;
pub mod lexer;
pub mod machine;
pub mod machine_laws;
pub mod parser;
pub mod parser_laws;
pub mod semantics;
pub mod transparency;
