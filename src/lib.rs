//! Reads s-expressions and lays them out as text within a target line width.
//!
//! `reader` turns bytes into an owned `Sexp` tree, `printer` lays a tree out,
//! and `laws` and `roundtrip` state and prove what holds across the two.

pub mod sexp;
pub mod printer;
pub mod reader;
pub mod laws;
pub mod roundtrip;

pub use crate::printer::PrettyPrinter;
pub use crate::reader::SexpError;
pub use crate::sexp::Sexp;
