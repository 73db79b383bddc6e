use vstd::prelude::*;

pub mod errors;
pub mod eval;
pub mod function;
pub mod lexer;
pub mod number;
pub mod parser;

pub use errors::Error;
pub use eval::Calculator;
pub use parser::Parser;

verus! {

} // verus!
