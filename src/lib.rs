//! Compiles a compact pattern language into slots and enumerates every string
//! it describes, one combination at a time.
pub mod cursor;
pub mod laws;
pub mod program;
pub mod range;
pub mod request;
pub mod syntax;
pub mod tokenizer;

pub use cursor::{Iter, MAX_COMBINATION};
pub use program::Parser;
pub use request::request;
