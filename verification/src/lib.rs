//! A two-stage JSON reader: a lexer that turns characters into tokens, and a
//! recursive-descent parser that turns tokens into a value tree. Both stages
//! pull their input one item at a time, and both are specified against a
//! mathematical model of what they read.
//!
//! ```text
//! characters --tokenize()--> TokenStream --jsonify()--> JsonStream --next()--> Json
//! ```

pub mod number;
pub mod text;
pub mod lex;
pub mod json;
pub mod buffer;
pub mod parse;
pub mod laws;

pub use crate::json::{Json, Member};
