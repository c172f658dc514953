//! A protocol-sniffing TCP proxy: its parsers and the decisions of a connection.

pub mod error;
pub mod grammar;
pub mod text;
pub mod parse;
pub mod detect;
pub mod io;
pub mod bound;
pub mod stream;
pub mod collect;
pub mod parser;

pub use crate::parse::Protocol;
