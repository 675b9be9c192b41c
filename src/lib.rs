//! Decoding of query strings (`key=value&key2=value2`) into grouped, percent-decoded
//! key/value tables, under four grammars: last-write-wins, repeated keys, delimited
//! values and bracketed sub-keys.
pub mod decode;
pub mod pairs;
pub mod urlencoded;
pub mod duplicate;
pub mod delimiter;
pub mod brackets;
pub mod value;
pub mod mode;
pub mod sequence;
pub mod laws;
pub mod access;

pub use mode::ParseMode;
pub use value::{Error, ErrorKind};
