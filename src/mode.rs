//! The choice of grammar, and the rules that binding a parsed value to a typed shape
//! follows whatever the grammar: fixed arity and the nesting budget.
use vstd::prelude::*;
use crate::value::{Error, ErrorKind};

verus! {

/// The grammar used to read a query string.
#[derive(Clone, Copy, Debug, PartialEq, Eq, Structural)]
pub enum ParseMode {
    /// Flat keys; a repeated key keeps its last value; no lists.
    UrlEncoded,
    /// Flat keys; a repeated key gives a list of its values, in order.
    Duplicate,
    /// Flat keys; a value is split into a list at the given byte.
    Delimiter(u8),
    /// Keys with bracketed sub-keys, for nested maps, lists and enums.
    Brackets,
}

/// How many levels of bracketed nesting a decode may descend.
pub const MAX_DEPTH: usize = 64;

/// Whether the grammar can give a key a list of values.
pub open spec fn lists_supported(mode: ParseMode) -> bool {
    !(mode is UrlEncoded)
}

/// Fails with `InvalidType` where the grammar cannot express a list.
pub fn check_list_support(mode: ParseMode) -> (r: Result<(), Error>)
    ensures
        r is Ok <==> lists_supported(mode),
        r matches Err(e) ==> e.kind == ErrorKind::InvalidType,
{
    match mode {
        ParseMode::UrlEncoded => Err(Error::new(ErrorKind::InvalidType).message(
            "lists are not supported by this parse mode".to_owned(),
        )),
        _ => Ok(()),
    }
}

/// Hands over `values` for a fixed-size target of `len` items: `InvalidLength` unless
/// there are exactly that many.
pub fn sized<T>(values: Vec<T>, len: usize) -> (r: Result<Vec<T>, Error>)
    ensures
        r is Ok <==> values@.len() == len,
        r matches Ok(v) ==> v@ == values@,
        r matches Err(e) ==> e.kind == ErrorKind::InvalidLength,
{
    if values.len() == len {
        Ok(values)
    } else {
        Err(Error::new(ErrorKind::InvalidLength).message("invalid length".to_owned()))
    }
}

/// Spends one level of the nesting budget: the budget left after descending one
/// level, or `MaximumDepthReached` when none is left.
pub fn descend(remaining: usize) -> (r: Result<usize, Error>)
    ensures
        r is Ok <==> remaining > 0,
        r matches Ok(n) ==> n == remaining - 1,
        r matches Err(e) ==> e.kind == ErrorKind::MaximumDepthReached,
{
    if remaining == 0 {
        Err(Error::new(ErrorKind::MaximumDepthReached).message(
            "maximum nesting depth reached".to_owned(),
        ))
    } else {
        Ok(remaining - 1)
    }
}

/// A value decoded from a request's query string, as handed to a request handler.
pub struct QueryString<T>(pub T);

impl<T> QueryString<T> {
    /// The decoded value.
    pub fn into_inner(self) -> (r: T)
        ensures
            r == self.0,
    {
        self.0
    }
}

} // verus!
