//! The last-write-wins grammar: flat keys, and each key keeps the value that it was
//! given last.
use std::borrow::Cow;
use vstd::prelude::*;
use crate::pairs::{key_views, copy_keys, decode_opt, decoded_opt, lists_keys_of, opt_view, pairs, values_of, FlatTable};

verus! {

/// What the last-write-wins grammar gives a key: `None` for a key that does not
/// occur, else the percent-decoding of the last value it was given (`None` inside for
/// a last occurrence without `=`).
pub open spec fn last_value(s: Seq<u8>, key: Seq<u8>) -> Option<Option<Seq<u8>>> {
    let vs = values_of(pairs(s), key);
    if vs.len() == 0 {
        None
    } else {
        Some(decoded_opt(vs.last()))
    }
}

/// The view of a looked-up value.
pub open spec fn opt_opt_view<'a>(r: Option<Option<Cow<'a, [u8]>>>) -> Option<Option<Seq<u8>>> {
    match r {
        Some(o) => Some(opt_view(o)),
        None => None,
    }
}

/// A query string parsed under the last-write-wins grammar. Keys are decoded when it
/// is parsed; values are decoded each time they are looked up.
pub struct UrlEncodedQS<'a> {
    pub input: &'a [u8],
    pub table: FlatTable<'a>,
}

impl<'a> UrlEncodedQS<'a> {
    /// The table holds the pairs of the input.
    pub open spec fn wf(&self) -> bool {
        self.table.holds(self.input@)
    }

    /// Parses `slice`.
    pub fn parse(slice: &'a [u8]) -> (r: Self)
        ensures
            r.wf(),
            r.input@ == slice@,
    {
        UrlEncodedQS { input: slice, table: FlatTable::parse(slice) }
    }

    /// The distinct decoded keys, in ascending byte order.
    pub fn keys(&self) -> (r: Vec<Vec<u8>>)
        requires
            self.wf(),
        ensures
            lists_keys_of(key_views(r@), pairs(self.input@)),
    {
        copy_keys(&self.table.keys)
    }

    /// The decoded value that `key` was given last: `None` if `key` does not occur,
    /// `Some(None)` if its last occurrence has no `=`.
    pub fn value(&self, key: &[u8]) -> (r: Option<Option<Cow<'a, [u8]>>>)
        requires
            self.wf(),
        ensures
            opt_opt_view(r) == last_value(self.input@, key@),
            crate::pairs::borrows_when_plain(r, values_of(pairs(self.input@), key@)),
    {
        let vs = self.table.raw_values(key);
        if vs.len() == 0 {
            None
        } else {
            Some(decode_opt(vs[vs.len() - 1]))
        }
    }
}

} // verus!
