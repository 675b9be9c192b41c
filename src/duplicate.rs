//! The repeated-key grammar: flat keys, and every value that a key was given is kept,
//! in the order of the input.
use std::borrow::Cow;
use vstd::prelude::*;
use crate::decode::decoded;
use crate::pairs::{key_views, copy_keys, decode_opt, decoded_opt, lists_keys_of, opt_view, pairs, values_of, FlatTable};
use crate::urlencoded::{last_value, opt_opt_view};

verus! {

/// The percent-decodings of the values that `key` was given, in the order of the
/// input, or `None` when `key` does not occur.
pub open spec fn all_values(s: Seq<u8>, key: Seq<u8>) -> Option<Seq<Option<Seq<u8>>>> {
    let vs = values_of(pairs(s), key);
    if vs.len() == 0 {
        None
    } else {
        Some(vs.map_values(|v: Option<Seq<u8>>| decoded_opt(v)))
    }
}

/// The view of a list of looked-up values.
pub open spec fn opt_list_view<'a>(r: Option<Vec<Option<Cow<'a, [u8]>>>>) -> Option<Seq<Option<Seq<u8>>>> {
    match r {
        Some(l) => Some(l@.map_values(|o: Option<Cow<'a, [u8]>>| opt_view(o))),
        None => None,
    }
}

/// A query string parsed under the repeated-key grammar.
pub struct DuplicateQS<'a> {
    pub input: &'a [u8],
    pub table: FlatTable<'a>,
}

impl<'a> DuplicateQS<'a> {
    /// The table holds the pairs of the input.
    pub open spec fn wf(&self) -> bool {
        self.table.holds(self.input@)
    }

    /// Parses `slice`.
    pub fn parse(slice: &'a [u8]) -> (r: Self)
        ensures
            r.wf(),
            r.input@ == slice@,
    {
        DuplicateQS { input: slice, table: FlatTable::parse(slice) }
    }

    /// The distinct decoded keys, in ascending byte order.
    pub fn keys(&self) -> (r: Vec<Vec<u8>>)
        requires
            self.wf(),
        ensures
            lists_keys_of(key_views(r@), pairs(self.input@)),
    {
        copy_keys(&self.table.keys)
    }

    /// Every value that `key` was given, decoded, in the order of the input.
    pub fn values(&self, key: &[u8]) -> (r: Option<Vec<Option<Cow<'a, [u8]>>>>)
        requires
            self.wf(),
        ensures
            opt_list_view(r) == all_values(self.input@, key@),
    {
        let vs = self.table.raw_values(key);
        if vs.len() == 0 {
            return None;
        }
        let ghost raw = vs@.map_values(|o: Option<&'a [u8]>| crate::pairs::opt_slice_view(o));
        let mut out: Vec<Option<Cow<'a, [u8]>>> = Vec::new();
        let mut i: usize = 0;
        while i < vs.len()
            invariant
                i <= vs@.len(),
                raw == vs@.map_values(|o: Option<&'a [u8]>| crate::pairs::opt_slice_view(o)),
                out@.map_values(|o: Option<Cow<'a, [u8]>>| opt_view(o)) == raw.take(i as int).map_values(
                    |v: Option<Seq<u8>>| decoded_opt(v),
                ),
            decreases vs.len() - i,
        {
            let ghost before = out@;
            let d = decode_opt(vs[i]);
            out.push(d);
            assert(raw[i as int] == crate::pairs::opt_slice_view(vs@[i as int]));
            assert(out@.map_values(|o: Option<Cow<'a, [u8]>>| opt_view(o)) =~= before.map_values(
                |o: Option<Cow<'a, [u8]>>| opt_view(o),
            ).push(decoded_opt(raw[i as int])));
            assert(raw.take(i as int + 1) =~= raw.take(i as int).push(raw[i as int]));
            i += 1;
            assert(out@.map_values(|o: Option<Cow<'a, [u8]>>| opt_view(o)) =~= raw.take(i as int).map_values(
                |v: Option<Seq<u8>>| decoded_opt(v),
            ));
        }
        assert(raw.take(i as int) =~= raw);
        Some(out)
    }

    /// The decoded value that `key` was given last: `None` if `key` does not occur,
    /// `Some(None)` if its last occurrence has no `=`.
    pub fn value(&self, key: &[u8]) -> (r: Option<Option<Cow<'a, [u8]>>>)
        requires
            self.wf(),
        ensures
            opt_opt_view(r) == last_value(self.input@, key@),
            crate::pairs::borrows_when_plain(r, values_of(pairs(self.input@), key@)),
    {
        let vs = self.table.raw_values(key);
        if vs.len() == 0 {
            None
        } else {
            Some(decode_opt(vs[vs.len() - 1]))
        }
    }
}

} // verus!
