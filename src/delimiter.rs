//! The delimited-value grammar: flat keys, each keeps the value it was given last, and
//! a value may be split on a delimiter byte chosen by the caller.
use std::borrow::Cow;
use vstd::prelude::*;
use crate::decode::{decoded, parse_bytes, plain_from};
use crate::pairs::{key_views, 
    copy_keys, decode_opt, lists_keys_of, opt_slice_view, pairs, sub_slice, values_of, FlatTable,
};
use crate::urlencoded::{last_value, opt_opt_view};

verus! {

/// The first position at or after `i` holding `d`, or the length of `s`.
pub open spec fn delim_end(s: Seq<u8>, d: u8, i: int) -> int
    decreases s.len() - i,
{
    if i < 0 || i >= s.len() {
        s.len() as int
    } else if s[i] == d {
        i
    } else {
        delim_end(s, d, i + 1)
    }
}

/// The parts of `s` from position `i` on, split at every `d`: `k` delimiters give
/// `k + 1` parts, empty ones included.
pub open spec fn split_from(s: Seq<u8>, d: u8, i: int) -> Seq<Seq<u8>>
    decreases s.len() - i,
    via split_from_decreases
{
    if i < 0 || i > s.len() {
        Seq::empty()
    } else if delim_end(s, d, i) >= s.len() {
        seq![s.subrange(i, s.len() as int)]
    } else {
        seq![s.subrange(i, delim_end(s, d, i))] + split_from(s, d, delim_end(s, d, i) + 1)
    }
}

/// `delim_end` lies between `i` and the end of `s`.
pub proof fn lemma_delim_end_bounds(s: Seq<u8>, d: u8, i: int)
    requires
        0 <= i <= s.len(),
    ensures
        i <= delim_end(s, d, i) <= s.len(),
    decreases s.len() - i,
{
    if i < s.len() && s[i] != d {
        lemma_delim_end_bounds(s, d, i + 1);
    }
}

#[via_fn]
proof fn split_from_decreases(s: Seq<u8>, d: u8, i: int) {
    if 0 <= i <= s.len() {
        lemma_delim_end_bounds(s, d, i);
    }
}

/// The parts of `s` split at every `d`.
pub open spec fn split(s: Seq<u8>, d: u8) -> Seq<Seq<u8>> {
    split_from(s, d, 0)
}

/// What the delimited-value grammar gives a key as a list: `None` if it does not
/// occur, `Some(None)` if its last occurrence has no `=`, else the parts of its last
/// value, each percent-decoded on its own.
pub open spec fn split_values(s: Seq<u8>, key: Seq<u8>, d: u8) -> Option<Option<Seq<Seq<u8>>>> {
    let vs = values_of(pairs(s), key);
    if vs.len() == 0 {
        None
    } else {
        match vs.last() {
            Some(v) => Some(Some(split(v, d).map_values(|p: Seq<u8>| decoded(p)))),
            None => Some(None),
        }
    }
}

/// The view of a looked-up list of parts.
pub open spec fn parts_view<'a>(r: Option<Option<Vec<Cow<'a, [u8]>>>>) -> Option<Option<Seq<Seq<u8>>>> {
    match r {
        Some(Some(l)) => Some(Some(l@.map_values(|p: Cow<'a, [u8]>| p@))),
        Some(None) => Some(None),
        None => None,
    }
}

/// The exec form of `delim_end`.
fn scan_delim_end(s: &[u8], d: u8, i: usize) -> (r: usize)
    requires
        i <= s@.len(),
    ensures
        r as int == delim_end(s@, d, i as int),
        i <= r <= s@.len(),
{
    let mut j = i;
    while j < s.len() && s[j] != d
        invariant
            i <= j <= s@.len(),
            delim_end(s@, d, j as int) == delim_end(s@, d, i as int),
        decreases s.len() - j,
    {
        j += 1;
    }
    j
}

/// Splits `s` at every `d` and percent-decodes each part.
pub fn split_decoded<'a>(s: &'a [u8], d: u8) -> (r: Vec<Cow<'a, [u8]>>)
    ensures
        r@.map_values(|p: Cow<'a, [u8]>| p@) == split(s@, d).map_values(|p: Seq<u8>| decoded(p)),
{
    let mut out: Vec<Cow<'a, [u8]>> = Vec::new();
    let mut start: usize = 0;
    let mut done = false;
    while !done
        invariant
            start <= s@.len(),
            !done ==> out@.map_values(|p: Cow<'a, [u8]>| p@) + split_from(s@, d, start as int).map_values(
                |p: Seq<u8>| decoded(p),
            ) == split(s@, d).map_values(|p: Seq<u8>| decoded(p)),
            done ==> out@.map_values(|p: Cow<'a, [u8]>| p@) == split(s@, d).map_values(
                |p: Seq<u8>| decoded(p),
            ),
        decreases s.len() - start + if done { 0int } else { 1int },
    {
        let ghost before = out@.map_values(|p: Cow<'a, [u8]>| p@);
        let e = scan_delim_end(s, d, start);
        let part = parse_bytes(sub_slice(s, start, e)).into_cow();
        out.push(part);
        assert(out@.map_values(|p: Cow<'a, [u8]>| p@) =~= before.push(decoded(s@.subrange(start as int, e as int))));
        if e >= s.len() {
            assert(split_from(s@, d, start as int) =~= seq![s@.subrange(start as int, s@.len() as int)]);
            assert(before.push(decoded(s@.subrange(start as int, e as int))) =~= before + split_from(
                s@,
                d,
                start as int,
            ).map_values(|p: Seq<u8>| decoded(p)));
            done = true;
        } else {
            assert(split_from(s@, d, start as int) =~= seq![s@.subrange(start as int, e as int)]
                + split_from(s@, d, e + 1));
            assert(split_from(s@, d, start as int).map_values(|p: Seq<u8>| decoded(p)) =~= seq![
                decoded(s@.subrange(start as int, e as int)),
            ] + split_from(s@, d, e + 1).map_values(|p: Seq<u8>| decoded(p)));
            assert(before + split_from(s@, d, start as int).map_values(|p: Seq<u8>| decoded(p))
                =~= before.push(decoded(s@.subrange(start as int, e as int))) + split_from(
                s@,
                d,
                e + 1,
            ).map_values(|p: Seq<u8>| decoded(p)));
            start = e + 1;
        }
    }
    out
}

/// Splits `s` at every `d`, leaving the parts raw.
pub fn split_raw<'a>(s: &'a [u8], d: u8) -> (r: Vec<&'a [u8]>)
    ensures
        r@.map_values(|p: &'a [u8]| p@) == split(s@, d),
{
    let mut out: Vec<&'a [u8]> = Vec::new();
    let mut start: usize = 0;
    let mut done = false;
    while !done
        invariant
            start <= s@.len(),
            !done ==> out@.map_values(|p: &'a [u8]| p@) + split_from(s@, d, start as int) == split(s@, d),
            done ==> out@.map_values(|p: &'a [u8]| p@) == split(s@, d),
        decreases s.len() - start + if done { 0int } else { 1int },
    {
        let ghost before = out@.map_values(|p: &'a [u8]| p@);
        let e = scan_delim_end(s, d, start);
        let part = sub_slice(s, start, e);
        out.push(part);
        assert(out@.map_values(|p: &'a [u8]| p@) =~= before.push(s@.subrange(start as int, e as int)));
        if e >= s.len() {
            assert(split_from(s@, d, start as int) =~= seq![s@.subrange(start as int, s@.len() as int)]);
            assert(before.push(s@.subrange(start as int, e as int)) =~= before + split_from(s@, d, start as int));
            done = true;
        } else {
            assert(split_from(s@, d, start as int) =~= seq![s@.subrange(start as int, e as int)]
                + split_from(s@, d, e + 1));
            assert(before + split_from(s@, d, start as int) =~= before.push(s@.subrange(start as int, e as int))
                + split_from(s@, d, e + 1));
            start = e + 1;
        }
    }
    out
}

/// Hands out the parts of a delimited value one at a time: exactly the parts of
/// `split`, in order, empty ones included. A fixed-size target checks their number
/// afterwards (`mode::sized`).
pub struct SizedValuesIterator<'a> {
    pub slice: &'a [u8],
    pub delimiter: u8,
    pub index: usize,
    pub done: bool,
}

impl<'a> SizedValuesIterator<'a> {
    /// The parts not handed out yet.
    pub open spec fn remaining(&self) -> Seq<Seq<u8>> {
        if self.done {
            Seq::empty()
        } else {
            split_from(self.slice@, self.delimiter, self.index as int)
        }
    }

    /// Starts before the first part of `slice`.
    pub fn new(slice: &'a [u8], delimiter: u8) -> (r: Self)
        ensures
            r.slice@ == slice@,
            r.delimiter == delimiter,
            r.index <= r.slice@.len(),
            r.remaining() == split(slice@, delimiter),
    {
        SizedValuesIterator { slice, delimiter, index: 0, done: false }
    }

    /// The next part, if any.
    pub fn next(&mut self) -> (r: Option<&'a [u8]>)
        requires
            old(self).index <= old(self).slice@.len(),
        ensures
            final(self).slice == old(self).slice,
            final(self).delimiter == old(self).delimiter,
            final(self).index <= final(self).slice@.len(),
            old(self).remaining().len() == 0 ==> r is None && final(self).remaining().len() == 0,
            old(self).remaining().len() > 0 ==> opt_slice_view(r) == Some(old(self).remaining()[0])
                && final(self).remaining() == old(self).remaining().drop_first(),
    {
        if self.done {
            return None;
        }
        let start = self.index;
        let e = scan_delim_end(self.slice, self.delimiter, start);
        let ghost s = self.slice@;
        let ghost d = self.delimiter;
        if e < self.slice.len() {
            self.index = e + 1;
            assert(split_from(s, d, start as int) =~= seq![s.subrange(start as int, e as int)] + split_from(
                s,
                d,
                e + 1,
            ));
            assert(old(self).remaining().drop_first() =~= split_from(s, d, e + 1));
        } else {
            self.done = true;
            assert(split_from(s, d, start as int) =~= seq![s.subrange(start as int, s.len() as int)]);
            assert(old(self).remaining().drop_first() =~= Seq::<Seq<u8>>::empty());
        }
        Some(sub_slice(self.slice, start, e))
    }
}

/// The raw value of a key under the delimited-value grammar, not yet split.
pub struct Values<'a> {
    pub slice: &'a [u8],
}

impl<'a> Values<'a> {
    /// The whole value, percent-decoded, borrowing the input where nothing changed.
    pub fn decode(&self) -> (r: Cow<'a, [u8]>)
        ensures
            r@ == decoded(self.slice@),
            (r matches Cow::Borrowed(_)) <==> plain_from(self.slice@, 0),
    {
        parse_bytes(self.slice).into_cow()
    }

    /// The raw value.
    pub fn slice(&self) -> (r: &'a [u8])
        ensures
            r@ == self.slice@,
    {
        self.slice
    }

    /// The parts of the value, split at `delimiter` and each decoded.
    pub fn split(&self, delimiter: u8) -> (r: Vec<Cow<'a, [u8]>>)
        ensures
            r@.map_values(|p: Cow<'a, [u8]>| p@) == split(self.slice@, delimiter).map_values(|p: Seq<u8>| decoded(p)),
    {
        split_decoded(self.slice, delimiter)
    }
}

/// A query string parsed under the delimited-value grammar.
pub struct DelimiterQS<'a> {
    pub input: &'a [u8],
    pub table: FlatTable<'a>,
    pub delimiter: u8,
}

impl<'a> DelimiterQS<'a> {
    /// The table holds the pairs of the input.
    pub open spec fn wf(&self) -> bool {
        self.table.holds(self.input@)
    }

    /// Parses `slice`, whose values are split at `delimiter`.
    pub fn parse(slice: &'a [u8], delimiter: u8) -> (r: Self)
        ensures
            r.wf(),
            r.input@ == slice@,
            r.delimiter == delimiter,
    {
        DelimiterQS { input: slice, table: FlatTable::parse(slice), delimiter }
    }

    /// The distinct decoded keys, in ascending byte order.
    pub fn keys(&self) -> (r: Vec<Vec<u8>>)
        requires
            self.wf(),
        ensures
            lists_keys_of(key_views(r@), pairs(self.input@)),
    {
        copy_keys(&self.table.keys)
    }

    /// The parts of the value that `key` was given last, split at the delimiter and
    /// each decoded.
    pub fn values(&self, key: &[u8]) -> (r: Option<Option<Vec<Cow<'a, [u8]>>>>)
        requires
            self.wf(),
        ensures
            parts_view(r) == split_values(self.input@, key@, self.delimiter),
    {
        let vs = self.table.raw_values(key);
        if vs.len() == 0 {
            return None;
        }
        assert(opt_slice_view(vs@[vs@.len() - 1]) == values_of(pairs(self.input@), key@).last());
        match vs[vs.len() - 1] {
            Some(v) => Some(Some(split_decoded(v, self.delimiter))),
            None => Some(None),
        }
    }

    /// The whole decoded value that `key` was given last, not split.
    pub fn value(&self, key: &[u8]) -> (r: Option<Option<Cow<'a, [u8]>>>)
        requires
            self.wf(),
        ensures
            opt_opt_view(r) == last_value(self.input@, key@),
            crate::pairs::borrows_when_plain(r, values_of(pairs(self.input@), key@)),
    {
        let vs = self.table.raw_values(key);
        if vs.len() == 0 {
            None
        } else {
            Some(decode_opt(vs[vs.len() - 1]))
        }
    }

    /// The raw value that `key` was given last: `None` if `key` does not occur,
    /// `Some(None)` if its last occurrence has no `=`.
    pub fn raw_value(&self, key: &[u8]) -> (r: Option<Option<Values<'a>>>)
        requires
            self.wf(),
        ensures
            r is None <==> values_of(pairs(self.input@), key@).len() == 0,
            r matches Some(o) ==> values_of(pairs(self.input@), key@).last() == (match o {
                Some(v) => Some(v.slice@),
                None => None::<Seq<u8>>,
            }),
    {
        let vs = self.table.raw_values(key);
        if vs.len() == 0 {
            return None;
        }
        assert(opt_slice_view(vs@[vs@.len() - 1]) == values_of(pairs(self.input@), key@).last());
        match vs[vs.len() - 1] {
            Some(v) => Some(Some(Values { slice: v })),
            None => Some(None),
        }
    }
}

} // verus!
