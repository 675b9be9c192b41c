//! The bracket grammar: a key may carry sub-keys in brackets, `root[sub1][sub2]`
//! (also written with `%5B` and `%5D`). Pairs are grouped by their first key part; a
//! group is split one bracket level deeper only when asked for.
use std::borrow::Cow;
use vstd::prelude::*;
use crate::decode::{copy_bytes, decoded, hex_pair, parse_bytes, parse_char};
use crate::mode::{descend, MAX_DEPTH};
use crate::value::{Error, ErrorKind};
use crate::pairs::{
    bytes_eq, copy_keys, decode_opt, decoded_opt, insert_key, key_views, lists_keys_of, opt_slice_view, values_of, pairs, read_pair,
    sub_slice, FlatPair, RawPair,
};

verus! {

/// A pair under the bracket grammar: the current key part, the rest of the key after
/// its opening bracket (if it has one), and the raw value.
pub type BracketPair = (Seq<u8>, Option<Seq<u8>>, Option<Seq<u8>>);

/// Whether an opening bracket, plain or as `%5B`, starts at position `j` of `k`.
pub open spec fn open_at(k: Seq<u8>, j: int) -> bool {
    0 <= j < k.len() && (k[j] == 91u8 || (k[j] == 37u8 && j + 2 < k.len() && hex_pair(
        k[j + 1],
        k[j + 2],
    ) == Some(91u8)))
}

/// The first opening bracket at or after `j`, or the length of `k`.
pub open spec fn first_open(k: Seq<u8>, j: int) -> int
    decreases k.len() - j,
{
    if j < 0 || j >= k.len() {
        k.len() as int
    } else if open_at(k, j) {
        j
    } else {
        first_open(k, j + 1)
    }
}

/// The rest of a raw key after its first opening bracket, if it has one.
pub open spec fn after_open(k: Seq<u8>) -> Option<Seq<u8>> {
    let j = first_open(k, 0);
    if j >= k.len() {
        None
    } else if k[j] == 91u8 {
        Some(k.subrange(j + 1, k.len() as int))
    } else {
        Some(k.subrange(j + 3, k.len() as int))
    }
}

/// Splits a raw key at its first opening bracket, when a closing bracket follows it:
/// the root, and the rest after the opening bracket. A key whose bracket never
/// closes is one literal key, brackets and all.
pub open spec fn split_key(k: Seq<u8>) -> (Seq<u8>, Option<Seq<u8>>) {
    if closes(after_open(k)) {
        (k.subrange(0, first_open(k, 0)), after_open(k))
    } else {
        (k, None)
    }
}

/// Whether a closing bracket, plain or as `%5D`, starts at position `j` of `r`.
pub open spec fn close_at(r: Seq<u8>, j: int) -> bool {
    0 <= j < r.len() && (r[j] == 93u8 || (r[j] == 37u8 && j + 2 < r.len() && hex_pair(
        r[j + 1],
        r[j + 2],
    ) == Some(93u8)))
}

/// The first closing bracket at or after `j`, or the length of `r`.
pub open spec fn first_close(r: Seq<u8>, j: int) -> int
    decreases r.len() - j,
{
    if j < 0 || j >= r.len() {
        r.len() as int
    } else if close_at(r, j) {
        j
    } else {
        first_close(r, j + 1)
    }
}

/// Whether the rest of a key closes its bracket, so that it holds a sub-key.
pub open spec fn closes(rest: Option<Seq<u8>>) -> bool {
    match rest {
        Some(r) => first_close(r, 0) < r.len(),
        None => false,
    }
}

/// The sub-key that the rest of a key starts with (up to its closing bracket, or all
/// of it when none closes), and the rest after the next opening bracket, when one
/// follows the closing bracket at once.
pub open spec fn subkey(r: Seq<u8>) -> (Seq<u8>, Option<Seq<u8>>) {
    let end = first_close(r, 0);
    let last = if end < r.len() && r[end] != 93u8 { end + 2 } else { end };
    if last + 1 < r.len() && r[last + 1] == 91u8 {
        (r.subrange(0, end), Some(r.subrange(last + 2, r.len() as int)))
    } else if last + 3 < r.len() && r[last + 1] == 37u8 && hex_pair(r[last + 2], r[last + 3]) == Some(
        91u8,
    ) {
        (r.subrange(0, end), Some(r.subrange(last + 4, r.len() as int)))
    } else {
        (r.subrange(0, end), None)
    }
}

/// The pairs of a query string under the bracket grammar, in order.
pub open spec fn bracket_pairs(s: Seq<u8>) -> Seq<BracketPair> {
    pairs(s).map_values(|p: RawPair| (split_key(p.0).0, split_key(p.0).1, p.1))
}

/// The pairs one bracket level deeper: each pair whose key goes on gives its sub-key
/// and what follows it; the others are left out.
pub open spec fn deeper(es: Seq<BracketPair>) -> Seq<BracketPair>
    decreases es.len(),
{
    if es.len() == 0 {
        Seq::empty()
    } else {
        match es.last().1 {
            Some(r) => deeper(es.drop_last()).push((subkey(r).0, subkey(r).1, es.last().2)),
            None => deeper(es.drop_last()),
        }
    }
}

/// The current key parts and values of `es`, as flat pairs.
pub open spec fn heads(es: Seq<BracketPair>) -> Seq<RawPair> {
    es.map_values(|e: BracketPair| (e.0, e.2))
}

/// The pairs of `es` whose current key part decodes to `k`, in order.
pub open spec fn group(es: Seq<BracketPair>, k: Seq<u8>) -> Seq<BracketPair>
    decreases es.len(),
{
    if es.len() == 0 {
        Seq::empty()
    } else if decoded(es.last().0) == k {
        group(es.drop_last(), k).push(es.last())
    } else {
        group(es.drop_last(), k)
    }
}

/// The decoded values of the pairs of `es` whose key ends at this level, in order.
pub open spec fn direct_values(es: Seq<BracketPair>) -> Seq<Option<Seq<u8>>>
    decreases es.len(),
{
    if es.len() == 0 {
        Seq::empty()
    } else if closes(es.last().1) {
        direct_values(es.drop_last())
    } else {
        direct_values(es.drop_last()).push(decoded_opt(es.last().2))
    }
}

/// `first_open` finds an opening bracket, or reaches the end.
pub proof fn lemma_first_open(k: Seq<u8>, j: int)
    requires
        0 <= j <= k.len(),
    ensures
        j <= first_open(k, j) <= k.len(),
        first_open(k, j) < k.len() ==> open_at(k, first_open(k, j)),
    decreases k.len() - j,
{
    if j < k.len() && !open_at(k, j) {
        lemma_first_open(k, j + 1);
    }
}

/// `first_close` finds a closing bracket, or reaches the end.
pub proof fn lemma_first_close(r: Seq<u8>, j: int)
    requires
        0 <= j <= r.len(),
    ensures
        j <= first_close(r, j) <= r.len(),
        first_close(r, j) < r.len() ==> close_at(r, first_close(r, j)),
    decreases r.len() - j,
{
    if j < r.len() && !close_at(r, j) {
        lemma_first_close(r, j + 1);
    }
}

/// The value found by following `key` and then each sub-key of `path`, one bracket
/// level each: the last direct value of the final group, or `None` where a group is
/// missing or has no direct value.
pub open spec fn path_value_of(es: Seq<BracketPair>, key: Seq<u8>, path: Seq<Seq<u8>>) -> Option<
    Option<Seq<u8>>,
>
    decreases path.len(),
{
    let g = group(es, key);
    if path.len() == 0 {
        let dv = direct_values(g);
        if dv.len() == 0 {
            None
        } else {
            Some(dv.last())
        }
    } else if g.len() == 0 {
        None
    } else {
        path_value_of(deeper(g), path[0], path.drop_first())
    }
}

/// The exec form of `first_open`.
fn scan_open(k: &[u8]) -> (r: usize)
    ensures
        r as int == first_open(k@, 0),
        r <= k@.len(),
{
    let mut j: usize = 0;
    while j < k.len()
        invariant
            j <= k@.len(),
            first_open(k@, j as int) == first_open(k@, 0),
        decreases k.len() - j,
    {
        if k[j] == 91u8 || (k[j] == 37u8 && k.len() - j > 2 && parse_char(k[j + 1], k[j + 2]) == Some(
            91u8,
        )) {
            return j;
        }
        j += 1;
    }
    j
}

/// The exec form of `first_close`.
fn scan_close(r: &[u8]) -> (e: usize)
    ensures
        e as int == first_close(r@, 0),
        e <= r@.len(),
{
    let mut j: usize = 0;
    while j < r.len()
        invariant
            j <= r@.len(),
            first_close(r@, j as int) == first_close(r@, 0),
        decreases r.len() - j,
    {
        if r[j] == 93u8 || (r[j] == 37u8 && r.len() - j > 2 && parse_char(r[j + 1], r[j + 2]) == Some(
            93u8,
        )) {
            return j;
        }
        j += 1;
    }
    j
}

/// A pair under the bracket grammar, with its current key part decoded.
#[derive(Debug)]
pub struct BracketItem<'a> {
    pub part: &'a [u8],
    pub rest: Option<&'a [u8]>,
    pub key: Vec<u8>,
    pub value: Option<&'a [u8]>,
}

impl<'a> BracketItem<'a> {
    /// What the item stands for.
    pub open spec fn view_pair(&self) -> BracketPair {
        (self.part@, opt_slice_view(self.rest), opt_slice_view(self.value))
    }

    /// Its current key part is decoded correctly.
    pub open spec fn key_ok(&self) -> bool {
        self.key@ == decoded(self.part@)
    }
}

/// Splits a raw key at its first opening bracket, when a closing bracket follows it.
pub fn split_raw_key<'a>(k: &'a [u8]) -> (r: (&'a [u8], Option<&'a [u8]>))
    ensures
        (r.0@, opt_slice_view(r.1)) == split_key(k@),
{
    let j = scan_open(k);
    proof {
        lemma_first_open(k@, 0);
    }
    if j >= k.len() {
        return (k, None);
    }
    let rest = if k[j] == 91u8 {
        sub_slice(k, j + 1, k.len())
    } else {
        sub_slice(k, j + 3, k.len())
    };
    assert(after_open(k@) == Some(rest@));
    if has_subkey(Some(rest)) {
        (sub_slice(k, 0, j), Some(rest))
    } else {
        (k, None)
    }
}

/// Reads the sub-key that `r` starts with, and what follows it.
pub fn read_subkey<'a>(r: &'a [u8]) -> (x: (&'a [u8], Option<&'a [u8]>))
    ensures
        (x.0@, opt_slice_view(x.1)) == subkey(r@),
{
    let end = scan_close(r);
    proof {
        lemma_first_close(r@, 0);
    }
    let last = if end < r.len() && r[end] != 93u8 { end + 2 } else { end };
    if last < r.len() && r.len() - last > 1 && r[last + 1] == 91u8 {
        (sub_slice(r, 0, end), Some(sub_slice(r, last + 2, r.len())))
    } else if last < r.len() && r.len() - last > 3 && r[last + 1] == 37u8 && parse_char(r[last + 2], r[last + 3])
        == Some(91u8) {
        (sub_slice(r, 0, end), Some(sub_slice(r, last + 4, r.len())))
    } else {
        (sub_slice(r, 0, end), None)
    }
}

/// Whether the rest of a key closes its bracket.
pub fn has_subkey(rest: Option<&[u8]>) -> (b: bool)
    ensures
        b == closes(opt_slice_view(rest)),
{
    match rest {
        Some(r) => scan_close(r) < r.len(),
        None => false,
    }
}

/// A query string parsed under the bracket grammar, at one level of nesting: its pairs
/// in order and its distinct decoded key parts, sorted.
pub struct BracketsQS<'a> {
    pub items: Vec<BracketItem<'a>>,
    pub keys: Vec<Vec<u8>>,
}

impl<'a> View for BracketsQS<'a> {
    type V = Seq<BracketPair>;

    open spec fn view(&self) -> Seq<BracketPair> {
        self.items@.map_values(|i: BracketItem<'a>| i.view_pair())
    }
}

impl<'a> BracketsQS<'a> {
    /// Every key part is decoded correctly and the key list is that of the pairs.
    pub open spec fn wf(&self) -> bool {
        &&& forall|i: int| 0 <= i < self.items@.len() ==> (#[trigger] self.items@[i]).key_ok()
        &&& lists_keys_of(key_views(self.keys@), heads(self@))
    }

    /// Groups `items` by decoded key part.
    pub fn from_items(items: Vec<BracketItem<'a>>) -> (r: Self)
        requires
            forall|i: int| 0 <= i < items@.len() ==> (#[trigger] items@[i]).key_ok(),
        ensures
            r.wf(),
            r@ == items@.map_values(|i: BracketItem<'a>| i.view_pair()),
    {
        let ghost all = items@.map_values(|i: BracketItem<'a>| i.view_pair());
        let mut keys: Vec<Vec<u8>> = Vec::new();
        let mut n: usize = 0;
        while n < items.len()
            invariant
                n <= items@.len(),
                all == items@.map_values(|i: BracketItem<'a>| i.view_pair()),
                forall|i: int| 0 <= i < items@.len() ==> (#[trigger] items@[i]).key_ok(),
                lists_keys_of(key_views(keys@), heads(all.take(n as int))),
            decreases items.len() - n,
        {
            let ghost old_keys = key_views(keys@);
            let item = &items[n];
            let ghost old_keys_vec = keys@;
            insert_key(&mut keys, item.key.as_slice());
            assert(key_views(old_keys_vec) == old_keys);
            proof {
                let hs = heads(all.take(n as int + 1));
                assert(hs.drop_last() =~= heads(all.take(n as int)));
                assert(hs.last() == (item.part@, opt_slice_view(item.value)));
                assert(items@[n as int].key_ok());
                assert forall|k: Seq<u8>| key_views(keys@).contains(k) <==> values_of(
                    hs,
                    k,
                ).len() > 0 by {
                    assert(old_keys.contains(k) <==> values_of(heads(all.take(n as int)), k).len() > 0);
                    assert(key_views(keys@).contains(k) <==> (old_keys.contains(k) || k == decoded(item.part@)));
                    if decoded(item.part@) == k {
                        assert(values_of(hs, k) == values_of(hs.drop_last(), k).push(hs.last().1));
                    } else {
                        assert(values_of(hs, k) == values_of(hs.drop_last(), k));
                    }
                }
            }
            n += 1;
        }
        assert(all.take(n as int) =~= all);
        BracketsQS { items, keys }
    }

    /// Parses `slice`; sub-keys are left unread until asked for.
    pub fn parse(slice: &'a [u8]) -> (r: Self)
        ensures
            r.wf(),
            r@ == bracket_pairs(slice@),
    {
        let mut items: Vec<BracketItem<'a>> = Vec::new();
        let mut index: usize = 0;
        while index < slice.len()
            invariant
                index <= slice@.len(),
                items@.map_values(|i: BracketItem<'a>| i.view_pair()) + crate::pairs::pairs_from(
                    slice@,
                    index as int,
                ).map_values(|p: RawPair| (split_key(p.0).0, split_key(p.0).1, p.1))
                    == bracket_pairs(slice@),
                forall|i: int| 0 <= i < items@.len() ==> (#[trigger] items@[i]).key_ok(),
            decreases slice.len() - index,
        {
            let ghost before = items@.map_values(|i: BracketItem<'a>| i.view_pair());
            let (pair, next) = read_pair(slice, index);
            let (part, rest) = split_raw_key(pair.raw_key);
            let key = parse_bytes(part).to_vec();
            let item = BracketItem { part, rest, key, value: pair.value };
            items.push(item);
            proof {
                let f = |p: RawPair| (split_key(p.0).0, split_key(p.0).1, p.1);
                let tail = crate::pairs::pairs_from(slice@, index as int);
                assert(tail =~= seq![pair.raw()] + crate::pairs::pairs_from(slice@, next as int));
                assert(tail.map_values(f) =~= seq![f(pair.raw())] + crate::pairs::pairs_from(
                    slice@,
                    next as int,
                ).map_values(f));
                assert(items@.map_values(|i: BracketItem<'a>| i.view_pair()) =~= before.push(f(pair.raw())));
                assert(forall|i: int| 0 <= i < items@.len() ==> (#[trigger] items@[i]).key_ok());
            }
            index = next;
        }
        proof {
            assert(crate::pairs::pairs_from(slice@, index as int) =~= Seq::<RawPair>::empty());
            assert(items@.map_values(|i: BracketItem<'a>| i.view_pair()) =~= bracket_pairs(slice@));
        }
        Self::from_items(items)
    }

    /// The distinct decoded key parts, in ascending byte order.
    pub fn keys(&self) -> (r: Vec<Vec<u8>>)
        requires
            self.wf(),
        ensures
            lists_keys_of(key_views(r@), heads(self@)),
    {
        copy_keys(&self.keys)
    }

    /// Copies of the pairs whose key part decodes to `key`, in order.
    pub fn group_items(&self, key: &[u8]) -> (r: Vec<BracketItem<'a>>)
        requires
            self.wf(),
        ensures
            r@.map_values(|i: BracketItem<'a>| i.view_pair()) == group(self@, key@),
            forall|i: int| 0 <= i < r@.len() ==> (#[trigger] r@[i]).key_ok(),
    {
        let mut r: Vec<BracketItem<'a>> = Vec::new();
        let mut n: usize = 0;
        while n < self.items.len()
            invariant
                n <= self.items@.len(),
                self.wf(),
                r@.map_values(|i: BracketItem<'a>| i.view_pair()) == group(self@.take(n as int), key@),
                forall|i: int| 0 <= i < r@.len() ==> (#[trigger] r@[i]).key_ok(),
            decreases self.items.len() - n,
        {
            let ghost before = r@.map_values(|i: BracketItem<'a>| i.view_pair());
            let item = &self.items[n];
            proof {
                assert(self@.take(n as int + 1).drop_last() =~= self@.take(n as int));
                assert(self@.take(n as int + 1).last() == item.view_pair());
                assert(self.items@[n as int].key_ok());
            }
            if bytes_eq(item.key.as_slice(), key) {
                let copy = BracketItem {
                    part: item.part,
                    rest: item.rest,
                    key: copy_bytes(item.key.as_slice()),
                    value: item.value,
                };
                r.push(copy);
                assert(r@.map_values(|i: BracketItem<'a>| i.view_pair()) =~= before.push(item.view_pair()));
            }
            n += 1;
        }
        assert(self@.take(n as int) =~= self@);
        r
    }

    /// The pairs whose key part decodes to `key`, read one bracket level deeper and
    /// grouped by their sub-key; `None` if no key part decodes to `key`.
    pub fn sub_values(&self, key: &[u8]) -> (r: Option<BracketsQS<'a>>)
        requires
            self.wf(),
        ensures
            r is None <==> group(self@, key@).len() == 0,
            r matches Some(t) ==> t.wf() && t@ == deeper(group(self@, key@)),
    {
        let g = self.group_items(key);
        if g.len() == 0 {
            return None;
        }
        Some(Self::nested(&g))
    }

    /// The decoded values of the pairs whose key part decodes to `key` and ends at
    /// this level (no sub-key follows), in order; `None` if no key part decodes to `key`.
    pub fn values(&self, key: &[u8]) -> (r: Option<Vec<Option<Cow<'a, [u8]>>>>)
        requires
            self.wf(),
        ensures
            r is None <==> group(self@, key@).len() == 0,
            r matches Some(l) ==> l@.map_values(|o: Option<Cow<'a, [u8]>>| crate::pairs::opt_view(o))
                == direct_values(group(self@, key@)),
    {
        let g = self.group_items(key);
        if g.len() == 0 {
            return None;
        }
        let ghost gv = g@.map_values(|i: BracketItem<'a>| i.view_pair());
        let mut out: Vec<Option<Cow<'a, [u8]>>> = Vec::new();
        let mut n: usize = 0;
        while n < g.len()
            invariant
                n <= g@.len(),
                gv == g@.map_values(|i: BracketItem<'a>| i.view_pair()),
                out@.map_values(|o: Option<Cow<'a, [u8]>>| crate::pairs::opt_view(o)) == direct_values(
                    gv.take(n as int),
                ),
            decreases g.len() - n,
        {
            let ghost before = out@.map_values(|o: Option<Cow<'a, [u8]>>| crate::pairs::opt_view(o));
            proof {
                assert(gv.take(n as int + 1).drop_last() =~= gv.take(n as int));
                assert(gv.take(n as int + 1).last() == g@[n as int].view_pair());
            }
            if !has_subkey(g[n].rest) {
                let d = decode_opt(g[n].value);
                out.push(d);
                assert(out@.map_values(|o: Option<Cow<'a, [u8]>>| crate::pairs::opt_view(o)) =~= before.push(
                    decoded_opt(opt_slice_view(g[n as int].value)),
                ));
            }
            n += 1;
        }
        assert(gv.take(n as int) =~= gv);
        Some(out)
    }

    /// The decoded value of the last pair whose key part decodes to `key` and ends at
    /// this level; `None` if there is no such pair.
    pub fn value(&self, key: &[u8]) -> (r: Option<Option<Cow<'a, [u8]>>>)
        requires
            self.wf(),
        ensures
            r is None <==> direct_values(group(self@, key@)).len() == 0,
            r matches Some(o) ==> crate::pairs::opt_view(o) == direct_values(group(self@, key@)).last(),
    {
        match self.values(key) {
            None => None,
            Some(mut l) => {
                let ghost lv = l@.map_values(|o: Option<Cow<'a, [u8]>>| crate::pairs::opt_view(o));
                if l.len() == 0 {
                    None
                } else {
                    let last = l.pop().unwrap();
                    assert(crate::pairs::opt_view(last) == lv.last());
                    Some(last)
                }
            },
        }
    }

    fn path_value_from(&self, key: &[u8], path: &Vec<Vec<u8>>, i: usize, remaining: usize) -> (r: Result<
        Option<Option<Cow<'a, [u8]>>>,
        Error,
    >)
        requires
            self.wf(),
            i <= path@.len(),
        ensures
            path@.len() - i > remaining ==> (r matches Err(e) && e.kind == ErrorKind::MaximumDepthReached),
            path@.len() - i <= remaining ==> (r matches Ok(v) && crate::urlencoded::opt_opt_view(v)
                == path_value_of(self@, key@, key_views(path@).skip(i as int))),
        decreases path@.len() - i,
    {
        if i == path.len() {
            return Ok(self.value(key));
        }
        let left = match descend(remaining) {
            Ok(n) => n,
            Err(e) => return Err(e),
        };
        let ghost rest = key_views(path@).skip(i as int);
        assert(rest[0] == path@[i as int]@);
        assert(rest.drop_first() =~= key_views(path@).skip(i as int + 1));
        match self.sub_values(key) {
            None => {
                if path.len() - i - 1 > left {
                    return Err(Error::new(ErrorKind::MaximumDepthReached).message(
                        "maximum nesting depth reached".to_owned(),
                    ));
                }
                Ok(None)
            },
            Some(t) => t.path_value_from(path[i].as_slice(), path, i + 1, left),
        }
    }

    /// The value at `key` followed by the sub-keys of `path` (`key[a][b]...`),
    /// descending at most `MAX_DEPTH` levels: a path longer than that fails with
    /// `MaximumDepthReached`, whatever the input holds.
    pub fn path_value(&self, key: &[u8], path: &Vec<Vec<u8>>) -> (r: Result<Option<Option<Cow<'a, [u8]>>>, Error>)
        requires
            self.wf(),
        ensures
            path@.len() > MAX_DEPTH ==> (r matches Err(e) && e.kind == ErrorKind::MaximumDepthReached),
            path@.len() <= MAX_DEPTH ==> (r matches Ok(v) && crate::urlencoded::opt_opt_view(v)
                == path_value_of(self@, key@, key_views(path@))),
    {
        assert(key_views(path@).skip(0) =~= key_views(path@));
        self.path_value_from(key, path, 0, MAX_DEPTH)
    }

    /// The pairs whose key part decodes to `key`, arranged as a list: the items that
    /// go alone, then the named items, then the numbered items by ascending number.
    /// `None` if no key part decodes to `key`.
    pub fn list(&self, key: &[u8]) -> (r: Option<Vec<Vec<BracketItem<'a>>>>)
        requires
            self.wf(),
        ensures
            r is None <==> group(self@, key@).len() == 0,
            r matches Some(l) ==> crate::sequence::list_view(l) == crate::sequence::list_items_of(
                group(self@, key@),
            ),
            r matches Some(l) ==> forall|i: int, j: int|
                0 <= i < l@.len() && 0 <= j < l@[i]@.len() ==> (#[trigger] l@[i]@[j]).key_ok(),
    {
        let g = self.group_items(key);
        if g.len() == 0 {
            return None;
        }
        Some(crate::sequence::list_items(&g))
    }

    /// The table one bracket level below the pairs `g`: each pair whose key goes on
    /// gives its sub-key and what follows it; the others are left out.
    pub fn nested(g: &Vec<BracketItem<'a>>) -> (r: BracketsQS<'a>)
        requires
            forall|i: int| 0 <= i < g@.len() ==> (#[trigger] g@[i]).key_ok(),
        ensures
            r.wf(),
            r@ == deeper(g@.map_values(|i: BracketItem<'a>| i.view_pair())),
    {
        let ghost gv = g@.map_values(|i: BracketItem<'a>| i.view_pair());
        let mut out: Vec<BracketItem<'a>> = Vec::new();
        let mut n: usize = 0;
        while n < g.len()
            invariant
                n <= g@.len(),
                gv == g@.map_values(|i: BracketItem<'a>| i.view_pair()),
                out@.map_values(|i: BracketItem<'a>| i.view_pair()) == deeper(gv.take(n as int)),
                forall|i: int| 0 <= i < out@.len() ==> (#[trigger] out@[i]).key_ok(),
            decreases g.len() - n,
        {
            let ghost before = out@.map_values(|i: BracketItem<'a>| i.view_pair());
            proof {
                assert(gv.take(n as int + 1).drop_last() =~= gv.take(n as int));
                assert(gv.take(n as int + 1).last() == g@[n as int].view_pair());
            }
            match g[n].rest {
                Some(rest) => {
                    let (part, next) = read_subkey(rest);
                    let key = parse_bytes(part).to_vec();
                    out.push(BracketItem { part, rest: next, key, value: g[n].value });
                    assert(out@.map_values(|i: BracketItem<'a>| i.view_pair()) =~= before.push(
                        (subkey(rest@).0, subkey(rest@).1, opt_slice_view(g[n as int].value)),
                    ));
                },
                None => {},
            }
            n += 1;
        }
        assert(gv.take(n as int) =~= gv);
        Self::from_items(out)
    }
}

} // verus!
