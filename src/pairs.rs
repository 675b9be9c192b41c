//! The flat `key[=value]` tokenizer shared by every grammar, and the table of
//! tokenized pairs that the flat grammars read.
use std::borrow::Cow;
use vstd::prelude::*;
use crate::decode::{copy_bytes, decoded, parse_bytes, plain_from};

verus! {

/// A tokenized pair: the raw key and, when the pair had an `=`, the raw value.
pub type RawPair = (Seq<u8>, Option<Seq<u8>>);

/// The first position at or after `i` holding `&` or `=`, or the length of `s`.
pub open spec fn key_end(s: Seq<u8>, i: int) -> int
    decreases s.len() - i,
{
    if i < 0 || i >= s.len() {
        s.len() as int
    } else if s[i] == 38u8 || s[i] == 61u8 {
        i
    } else {
        key_end(s, i + 1)
    }
}

/// The first position at or after `i` holding `&`, or the length of `s`.
pub open spec fn value_end(s: Seq<u8>, i: int) -> int
    decreases s.len() - i,
{
    if i < 0 || i >= s.len() {
        s.len() as int
    } else if s[i] == 38u8 {
        i
    } else {
        value_end(s, i + 1)
    }
}

/// Whether the key that starts at `i` is followed by `=` and so carries a value.
pub open spec fn has_value_at(s: Seq<u8>, i: int) -> bool {
    key_end(s, i) < s.len() && s[key_end(s, i)] == 61u8
}

/// The pair that starts at position `i`.
pub open spec fn pair_at(s: Seq<u8>, i: int) -> RawPair {
    let ke = key_end(s, i);
    if has_value_at(s, i) {
        (s.subrange(i, ke), Some(s.subrange(ke + 1, value_end(s, ke + 1))))
    } else {
        (s.subrange(i, ke), None)
    }
}

/// The position where the pair after the one at `i` starts.
pub open spec fn next_pair(s: Seq<u8>, i: int) -> int {
    let end = if has_value_at(s, i) {
        value_end(s, key_end(s, i) + 1)
    } else {
        key_end(s, i)
    };
    if end < s.len() {
        end + 1
    } else {
        s.len() as int
    }
}

/// The pairs of `s` from position `i` on, in the order they appear.
pub open spec fn pairs_from(s: Seq<u8>, i: int) -> Seq<RawPair>
    decreases s.len() - i,
{
    if i < 0 || i >= s.len() {
        Seq::empty()
    } else {
        if next_pair(s, i) > i {
            seq![pair_at(s, i)] + pairs_from(s, next_pair(s, i))
        } else {
            Seq::empty()
        }
    }
}

/// All the pairs of a query string, in the order they appear.
pub open spec fn pairs(s: Seq<u8>) -> Seq<RawPair> {
    pairs_from(s, 0)
}

/// The raw values given to the key whose decoding is `k`, in the order they appear.
pub open spec fn values_of(ps: Seq<RawPair>, k: Seq<u8>) -> Seq<Option<Seq<u8>>>
    decreases ps.len(),
{
    if ps.len() == 0 {
        Seq::empty()
    } else if decoded(ps.last().0) == k {
        values_of(ps.drop_last(), k).push(ps.last().1)
    } else {
        values_of(ps.drop_last(), k)
    }
}

/// The percent-decoding of an optional value.
pub open spec fn decoded_opt(o: Option<Seq<u8>>) -> Option<Seq<u8>> {
    match o {
        Some(v) => Some(decoded(v)),
        None => None,
    }
}

/// Whether a looked-up value borrows the input: it does exactly when the last raw
/// value needed no decoding.
pub open spec fn borrows_when_plain<'a>(r: Option<Option<Cow<'a, [u8]>>>, vs: Seq<Option<Seq<u8>>>) -> bool {
    r matches Some(Some(c)) ==> ((c matches Cow::Borrowed(_)) <==> plain_from(vs.last().unwrap(), 0))
}

/// The view of an optional decoded value.
pub open spec fn opt_view<'a>(o: Option<Cow<'a, [u8]>>) -> Option<Seq<u8>> {
    match o {
        Some(v) => Some(v@),
        None => None,
    }
}

/// The view of an optional borrowed value.
pub open spec fn opt_slice_view(o: Option<&[u8]>) -> Option<Seq<u8>> {
    match o {
        Some(v) => Some(v@),
        None => None,
    }
}

/// The views of a list of keys.
pub open spec fn key_views(v: Seq<Vec<u8>>) -> Seq<Seq<u8>> {
    v.map_values(|k: Vec<u8>| k@)
}

/// Byte-wise lexicographic order: `a` comes before `b`.
pub open spec fn bytes_lt(a: Seq<u8>, b: Seq<u8>) -> bool
    decreases a.len(),
{
    if b.len() == 0 {
        false
    } else if a.len() == 0 {
        true
    } else if a[0] != b[0] {
        a[0] < b[0]
    } else {
        bytes_lt(a.drop_first(), b.drop_first())
    }
}

/// Each key comes strictly before the next.
pub open spec fn sorted_keys(ks: Seq<Seq<u8>>) -> bool {
    forall|i: int, j: int| 0 <= i < j < ks.len() ==> bytes_lt(#[trigger] ks[i], #[trigger] ks[j])
}

/// `ks` lists, in ascending byte order and each once, exactly the decoded keys of `ps`.
pub open spec fn lists_keys_of(ks: Seq<Seq<u8>>, ps: Seq<RawPair>) -> bool {
    &&& sorted_keys(ks)
    &&& forall|k: Seq<u8>| ks.contains(k) <==> values_of(ps, k).len() > 0
}

/// The order is transitive.
pub proof fn lemma_bytes_lt_transitive(a: Seq<u8>, b: Seq<u8>, c: Seq<u8>)
    requires
        bytes_lt(a, b),
        bytes_lt(b, c),
    ensures
        bytes_lt(a, c),
    decreases a.len(),
{
    if a.len() > 0 && b.len() > 0 && c.len() > 0 && a[0] == b[0] && b[0] == c[0] {
        lemma_bytes_lt_transitive(a.drop_first(), b.drop_first(), c.drop_first());
    }
}

/// Two different byte strings are ordered one way or the other.
pub proof fn lemma_bytes_lt_total(a: Seq<u8>, b: Seq<u8>)
    requires
        a != b,
    ensures
        bytes_lt(a, b) || bytes_lt(b, a),
    decreases a.len(),
{
    if a.len() == 0 {
        assert(b.len() > 0) by {
            if b.len() == 0 {
                assert(a =~= b);
            }
        }
    } else if b.len() > 0 && a[0] == b[0] {
        if a.drop_first() == b.drop_first() {
            assert(a =~= seq![a[0]] + a.drop_first());
            assert(b =~= seq![b[0]] + b.drop_first());
        }
        lemma_bytes_lt_total(a.drop_first(), b.drop_first());
    }
}

/// Whether `a` comes before `b` in byte-wise lexicographic order.
pub fn bytes_less(a: &[u8], b: &[u8]) -> (r: bool)
    ensures
        r == bytes_lt(a@, b@),
{
    let mut i: usize = 0;
    assert(a@.skip(0) =~= a@);
    assert(b@.skip(0) =~= b@);
    while i < a.len() && i < b.len() && a[i] == b[i]
        invariant
            i <= a@.len(),
            i <= b@.len(),
            bytes_lt(a@.skip(i as int), b@.skip(i as int)) == bytes_lt(a@, b@),
        decreases a.len() - i,
    {
        assert(a@.skip(i as int).drop_first() =~= a@.skip(i as int + 1));
        assert(b@.skip(i as int).drop_first() =~= b@.skip(i as int + 1));
        i += 1;
    }
    if i == b.len() {
        false
    } else if i == a.len() {
        true
    } else {
        a[i] < b[i]
    }
}

/// Adds `d` to the sorted key list, unless it is there already.
pub fn insert_key(keys: &mut Vec<Vec<u8>>, d: &[u8])
    requires
        sorted_keys(key_views(old(keys)@)),
    ensures
        sorted_keys(key_views(final(keys)@)),
        forall|k: Seq<u8>| key_views(final(keys)@).contains(k) <==> (key_views(old(keys)@).contains(k) || k == d@),
{
    let ghost before = key_views(keys@);
    let mut j: usize = 0;
    while j < keys.len() && bytes_less(keys[j].as_slice(), d)
        invariant
            j <= keys@.len(),
            before == key_views(keys@),
            forall|m: int| 0 <= m < j ==> bytes_lt(#[trigger] before[m], d@),
        decreases keys.len() - j,
    {
        j += 1;
    }
    if j < keys.len() && bytes_eq(keys[j].as_slice(), d) {
        assert(before[j as int] == d@);
        return;
    }
    proof {
        if j < before.len() {
            lemma_bytes_lt_total(before[j as int], d@);
        }
    }
    let c = copy_bytes(d);
    keys.insert(j, c);
    proof {
        let now = key_views(keys@);
        assert(key_views(keys@) == now);
        assert(key_views(old(keys)@) == before);
        assert(now =~= before.insert(j as int, d@));
        assert forall|x: int, y: int| 0 <= x < y < now.len() implies bytes_lt(#[trigger] now[x], #[trigger] now[y]) by {
            if y < j {
            } else if y == j {
                assert(now[x] == before[x]);
            } else if x == j {
                assert(now[y] == before[y - 1]);
                if y - 1 > j {
                    lemma_bytes_lt_transitive(d@, before[j as int], before[y - 1]);
                }
            } else if x < j {
                assert(now[y] == before[y - 1]);
            } else {
                assert(now[x] == before[x - 1]);
                assert(now[y] == before[y - 1]);
            }
        }
        assert forall|k: Seq<u8>| now.contains(k) <==> (before.contains(k) || k == d@) by {
            if now.contains(k) {
                let i = choose|i: int| 0 <= i < now.len() && now[i] == k;
                if i < j {
                    assert(before[i] == k);
                } else if i > j {
                    assert(before[i - 1] == k);
                }
            }
            if before.contains(k) {
                let i = choose|i: int| 0 <= i < before.len() && before[i] == k;
                if i < j {
                    assert(now[i] == k);
                } else {
                    assert(now[i + 1] == k);
                }
            }
            if k == d@ {
                assert(now[j as int] == k);
            }
        }
    }
}

/// Whether `a` and `b` hold the same bytes.
pub fn bytes_eq(a: &[u8], b: &[u8]) -> (r: bool)
    ensures
        r == (a@ == b@),
{
    if a.len() != b.len() {
        return false;
    }
    let mut i: usize = 0;
    while i < a.len()
        invariant
            i <= a.len(),
            a.len() == b.len(),
            a@.subrange(0, i as int) == b@.subrange(0, i as int),
        decreases a.len() - i,
    {
        if a[i] != b[i] {
            assert(a@.subrange(0, i as int + 1)[i as int] != b@.subrange(0, i as int + 1)[i as int]);
            return false;
        }
        assert(a@.subrange(0, i as int + 1) =~= a@.subrange(0, i as int).push(a[i as int]));
        assert(b@.subrange(0, i as int + 1) =~= b@.subrange(0, i as int).push(b[i as int]));
        i += 1;
    }
    assert(a@ =~= a@.subrange(0, i as int));
    assert(b@ =~= b@.subrange(0, i as int));
    true
}

/// The part `s[start..end]` of `s`.
pub fn sub_slice<'a>(s: &'a [u8], start: usize, end: usize) -> (r: &'a [u8])
    requires
        start <= end <= s@.len(),
    ensures
        r@ == s@.subrange(start as int, end as int),
{
    vstd::slice::slice_subrange(s, start, end)
}

/// The exec form of `key_end`.
pub fn scan_key_end(s: &[u8], i: usize) -> (r: usize)
    requires
        i <= s@.len(),
    ensures
        r as int == key_end(s@, i as int),
        i <= r <= s@.len(),
{
    let mut j = i;
    while j < s.len() && s[j] != 38u8 && s[j] != 61u8
        invariant
            i <= j <= s@.len(),
            key_end(s@, j as int) == key_end(s@, i as int),
        decreases s.len() - j,
    {
        j += 1;
    }
    j
}

/// The exec form of `value_end`.
pub fn scan_value_end(s: &[u8], i: usize) -> (r: usize)
    requires
        i <= s@.len(),
    ensures
        r as int == value_end(s@, i as int),
        i <= r <= s@.len(),
{
    let mut j = i;
    while j < s.len() && s[j] != 38u8
        invariant
            i <= j <= s@.len(),
            value_end(s@, j as int) == value_end(s@, i as int),
        decreases s.len() - j,
    {
        j += 1;
    }
    j
}

/// Percent-decodes an optional raw value, borrowing it where nothing changes.
pub fn decode_opt<'a>(o: Option<&'a [u8]>) -> (r: Option<Cow<'a, [u8]>>)
    ensures
        opt_view(r) == decoded_opt(opt_slice_view(o)),
        o matches Some(v) ==> (r matches Some(c) && ((c matches Cow::Borrowed(_)) <==> plain_from(v@, 0))),
{
    match o {
        Some(v) => Some(parse_bytes(v).into_cow()),
        None => None,
    }
}

/// Copies the listed keys.
pub fn copy_keys(keys: &Vec<Vec<u8>>) -> (r: Vec<Vec<u8>>)
    ensures
        key_views(r@) == key_views(keys@),
{
    let mut r: Vec<Vec<u8>> = Vec::new();
    let mut i: usize = 0;
    while i < keys.len()
        invariant
            i <= keys@.len(),
            key_views(r@) == key_views(keys@).take(i as int),
        decreases keys.len() - i,
    {
        let ghost before = r@;
        let k = copy_bytes(keys[i].as_slice());
        r.push(k);
        assert(key_views(r@) =~= before.map_values(|k: Vec<u8>| k@).push(keys@[i as int]@));
        i += 1;
        assert(key_views(r@) =~= key_views(keys@).take(i as int));
    }
    assert(key_views(keys@).take(i as int) =~= key_views(keys@));
    r
}

/// One tokenized pair: the raw key, its percent-decoding, and the raw value.
pub struct FlatPair<'a> {
    pub raw_key: &'a [u8],
    pub key: Vec<u8>,
    pub value: Option<&'a [u8]>,
}

impl<'a> FlatPair<'a> {
    /// What the pair stands for: its raw key and raw value.
    pub open spec fn raw(&self) -> RawPair {
        (self.raw_key@, opt_slice_view(self.value))
    }
}

/// Reads the pair at position `i` of `s` and returns it with the position of the next one.
pub fn read_pair<'a>(s: &'a [u8], i: usize) -> (r: (FlatPair<'a>, usize))
    requires
        i < s@.len(),
    ensures
        r.0.raw() == pair_at(s@, i as int),
        r.0.key@ == decoded(r.0.raw_key@),
        r.1 as int == next_pair(s@, i as int),
        i < r.1 <= s@.len(),
{
    let ke = scan_key_end(s, i);
    let raw_key = sub_slice(s, i, ke);
    let key = parse_bytes(raw_key).to_vec();
    if ke < s.len() && s[ke] == 61u8 {
        let ve = scan_value_end(s, ke + 1);
        let next = if ve < s.len() { ve + 1 } else { ve };
        (FlatPair { raw_key, key, value: Some(sub_slice(s, ke + 1, ve)) }, next)
    } else {
        let next = if ke < s.len() { ke + 1 } else { ke };
        (FlatPair { raw_key, key, value: None }, next)
    }
}

/// The query string's pairs, in order, with their keys decoded, and the sorted list of
/// its distinct decoded keys.
pub struct FlatTable<'a> {
    pub items: Vec<FlatPair<'a>>,
    pub keys: Vec<Vec<u8>>,
}

impl<'a> FlatTable<'a> {
    /// The pairs that the table holds, raw.
    pub open spec fn raw_pairs(&self) -> Seq<RawPair> {
        self.items@.map_values(|p: FlatPair<'a>| p.raw())
    }

    /// The distinct keys that the table lists.
    pub open spec fn key_list(&self) -> Seq<Seq<u8>> {
        key_views(self.keys@)
    }

    /// The table holds the pairs of `s`, each key decoded, and lists their distinct
    /// decoded keys in ascending byte order.
    pub open spec fn holds(&self, s: Seq<u8>) -> bool {
        &&& self.raw_pairs() == pairs(s)
        &&& forall|i: int| 0 <= i < self.items@.len() ==> #[trigger] self.items@[i].key@ == decoded(
            self.items@[i].raw_key@,
        )
        &&& lists_keys_of(self.key_list(), pairs(s))
    }

    /// The raw values given to the key whose decoding is `key`, in order.
    pub fn raw_values(&self, key: &[u8]) -> (r: Vec<Option<&'a [u8]>>)
        requires
            forall|i: int| 0 <= i < self.items@.len() ==> #[trigger] self.items@[i].key@ == decoded(
                self.items@[i].raw_key@,
            ),
        ensures
            r@.map_values(|o: Option<&'a [u8]>| opt_slice_view(o)) == values_of(self.raw_pairs(), key@),
    {
        let mut r: Vec<Option<&'a [u8]>> = Vec::new();
        let mut i: usize = 0;
        while i < self.items.len()
            invariant
                i <= self.items@.len(),
                forall|m: int| 0 <= m < self.items@.len() ==> #[trigger] self.items@[m].key@ == decoded(
                    self.items@[m].raw_key@,
                ),
                r@.map_values(|o: Option<&'a [u8]>| opt_slice_view(o)) == values_of(
                    self.raw_pairs().take(i as int),
                    key@,
                ),
            decreases self.items.len() - i,
        {
            let ghost before = r@.map_values(|o: Option<&'a [u8]>| opt_slice_view(o));
            let item = &self.items[i];
            proof {
                assert(self.raw_pairs().take(i as int + 1).drop_last() =~= self.raw_pairs().take(i as int));
                assert(self.raw_pairs().take(i as int + 1).last() == item.raw());
            }
            if bytes_eq(item.key.as_slice(), key) {
                r.push(item.value);
                assert(r@.map_values(|o: Option<&'a [u8]>| opt_slice_view(o)) =~= before.push(
                    opt_slice_view(item.value),
                ));
            }
            i += 1;
        }
        assert(self.raw_pairs().take(i as int) =~= self.raw_pairs());
        r
    }

    /// The raw value that the key whose decoding is `key` was given last: `None` if it
    /// does not occur, `Some(None)` if its last occurrence has no `=`.
    pub fn last_raw_value(&self, key: &[u8]) -> (r: Option<Option<&'a [u8]>>)
        requires
            forall|i: int| 0 <= i < self.items@.len() ==> #[trigger] self.items@[i].key@ == decoded(
                self.items@[i].raw_key@,
            ),
        ensures
            r is None <==> values_of(self.raw_pairs(), key@).len() == 0,
            r matches Some(o) ==> opt_slice_view(o) == values_of(self.raw_pairs(), key@).last(),
    {
        let vs = self.raw_values(key);
        if vs.len() == 0 {
            None
        } else {
            Some(vs[vs.len() - 1])
        }
    }

    /// Tokenizes `s` and groups its pairs by decoded key.
    pub fn parse(s: &'a [u8]) -> (r: Self)
        ensures
            r.holds(s@),
    {
        let mut items: Vec<FlatPair<'a>> = Vec::new();
        let mut keys: Vec<Vec<u8>> = Vec::new();
        let mut index: usize = 0;
        while index < s.len()
            invariant
                index <= s@.len(),
                items@.map_values(|p: FlatPair<'a>| p.raw()) + pairs_from(s@, index as int) == pairs(s@),
                forall|i: int| 0 <= i < items@.len() ==> #[trigger] items@[i].key@ == decoded(items@[i].raw_key@),
                lists_keys_of(key_views(keys@), items@.map_values(|p: FlatPair<'a>| p.raw())),
            decreases s.len() - index,
        {
            let (pair, next) = read_pair(s, index);
            let ghost old_raw = items@.map_values(|p: FlatPair<'a>| p.raw());
            let ghost old_keys = key_views(keys@);
            let ghost old_keys_vec = keys@;
            let ghost pr = pair.raw();
            insert_key(&mut keys, pair.key.as_slice());
            assert(key_views(old_keys_vec) == old_keys);
            items.push(pair);
            proof {
                let new_raw = items@.map_values(|p: FlatPair<'a>| p.raw());
                assert(new_raw =~= old_raw.push(pr));
                assert(new_raw.drop_last() =~= old_raw);
                assert(pairs_from(s@, index as int) =~= seq![pr] + pairs_from(s@, next as int));
                assert(new_raw + pairs_from(s@, next as int) =~= old_raw + pairs_from(s@, index as int));
                assert(new_raw.last() == pr);
                assert forall|k: Seq<u8>| key_views(keys@).contains(k) <==> values_of(
                    new_raw,
                    k,
                ).len() > 0 by {
                    assert(old_keys.contains(k) <==> values_of(old_raw, k).len() > 0);
                    assert(key_views(keys@).contains(k) <==> (old_keys.contains(k) || k == decoded(pr.0)));
                    if decoded(pr.0) == k {
                        assert(values_of(new_raw, k) == values_of(old_raw, k).push(pr.1));
                    } else {
                        assert(values_of(new_raw, k) == values_of(old_raw, k));
                    }
                }
            }
            index = next;
        }
        proof {
            assert(pairs_from(s@, index as int) =~= Seq::<RawPair>::empty());
            assert(items@.map_values(|p: FlatPair<'a>| p.raw()) =~= pairs(s@));
        }
        FlatTable { items, keys }
    }
}

} // verus!
