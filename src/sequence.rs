//! How the bracket grammar turns the pairs of one key into a list. Each pair is
//! placed by the sub-key that follows the key: none or an empty one (`key[]`) gives a
//! list item of its own; a name groups the pairs that share it; a number (up to 65535)
//! groups the pairs that share it too, and those groups come last, by ascending number.
use vstd::prelude::*;
use crate::brackets::{closes, subkey, BracketItem, BracketPair};
use crate::decode::{copy_bytes, decoded, parse_bytes};
use crate::pairs::{key_views, bytes_eq, opt_slice_view};
use crate::value::{all_digits, digits_value, negative, read_decimal, unsigned_part};

verus! {

/// Where a pair goes in a list.
pub enum Slot {
    /// An item of its own.
    Free,
    /// The item of the pairs with this (decoded) name.
    Named(Seq<u8>),
    /// The item of the pairs with this number.
    Index(int),
}

/// The number that a decoded sub-key writes, if it is one to 65535 at most in plain
/// decimal digits.
pub open spec fn index_of_name(n: Seq<u8>) -> Option<int> {
    if n.len() > 0 && all_digits(n) && digits_value(n) <= 65535 {
        Some(digits_value(n))
    } else {
        None
    }
}

/// Where the pair `e` goes.
pub open spec fn slot_of(e: BracketPair) -> Slot {
    match e.1 {
        None => Slot::Free,
        Some(r) => {
            let sk = decoded(subkey(r).0);
            if sk.len() == 0 {
                Slot::Free
            } else {
                match index_of_name(sk) {
                    Some(v) => Slot::Index(v),
                    None => Slot::Named(sk),
                }
            }
        },
    }
}

/// The pair `e` as a list item sees it: one bracket level deeper, when it has one.
pub open spec fn step(e: BracketPair) -> BracketPair {
    match e.1 {
        Some(r) => (subkey(r).0, subkey(r).1, e.2),
        None => e,
    }
}

/// The items of the pairs that go alone, in order.
pub open spec fn free_items(g: Seq<BracketPair>) -> Seq<Seq<BracketPair>>
    decreases g.len(),
{
    if g.len() == 0 {
        Seq::empty()
    } else if slot_of(g.last()) is Free {
        free_items(g.drop_last()).push(seq![step(g.last())])
    } else {
        free_items(g.drop_last())
    }
}

/// The distinct names, in the order of their first appearance.
pub open spec fn names(g: Seq<BracketPair>) -> Seq<Seq<u8>>
    decreases g.len(),
{
    if g.len() == 0 {
        Seq::empty()
    } else {
        match slot_of(g.last()) {
            Slot::Named(n) => if names(g.drop_last()).contains(n) {
                names(g.drop_last())
            } else {
                names(g.drop_last()).push(n)
            },
            _ => names(g.drop_last()),
        }
    }
}

/// The pairs that go to `s`, as the list item sees them, in order.
pub open spec fn slot_group(g: Seq<BracketPair>, s: Slot) -> Seq<BracketPair>
    decreases g.len(),
{
    if g.len() == 0 {
        Seq::empty()
    } else if slot_of(g.last()) == s {
        slot_group(g.drop_last(), s).push(step(g.last()))
    } else {
        slot_group(g.drop_last(), s)
    }
}

/// Whether some pair goes to number `v`.
pub open spec fn has_index(g: Seq<BracketPair>, v: int) -> bool {
    exists|j: int| 0 <= j < g.len() && slot_of(g[j]) == Slot::Index(v)
}

/// Whether `v` is the least number at or above `lo` that some pair goes to.
pub open spec fn least_index_from(g: Seq<BracketPair>, lo: int, v: int) -> bool {
    lo <= v && has_index(g, v) && forall|w: int| lo <= w && has_index(g, w) ==> v <= w
}

/// The numbers that pairs go to, from `lo` on, ascending and each once.
pub open spec fn indices_from(g: Seq<BracketPair>, lo: int) -> Seq<int>
    decreases 65536 - lo,
{
    if lo > 65535 || !(exists|v: int| least_index_from(g, lo, v)) {
        Seq::empty()
    } else {
        let m = choose|v: int| least_index_from(g, lo, v);
        if lo <= m <= 65535 {
            seq![m] + indices_from(g, m + 1)
        } else {
            Seq::empty()
        }
    }
}

/// The list that the pairs `g` of one key make: the items that go alone, then the
/// named items, then the numbered items by ascending number.
pub open spec fn list_items_of(g: Seq<BracketPair>) -> Seq<Seq<BracketPair>> {
    free_items(g) + names(g).map_values(|n: Seq<u8>| slot_group(g, Slot::Named(n)))
        + indices_from(g, 0).map_values(|i: int| slot_group(g, Slot::Index(i)))
}

/// The exec form of `Slot`.
pub enum SlotKind {
    Free,
    Named(Vec<u8>),
    Index(usize),
}

impl SlotKind {
    pub open spec fn view_slot(&self) -> Slot {
        match self {
            SlotKind::Free => Slot::Free,
            SlotKind::Named(n) => Slot::Named(n@),
            SlotKind::Index(i) => Slot::Index(*i as int),
        }
    }
}

/// Where the item goes.
fn item_slot(item: &BracketItem) -> (r: SlotKind)
    ensures
        r.view_slot() == slot_of(item.view_pair()),
{
    match item.rest {
        None => SlotKind::Free,
        Some(rest) => {
            let (sk, _next) = crate::brackets::read_subkey(rest);
            let d = parse_bytes(sk).to_vec();
            if d.len() == 0 {
                return SlotKind::Free;
            }
            if 48 <= d[0] && d[0] <= 57 {
                assert(unsigned_part(d@) == d@);
                match read_decimal(d.as_slice()) {
                    Some((_neg, v)) => {
                        if v <= 65535 {
                            return SlotKind::Index(v as usize);
                        }
                    },
                    None => {},
                }
            }
            proof {
                if !(48 <= d@[0] && d@[0] <= 57) {
                    assert(!all_digits(d@));
                }
            }
            SlotKind::Named(d)
        },
    }
}

/// The item as a list item sees it: one bracket level deeper, when it has one.
fn step_item<'a>(item: &BracketItem<'a>) -> (r: BracketItem<'a>)
    requires
        item.key_ok(),
    ensures
        r.view_pair() == step(item.view_pair()),
        r.key_ok(),
{
    match item.rest {
        Some(rest) => {
            let (part, next) = crate::brackets::read_subkey(rest);
            let key = parse_bytes(part).to_vec();
            BracketItem { part, rest: next, key, value: item.value }
        },
        None => BracketItem {
            part: item.part,
            rest: item.rest,
            key: copy_bytes(item.key.as_slice()),
            value: item.value,
        },
    }
}

/// The items of `g` that go to `s`, as the list item sees them.
fn collect_slot<'a>(g: &Vec<BracketItem<'a>>, slots: &Vec<SlotKind>, s: &SlotKind) -> (r: Vec<BracketItem<'a>>)
    requires
        slots@.len() == g@.len(),
        forall|i: int| 0 <= i < g@.len() ==> (#[trigger] g@[i]).key_ok(),
        forall|i: int| 0 <= i < g@.len() ==> (#[trigger] slots@[i]).view_slot() == slot_of(g@[i].view_pair()),
    ensures
        r@.map_values(|i: BracketItem<'a>| i.view_pair()) == slot_group(
            g@.map_values(|i: BracketItem<'a>| i.view_pair()),
            s.view_slot(),
        ),
        forall|i: int| 0 <= i < r@.len() ==> (#[trigger] r@[i]).key_ok(),
{
    let ghost gv = g@.map_values(|i: BracketItem<'a>| i.view_pair());
    let mut r: Vec<BracketItem<'a>> = Vec::new();
    let mut n: usize = 0;
    while n < g.len()
        invariant
            n <= g@.len(),
            slots@.len() == g@.len(),
            gv == g@.map_values(|i: BracketItem<'a>| i.view_pair()),
            forall|i: int| 0 <= i < g@.len() ==> (#[trigger] g@[i]).key_ok(),
            forall|i: int| 0 <= i < g@.len() ==> (#[trigger] slots@[i]).view_slot() == slot_of(g@[i].view_pair()),
            r@.map_values(|i: BracketItem<'a>| i.view_pair()) == slot_group(gv.take(n as int), s.view_slot()),
            forall|i: int| 0 <= i < r@.len() ==> (#[trigger] r@[i]).key_ok(),
        decreases g.len() - n,
    {
        let ghost before = r@.map_values(|i: BracketItem<'a>| i.view_pair());
        proof {
            assert(gv.take(n as int + 1).drop_last() =~= gv.take(n as int));
            assert(gv.take(n as int + 1).last() == g@[n as int].view_pair());
            assert(g@[n as int].key_ok());
            assert(slots@[n as int].view_slot() == slot_of(g@[n as int].view_pair()));
        }
        if same_slot(&slots[n], s) {
            let it = step_item(&g[n]);
            r.push(it);
            assert(r@.map_values(|i: BracketItem<'a>| i.view_pair()) =~= before.push(step(gv[n as int])));
        }
        n += 1;
    }
    assert(gv.take(n as int) =~= gv);
    r
}

/// Whether two slots are the same.
fn same_slot(a: &SlotKind, b: &SlotKind) -> (r: bool)
    ensures
        r == (a.view_slot() == b.view_slot()),
{
    match (a, b) {
        (SlotKind::Free, SlotKind::Free) => true,
        (SlotKind::Named(x), SlotKind::Named(y)) => bytes_eq(x.as_slice(), y.as_slice()),
        (SlotKind::Index(x), SlotKind::Index(y)) => *x == *y,
        _ => false,
    }
}

/// What a vector of items stands for.
pub open spec fn items_view<'a>(v: Vec<BracketItem<'a>>) -> Seq<BracketPair> {
    v@.map_values(|i: BracketItem<'a>| i.view_pair())
}

/// What a list of items stands for.
pub open spec fn list_view<'a>(v: Vec<Vec<BracketItem<'a>>>) -> Seq<Seq<BracketPair>> {
    v@.map_values(|e: Vec<BracketItem<'a>>| items_view(e))
}

/// Where each item goes.
fn slots_of<'a>(g: &Vec<BracketItem<'a>>) -> (r: Vec<SlotKind>)
    ensures
        r@.len() == g@.len(),
        forall|i: int| 0 <= i < g@.len() ==> (#[trigger] r@[i]).view_slot() == slot_of(g@[i].view_pair()),
{
    let mut r: Vec<SlotKind> = Vec::new();
    let mut n: usize = 0;
    while n < g.len()
        invariant
            n <= g@.len(),
            r@.len() == n,
            forall|i: int| 0 <= i < n ==> (#[trigger] r@[i]).view_slot() == slot_of(g@[i].view_pair()),
        decreases g.len() - n,
    {
        r.push(item_slot(&g[n]));
        n += 1;
    }
    r
}

/// The items of the pairs that go alone.
fn free_part<'a>(g: &Vec<BracketItem<'a>>, slots: &Vec<SlotKind>) -> (r: Vec<Vec<BracketItem<'a>>>)
    requires
        slots@.len() == g@.len(),
        forall|i: int| 0 <= i < g@.len() ==> (#[trigger] g@[i]).key_ok(),
        forall|i: int| 0 <= i < g@.len() ==> (#[trigger] slots@[i]).view_slot() == slot_of(g@[i].view_pair()),
    ensures
        list_view(r) == free_items(items_view(*g)),
        forall|i: int, j: int| 0 <= i < r@.len() && 0 <= j < r@[i]@.len() ==> (#[trigger] r@[i]@[j]).key_ok(),
{
    let ghost gv = items_view(*g);
    let mut r: Vec<Vec<BracketItem<'a>>> = Vec::new();
    let mut n: usize = 0;
    while n < g.len()
        invariant
            n <= g@.len(),
            slots@.len() == g@.len(),
            gv == items_view(*g),
            forall|i: int| 0 <= i < g@.len() ==> (#[trigger] g@[i]).key_ok(),
            forall|i: int| 0 <= i < g@.len() ==> (#[trigger] slots@[i]).view_slot() == slot_of(g@[i].view_pair()),
            list_view(r) == free_items(gv.take(n as int)),
            forall|i: int, j: int| 0 <= i < r@.len() && 0 <= j < r@[i]@.len() ==> (#[trigger] r@[i]@[j]).key_ok(),
        decreases g.len() - n,
    {
        let ghost before = list_view(r);
        proof {
            assert(gv.take(n as int + 1).drop_last() =~= gv.take(n as int));
            assert(gv.take(n as int + 1).last() == g@[n as int].view_pair());
            assert(g@[n as int].key_ok());
            assert(slots@[n as int].view_slot() == slot_of(g@[n as int].view_pair()));
        }
        match slots[n] {
            SlotKind::Free => {
                let it = step_item(&g[n]);
                let mut one: Vec<BracketItem<'a>> = Vec::new();
                one.push(it);
                assert(items_view(one) =~= seq![step(gv[n as int])]);
                r.push(one);
                assert(list_view(r) =~= before.push(seq![step(gv[n as int])]));
            },
            _ => {},
        }
        n += 1;
    }
    assert(gv.take(n as int) =~= gv);
    r
}

/// The distinct names, in the order of their first appearance.
fn name_list<'a>(g: &Vec<BracketItem<'a>>, slots: &Vec<SlotKind>) -> (r: Vec<Vec<u8>>)
    requires
        slots@.len() == g@.len(),
        forall|i: int| 0 <= i < g@.len() ==> (#[trigger] slots@[i]).view_slot() == slot_of(g@[i].view_pair()),
    ensures
        key_views(r@) == names(items_view(*g)),
{
    let ghost gv = items_view(*g);
    let mut r: Vec<Vec<u8>> = Vec::new();
    let mut n: usize = 0;
    while n < g.len()
        invariant
            n <= g@.len(),
            slots@.len() == g@.len(),
            gv == items_view(*g),
            forall|i: int| 0 <= i < g@.len() ==> (#[trigger] slots@[i]).view_slot() == slot_of(g@[i].view_pair()),
            key_views(r@) == names(gv.take(n as int)),
        decreases g.len() - n,
    {
        let ghost before = key_views(r@);
        proof {
            assert(gv.take(n as int + 1).drop_last() =~= gv.take(n as int));
            assert(gv.take(n as int + 1).last() == g@[n as int].view_pair());
            assert(slots@[n as int].view_slot() == slot_of(g@[n as int].view_pair()));
        }
        match &slots[n] {
            SlotKind::Named(name) => {
                let mut found = false;
                let mut j: usize = 0;
                while j < r.len() && !found
                    invariant
                        j <= r@.len(),
                        found ==> j < r@.len() && r@[j as int]@ == name@,
                        !found ==> forall|m: int| 0 <= m < j ==> r@[m]@ != name@,
                    decreases (r.len() - j) as int + if found { 0int } else { 1int },
                {
                    if bytes_eq(r[j].as_slice(), name.as_slice()) {
                        found = true;
                    } else {
                        j += 1;
                    }
                }
                proof {
                    if !found {
                        assert forall|m: int| 0 <= m < before.len() implies before[m] != name@ by {
                            assert(r@[m]@ != name@);
                        }
                        assert(!before.contains(name@));
                    } else {
                        assert(before[j as int] == name@);
                        assert(before.contains(name@));
                    }
                }
                if !found {
                    let c = copy_bytes(name.as_slice());
                    r.push(c);
                    assert(key_views(r@) =~= before.push(name@));
                }
            },
            _ => {},
        }
        n += 1;
    }
    assert(gv.take(n as int) =~= gv);
    r
}

/// The named items, in the order of their names' first appearance.
fn named_part<'a>(g: &Vec<BracketItem<'a>>, slots: &Vec<SlotKind>) -> (r: Vec<Vec<BracketItem<'a>>>)
    requires
        slots@.len() == g@.len(),
        forall|i: int| 0 <= i < g@.len() ==> (#[trigger] g@[i]).key_ok(),
        forall|i: int| 0 <= i < g@.len() ==> (#[trigger] slots@[i]).view_slot() == slot_of(g@[i].view_pair()),
    ensures
        list_view(r) == names(items_view(*g)).map_values(
            |n: Seq<u8>| slot_group(items_view(*g), Slot::Named(n)),
        ),
        forall|i: int, j: int| 0 <= i < r@.len() && 0 <= j < r@[i]@.len() ==> (#[trigger] r@[i]@[j]).key_ok(),
{
    let ghost gv = items_view(*g);
    let ns = name_list(g, slots);
    let ghost nv = key_views(ns@);
    let mut r: Vec<Vec<BracketItem<'a>>> = Vec::new();
    let mut m: usize = 0;
    while m < ns.len()
        invariant
            m <= ns@.len(),
            slots@.len() == g@.len(),
            gv == items_view(*g),
            nv == key_views(ns@),
            forall|i: int| 0 <= i < g@.len() ==> (#[trigger] g@[i]).key_ok(),
            forall|i: int| 0 <= i < g@.len() ==> (#[trigger] slots@[i]).view_slot() == slot_of(g@[i].view_pair()),
            list_view(r) == nv.take(m as int).map_values(|n: Seq<u8>| slot_group(gv, Slot::Named(n))),
            forall|i: int, j: int| 0 <= i < r@.len() && 0 <= j < r@[i]@.len() ==> (#[trigger] r@[i]@[j]).key_ok(),
        decreases ns.len() - m,
    {
        let ghost before = list_view(r);
        let want = SlotKind::Named(copy_bytes(ns[m].as_slice()));
        let items = collect_slot(g, slots, &want);
        r.push(items);
        assert(nv.take(m as int + 1) =~= nv.take(m as int).push(nv[m as int]));
        assert(list_view(r) =~= before.push(slot_group(gv, Slot::Named(nv[m as int]))));
        m += 1;
    }
    assert(nv.take(m as int) =~= nv);
    r
}

/// The least number at or above `lo` that an item goes to, if any.
fn least_index<'a>(g: &Vec<BracketItem<'a>>, slots: &Vec<SlotKind>, lo: usize) -> (r: Option<usize>)
    requires
        slots@.len() == g@.len(),
        forall|i: int| 0 <= i < g@.len() ==> (#[trigger] slots@[i]).view_slot() == slot_of(g@[i].view_pair()),
    ensures
        r matches Some(m) ==> least_index_from(items_view(*g), lo as int, m as int) && m <= 65535,
        r is None ==> forall|v: int| lo <= v ==> !has_index(items_view(*g), v),
{
    let ghost gv = items_view(*g);
    let mut best: Option<usize> = None;
    let mut n: usize = 0;
    while n < slots.len()
        invariant
            n <= g@.len(),
            slots@.len() == g@.len(),
            gv == items_view(*g),
            forall|i: int| 0 <= i < g@.len() ==> (#[trigger] slots@[i]).view_slot() == slot_of(g@[i].view_pair()),
            best matches Some(b) ==> lo <= b <= 65535 && exists|k: int| 0 <= k < n && slot_of(gv[k]) == Slot::Index(b as int),
            forall|k: int, w: int| 0 <= k < n && lo <= w && slot_of(gv[k]) == Slot::Index(w) ==> (best matches Some(b) && b <= w),
        decreases slots.len() - n,
    {
        proof {
            assert(gv[n as int] == g@[n as int].view_pair());
            assert(slots@[n as int].view_slot() == slot_of(gv[n as int]));
        }
        match slots[n] {
            SlotKind::Index(v) => {
                proof {
                    let sk = decoded(subkey(gv[n as int].1.unwrap()).0);
                    assert(index_of_name(sk) == Some(v as int));
                }
                if lo <= v {
                    match best {
                        Some(b) => {
                            if v < b {
                                best = Some(v);
                            }
                        },
                        None => {
                            best = Some(v);
                        },
                    }
                }
            },
            _ => {},
        }
        n += 1;
    }
    match best {
        Some(b) => {
            assert forall|w: int| lo <= w && has_index(gv, w) implies b <= w by {
                let k = choose|k: int| 0 <= k < gv.len() && slot_of(gv[k]) == Slot::Index(w);
            }
        },
        None => {
            assert forall|v: int| lo <= v implies !has_index(gv, v) by {
                if has_index(gv, v) {
                    let k = choose|k: int| 0 <= k < gv.len() && slot_of(gv[k]) == Slot::Index(v);
                }
            }
        },
    }
    best
}

/// The numbered items, by ascending number.
fn indexed_part<'a>(g: &Vec<BracketItem<'a>>, slots: &Vec<SlotKind>) -> (r: Vec<Vec<BracketItem<'a>>>)
    requires
        slots@.len() == g@.len(),
        forall|i: int| 0 <= i < g@.len() ==> (#[trigger] g@[i]).key_ok(),
        forall|i: int| 0 <= i < g@.len() ==> (#[trigger] slots@[i]).view_slot() == slot_of(g@[i].view_pair()),
    ensures
        list_view(r) == indices_from(items_view(*g), 0).map_values(
            |i: int| slot_group(items_view(*g), Slot::Index(i)),
        ),
        forall|i: int, j: int| 0 <= i < r@.len() && 0 <= j < r@[i]@.len() ==> (#[trigger] r@[i]@[j]).key_ok(),
{
    let ghost gv = items_view(*g);
    let mut r: Vec<Vec<BracketItem<'a>>> = Vec::new();
    let mut lo: usize = 0;
    let mut done = false;
    while !done
        invariant
            lo <= 65536,
            slots@.len() == g@.len(),
            gv == items_view(*g),
            forall|i: int| 0 <= i < g@.len() ==> (#[trigger] g@[i]).key_ok(),
            forall|i: int| 0 <= i < g@.len() ==> (#[trigger] slots@[i]).view_slot() == slot_of(g@[i].view_pair()),
            !done ==> list_view(r) + indices_from(gv, lo as int).map_values(
                |i: int| slot_group(gv, Slot::Index(i)),
            ) == indices_from(gv, 0).map_values(|i: int| slot_group(gv, Slot::Index(i))),
            done ==> list_view(r) == indices_from(gv, 0).map_values(|i: int| slot_group(gv, Slot::Index(i))),
            forall|i: int, j: int| 0 <= i < r@.len() && 0 <= j < r@[i]@.len() ==> (#[trigger] r@[i]@[j]).key_ok(),
        decreases 65537 - lo - if done { 1int } else { 0int },
    {
        let ghost before = list_view(r);
        match least_index(g, slots, lo) {
            None => {
                proof {
                    assert(!(exists|v: int| least_index_from(gv, lo as int, v)));
                    assert(indices_from(gv, lo as int) =~= Seq::<int>::empty());
                    assert(before + indices_from(gv, lo as int).map_values(|i: int| slot_group(gv, Slot::Index(i)))
                        =~= before);
                }
                done = true;
            },
            Some(m) => {
                proof {
                    let c = choose|v: int| least_index_from(gv, lo as int, v);
                    assert(least_index_from(gv, lo as int, c));
                    assert(c <= m as int && m as int <= c);
                    assert(indices_from(gv, lo as int) =~= seq![m as int] + indices_from(gv, m as int + 1));
                }
                let items = collect_slot(g, slots, &SlotKind::Index(m));
                r.push(items);
                proof {
                    let f = |i: int| slot_group(gv, Slot::Index(i));
                    assert(indices_from(gv, lo as int).map_values(f) =~= seq![f(m as int)] + indices_from(
                        gv,
                        m as int + 1,
                    ).map_values(f));
                    assert(list_view(r) =~= before.push(f(m as int)));
                    assert(before + indices_from(gv, lo as int).map_values(f) =~= list_view(r) + indices_from(
                        gv,
                        m as int + 1,
                    ).map_values(f));
                }
                lo = m + 1;
            },
        }
    }
    r
}

/// The list that the items `g` of one key make under the bracket grammar: the items
/// that go alone, then the named items, then the numbered items by ascending number.
pub fn list_items<'a>(g: &Vec<BracketItem<'a>>) -> (r: Vec<Vec<BracketItem<'a>>>)
    requires
        forall|i: int| 0 <= i < g@.len() ==> (#[trigger] g@[i]).key_ok(),
    ensures
        list_view(r) == list_items_of(items_view(*g)),
        forall|i: int, j: int| 0 <= i < r@.len() && 0 <= j < r@[i]@.len() ==> (#[trigger] r@[i]@[j]).key_ok(),
{
    let slots = slots_of(g);
    let mut r = free_part(g, &slots);
    let mut named = named_part(g, &slots);
    let mut indexed = indexed_part(g, &slots);
    let ghost a = list_view(r);
    let ghost b = list_view(named);
    let ghost c = list_view(indexed);
    let ghost ra = r@;
    let ghost rb = named@;
    let ghost rc = indexed@;
    r.append(&mut named);
    r.append(&mut indexed);
    assert(r@ =~= ra + rb + rc);
    assert(list_view(r) =~= a + b + c);
    r
}

/// The parts of a tuple variant written as one comma-joined value (`key[V]=v1,v2`):
/// when the variant's pairs are a single pair that ends at this level and has a value,
/// that value split at each comma.
pub open spec fn comma_parts(g: Seq<BracketPair>) -> Option<Seq<Seq<u8>>> {
    if g.len() == 1 && !closes(g[0].1) && g[0].2 is Some {
        Some(crate::delimiter::split(g[0].2.unwrap(), 44u8))
    } else {
        None
    }
}

/// The raw parts of a tuple variant written as one comma-joined value, if it is one.
pub fn tuple_parts<'a>(g: &Vec<BracketItem<'a>>) -> (r: Option<Vec<&'a [u8]>>)
    ensures
        match r {
            Some(p) => comma_parts(items_view(*g)) == Some(p@.map_values(|x: &'a [u8]| x@)),
            None => comma_parts(items_view(*g)) is None,
        },
{
    if g.len() != 1 || crate::brackets::has_subkey(g[0].rest) {
        return None;
    }
    match g[0].value {
        Some(v) => Some(crate::delimiter::split_raw(v, 44u8)),
        None => None,
    }
}

/// The raw value that a scalar reads from the pairs `g`: that of the last pair that
/// ends at this level, if it has one.
pub open spec fn scalar_of(g: Seq<BracketPair>) -> Option<Seq<u8>>
    decreases g.len(),
{
    if g.len() == 0 {
        None
    } else if !closes(g.last().1) {
        g.last().2
    } else {
        scalar_of(g.drop_last())
    }
}

/// The raw value that a scalar reads from the items `g`.
pub fn scalar<'a>(g: &Vec<BracketItem<'a>>) -> (r: Option<&'a [u8]>)
    ensures
        opt_slice_view(r) == scalar_of(items_view(*g)),
{
    let ghost gv = items_view(*g);
    let mut n = g.len();
    assert(gv.take(n as int) =~= gv);
    while n > 0
        invariant
            n <= g@.len(),
            gv == items_view(*g),
            scalar_of(gv) == scalar_of(gv.take(n as int)),
        decreases n,
    {
        proof {
            assert(gv.take(n as int).drop_last() =~= gv.take(n as int - 1));
            assert(gv.take(n as int).last() == g@[n as int - 1].view_pair());
        }
        if !crate::brackets::has_subkey(g[n - 1].rest) {
            return g[n - 1].value;
        }
        n -= 1;
    }
    assert(gv.take(0) =~= Seq::<BracketPair>::empty());
    None
}

/// Whether the pairs `g` stand for no value: there are none, or just one that ends at
/// this level with an empty or missing value.
pub open spec fn absent(g: Seq<BracketPair>) -> bool {
    g.len() == 0 || (g.len() == 1 && !closes(g[0].1) && (g[0].2 is None || g[0].2.unwrap().len() == 0))
}

/// Whether the items `g` stand for no value.
pub fn is_absent<'a>(g: &Vec<BracketItem<'a>>) -> (r: bool)
    ensures
        r == absent(items_view(*g)),
{
    if g.len() == 0 {
        return true;
    }
    if g.len() != 1 || crate::brackets::has_subkey(g[0].rest) {
        return false;
    }
    match g[0].value {
        None => true,
        Some(v) => v.len() == 0,
    }
}

/// The variant that the pairs `g` of an enum name, and the pairs it carries: the last
/// pair decides. When its key goes on (`key[V]...`), the variant is its decoded sub-key
/// and it carries the pairs one level down under that sub-key; otherwise the variant
/// is its decoded value and it carries nothing. Pairs naming other variants are
/// dropped.
pub open spec fn variant_of(g: Seq<BracketPair>) -> Option<(Seq<u8>, Option<Seq<BracketPair>>)> {
    if g.len() == 0 {
        None
    } else if closes(g.last().1) {
        let name = decoded(subkey(g.last().1.unwrap()).0);
        Some((name, Some(crate::brackets::group(crate::brackets::deeper(g), name))))
    } else {
        Some((decoded(match g.last().2 {
            Some(v) => v,
            None => Seq::<u8>::empty(),
        }), None))
    }
}

/// The variant that the items `g` of an enum name, and the items it carries.
pub fn variant<'a>(g: &Vec<BracketItem<'a>>) -> (r: Option<(Vec<u8>, Option<Vec<BracketItem<'a>>>)>)
    requires
        forall|i: int| 0 <= i < g@.len() ==> (#[trigger] g@[i]).key_ok(),
    ensures
        match r {
            None => variant_of(items_view(*g)) is None,
            Some((name, None)) => variant_of(items_view(*g)) == Some((name@, None::<Seq<BracketPair>>)),
            Some((name, Some(p))) => variant_of(items_view(*g)) == Some((name@, Some(items_view(p)))),
        },
{
    if g.len() == 0 {
        return None;
    }
    let last = &g[g.len() - 1];
    assert(items_view(*g).last() == last.view_pair());
    match last.rest {
        Some(rest) => {
            if crate::brackets::has_subkey(last.rest) {
                let (part, _next) = crate::brackets::read_subkey(rest);
                let name = parse_bytes(part).to_vec();
                let table = crate::brackets::BracketsQS::nested(g);
                let payload = table.group_items(name.as_slice());
                return Some((name, Some(payload)));
            }
        },
        None => {},
    }
    let v: &[u8] = match last.value {
        Some(v) => v,
        None => &[],
    };
    Some((parse_bytes(v).to_vec(), None))
}

/// The list that the items `g` make, for a target of exactly `len` items:
/// `InvalidLength` unless the list has that many.
pub fn tuple_items<'a>(g: &Vec<BracketItem<'a>>, len: usize) -> (r: Result<Vec<Vec<BracketItem<'a>>>, crate::value::Error>)
    requires
        forall|i: int| 0 <= i < g@.len() ==> (#[trigger] g@[i]).key_ok(),
    ensures
        r is Ok <==> list_items_of(items_view(*g)).len() == len,
        r matches Ok(l) ==> list_view(l) == list_items_of(items_view(*g)),
        r matches Err(e) ==> e.kind == crate::value::ErrorKind::InvalidLength,
{
    let l = list_items(g);
    crate::mode::sized(l, len)
}

} // verus!
