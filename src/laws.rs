//! Properties that relate several parses: the order of independent pairs does not
//! matter.
use vstd::prelude::*;
use crate::pairs::decoded_opt;
use crate::delimiter::{delim_end, lemma_delim_end_bounds, split, split_from};
use crate::brackets::{bracket_pairs, closes, deeper, direct_values, group, split_key, BracketPair};
use crate::decode::decoded;
use crate::pairs::{
    has_value_at, lists_keys_of, key_end, next_pair, pair_at, pairs, pairs_from, value_end, values_of, RawPair,
};
use crate::urlencoded::last_value;

verus! {

/// Positions in `b` read the same inside `p + b`, shifted by the length of `p`.
proof fn lemma_key_end_shift(p: Seq<u8>, b: Seq<u8>, i: int)
    requires
        0 <= i <= b.len(),
    ensures
        key_end(p + b, p.len() + i) == p.len() + key_end(b, i),
    decreases b.len() - i,
{
    if i < b.len() {
        assert((p + b)[p.len() + i] == b[i]);
        lemma_key_end_shift(p, b, i + 1);
    }
}

proof fn lemma_value_end_shift(p: Seq<u8>, b: Seq<u8>, i: int)
    requires
        0 <= i <= b.len(),
    ensures
        value_end(p + b, p.len() + i) == p.len() + value_end(b, i),
    decreases b.len() - i,
{
    if i < b.len() {
        assert((p + b)[p.len() + i] == b[i]);
        lemma_value_end_shift(p, b, i + 1);
    }
}

proof fn lemma_key_end_bounds(s: Seq<u8>, i: int)
    requires
        0 <= i <= s.len(),
    ensures
        i <= key_end(s, i) <= s.len(),
        key_end(s, i) < s.len() ==> s[key_end(s, i)] == 38u8 || s[key_end(s, i)] == 61u8,
    decreases s.len() - i,
{
    if i < s.len() && s[i] != 38u8 && s[i] != 61u8 {
        lemma_key_end_bounds(s, i + 1);
    }
}

proof fn lemma_value_end_bounds(s: Seq<u8>, i: int)
    requires
        0 <= i <= s.len(),
    ensures
        i <= value_end(s, i) <= s.len(),
    decreases s.len() - i,
{
    if i < s.len() && s[i] != 38u8 {
        lemma_value_end_bounds(s, i + 1);
    }
}

/// The pairs of `b` are read the same after any prefix `p` that ends a pair.
proof fn lemma_pairs_shift(p: Seq<u8>, b: Seq<u8>, i: int)
    requires
        0 <= i <= b.len(),
    ensures
        pairs_from(p + b, p.len() + i) == pairs_from(b, i),
    decreases b.len() - i,
{
    let s = p + b;
    let j = p.len() + i;
    if i < b.len() {
        lemma_key_end_shift(p, b, i);
        lemma_key_end_bounds(b, i);
        let ke = key_end(b, i);
        if ke < b.len() {
            assert(s[p.len() + ke] == b[ke]);
            lemma_value_end_shift(p, b, ke + 1);
            lemma_value_end_bounds(b, ke + 1);
        }
        assert(has_value_at(s, j) == has_value_at(b, i));
        assert(s.subrange(j, p.len() + ke) =~= b.subrange(i, ke));
        if has_value_at(b, i) {
            assert(s.subrange(p.len() + ke + 1, p.len() + value_end(b, ke + 1)) =~= b.subrange(
                ke + 1,
                value_end(b, ke + 1),
            ));
        }
        assert(pair_at(s, j) == pair_at(b, i));
        assert(next_pair(s, j) == p.len() + next_pair(b, i));
        lemma_pairs_shift(p, b, next_pair(b, i));
    }
}

/// A non-empty segment without `&` holds exactly one pair.
pub open spec fn single(a: Seq<u8>) -> bool {
    a.len() > 0 && forall|i: int| 0 <= i < a.len() ==> a[i] != 38u8
}

/// The query string `a&b`.
pub open spec fn joined(a: Seq<u8>, b: Seq<u8>) -> Seq<u8> {
    a + seq![38u8] + b
}

proof fn lemma_single_ends(a: Seq<u8>, s: Seq<u8>, i: int)
    requires
        single(a),
        s.len() > a.len(),
        s.subrange(0, a.len() as int) == a,
        s[a.len() as int] == 38u8,
        0 <= i <= a.len(),
    ensures
        key_end(s, i) == key_end(a, i),
        value_end(s, i) == a.len(),
        value_end(a, i) == a.len(),
        key_end(a, i) <= a.len(),
    decreases a.len() - i,
{
    if i < a.len() {
        assert(s[i] == s.subrange(0, a.len() as int)[i]);
        lemma_single_ends(a, s, i + 1);
    }
}

/// The pairs of `a&b`, for a single pair `a`: that pair, then the pairs of `b`.
pub proof fn lemma_pairs_joined(a: Seq<u8>, b: Seq<u8>)
    requires
        single(a),
    ensures
        pairs(joined(a, b)) == seq![pair_at(a, 0)] + pairs(b),
{
    let s = joined(a, b);
    let p = a + seq![38u8];
    assert(s =~= p + b);
    assert(s.subrange(0, a.len() as int) =~= a);
    assert(s[a.len() as int] == 38u8);
    lemma_single_ends(a, s, 0);
    lemma_key_end_bounds(a, 0);
    let ke = key_end(a, 0);
    if ke < a.len() {
        assert(s[ke] == s.subrange(0, a.len() as int)[ke]);
        assert(a[ke] == 61u8);
        lemma_single_ends(a, s, ke + 1);
        assert(s.subrange(ke + 1, a.len() as int) =~= a.subrange(ke + 1, a.len() as int));
    }
    assert(s.subrange(0, ke) =~= a.subrange(0, ke));
    assert(pair_at(s, 0) == pair_at(a, 0));
    assert(next_pair(s, 0) == a.len() + 1);
    lemma_pairs_shift(p, b, 0);
    assert(pairs_from(s, 0) =~= seq![pair_at(s, 0)] + pairs_from(s, next_pair(s, 0)));
}

/// A single pair `a` is read as one pair.
pub proof fn lemma_pairs_single(a: Seq<u8>)
    requires
        single(a),
    ensures
        pairs(a) == seq![pair_at(a, 0)],
{
    let s = a + seq![38u8];
    assert(s.subrange(0, a.len() as int) =~= a);
    assert(s[a.len() as int] == 38u8);
    lemma_single_ends(a, s, 0);
    lemma_key_end_bounds(a, 0);
    let ke = key_end(a, 0);
    if ke < a.len() {
        assert(a[ke] == 61u8);
        lemma_value_end_bounds(a, ke + 1);
        lemma_single_ends(a, s, ke + 1);
    }
    assert(next_pair(a, 0) == a.len());
    assert(pairs_from(a, a.len() as int) =~= Seq::<RawPair>::empty());
    assert(pairs_from(a, 0) =~= seq![pair_at(a, 0)]);
}

/// Two pairs with keys that decode differently may come in either order: the same
/// keys are listed and every key is given the same values, so each grammar that
/// reads flat keys gives the same result for `a&b` as for `b&a`.
pub proof fn law_flat_pairs_commute(a: Seq<u8>, b: Seq<u8>)
    requires
        single(a),
        single(b),
        decoded(pair_at(a, 0).0) != decoded(pair_at(b, 0).0),
    ensures
        forall|k: Seq<u8>| #[trigger] values_of(pairs(joined(a, b)), k) == values_of(pairs(joined(b, a)), k),
        forall|k: Seq<u8>| #[trigger] last_value(joined(a, b), k) == last_value(joined(b, a), k),
        forall|ks: Seq<Seq<u8>>| #[trigger] lists_keys_of(ks, pairs(joined(a, b))) == lists_keys_of(ks, pairs(joined(b, a))),
{
    assert forall|k: Seq<u8>| #[trigger] values_of(pairs(joined(a, b)), k) == values_of(pairs(joined(b, a)), k) by {
        lemma_flat_swap(a, b, k);
    }
    assert forall|k: Seq<u8>| #[trigger] last_value(joined(a, b), k) == last_value(joined(b, a), k) by {
        lemma_flat_swap(a, b, k);
    }
}

proof fn lemma_flat_swap(a: Seq<u8>, b: Seq<u8>, k: Seq<u8>)
    requires
        single(a),
        single(b),
        decoded(pair_at(a, 0).0) != decoded(pair_at(b, 0).0),
    ensures
        values_of(pairs(joined(a, b)), k) == values_of(pairs(joined(b, a)), k),
{
    lemma_pairs_joined(a, b);
    lemma_pairs_joined(b, a);
    lemma_pairs_single(a);
    lemma_pairs_single(b);
    let pa = pair_at(a, 0);
    let pb = pair_at(b, 0);
    let x = seq![pa, pb];
    let y = seq![pb, pa];
    assert(seq![pa] + seq![pb] =~= x);
    assert(seq![pb] + seq![pa] =~= y);
    assert(x.drop_last() =~= seq![pa]);
    assert(y.drop_last() =~= seq![pb]);
    assert(seq![pa].drop_last() =~= Seq::<RawPair>::empty());
    assert(seq![pb].drop_last() =~= Seq::<RawPair>::empty());
    let va = values_of(seq![pa], k);
    let vb = values_of(seq![pb], k);
    assert(values_of(Seq::<RawPair>::empty(), k) == Seq::<Option<Seq<u8>>>::empty());
    assert(va == if decoded(pa.0) == k { seq![pa.1] } else { Seq::<Option<Seq<u8>>>::empty() }) by {
        assert(seq![pa].last() == pa);
        if decoded(pa.0) == k {
            assert(Seq::<Option<Seq<u8>>>::empty().push(pa.1) =~= seq![pa.1]);
        }
    }
    assert(vb == if decoded(pb.0) == k { seq![pb.1] } else { Seq::<Option<Seq<u8>>>::empty() }) by {
        assert(seq![pb].last() == pb);
        if decoded(pb.0) == k {
            assert(Seq::<Option<Seq<u8>>>::empty().push(pb.1) =~= seq![pb.1]);
        }
    }
    assert(x.last() == pb);
    assert(y.last() == pa);
    assert(values_of(x, k) =~= values_of(y, k));
}

/// Two bracketed pairs whose first sub-keys decode differently may come in either
/// order (as `child[age]=12` and `child[book][pages]=1000`): every key has the same
/// direct values, and one bracket level down every sub-key has the same pairs, in
/// `a&b` as in `b&a`. So the nested record they describe is the same.
pub proof fn law_bracket_pairs_commute(a: Seq<u8>, b: Seq<u8>, k: Seq<u8>, sub: Seq<u8>)
    requires
        single(a),
        single(b),
        closes(split_key(pair_at(a, 0).0).1),
        closes(split_key(pair_at(b, 0).0).1),
        decoded(crate::brackets::subkey(split_key(pair_at(a, 0).0).1.unwrap()).0) != decoded(
            crate::brackets::subkey(split_key(pair_at(b, 0).0).1.unwrap()).0,
        ),
    ensures
        direct_values(group(bracket_pairs(joined(a, b)), k)) == direct_values(
            group(bracket_pairs(joined(b, a)), k),
        ),
        group(deeper(group(bracket_pairs(joined(a, b)), k)), sub) == group(
            deeper(group(bracket_pairs(joined(b, a)), k)),
            sub,
        ),
{
    lemma_pairs_joined(a, b);
    lemma_pairs_joined(b, a);
    lemma_pairs_single(a);
    lemma_pairs_single(b);
    let f = |p: RawPair| (split_key(p.0).0, split_key(p.0).1, p.1);
    let pa = pair_at(a, 0);
    let pb = pair_at(b, 0);
    let ea: BracketPair = f(pa);
    let eb: BracketPair = f(pb);
    let x = seq![ea, eb];
    let y = seq![eb, ea];
    assert(pairs(joined(a, b)) =~= seq![pa, pb]);
    assert(pairs(joined(b, a)) =~= seq![pb, pa]);
    assert(bracket_pairs(joined(a, b)) =~= x);
    assert(bracket_pairs(joined(b, a)) =~= y);
    assert(x.drop_last() =~= seq![ea]);
    assert(y.drop_last() =~= seq![eb]);
    assert(seq![ea].drop_last() =~= Seq::<BracketPair>::empty());
    assert(seq![eb].drop_last() =~= Seq::<BracketPair>::empty());
    assert(ea.1 == split_key(pa.0).1);
    assert(eb.1 == split_key(pb.0).1);
    let da = (crate::brackets::subkey(ea.1.unwrap()).0, crate::brackets::subkey(ea.1.unwrap()).1, ea.2);
    let db = (crate::brackets::subkey(eb.1.unwrap()).0, crate::brackets::subkey(eb.1.unwrap()).1, eb.2);
    assert(x.last() == eb);
    assert(y.last() == ea);
    assert(seq![ea].last() == ea);
    assert(seq![eb].last() == eb);
    let e0 = Seq::<BracketPair>::empty();
    let gx = group(x, k);
    let gy = group(y, k);
    assert(group(e0, k) == e0);
    assert(group(seq![ea], k) == if decoded(ea.0) == k { seq![ea] } else { e0 }) by {
        assert(e0.push(ea) =~= seq![ea]);
    }
    assert(group(seq![eb], k) == if decoded(eb.0) == k { seq![eb] } else { e0 }) by {
        assert(e0.push(eb) =~= seq![eb]);
    }
    if decoded(ea.0) == k && decoded(eb.0) == k {
        assert(gx =~= x);
        assert(gy =~= y);
    } else if decoded(ea.0) == k {
        assert(gx =~= seq![ea]);
        assert(gy =~= seq![ea]);
    } else if decoded(eb.0) == k {
        assert(gx =~= seq![eb]);
        assert(gy =~= seq![eb]);
    } else {
        assert(gx =~= e0);
        assert(gy =~= e0);
    }
    lemma_direct_values_closing(gx);
    lemma_direct_values_closing(gy);
    if decoded(ea.0) == k && decoded(eb.0) == k {
        assert(deeper(e0) == e0);
        assert(deeper(seq![ea]) =~= seq![da]) by {
            assert(e0.push(da) =~= seq![da]);
        }
        assert(deeper(seq![eb]) =~= seq![db]) by {
            assert(e0.push(db) =~= seq![db]);
        }
        assert(deeper(x) =~= seq![da, db]) by {
            assert(seq![da].push(db) =~= seq![da, db]);
        }
        assert(deeper(y) =~= seq![db, da]) by {
            assert(seq![db].push(da) =~= seq![db, da]);
        }
        assert(seq![da, db].drop_last() =~= seq![da]);
        assert(seq![db, da].drop_last() =~= seq![db]);
        assert(seq![da].drop_last() =~= e0);
        assert(seq![db].drop_last() =~= e0);
        assert(seq![da, db].last() == db);
        assert(seq![db, da].last() == da);
        assert(seq![da].last() == da);
        assert(seq![db].last() == db);
        assert(group(e0, sub) == e0);
        assert(group(seq![da], sub) == if decoded(da.0) == sub { seq![da] } else { e0 }) by {
            assert(e0.push(da) =~= seq![da]);
        }
        assert(group(seq![db], sub) == if decoded(db.0) == sub { seq![db] } else { e0 }) by {
            assert(e0.push(db) =~= seq![db]);
        }
        assert(group(seq![da, db], sub) =~= group(seq![db, da], sub));
    }
}

/// Pairs whose keys all go on below this level give no direct value.
proof fn lemma_direct_values_closing(es: Seq<BracketPair>)
    requires
        forall|i: int| 0 <= i < es.len() ==> closes(#[trigger] es[i].1),
    ensures
        direct_values(es) == Seq::<Option<Seq<u8>>>::empty(),
    decreases es.len(),
{
    if es.len() > 0 {
        assert(closes(es[es.len() - 1].1));
        assert forall|i: int| 0 <= i < es.drop_last().len() implies closes(#[trigger] es.drop_last()[i].1) by {
            assert(es.drop_last()[i] == es[i]);
        }
        lemma_direct_values_closing(es.drop_last());
    }
}

/// A pair in front of the list adds its value, if its key matches, before the others.
proof fn lemma_values_of_front(p: RawPair, ps: Seq<RawPair>, k: Seq<u8>)
    ensures
        values_of(seq![p] + ps, k) == (if decoded(p.0) == k {
            seq![p.1]
        } else {
            Seq::<Option<Seq<u8>>>::empty()
        }) + values_of(ps, k),
    decreases ps.len(),
{
    let e = Seq::<Option<Seq<u8>>>::empty();
    if ps.len() == 0 {
        assert(seq![p] + ps =~= seq![p]);
        assert(seq![p].drop_last() =~= Seq::<RawPair>::empty());
        assert(seq![p].last() == p);
        assert(values_of(Seq::<RawPair>::empty(), k) == e);
        if decoded(p.0) == k {
            assert(e.push(p.1) =~= seq![p.1]);
            assert(seq![p.1] + e =~= seq![p.1]);
        } else {
            assert(e + e =~= e);
        }
    } else {
        lemma_values_of_front(p, ps.drop_last(), k);
        assert((seq![p] + ps).drop_last() =~= seq![p] + ps.drop_last());
        assert((seq![p] + ps).last() == ps.last());
        let head = if decoded(p.0) == k { seq![p.1] } else { e };
        if decoded(ps.last().0) == k {
            assert(head + values_of(ps.drop_last(), k).push(ps.last().1) =~= (head + values_of(
                ps.drop_last(),
                k,
            )).push(ps.last().1));
        }
    }
}

/// Earlier values of a key never count once it is given again: with a pair `a` in
/// front of a query string `y` in which `key` occurs, every flat grammar gives `key`
/// the same value as for `y` alone, whatever `a` holds.
pub proof fn law_last_value_wins(a: Seq<u8>, y: Seq<u8>, key: Seq<u8>)
    requires
        single(a),
        values_of(pairs(y), key).len() > 0,
    ensures
        last_value(joined(a, y), key) == last_value(y, key),
{
    lemma_pairs_joined(a, y);
    lemma_values_of_front(pair_at(a, 0), pairs(y), key);
    let head = if decoded(pair_at(a, 0).0) == key { seq![pair_at(a, 0).1] } else { Seq::<Option<Seq<u8>>>::empty() };
    let vs = values_of(pairs(y), key);
    assert((head + vs).last() == vs.last());
}

proof fn lemma_group_front(e: BracketPair, es: Seq<BracketPair>, k: Seq<u8>)
    ensures
        group(seq![e] + es, k) == (if decoded(e.0) == k {
            seq![e]
        } else {
            Seq::<BracketPair>::empty()
        }) + group(es, k),
    decreases es.len(),
{
    let z = Seq::<BracketPair>::empty();
    if es.len() == 0 {
        assert(seq![e] + es =~= seq![e]);
        assert(seq![e].drop_last() =~= z);
        assert(seq![e].last() == e);
        assert(group(z, k) == z);
        if decoded(e.0) == k {
            assert(z.push(e) =~= seq![e]);
            assert(seq![e] + z =~= seq![e]);
        } else {
            assert(z + z =~= z);
        }
    } else {
        lemma_group_front(e, es.drop_last(), k);
        assert((seq![e] + es).drop_last() =~= seq![e] + es.drop_last());
        assert((seq![e] + es).last() == es.last());
        let head = if decoded(e.0) == k { seq![e] } else { z };
        if decoded(es.last().0) == k {
            assert(head + group(es.drop_last(), k).push(es.last()) =~= (head + group(es.drop_last(), k)).push(
                es.last(),
            ));
        }
    }
}

proof fn lemma_direct_values_concat(x: Seq<BracketPair>, y: Seq<BracketPair>)
    ensures
        direct_values(x + y) == direct_values(x) + direct_values(y),
    decreases y.len(),
{
    if y.len() == 0 {
        assert(x + y =~= x);
        assert(direct_values(x) + direct_values(y) =~= direct_values(x));
    } else {
        lemma_direct_values_concat(x, y.drop_last());
        assert((x + y).drop_last() =~= x + y.drop_last());
        assert((x + y).last() == y.last());
        if !closes(y.last().1) {
            assert(direct_values(x) + direct_values(y.drop_last()).push(decoded_opt(y.last().2)) =~= (
            direct_values(x) + direct_values(y.drop_last())).push(decoded_opt(y.last().2)));
        }
    }
}

/// Earlier values of a key never count once it is given again, under the bracket
/// grammar too: with a pair `a` in front of a query string `y` in which `key` has a
/// direct value, `key`'s last direct value is the same as for `y` alone.
pub proof fn law_last_direct_value_wins(a: Seq<u8>, y: Seq<u8>, key: Seq<u8>)
    requires
        single(a),
        direct_values(group(bracket_pairs(y), key)).len() > 0,
    ensures
        direct_values(group(bracket_pairs(joined(a, y)), key)).last() == direct_values(
            group(bracket_pairs(y), key),
        ).last(),
{
    lemma_pairs_joined(a, y);
    let f = |p: RawPair| (split_key(p.0).0, split_key(p.0).1, p.1);
    let e: BracketPair = f(pair_at(a, 0));
    assert(bracket_pairs(joined(a, y)) =~= seq![e] + bracket_pairs(y));
    lemma_group_front(e, bracket_pairs(y), key);
    let head = if decoded(e.0) == key { seq![e] } else { Seq::<BracketPair>::empty() };
    lemma_direct_values_concat(head, group(bracket_pairs(y), key));
    let dv = direct_values(group(bracket_pairs(y), key));
    assert((direct_values(head) + dv).last() == dv.last());
}

/// `v` with every `d1` byte replaced by `d2`.
pub open spec fn replace_byte(v: Seq<u8>, d1: u8, d2: u8) -> Seq<u8> {
    v.map_values(|b: u8| if b == d1 { d2 } else { b })
}

proof fn lemma_delim_end_swap(v: Seq<u8>, d1: u8, d2: u8, i: int)
    requires
        0 <= i <= v.len(),
        !v.contains(d2),
    ensures
        delim_end(replace_byte(v, d1, d2), d2, i) == delim_end(v, d1, i),
        forall|j: int| i <= j < delim_end(v, d1, i) ==> #[trigger] replace_byte(v, d1, d2)[j] == v[j],
    decreases v.len() - i,
{
    let w = replace_byte(v, d1, d2);
    if i < v.len() {
        assert(w[i] == if v[i] == d1 { d2 } else { v[i] });
        if v[i] != d1 {
            assert(v[i] != d2) by {
                if v[i] == d2 {
                    assert(v.contains(d2));
                }
            }
            lemma_delim_end_swap(v, d1, d2, i + 1);
        }
    }
}

proof fn lemma_split_swap(v: Seq<u8>, d1: u8, d2: u8, i: int)
    requires
        0 <= i <= v.len(),
        !v.contains(d2),
    ensures
        split_from(replace_byte(v, d1, d2), d2, i) == split_from(v, d1, i),
    decreases v.len() - i,
{
    let w = replace_byte(v, d1, d2);
    lemma_delim_end_swap(v, d1, d2, i);
    lemma_delim_end_bounds(v, d1, i);
    let e = delim_end(v, d1, i);
    if e >= v.len() {
        assert(w.subrange(i, w.len() as int) =~= v.subrange(i, v.len() as int));
    } else {
        assert(w.subrange(i, e) =~= v.subrange(i, e));
        lemma_split_swap(v, d1, d2, e + 1);
    }
}

/// The delimiter is only a parameter: writing a value with another delimiter byte
/// `d2` (one that the value does not hold) in place of `d1` gives the same parts.
pub proof fn law_delimiter_swap(v: Seq<u8>, d1: u8, d2: u8)
    requires
        !v.contains(d2),
    ensures
        split(replace_byte(v, d1, d2), d2) == split(v, d1),
{
    lemma_split_swap(v, d1, d2, 0);
}

} // verus!
