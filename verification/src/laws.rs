//! Laws that relate the map's operations to one another.

use vstd::prelude::*;
use vstd::std_specs::cmp::OrdSpec;
use crate::key_range::KeyRange;
use crate::lawful::{lawful, lemma_less_asymmetric, lemma_less_irreflexive, lemma_order_agrees};
use crate::listing::{ordered_keys, overwrite, overwrite_all, retained_by};
use crate::two_way_map::TwoWayMap;

verus! {

/// Looking up by left and looking up by right agree: `l` is paired with `r`
/// in one direction exactly when `r` is paired with `l` in the other.
pub proof fn lemma_lookup_symmetric<L: Ord, R: Ord>(map: &TwoWayMap<L, R>, l: L, r: R)
    requires
        map.wf(),
    ensures
        (map@.contains_key(l) && map@[l] == r) <==> (map@.invert().contains_key(r)
            && map@.invert()[r] == l),
{
    map.lemma_wf();
    let m = map@;
    if m.contains_key(l) && m[l] == r {
        assert(m.contains_pair(l, r));
        let k = choose|k: L| m.contains_pair(k, r);
        assert(m[k] == m[l]);
    }
    if m.invert().contains_key(r) {
        assert(m.contains_value(r));
        let w = choose|w: L| m.contains_key(w) && m[w] == r;
        assert(m.contains_pair(w, r));
        let k = choose|k: L| m.contains_pair(k, r);
        assert(m.contains_pair(k, r));
    }
}

/// Every right value occurs once: a map has as many right values as left values.
pub proof fn lemma_sides_same_size<L: Ord, R: Ord>(map: &TwoWayMap<L, R>)
    requires
        map.wf(),
    ensures
        map@.values().len() == map@.dom().len(),
{
    map.lemma_wf();
    map@.lemma_injective_values_len();
}

/// After `(l, r)` is put in, `l` and `r` are paired with each other in both
/// directions, and the map is still one-to-one.
pub proof fn lemma_insert_pairs<L, R>(m: Map<L, R>, l: L, r: R)
    requires
        m.is_injective(),
    ensures
        overwrite(m, l, r).contains_key(l),
        overwrite(m, l, r)[l] == r,
        overwrite(m, l, r).is_injective(),
        overwrite(m, l, r).invert().contains_key(r),
        overwrite(m, l, r).invert()[r] == l,
{
    let n = overwrite(m, l, r);
    assert(n.contains_pair(l, r));
    let k = choose|k: L| n.contains_pair(k, r);
    assert(k == l);
}

/// Putting a pair in leaves every other pair alone unless it shares a value with it.
pub proof fn lemma_insert_keeps_unrelated<L, R>(m: Map<L, R>, l: L, r: R, k: L)
    requires
        m.contains_key(k),
        k != l,
        m[k] != r,
    ensures
        overwrite(m, l, r).contains_key(k),
        overwrite(m, l, r)[k] == m[k],
{
}

/// Putting a pair in that is already there changes nothing.
pub proof fn lemma_insert_present_pair<L, R>(m: Map<L, R>, l: L, r: R)
    requires
        m.is_injective(),
        m.contains_key(l),
        m[l] == r,
    ensures
        overwrite(m, l, r) == m,
{
    assert(overwrite(m, l, r) =~= m);
}

/// Putting the same pair in twice is the same as putting it in once.
pub proof fn lemma_insert_idempotent<L, R>(m: Map<L, R>, l: L, r: R)
    ensures
        overwrite(overwrite(m, l, r), l, r) == overwrite(m, l, r),
{
    assert(overwrite(overwrite(m, l, r), l, r) =~= overwrite(m, l, r));
}

/// A pair whose values are both new is added without removing anything, the
/// map grows by one, and removing it again by its left value gives back the
/// map as it was.
pub proof fn lemma_insert_fresh_then_remove<L, R>(m: Map<L, R>, l: L, r: R)
    requires
        m.dom().finite(),
        !m.contains_key(l),
        !m.contains_value(r),
    ensures
        overwrite(m, l, r) == m.insert(l, r),
        m.insert(l, r).len() == m.len() + 1,
        m.insert(l, r).remove(l) == m,
{
    assert forall|k: L| m.contains_key(k) implies m[k] != r by {
        if m[k] == r {
            assert(m.contains_value(r));
        }
    }
    assert(overwrite(m, l, r) =~= m.insert(l, r));
    assert(m.insert(l, r).remove(l) =~= m);
}

/// Removing a present pair shrinks the map by one.
pub proof fn lemma_remove_len<L, R>(m: Map<L, R>, l: L)
    requires
        m.dom().finite(),
        m.contains_key(l),
    ensures
        m.remove(l).len() == m.len() - 1,
{
}

/// An ordered listing of a finite set holds each element exactly once, so
/// its length is the size of the set.
pub proof fn lemma_ordered_keys_len<K: Ord>(s: Seq<K>, keys: Set<K>)
    requires
        lawful::<K>(),
        ordered_keys(s, keys),
    ensures
        s.len() == keys.len(),
{
    assert(s.no_duplicates()) by {
        assert forall|i: int, j: int| 0 <= i < s.len() && 0 <= j < s.len() && i != j implies s[i] != s[j] by {
            if i < j {
                lemma_less_irreflexive(s[i], s[j]);
            } else {
                lemma_less_irreflexive(s[j], s[i]);
            }
        }
    }
    assert(s.to_set() =~= keys);
    s.unique_seq_to_set();
}

/// When `f`'s answer on a pair is fixed by `p`, `retain` keeps exactly the
/// pairs that satisfy `p`, and the map's new size is the number of such pairs.
pub proof fn lemma_retain_by_predicate<L, R, F: FnMut(&L, &R) -> bool>(
    old_map: Map<L, R>,
    new_map: Map<L, R>,
    f: F,
    p: spec_fn(L, R) -> bool,
)
    requires
        retained_by(old_map, new_map, f),
        forall|l: L, r: R, b: bool| #[trigger] call_ensures(f, (&l, &r), b) ==> b == p(l, r),
    ensures
        new_map == old_map.filter_keys(|l: L| p(l, old_map[l])),
        new_map.len() == old_map.dom().filter(|l: L| p(l, old_map[l])).len(),
{
    let kept = old_map.filter_keys(|l: L| p(l, old_map[l]));
    assert forall|l: L| #[trigger] new_map.contains_key(l) <==> kept.contains_key(l) by {
        if old_map.contains_key(l) {
            if new_map.contains_key(l) {
                assert(call_ensures(f, (&l, &old_map[l]), true));
            } else {
                assert(call_ensures(f, (&l, &old_map[l]), false));
            }
        }
    }
    assert(new_map =~= kept);
    assert(kept.dom() =~= old_map.dom().filter(|l: L| p(l, old_map[l])));
}

/// Putting in one pair through `extend` is the same as `insert`.
pub proof fn lemma_extend_one<L, R>(m: Map<L, R>, l: L, r: R)
    ensures
        overwrite_all(m, seq![(l, r)]) == overwrite(m, l, r),
{
    let one = seq![(l, r)];
    assert(one.drop_last() =~= Seq::<(L, R)>::empty());
    assert(overwrite_all(m, one.drop_last()) == m);
    assert(one.last() == (l, r));
}

/// Extending by `s` and then by `t` is the same as extending by `s + t`: the
/// pairs are put in one after another, each as `insert` puts it in.
pub proof fn lemma_extend_concat<L, R>(m: Map<L, R>, s: Seq<(L, R)>, t: Seq<(L, R)>)
    ensures
        overwrite_all(overwrite_all(m, s), t) == overwrite_all(m, s + t),
    decreases t.len(),
{
    if t.len() == 0 {
        assert(s + t =~= s);
    } else {
        lemma_extend_concat(m, s, t.drop_last());
        assert((s + t).drop_last() =~= s + t.drop_last());
        assert((s + t).last() == t.last());
    }
}

proof fn lemma_ordered_keys_agree_up_to<K: Ord>(s1: Seq<K>, s2: Seq<K>, keys: Set<K>, i: int)
    requires
        lawful::<K>(),
        ordered_keys(s1, keys),
        ordered_keys(s2, keys),
        0 <= i < s1.len(),
        i < s2.len(),
    ensures
        forall|j: int| 0 <= j <= i ==> s1[j] == s2[j],
    decreases i,
{
    if i > 0 {
        lemma_ordered_keys_agree_up_to(s1, s2, keys, i - 1);
    }
    let a = s1[i];
    let b = s2[i];
    assert(keys.contains(a));
    assert(keys.contains(b));
    let j = choose|j: int| 0 <= j < s2.len() && s2[j] == a;
    let k = choose|k: int| 0 <= k < s1.len() && s1[k] == b;
    if j < i {
        assert(s1[j] == s2[j]);
        lemma_less_irreflexive(s1[j], s1[i]);
    }
    if k < i {
        assert(s1[k] == s2[k]);
        lemma_less_irreflexive(s2[k], s2[i]);
    }
    if j > i && k > i {
        assert(s2[i].cmp_spec(&s2[j]) is Less);
        assert(s1[i].cmp_spec(&s1[k]) is Less);
        lemma_less_asymmetric(b, a);
    }
}

/// An ordered listing of a set is unique: two listings of the same set in
/// strictly increasing order are the same sequence.
pub proof fn lemma_ordered_keys_unique<K: Ord>(s1: Seq<K>, s2: Seq<K>, keys: Set<K>)
    requires
        lawful::<K>(),
        ordered_keys(s1, keys),
        ordered_keys(s2, keys),
    ensures
        s1 == s2,
{
    if s1.len() > 0 && s2.len() > 0 {
        let n = if s1.len() < s2.len() { s1.len() - 1 } else { s2.len() - 1 };
        lemma_ordered_keys_agree_up_to(s1, s2, keys, n);
    }
    if s1.len() < s2.len() {
        let x = s2[s1.len() as int];
        assert(keys.contains(x));
        let k = choose|k: int| 0 <= k < s1.len() && s1[k] == x;
        assert(s1[k] == s2[k]);
        lemma_less_irreflexive(s2[k], s2[s1.len() as int]);
    }
    if s2.len() < s1.len() {
        let x = s1[s2.len() as int];
        assert(keys.contains(x));
        let k = choose|k: int| 0 <= k < s2.len() && s2[k] == x;
        assert(s1[k] == s2[k]);
        lemma_less_irreflexive(s1[k], s1[s2.len() as int]);
    }
    assert(s1 =~= s2);
}

/// After `(l, r)` is put into a one-to-one map `m`, the result holds `(l, r)`;
/// each other pair it holds is a pair of `m` that shares neither `l` nor `r`;
/// and each such pair of `m` is still there. No value is re-paired.
pub proof fn lemma_insert_exact<L, R>(m: Map<L, R>, l: L, r: R)
    requires
        m.is_injective(),
    ensures
        overwrite(m, l, r).contains_pair(l, r),
        forall|k: L, v: R|
            #[trigger] overwrite(m, l, r).contains_pair(k, v) && k != l ==> m.contains_pair(k, v) && v != r,
        forall|k: L|
            #[trigger] m.contains_key(k) && k != l && m[k] != r ==> overwrite(m, l, r).contains_pair(k, m[k]),
        overwrite(m, l, r).dom().subset_of(m.dom().insert(l)),
{
}

/// `a..b` holds exactly the keys `k` with `a <= k` and `k < b`.
pub proof fn lemma_range_covers<T: Ord>(a: T, b: T, k: T)
    requires
        lawful::<T>(),
    ensures
        (core::ops::Range { start: a, end: b }).covers(k) <==> !(k.cmp_spec(&a) is Less) && k.cmp_spec(&b) is Less,
{
    lemma_order_agrees(a, k);
    lemma_order_agrees(k, b);
}

/// `a..` holds exactly the keys `k` with `a <= k`.
pub proof fn lemma_range_from_covers<T: Ord>(a: T, k: T)
    requires
        lawful::<T>(),
    ensures
        (core::ops::RangeFrom { start: a }).covers(k) <==> !(k.cmp_spec(&a) is Less),
{
    lemma_order_agrees(a, k);
}

/// `..b` holds exactly the keys `k` with `k < b`.
pub proof fn lemma_range_to_covers<T: Ord>(b: T, k: T)
    requires
        lawful::<T>(),
    ensures
        (core::ops::RangeTo { end: b }).covers(k) <==> k.cmp_spec(&b) is Less,
{
    lemma_order_agrees(k, b);
}

/// `..=b` holds exactly the keys `k` with `k <= b`.
pub proof fn lemma_range_to_inclusive_covers<T: Ord>(b: T, k: T)
    requires
        lawful::<T>(),
    ensures
        (core::ops::RangeToInclusive { end: b }).covers(k) <==> !(b.cmp_spec(&k) is Less),
{
    lemma_order_agrees(k, b);
}

/// A fresh `a..=b` holds exactly the keys `k` with `a <= k <= b`.
pub proof fn lemma_range_inclusive_covers<T: Ord>(r: core::ops::RangeInclusive<T>, k: T)
    requires
        lawful::<T>(),
        !r@.exhausted,
    ensures
        r.covers(k) <==> !(k.cmp_spec(&r@.start) is Less) && !(r@.end.cmp_spec(&k) is Less),
{
    lemma_order_agrees(r@.start, k);
    lemma_order_agrees(k, r@.end);
}

/// A pair of bounds holds exactly the keys that both bounds admit: an
/// `Included(a)` lower bound admits `a` and everything above it, `Excluded(a)`
/// only what is above `a`, and `Unbounded` everything; the upper bound
/// likewise from above.
pub proof fn lemma_bound_pair_covers<T: Ord>(lo: core::ops::Bound<T>, hi: core::ops::Bound<T>, k: T)
    requires
        lawful::<T>(),
    ensures
        (lo, hi).covers(k) <==> {
            &&& match lo {
                core::ops::Bound::Included(a) => !(k.cmp_spec(&a) is Less),
                core::ops::Bound::Excluded(a) => a.cmp_spec(&k) is Less,
                core::ops::Bound::Unbounded => true,
            }
            &&& match hi {
                core::ops::Bound::Included(b) => !(b.cmp_spec(&k) is Less),
                core::ops::Bound::Excluded(b) => k.cmp_spec(&b) is Less,
                core::ops::Bound::Unbounded => true,
            }
        },
{
    match lo {
        core::ops::Bound::Included(a) => lemma_order_agrees(a, k),
        core::ops::Bound::Excluded(a) => lemma_order_agrees(a, k),
        core::ops::Bound::Unbounded => {},
    }
    match hi {
        core::ops::Bound::Included(b) => lemma_order_agrees(k, b),
        core::ops::Bound::Excluded(b) => lemma_order_agrees(k, b),
        core::ops::Bound::Unbounded => {},
    }
}

/// Bounds and range syntax agree: `(Included(a), Excluded(b))` selects what
/// `a..b` selects, `(Included(a), Unbounded)` what `a..` selects, and
/// `(Unbounded, Included(b))` what `..=b` selects.
pub proof fn lemma_bound_pairs_match_ranges<T: Ord>(a: T, b: T, k: T)
    requires
        lawful::<T>(),
    ensures
        (core::ops::Bound::Included(a), core::ops::Bound::Excluded(b)).covers(k)
            == (core::ops::Range { start: a, end: b }).covers(k),
        (core::ops::Bound::Included(a), core::ops::Bound::Unbounded).covers(k)
            == (core::ops::RangeFrom { start: a }).covers(k),
        (core::ops::Bound::<T>::Unbounded, core::ops::Bound::Included(b)).covers(k)
            == (core::ops::RangeToInclusive { end: b }).covers(k),
{
    lemma_bound_pair_covers(core::ops::Bound::Included(a), core::ops::Bound::Excluded(b), k);
    lemma_bound_pair_covers(core::ops::Bound::Included(a), core::ops::Bound::<T>::Unbounded, k);
    lemma_bound_pair_covers(core::ops::Bound::<T>::Unbounded, core::ops::Bound::Included(b), k);
    lemma_range_covers(a, b, k);
    lemma_range_from_covers(a, k);
    lemma_range_to_inclusive_covers(b, k);
}

} // verus!
