//! Mathematical descriptions of what the map's operations compute.

use vstd::prelude::*;
use vstd::std_specs::cmp::OrdSpec;

verus! {

/// `rl` is the exact mirror of `lr`: each pair of one appears reversed in the other.
pub open spec fn mirrors<L, R>(lr: Map<L, R>, rl: Map<R, L>) -> bool {
    &&& forall|l: L| #[trigger] lr.contains_key(l) ==> rl.contains_key(lr[l]) && rl[lr[l]] == l
    &&& forall|r: R| #[trigger] rl.contains_key(r) ==> lr.contains_key(rl[r]) && lr[rl[r]] == r
}

/// The pairs of `m` after `(l, r)` is put in: any pair with left value `l`
/// or right value `r` leaves, and `(l, r)` is added.
pub open spec fn overwrite<L, R>(m: Map<L, R>, l: L, r: R) -> Map<L, R> {
    Map::new(
        |k: L| k == l || (m.contains_key(k) && m[k] != r),
        |k: L| if k == l { r } else { m[k] },
    )
}

/// The pairs of `m` after each pair of `s` is put in, first to last.
pub open spec fn overwrite_all<L, R>(m: Map<L, R>, s: Seq<(L, R)>) -> Map<L, R>
    decreases s.len(),
{
    if s.len() == 0 {
        m
    } else {
        overwrite(overwrite_all(m, s.drop_last()), s.last().0, s.last().1)
    }
}

/// `new` is what is left of `old` when each pair is kept exactly where the call
/// of `f` on it returned `true`.
pub open spec fn retained_by<L, R, F: FnMut(&L, &R) -> bool>(old: Map<L, R>, new: Map<L, R>, f: F) -> bool {
    &&& forall|l: L|
        #![trigger new.contains_key(l)]
        #![trigger old.contains_key(l)]
        new.contains_key(l) ==> old.contains_key(l) && new[l] == old[l]
    &&& forall|l: L|
        #![trigger new.contains_key(l)]
        #![trigger old.contains_key(l)]
        old.contains_key(l) ==> if new.contains_key(l) {
            call_ensures(f, (&l, &old[l]), true)
        } else {
            call_ensures(f, (&l, &old[l]), false)
        }
}

/// `s` holds each element of `keys` once, in strictly increasing order.
pub open spec fn ordered_keys<K: Ord>(s: Seq<K>, keys: Set<K>) -> bool {
    &&& forall|i: int| 0 <= i < s.len() ==> keys.contains(#[trigger] s[i])
    &&& forall|k: K| keys.contains(k) ==> s.contains(k)
    &&& forall|i: int, j: int|
        #![trigger s[i], s[j]]
        0 <= i < j < s.len() ==> s[i].cmp_spec(&s[j]) is Less
}

/// `s` lists the pairs of `m`, each once, in strictly increasing order of keys.
pub open spec fn ordered_pairs<K: Ord, V>(s: Seq<(K, V)>, m: Map<K, V>) -> bool {
    &&& ordered_keys(s.map_values(|p: (K, V)| p.0), m.dom())
    &&& forall|i: int| 0 <= i < s.len() ==> m[(#[trigger] s[i]).0] == s[i].1
}

/// The values behind a sequence of pairs of references.
pub open spec fn deref_pairs<K, V>(s: Seq<(&K, &V)>) -> Seq<(K, V)> {
    s.map_values(|p: (&K, &V)| (*p.0, *p.1))
}

/// The values behind a sequence of references.
pub open spec fn deref_all<K>(s: Seq<&K>) -> Seq<K> {
    s.map_values(|p: &K| *p)
}

} // verus!
