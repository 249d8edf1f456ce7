//! The bidirectional map itself.

use std::borrow::Borrow;
use std::collections::BTreeMap;
use vstd::prelude::*;
use vstd::std_specs::cmp::OrdSpec;
use vstd::std_specs::iter::IteratorSpec;
use vstd::std_specs::btree::{contains_borrowed_key, increasing_seq, maps_borrowed_key_to_value};
use crate::lawful::{clone_is_exact, copy_of, lawful, lemma_less_irreflexive};
use crate::key_range::{in_range, KeyRange};
use crate::listing::{deref_all, deref_pairs, mirrors, ordered_keys, ordered_pairs, overwrite, overwrite_all, retained_by};

verus! {

/// Returns the stored key and value of `m` that the borrowed key `k` designates.
///
/// Trusted: calls `BTreeMap::get_key_value`. Claimed of it, for a key type
/// whose order obeys the `Ord` laws: it returns `None` exactly where
/// `BTreeMap::get` would, and otherwise the stored key together with the value
/// that `get` would return for `k`.
#[verifier::external_body]
fn get_key_value<'a, K: Borrow<Q> + Ord, V, Q: Ord + ?Sized>(
    m: &'a BTreeMap<K, V>,
    k: &Q,
) -> (result: Option<(&'a K, &'a V)>)
    ensures
        vstd::laws_cmp::obeys_cmp::<K>() ==> match result {
            Some((key, value)) => {
                &&& m@.contains_key(*key)
                &&& m@[*key] == *value
                &&& contains_borrowed_key(m@, k)
                &&& maps_borrowed_key_to_value(m@, k, *value)
            },
            None => !contains_borrowed_key(m@, k),
        },
{
    m.get_key_value(k)
}

/// The entries of `m` whose keys lie in `range`, in increasing order of keys.
fn ordered_entries<'a, K: Ord, V, B: KeyRange<K>>(m: &'a BTreeMap<K, V>, range: Option<&B>) -> (res:
    Vec<(&'a K, &'a V)>)
    requires
        vstd::laws_cmp::obeys_cmp::<K>(),
    ensures
        ordered_pairs(deref_pairs(res@), m@.filter_keys(|k: K| in_range(range, k))),
{
    let ghost target = m@.filter_keys(|k: K| in_range(range, k));
    let mut res: Vec<(&'a K, &'a V)> = Vec::new();
    let ghost keys: Seq<K> = Seq::empty();
    for p in it: m.iter()
        invariant
            vstd::laws_cmp::obeys_cmp::<K>(),
            it.seq() == vstd::std_specs::btree::spec_btree_map_iter(m).remaining(),
            increasing_seq(it.seq().map_values(|kv: (&K, &V)| *kv.0)),
            target == m@.filter_keys(|k: K| in_range(range, k)),
            keys.len() == res.len(),
            forall|i: int| 0 <= i < res.len() ==> keys[i] == *res@[i].0,
            forall|i: int|
                0 <= i < res.len() ==> target.contains_key(#[trigger] keys[i]) && target[keys[i]] == *res@[i].1,
            forall|i: int, j: int|
                #![trigger keys[i], it.seq()[j]]
                0 <= i < res.len() && it.index() <= j < it.seq().len() ==> keys[i].cmp_spec(it.seq()[j].0) is Less,
            forall|i: int, j: int|
                #![trigger keys[i], keys[j]]
                0 <= i < j < res.len() ==> keys[i].cmp_spec(&keys[j]) is Less,
            forall|j: int|
                0 <= j < it.index() && in_range(range, *(#[trigger] it.seq()[j]).0) ==> keys.contains(*it.seq()[j].0),
    {
        let ghost idx = it.index();
        let ghost ks = it.seq().map_values(|kv: (&K, &V)| *kv.0);
        assert(p == it.seq()[idx]);
        let (k, v) = p;
        let keep = match range {
            Some(b) => b.includes(k),
            None => true,
        };
        if keep {
            proof {
                assert forall|j: int| idx < j < it.seq().len() implies (*k).cmp_spec(it.seq()[j].0) is Less by {
                    assert(ks[idx] == *k);
                    assert(ks[j] == *it.seq()[j].0);
                }
                assert(m@.contains_key(*k) && m@[*k] == *v);
                let old_keys = keys;
                keys = keys.push(*k);
                assert forall|j: int| 0 <= j < idx && in_range(range, *(#[trigger] it.seq()[j]).0) implies keys.contains(*it.seq()[j].0) by {
                    let i = choose|i: int| 0 <= i < old_keys.len() && old_keys[i] == *it.seq()[j].0;
                    assert(keys[i] == old_keys[i]);
                }
                assert(keys[keys.len() - 1] == *k);
            }
            res.push((k, v));
        }
    }
    proof {
        let ghost listed = deref_pairs(res@);
        assert(listed.map_values(|q: (K, V)| q.0) =~= keys);
        assert forall|k: K| target.dom().contains(k) implies keys.contains(k) by {
            let s = vstd::std_specs::btree::spec_btree_map_iter(m).remaining();
            assert(s.contains((&k, &m@[k])));
            let j = choose|j: int| 0 <= j < s.len() && s[j] == (&k, &m@[k]);
            assert(*s[j].0 == k);
        }
        assert forall|i: int| 0 <= i < listed.len() implies target[(#[trigger] listed[i]).0] == listed[i].1 by {
            assert(listed[i].0 == keys[i]);
        }
    }
    res
}

/// The keys of a sequence of entries, in the same order.
fn keys_of<'a, K: Ord, V>(entries: &Vec<(&'a K, &'a V)>) -> (res: Vec<&'a K>)
    ensures
        deref_all(res@) == deref_pairs(entries@).map_values(|p: (K, V)| p.0),
{
    let mut res: Vec<&'a K> = Vec::new();
    let mut i: usize = 0;
    while i < entries.len()
        invariant
            i <= entries.len(),
            res.len() == i,
            forall|j: int| 0 <= j < i ==> *res@[j] == *entries@[j].0,
        decreases entries.len() - i,
    {
        res.push(entries[i].0);
        i = i + 1;
    }
    proof {
        assert(deref_all(res@) =~= deref_pairs(entries@).map_values(|p: (K, V)| p.0));
    }
    res
}

/// A map from left values to right values that can be read in both
/// directions: no left value and no right value occurs in two pairs.
///
/// Each pair is held twice, once in each direction, so putting a pair in
/// stores a clone of each of its values.
#[derive(Debug)]
pub struct TwoWayMap<L, R> {
    left_to_right: BTreeMap<L, R>,
    right_to_left: BTreeMap<R, L>,
}

impl<L, R> View for TwoWayMap<L, R> {
    type V = Map<L, R>;

    /// The pairs of the map, as a map from left values to right values.
    closed spec fn view(&self) -> Map<L, R> {
        self.left_to_right@
    }
}

proof fn lemma_mirror_is_inverse<L, R>(lr: Map<L, R>, rl: Map<R, L>)
    requires
        mirrors(lr, rl),
    ensures
        rl == lr.invert(),
        lr.is_injective(),
{
    assert forall|r: R| rl.contains_key(r) <==> lr.contains_value(r) by {
        if lr.contains_value(r) {
            let k = choose|k: L| lr.contains_key(k) && lr[k] == r;
            assert(rl.contains_key(lr[k]));
        }
        if rl.contains_key(r) {
            assert(lr.contains_key(rl[r]));
        }
    }
    assert forall|r: R| rl.contains_key(r) implies lr.invert()[r] == rl[r] by {
        assert(lr.contains_pair(rl[r], r));
        let k = choose|k: L| lr.contains_pair(k, r);
        assert(rl[lr[k]] == k);
    }
    assert(rl =~= lr.invert());
}

impl<L: Ord, R: Ord> TwoWayMap<L, R> {
    /// The map's internal invariant: both element types are lawful and the
    /// two directions mirror each other.
    pub closed spec fn wf(&self) -> bool {
        &&& lawful::<L>()
        &&& lawful::<R>()
        &&& mirrors(self.left_to_right@, self.right_to_left@)
    }

    /// Consequences of the invariant: both element types are lawful, no right
    /// value occurs in two pairs, and there are finitely many pairs.
    pub proof fn lemma_wf(&self)
        requires
            self.wf(),
        ensures
            lawful::<L>(),
            lawful::<R>(),
            self@.is_injective(),
            self@.dom().finite(),
    {
        lemma_mirror_is_inverse(self.left_to_right@, self.right_to_left@);
    }

    proof fn lemma_inner(&self)
        requires
            self.wf(),
        ensures
            self.right_to_left@ == self@.invert(),
            self@.is_injective(),
    {
        lemma_mirror_is_inverse(self.left_to_right@, self.right_to_left@);
    }

    /// Creates an empty map.
    pub fn new() -> (map: Self)
        requires
            lawful::<L>(),
            lawful::<R>(),
        ensures
            map.wf(),
            map@ == Map::<L, R>::empty(),
    {
        TwoWayMap { left_to_right: BTreeMap::new(), right_to_left: BTreeMap::new() }
    }

    /// The number of pairs in the map.
    pub fn len(&self) -> (n: usize)
        requires
            self.wf(),
        ensures
            n == self@.len(),
    {
        self.left_to_right.len()
    }

    /// Whether the map holds no pair.
    pub fn is_empty(&self) -> (b: bool)
        requires
            self.wf(),
        ensures
            b == (self@.len() == 0),
    {
        proof {
            self.lemma_wf();
            if self@.len() == 0 {
                assert(self@.dom() =~= Set::<L>::empty());
            }
        }
        self.left_to_right.is_empty()
    }

    /// Removes every pair.
    pub fn clear(&mut self)
        requires
            old(self).wf(),
        ensures
            final(self).wf(),
            final(self)@ == Map::<L, R>::empty(),
    {
        self.left_to_right.clear();
        self.right_to_left.clear();
    }

    /// The right value paired with the left value that `left` designates, if any.
    pub fn get_by_left<Q: Ord + ?Sized>(&self, left: &Q) -> (result: Option<&R>)
        where
            L: Borrow<Q>,
        requires
            self.wf(),
        ensures
            match result {
                Some(r) => {
                    &&& contains_borrowed_key(self@, left)
                    &&& maps_borrowed_key_to_value(self@, left, *r)
                    &&& self@.contains_value(*r)
                },
                None => !contains_borrowed_key(self@, left),
            },
    {
        match get_key_value(&self.left_to_right, left) {
            Some((l, r)) => {
                proof {
                    assert(self@.contains_key(*l) && self@[*l] == *r);
                }
                Some(r)
            },
            None => None,
        }
    }

    /// The left value paired with the right value that `right` designates, if any.
    pub fn get_by_right<Q: Ord + ?Sized>(&self, right: &Q) -> (result: Option<&L>)
        where
            R: Borrow<Q>,
        requires
            self.wf(),
        ensures
            match result {
                Some(l) => {
                    &&& contains_borrowed_key(self@.invert(), right)
                    &&& maps_borrowed_key_to_value(self@.invert(), right, *l)
                    &&& self@.contains_key(*l)
                },
                None => !contains_borrowed_key(self@.invert(), right),
            },
    {
        proof {
            self.lemma_inner();
        }
        match get_key_value(&self.right_to_left, right) {
            Some((r, l)) => {
                proof {
                    assert(self.right_to_left@.contains_key(*r));
                    assert(self@.contains_key(*l));
                }
                Some(l)
            },
            None => None,
        }
    }

    /// Whether some pair has the left value that `left` designates.
    pub fn contains_left<Q: Ord + ?Sized>(&self, left: &Q) -> (b: bool)
        where
            L: Borrow<Q>,
        requires
            self.wf(),
        ensures
            b == contains_borrowed_key(self@, left),
    {
        self.left_to_right.contains_key(left)
    }

    /// Whether some pair has the right value that `right` designates.
    pub fn contains_right<Q: Ord + ?Sized>(&self, right: &Q) -> (b: bool)
        where
            R: Borrow<Q>,
        requires
            self.wf(),
        ensures
            b == contains_borrowed_key(self@.invert(), right),
    {
        proof {
            self.lemma_inner();
        }
        self.right_to_left.contains_key(right)
    }

    /// Removes the pair whose left value `left` designates, and returns it.
    pub fn remove_by_left<Q: Ord + ?Sized>(&mut self, left: &Q) -> (result: Option<(L, R)>)
        where
            L: Borrow<Q>,
        requires
            old(self).wf(),
        ensures
            final(self).wf(),
            match result {
                Some((l, r)) => {
                    &&& contains_borrowed_key(old(self)@, left)
                    &&& maps_borrowed_key_to_value(old(self)@, left, r)
                    &&& old(self)@.contains_key(l)
                    &&& old(self)@[l] == r
                    &&& final(self)@ == old(self)@.remove(l)
                },
                None => {
                    &&& !contains_borrowed_key(old(self)@, left)
                    &&& final(self)@ == old(self)@
                },
            },
    {
        match get_key_value(&self.left_to_right, left) {
            None => None,
            Some((_, r_ref)) => {
                let l = self.right_to_left.remove::<R>(r_ref).unwrap();
                let r = self.left_to_right.remove::<L>(&l).unwrap();
                Some((l, r))
            },
        }
    }

    /// Removes the pair whose right value `right` designates, and returns it
    /// with the right value first.
    pub fn remove_by_right<Q: Ord + ?Sized>(&mut self, right: &Q) -> (result: Option<(R, L)>)
        where
            R: Borrow<Q>,
        requires
            old(self).wf(),
        ensures
            final(self).wf(),
            match result {
                Some((r, l)) => {
                    &&& contains_borrowed_key(old(self)@.invert(), right)
                    &&& maps_borrowed_key_to_value(old(self)@.invert(), right, l)
                    &&& old(self)@.contains_key(l)
                    &&& old(self)@[l] == r
                    &&& final(self)@ == old(self)@.remove(l)
                },
                None => {
                    &&& !contains_borrowed_key(old(self)@.invert(), right)
                    &&& final(self)@ == old(self)@
                },
            },
    {
        proof {
            self.lemma_inner();
        }
        match get_key_value(&self.right_to_left, right) {
            None => None,
            Some((_, l_ref)) => {
                let r = self.left_to_right.remove::<L>(l_ref).unwrap();
                let l = self.right_to_left.remove::<R>(&r).unwrap();
                Some((r, l))
            },
        }
    }
    /// All pairs, in increasing order of left values.
    pub fn pairs(&self) -> (res: Vec<(&L, &R)>)
        requires
            self.wf(),
        ensures
            ordered_pairs(deref_pairs(res@), self@),
    {
        let res = ordered_entries::<L, R, core::ops::Range<L>>(&self.left_to_right, None);
        proof {
            assert(self@.filter_keys(|k: L| in_range::<L, core::ops::Range<L>>(None, k)) =~= self@);
        }
        res
    }

    /// All left values, in increasing order.
    pub fn left_values(&self) -> (res: Vec<&L>)
        requires
            self.wf(),
        ensures
            ordered_keys(deref_all(res@), self@.dom()),
    {
        let entries = self.pairs();
        keys_of(&entries)
    }

    /// All right values, in increasing order.
    pub fn right_values(&self) -> (res: Vec<&R>)
        requires
            self.wf(),
        ensures
            ordered_keys(deref_all(res@), self@.values()),
    {
        proof {
            self.lemma_inner();
        }
        let entries = ordered_entries::<R, L, core::ops::Range<R>>(&self.right_to_left, None);
        proof {
            assert(self.right_to_left@.filter_keys(|k: R| in_range::<R, core::ops::Range<R>>(None, k))
                =~= self.right_to_left@);
            assert(self@.invert().dom() =~= self@.values());
        }
        keys_of(&entries)
    }

    /// The pairs whose left values lie in `range`, in increasing order of left values.
    pub fn left_range<B: KeyRange<L>>(&self, range: B) -> (res: Vec<(&L, &R)>)
        requires
            self.wf(),
        ensures
            ordered_pairs(deref_pairs(res@), self@.filter_keys(|l: L| range.covers(l))),
    {
        let res = ordered_entries(&self.left_to_right, Some(&range));
        proof {
            assert(self@.filter_keys(|k: L| in_range(Some(&range), k))
                =~= self@.filter_keys(|l: L| range.covers(l)));
        }
        res
    }

    /// The pairs whose right values lie in `range`, right value first, in
    /// increasing order of right values.
    pub fn right_range<B: KeyRange<R>>(&self, range: B) -> (res: Vec<(&R, &L)>)
        requires
            self.wf(),
        ensures
            ordered_pairs(deref_pairs(res@), self@.invert().filter_keys(|r: R| range.covers(r))),
    {
        proof {
            self.lemma_inner();
        }
        let res = ordered_entries(&self.right_to_left, Some(&range));
        proof {
            assert(self.right_to_left@.filter_keys(|k: R| in_range(Some(&range), k))
                =~= self@.invert().filter_keys(|r: R| range.covers(r)));
        }
        res
    }
}

impl<L: Ord + Clone, R: Ord + Clone> TwoWayMap<L, R> {
    /// Adds the pair `(left, right)`, where neither value occurs yet.
    fn insert_internal(&mut self, left: L, right: R)
        requires
            old(self).wf(),
            clone_is_exact::<L>(),
            clone_is_exact::<R>(),
            !old(self)@.contains_key(left),
            !old(self).right_to_left@.contains_key(right),
        ensures
            final(self).wf(),
            final(self)@ == old(self)@.insert(left, right),
    {
        let l_copy = copy_of(&left);
        let r_copy = copy_of(&right);
        self.left_to_right.insert(l_copy, r_copy);
        self.right_to_left.insert(right, left);
    }
    /// Puts the pair `(left, right)` in. A pair that had the left value `left`
    /// or the right value `right` is removed first.
    pub fn insert(&mut self, left: L, right: R)
        requires
            old(self).wf(),
            clone_is_exact::<L>(),
            clone_is_exact::<R>(),
        ensures
            final(self).wf(),
            final(self)@ == overwrite(old(self)@, left, right),
    {
        proof {
            self.lemma_inner();
        }
        if let Some(existing_r) = self.get_by_left(&left) {
            if *existing_r == right {
                proof {
                    reveal(vstd::laws_eq::obeys_concrete_eq);
                    assert(self@ =~= overwrite(self@, left, right));
                }
                return;
            }
        }
        let ghost m0 = self@;
        if let Some(old_r) = self.left_to_right.remove(&left) {
            self.right_to_left.remove(&old_r);
        }
        let ghost m1 = self@;
        assert(m1 == m0.remove(left));
        if let Some(old_l) = self.right_to_left.remove(&right) {
            self.left_to_right.remove(&old_l);
        }
        let ghost m2 = self@;
        proof {
            assert(!m2.contains_key(left));
            assert forall|k: L| m2.contains_key(k) <==> (k != left && m0.contains_key(k) && m0[k] != right) by {
                if m0.contains_key(k) && m0[k] == right && k != left {
                    assert(m1.contains_key(k));
                }
            }
        }
        self.insert_internal(left, right);
        proof {
            assert(self@ =~= overwrite(m0, left, right));
        }
    }

    /// Puts the pair `(left, right)` in only where neither value occurs yet;
    /// otherwise hands both values back unchanged.
    pub fn insert_no_overwrite(&mut self, left: L, right: R) -> (result: Result<(), (L, R)>)
        requires
            old(self).wf(),
            clone_is_exact::<L>(),
            clone_is_exact::<R>(),
        ensures
            final(self).wf(),
            match result {
                Ok(()) => {
                    &&& !old(self)@.contains_key(left)
                    &&& !old(self)@.contains_value(right)
                    &&& final(self)@ == old(self)@.insert(left, right)
                },
                Err((l, r)) => {
                    &&& old(self)@.contains_key(left) || old(self)@.contains_value(right)
                    &&& l == left
                    &&& r == right
                    &&& final(self)@ == old(self)@
                },
            },
    {
        proof {
            self.lemma_inner();
        }
        if self.left_to_right.contains_key(&left) || self.right_to_left.contains_key(&right) {
            return Err((left, right));
        }
        self.insert_internal(left, right);
        Ok(())
    }

    /// Removes the pair with left value `left`, if there is one.
    fn remove_left_value(&mut self, left: &L)
        requires
            old(self).wf(),
        ensures
            final(self).wf(),
            final(self)@ == old(self)@.remove(*left),
    {
        proof {
            self.lemma_inner();
        }
        let ghost before = self@;
        let removed = self.remove_by_left(left);
        proof {
            match removed {
                Some((l, r)) => {
                    assert(before[*left] == r);
                    assert(l == *left);
                },
                None => {
                    assert(before.remove(*left) =~= before);
                },
            }
        }
    }

    /// Keeps exactly the pairs on which `f` returns `true`, calling it once on each pair.
    pub fn retain<F: FnMut(&L, &R) -> bool>(&mut self, mut f: F)
        requires
            old(self).wf(),
            clone_is_exact::<L>(),
            clone_is_exact::<R>(),
            forall|l: &L, r: &R| call_requires(f, (l, r)),
        ensures
            final(self).wf(),
            retained_by(old(self)@, final(self)@, f),
    {
        let ghost m0 = self@;
        let ghost f0 = f;
        let entries = self.pairs();
        let ghost listed = deref_pairs(entries@);
        let mut doomed: Vec<L> = Vec::new();
        let ghost mut verdict: Map<L, bool> = Map::empty();
        let mut i: usize = 0;
        while i < entries.len()
            invariant
                self.wf(),
                self@ == m0,
                listed == deref_pairs(entries@),
                ordered_pairs(listed, m0),
                forall|l: &L, r: &R| call_requires(f, (l, r)),
                f == f0,
                clone_is_exact::<L>(),
                i <= entries.len(),
                forall|k: L| verdict.contains_key(k) ==> m0.contains_key(k),
                forall|j: int| 0 <= j < i ==> verdict.contains_key(#[trigger] listed[j].0),
                forall|j: int| i <= j < listed.len() ==> !verdict.contains_key(#[trigger] listed[j].0),
                lawful::<L>(),
                forall|k: L| #[trigger] verdict.contains_key(k) ==> call_ensures(f, (&k, &m0[k]), verdict[k]),
                forall|j: int| 0 <= j < doomed.len() ==> verdict.contains_key(#[trigger] doomed@[j]) && !verdict[doomed@[j]],
                forall|k: L| verdict.contains_key(k) && !verdict[k] ==> doomed@.contains(k),
            decreases entries.len() - i,
        {
            let (l, r) = entries[i];
            let ghost ks = listed.map_values(|q: (L, R)| q.0);
            proof {
                assert(listed[i as int] == (*l, *r));
                assert(ks[i as int] == *l);
                assert(m0.contains_key(*l));
                assert(m0[*l] == *r);
                assert forall|j: int| i < j < listed.len() implies #[trigger] listed[j].0 != *l by {
                    assert(ks[j] == listed[j].0);
                    lemma_less_irreflexive(ks[i as int], ks[j]);
                }
            }
            let ghost doomed_before = doomed@;
            let keep = f(l, r);
            if !keep {
                let l_copy = copy_of(l);
                doomed.push(l_copy);
            }
            proof {
                verdict = verdict.insert(*l, keep);
                assert forall|k: L| verdict.contains_key(k) && !verdict[k] implies doomed@.contains(k) by {
                    if k != *l {
                        let x = choose|x: int| 0 <= x < doomed_before.len() && doomed_before[x] == k;
                        assert(doomed@[x] == k);
                    } else {
                        assert(doomed@[doomed@.len() - 1] == k);
                    }
                }
            }
            i = i + 1;
        }
        let mut j: usize = 0;
        while j < doomed.len()
            invariant
                self.wf(),
                j <= doomed.len(),
                forall|k: L|
                    #[trigger] self@.contains_key(k) <==> m0.contains_key(k) && !doomed@.take(j as int).contains(k),
                forall|k: L| #[trigger] self@.contains_key(k) ==> self@[k] == m0[k],
            decreases doomed.len() - j,
        {
            let ghost before = self@;
            self.remove_left_value(&doomed[j]);
            proof {
                let prefix = doomed@.take(j as int);
                let longer = doomed@.take(j + 1);
                assert(longer =~= prefix.push(doomed@[j as int]));
                assert forall|k: L| #[trigger] self@.contains_key(k) <==> m0.contains_key(k)
                    && !longer.contains(k) by {
                    if longer.contains(k) && k != doomed@[j as int] {
                        let x = choose|x: int| 0 <= x < longer.len() && longer[x] == k;
                        assert(prefix[x] == k);
                    }
                    if prefix.contains(k) {
                        let x = choose|x: int| 0 <= x < prefix.len() && prefix[x] == k;
                        assert(longer[x] == k);
                    }
                    if k == doomed@[j as int] {
                        assert(longer[j as int] == k);
                    }
                }
            }
            j = j + 1;
        }
        proof {
            assert(doomed@.take(doomed.len() as int) =~= doomed@);
            assert forall|k: L| #[trigger] m0.contains_key(k) implies verdict.contains_key(k) by {
                let ks = listed.map_values(|q: (L, R)| q.0);
                assert(ks.contains(k));
                let idx = choose|idx: int| 0 <= idx < ks.len() && #[trigger] ks[idx] == k;
                assert(verdict.contains_key(listed[idx].0));
            }
            assert forall|k: L| m0.contains_key(k) implies if self@.contains_key(k) {
                call_ensures(f, (&k, &m0[k]), true)
            } else {
                call_ensures(f, (&k, &m0[k]), false)
            } by {
                assert(verdict.contains_key(k));
                if self@.contains_key(k) {
                    if !verdict[k] {
                        assert(doomed@.contains(k));
                    }
                } else {
                    let x = choose|x: int| 0 <= x < doomed.len() && doomed@[x] == k;
                    assert(verdict.contains_key(doomed@[x]) && !verdict[doomed@[x]]);
                }
            }
        }
    }
    /// Puts in each pair of `pairs`, first to last, as `insert` does.
    pub fn extend(&mut self, pairs: Vec<(L, R)>)
        requires
            old(self).wf(),
            clone_is_exact::<L>(),
            clone_is_exact::<R>(),
        ensures
            final(self).wf(),
            final(self)@ == overwrite_all(old(self)@, pairs@),
    {
        let ghost m0 = self@;
        let ghost ps = pairs@;
        for p in it: pairs
            invariant
                self.wf(),
                clone_is_exact::<L>(),
                clone_is_exact::<R>(),
                it.seq() == ps,
                self@ == overwrite_all(m0, ps.take(it.index())),
        {
            proof {
                assert(ps.take(it.index() + 1).drop_last() =~= ps.take(it.index()));
            }
            let (l, r) = p;
            self.insert(l, r);
        }
        proof {
            assert(ps.take(ps.len() as int) =~= ps);
        }
    }

    /// A map holding the pairs of `pairs`, put in first to last as `insert` does.
    pub fn from_pairs(pairs: Vec<(L, R)>) -> (map: Self)
        requires
            lawful::<L>(),
            lawful::<R>(),
            clone_is_exact::<L>(),
            clone_is_exact::<R>(),
        ensures
            map.wf(),
            map@ == overwrite_all(Map::<L, R>::empty(), pairs@),
    {
        let mut map = Self::new();
        map.extend(pairs);
        map
    }

    /// All pairs, taken out of the map, in increasing order of left values.
    pub fn into_pairs(self) -> (res: Vec<(L, R)>)
        requires
            self.wf(),
            clone_is_exact::<L>(),
            clone_is_exact::<R>(),
        ensures
            ordered_pairs(res@, self@),
    {
        proof {
            self.lemma_wf();
        }
        let entries = self.pairs();
        let ghost listed = deref_pairs(entries@);
        let mut res: Vec<(L, R)> = Vec::new();
        let mut i: usize = 0;
        while i < entries.len()
            invariant
                clone_is_exact::<L>(),
                clone_is_exact::<R>(),
                listed == deref_pairs(entries@),
                i <= entries.len(),
                res@ == listed.take(i as int),
            decreases entries.len() - i,
        {
            let (l, r) = entries[i];
            let pair = (copy_of(l), copy_of(r));
            res.push(pair);
            proof {
                assert(listed.take(i + 1) =~= listed.take(i as int).push(listed[i as int]));
            }
            i = i + 1;
        }
        proof {
            assert(listed.take(i as int) =~= listed);
        }
        res
    }
}


impl<L: Ord + Clone, R: Ord + Clone> Clone for TwoWayMap<L, R> {
    /// A separate map holding the same pairs.
    fn clone(&self) -> (res: Self)
        ensures
            res@ == self@,
            self.wf() ==> res.wf(),
    {
        TwoWayMap {
            left_to_right: self.left_to_right.clone(),
            right_to_left: self.right_to_left.clone(),
        }
    }
}

impl<L: Ord, R: Ord> Default for TwoWayMap<L, R> {
    /// An empty map.
    fn default() -> (map: Self)
        ensures
            map@ == Map::<L, R>::empty(),
            lawful::<L>() && lawful::<R>() ==> map.wf(),
    {
        TwoWayMap { left_to_right: BTreeMap::new(), right_to_left: BTreeMap::new() }
    }
}

} // verus!
