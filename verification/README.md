# two_way_map

A bidirectional map, verified with Verus. `TwoWayMap<L, R>` pairs left values
with right values so that no left value and no right value occurs twice, and
lets either side be used to look a pair up, remove it, or list a range.

Layout of `src/`:

- `two_way_map.rs`: the map, held as two `BTreeMap`s that mirror each other,
  with its operations and their contracts over the view `Map<L, R>`.
- `listing.rs`: the spec functions the contracts are written in (the result of
  putting a pair in, ordered listings of pairs and keys).
- `key_range.rs`: the `KeyRange` trait that range queries take, for `a..b`, `a..=b`, `a..`,
  `..b`, `..=b`, `..` and a pair of `Bound`s.
- `lawful.rs`: the conditions on `L` and `R` under which the contracts hold: a
  lawful `Ord` with `==` as equality for every operation, and an exact `Clone`
  for the operations that store values (each pair is held in both directions).
- `laws.rs`: laws relating the operations to one another.
