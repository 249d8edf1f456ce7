use two_way_map::TwoWayMap;

#[test]
fn insert_replaces_pairs_on_both_sides() {
    let mut map = TwoWayMap::new();
    map.insert(1, 'a');
    map.insert(2, 'b');
    map.insert(3, 'c');
    // (1, 'b') displaces both (1, 'a') and (2, 'b')
    map.insert(1, 'b');
    assert_eq!(map.len(), 2);
    assert_eq!(map.pairs(), vec![(&1, &'b'), (&3, &'c')]);
    assert!(!map.contains_left(&2));
    assert!(!map.contains_right(&'a'));
}

#[test]
fn insert_of_present_pair_changes_nothing() {
    let mut map = TwoWayMap::new();
    map.insert(7u64, 70u64);
    map.insert(8, 80);
    map.insert(7, 70);
    assert_eq!(map.pairs(), vec![(&7, &70), (&8, &80)]);
}

#[test]
fn insert_twice_equals_once() {
    let mut once = TwoWayMap::new();
    once.insert(1, 10);
    once.insert(2, 20);
    once.insert(2, 10);
    let mut twice = once.clone();
    twice.insert(2, 10);
    assert_eq!(once.pairs(), twice.pairs());
}

#[test]
fn lookups_agree_in_both_directions() {
    let mut map = TwoWayMap::new();
    map.insert(4, 40);
    map.insert(5, 50);
    for (l, r) in map.pairs() {
        assert_eq!(map.get_by_left(l), Some(r));
        assert_eq!(map.get_by_right(r), Some(l));
    }
    assert_eq!(map.get_by_left(&40), None);
    assert_eq!(map.get_by_right(&4), None);
}

#[test]
fn fresh_insert_then_remove_restores() {
    let mut map = TwoWayMap::new();
    map.insert(1, 100);
    let before = map.pairs().into_iter().map(|(l, r)| (*l, *r)).collect::<Vec<_>>();
    assert_eq!(map.insert_no_overwrite(2, 200), Ok(()));
    assert_eq!(map.len(), 2);
    assert_eq!(map.remove_by_left(&2), Some((2, 200)));
    let after = map.pairs().into_iter().map(|(l, r)| (*l, *r)).collect::<Vec<_>>();
    assert_eq!(before, after);
}

#[test]
fn remove_of_absent_value_gives_none() {
    let mut map = TwoWayMap::new();
    map.insert(1, 2);
    assert_eq!(map.remove_by_left(&2), None);
    assert_eq!(map.remove_by_right(&1), None);
    assert_eq!(map.len(), 1);
    assert_eq!(map.remove_by_right(&2), Some((2, 1)));
    assert!(map.is_empty());
}

#[test]
fn listings_are_sorted_whatever_the_insertion_order() {
    let mut map = TwoWayMap::new();
    map.insert(3, 'x');
    map.insert(1, 'z');
    map.insert(2, 'y');
    assert_eq!(map.left_values(), vec![&1, &2, &3]);
    assert_eq!(map.right_values(), vec![&'x', &'y', &'z']);
    assert_eq!(map.left_values().len(), map.right_values().len());
    assert_eq!(map.into_pairs(), vec![(1, 'z'), (2, 'y'), (3, 'x')]);
}

#[test]
fn ranges_at_the_edges() {
    let mut map = TwoWayMap::new();
    for i in 0..5 {
        map.insert(i, 10 * i);
    }
    assert_eq!(map.left_range(5..9), Vec::<(&i32, &i32)>::new());
    assert_eq!(map.left_range(4..=4), vec![(&4, &40)]);
    assert_eq!(map.left_range(2..2), Vec::<(&i32, &i32)>::new());
    assert_eq!(map.right_range(0..=10), vec![(&0, &0), (&10, &1)]);
}

#[test]
fn retain_nothing_and_everything() {
    let mut map = TwoWayMap::new();
    map.insert(1, 1);
    map.insert(2, 4);
    let mut all = map.clone();
    all.retain(|_, _| true);
    assert_eq!(all.len(), 2);
    map.retain(|_, _| false);
    assert!(map.is_empty());
    assert!(!map.contains_right(&4));
}

#[test]
fn later_pairs_overwrite_earlier_ones_when_built() {
    let map = TwoWayMap::from_pairs(vec![(1, 'a'), (2, 'b'), (1, 'c'), (3, 'b')]);
    assert_eq!(map.pairs(), vec![(&1, &'c'), (&3, &'b')]);
}

#[test]
fn insert_no_overwrite_hands_back_both_values() {
    let mut map = TwoWayMap::new();
    map.insert(String::from("l"), String::from("r"));
    let err = map.insert_no_overwrite(String::from("x"), String::from("r"));
    assert_eq!(err, Err((String::from("x"), String::from("r"))));
    assert_eq!(map.len(), 1);
}

#[test]
fn full_range_lists_everything() {
    let mut map = TwoWayMap::new();
    map.insert(2, 'b');
    map.insert(1, 'a');
    assert_eq!(map.left_range(..), map.pairs());
    assert_eq!(map.right_range(..), vec![(&'a', &1), (&'b', &2)]);
}

#[test]
fn retain_keeps_as_many_pairs_as_satisfy_the_predicate() {
    let mut map = TwoWayMap::from_pairs(vec![(1, 5), (2, 6), (3, 7), (4, 8)]);
    map.retain(|l, r| (l + r) % 4 == 2);
    assert_eq!(map.pairs(), vec![(&1, &5), (&3, &7)]);
    assert_eq!(map.len(), 2);
}

#[test]
fn extending_twice_equals_extending_once_by_both() {
    let mut twice = TwoWayMap::new();
    twice.extend(vec![(1, 'a'), (2, 'b')]);
    twice.extend(vec![(3, 'a'), (2, 'c')]);
    let once = TwoWayMap::from_pairs(vec![(1, 'a'), (2, 'b'), (3, 'a'), (2, 'c')]);
    assert_eq!(twice.pairs(), once.pairs());
    let mut by_insert = TwoWayMap::new();
    by_insert.insert(1, 'a');
    let mut by_extend = TwoWayMap::new();
    by_extend.extend(vec![(1, 'a')]);
    assert_eq!(by_insert.pairs(), by_extend.pairs());
}

#[test]
fn borrowed_right_lookups_agree() {
    let mut map = TwoWayMap::new();
    map.insert(String::from("k"), String::from("v"));
    assert_eq!(map.get_by_right("v").is_some(), map.contains_right("v"));
    assert_eq!(map.get_by_right("w").is_some(), map.contains_right("w"));
    assert_eq!(map.remove_by_right("v"), Some((String::from("v"), String::from("k"))));
}

#[test]
fn open_ended_and_bound_ranges() {
    let mut map = TwoWayMap::new();
    for i in 1..6 {
        map.insert(i, 100 - i);
    }
    assert_eq!(map.left_range(4..), vec![(&4, &96), (&5, &95)]);
    assert_eq!(map.left_range(..2), vec![(&1, &99)]);
    assert_eq!(map.left_range(..=2), vec![(&1, &99), (&2, &98)]);
    assert_eq!(map.right_range(97..), vec![(&97, &3), (&98, &2), (&99, &1)]);
    assert_eq!(
        map.left_range((std::ops::Bound::Excluded(2), std::ops::Bound::Included(4))),
        vec![(&3, &97), (&4, &96)]
    );
    assert_eq!(
        map.right_range((std::ops::Bound::Unbounded, std::ops::Bound::Excluded(96))),
        vec![(&95, &5)]
    );
}

#[derive(PartialEq, Eq, PartialOrd, Ord, Debug)]
struct Opaque(u8);

#[test]
fn lookups_need_no_clone() {
    let map: TwoWayMap<Opaque, Opaque> = TwoWayMap::new();
    assert!(map.is_empty());
    assert_eq!(map.get_by_left(&Opaque(1)), None);
    assert!(!map.contains_right(&Opaque(2)));
    assert!(map.pairs().is_empty());
}
