use two_way_map::TwoWayMap;

#[test]
fn test_constructor_and_basic_properties() {
    let mut map = TwoWayMap::new();
    assert!(map.is_empty());
    assert_eq!(map.len(), 0);

    map.insert(1, "A");
    map.insert(2, "B");
    assert!(!map.is_empty());
    assert_eq!(map.len(), 2);

    map.clear();
    assert!(map.is_empty());
    assert_eq!(map.len(), 0);
}

#[test]
fn test_insert_overwrites() {
    let mut map = TwoWayMap::new();
    map.insert(1, "A".to_string());
    map.insert(2, "B".to_string());

    map.insert(1, "C".to_string()); // (1, "A") becomes (1, "C")
    assert_eq!(map.len(), 2);
    assert_eq!(map.get_by_left(&1), Some(&"C".to_string()));
    assert!(!map.contains_right(&"A".to_string()));

    map.insert(3, "B".to_string()); // (2, "B") becomes (3, "B")
    assert_eq!(map.len(), 2);
    assert_eq!(map.get_by_right(&"B".to_string()), Some(&3));
    assert!(!map.contains_left(&2));
}

#[test]
fn test_insert_no_overwrite() {
    let mut map = TwoWayMap::new();

    let res1 = map.insert_no_overwrite(1, "A");
    assert!(res1.is_ok());

    // the left value is taken
    let res2 = map.insert_no_overwrite(1, "B");
    assert_eq!(res2, Err((1, "B")));

    // the right value is taken
    let res3 = map.insert_no_overwrite(2, "A");
    assert_eq!(res3, Err((2, "A")));

    assert_eq!(map.len(), 1);
}

#[test]
fn test_removal_and_lookups() {
    let mut map = TwoWayMap::new();
    map.insert(1, "A");
    map.insert(2, "B");

    assert_eq!(map.get_by_left(&1), Some(&"A"));
    assert_eq!(map.get_by_right(&"B"), Some(&2));

    let removed = map.remove_by_left(&1);
    assert_eq!(removed, Some((1, "A")));
    assert!(!map.contains_left(&1));
    assert!(!map.contains_right(&"A"));

    let removed_right = map.remove_by_right(&"B");
    assert_eq!(removed_right, Some(("B", 2)));
    assert!(map.is_empty());
}

#[test]
fn test_iterators() {
    let mut map = TwoWayMap::new();
    map.insert(1, 10);
    map.insert(2, 20);
    map.insert(3, 30);

    let pairs: Vec<(&i32, &i32)> = map.pairs();
    assert_eq!(pairs, vec![(&1, &10), (&2, &20), (&3, &30)]);

    let lefts: Vec<&i32> = map.left_values();
    assert_eq!(lefts, vec![&1, &2, &3]);

    let rights: Vec<&i32> = map.right_values();
    assert_eq!(rights, vec![&10, &20, &30]);
}

#[test]
fn test_ranges() {
    let mut map = TwoWayMap::new();
    map.insert(1, 30);
    map.insert(2, 20);
    map.insert(3, 10);

    let left_rng: Vec<(&i32, &i32)> = map.left_range(1..=2);
    assert_eq!(left_rng, vec![(&1, &30), (&2, &20)]);

    let right_rng: Vec<(&i32, &i32)> = map.right_range(10..25);
    assert_eq!(right_rng, vec![(&10, &3), (&20, &2)]);
}

#[test]
fn test_retain() {
    let mut map = TwoWayMap::new();
    map.insert(1, 10);
    map.insert(2, 20);
    map.insert(3, 30);

    // keep the pairs whose left value is even or whose right value exceeds 25
    map.retain(|l, r| *l % 2 == 0 || *r > 25);

    assert_eq!(map.len(), 2);
    assert!(map.contains_left(&2));
    assert!(map.contains_left(&3));
    assert!(!map.contains_left(&1));
}

#[test]
fn test_default() {
    let map: TwoWayMap<i32, String> = TwoWayMap::default();
    assert!(map.is_empty());
    assert_eq!(map.len(), 0);
}

#[test]
fn test_clone() {
    let mut map = TwoWayMap::new();
    map.insert(1, "A");
    map.insert(2, "B");

    let mut cloned_map = map.clone();

    assert_eq!(cloned_map.len(), 2);
    assert_eq!(cloned_map.get_by_left(&1), Some(&"A"));
    assert_eq!(cloned_map.get_by_right(&"B"), Some(&2));

    // the clone is separate from the original
    cloned_map.insert(3, "C");
    assert_eq!(cloned_map.len(), 3);
    assert_eq!(map.len(), 2);
    assert!(!map.contains_left(&3));
}

#[test]
fn test_debug() {
    let mut map = TwoWayMap::new();
    map.insert(1, "A");
    map.insert(2, "B");

    let debug_str = format!("{:?}", map);

    assert!(debug_str.contains("left_to_right"));
    assert!(debug_str.contains("right_to_left"));
    assert!(debug_str.contains("1"));
    assert!(debug_str.contains("\"A\""));
    assert!(debug_str.contains("2"));
    assert!(debug_str.contains("\"B\""));
}

#[test]
fn test_other_traits() {
    // built from pairs
    let data = vec![(1, 10), (2, 20)];
    let mut map: TwoWayMap<i32, i32> = TwoWayMap::from_pairs(data);
    assert_eq!(map.len(), 2);

    // extended by pairs
    map.extend(vec![(3, 30), (4, 40)]);
    assert_eq!(map.len(), 4);

    // taken apart into owned pairs
    let map_clone = map.clone();
    let owned_vec: Vec<(i32, i32)> = map_clone.into_pairs();
    assert_eq!(owned_vec, vec![(1, 10), (2, 20), (3, 30), (4, 40)]);

    // walked through by reference
    let mut i = 0;
    for (l, r) in map.pairs() {
        i += 1;
        assert_eq!((*l, *r), (i, i * 10));
    }
    assert_eq!(i, 4);
    assert_eq!(map.len(), 4);
}

#[test]
fn test_borrowing() {
    let mut map = TwoWayMap::new();
    map.insert(String::from("key1"), String::from("val1"));

    // looked up with &str in place of &String
    assert!(map.contains_left("key1"));
    assert!(map.contains_right("val1"));
    assert_eq!(map.get_by_left("key1"), Some(&String::from("val1")));

    let removed = map.remove_by_left("key1");
    assert_eq!(removed, Some((String::from("key1"), String::from("val1"))));
}

#[derive(Clone, PartialEq, Eq, PartialOrd, Ord)]
struct SomeType {
    x: i32,
    y: i32,
}

impl SomeType {
    fn new(x: i32, y: i32) -> Self {
        Self { x: x, y: y }
    }
}

#[test]
fn custom_tpye_test() {
    let left = SomeType::new(0, 1);
    let right = SomeType::new(1, 0);
    let mut map = TwoWayMap::new();
    map.insert(left, right);
}
