use katas::ratpack::merge_with;
use std::collections::HashMap;

fn map_of(entries: &[(&'static str, i32)]) -> HashMap<&'static str, i32> {
    let mut m = HashMap::new();
    for (k, v) in entries {
        m.insert(*k, *v);
    }
    m
}

#[test]
fn it_works() {
    let m1 = map_of(&[("a", 1), ("b", 2)]);
    let m2 = map_of(&[("a", 1), ("b", 2)]);

    assert_eq!(map_of(&[("a", 2), ("b", 4)]), merge_with(&vec![m1, m2]))
}

#[test]
fn merging_no_maps_gives_an_empty_map() {
    let none: Vec<HashMap<&'static str, i32>> = Vec::new();
    assert_eq!(HashMap::new(), merge_with(&none));
}

#[test]
fn merging_one_map_gives_that_map() {
    let only = map_of(&[("a", 7), ("z", -3)]);
    assert_eq!(only.clone(), merge_with(&[only]));
}

#[test]
fn three_maps_add_up_key_by_key() {
    let merged = merge_with(&[
        map_of(&[("a", 1), ("b", 10)]),
        map_of(&[("a", 2), ("b", 20)]),
        map_of(&[("a", 3), ("b", 30)]),
    ]);
    assert_eq!(map_of(&[("a", 6), ("b", 60)]), merged);
}

#[test]
fn a_key_that_only_the_first_map_holds_keeps_its_value() {
    let merged = merge_with(&[map_of(&[("a", 1), ("b", 2)]), map_of(&[("a", 5)])]);
    assert_eq!(map_of(&[("a", 6), ("b", 2)]), merged);
}

#[test]
fn a_key_that_enters_later_enters_with_twice_its_value() {
    let merged = merge_with(&[map_of(&[("a", 1)]), map_of(&[("b", 3)]), map_of(&[("b", 4)])]);
    assert_eq!(map_of(&[("a", 1), ("b", 10)]), merged);
}

#[test]
fn keys_may_be_numbers() {
    let mut first: HashMap<u64, i32> = HashMap::new();
    first.insert(1, -5);
    let mut second: HashMap<u64, i32> = HashMap::new();
    second.insert(1, 5);
    let mut expected: HashMap<u64, i32> = HashMap::new();
    expected.insert(1, 0);
    assert_eq!(expected, merge_with(&[first, second]));
}
