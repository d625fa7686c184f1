use std::collections::{BTreeMap, HashMap};

use candid::Principal;
use tag_map::TagMap;

fn new() -> TagMap<Principal, u64, (u64, Option<Principal>)> {
    TagMap {
        main: HashMap::new(),
        tag: BTreeMap::new(),
    }
}

#[test]
fn insert() {
    let mut map = new();
    let a1 = Principal::from_slice(&[1, 2]);
    let a2 = Principal::from_slice(&[2, 2]);
    let a3 = Principal::from_slice(&[3, 2]);
    let a4 = Principal::from_slice(&[4, 2]);
    let a5 = Principal::from_slice(&[5, 2]);
    let min = Principal::from_slice(&[]);
    let max = Principal::from_slice(&[
        255, 255, 255, 255, 255, 255, 255, 255, 255, 255, 255, 255, 255, 255, 255, 255, 255,
        255, 255, 255, 255, 255, 255, 255, 255, 255, 255, 255, 255,
    ]);

    assert_eq!(map.insert(a1, 100, (100, None)), None);
    assert_eq!(map.insert(a2, 200, (200, None)), None);
    assert_eq!(map.insert(a3, 300, (300, None)), None);
    assert_eq!(map.insert(a4, 400, (400, None)), None);
    assert_eq!(map.insert(a5, 500, (500, Some(a5))), None);
    assert_eq!(map.insert(min, 500, (500, Some(min))), None);
    assert_eq!(map.insert(max, 500, (500, Some(max))), None);

    for i in map.tag.iter() {
        println!("{:?}", i);
    }

    for i in map.main.iter() {
        println!("{:?}", i);
    }
}

#[test]
fn delete_min_tag() {
    let mut map = new();
    let a1 = Principal::from_slice(&[1, 2]);
    let a2 = Principal::from_slice(&[2, 2]);
    let a3 = Principal::from_slice(&[3, 2]);
    let a4 = Principal::from_slice(&[4, 2]);
    let a5 = Principal::from_slice(&[5, 2]);
    let min = Principal::from_slice(&[]);
    let max = Principal::from_slice(&[
        255, 255, 255, 255, 255, 255, 255, 255, 255, 255, 255, 255, 255, 255, 255, 255, 255,
        255, 255, 255, 255, 255, 255, 255, 255, 255, 255, 255, 255,
    ]);

    assert_eq!(map.insert(a1, 100, (100, None)), None);
    assert_eq!(map.insert(a2, 200, (200, None)), None);
    assert_eq!(map.insert(a3, 300, (300, None)), None);
    assert_eq!(map.insert(a4, 400, (400, None)), None);
    assert_eq!(map.insert(a5, 500, (500, Some(a5))), None);
    assert_eq!(map.insert(min, 500, (500, Some(min))), None);
    assert_eq!(map.insert(max, 500, (500, Some(max))), None);

    for _ in 0..10 {
        println!("{:?}", map.delete_min_tag());
    }
}

#[test]
fn principal_entries_leave_in_tag_order() {
    let mut map = new();
    let a1 = Principal::from_slice(&[1, 2]);
    let a2 = Principal::from_slice(&[2, 2]);
    let a5 = Principal::from_slice(&[5, 2]);
    let min = Principal::from_slice(&[]);
    let max = Principal::from_slice(&[255; 29]);

    assert_eq!(map.insert(max, 500, (500, Some(max))), None);
    assert_eq!(map.insert(a5, 500, (500, Some(a5))), None);
    assert_eq!(map.insert(a2, 200, (200, None)), None);
    assert_eq!(map.insert(min, 500, (500, Some(min))), None);
    assert_eq!(map.insert(a1, 100, (100, None)), None);
    assert_eq!(map.get(&a5), Some(&500));

    assert_eq!(map.delete_min_tag(), Some((a1, 100, (100, None))));
    assert_eq!(map.delete_min_tag(), Some((a2, 200, (200, None))));
    assert_eq!(map.delete_min_tag(), Some((min, 500, (500, Some(min)))));
    assert_eq!(map.delete_min_tag(), Some((a5, 500, (500, Some(a5)))));
    assert_eq!(map.delete_min_tag(), Some((max, 500, (500, Some(max)))));
    assert_eq!(map.delete_min_tag(), None);
    assert!(map.main.is_empty());
    assert!(map.tag.is_empty());
}
