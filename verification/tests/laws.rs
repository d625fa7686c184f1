use tag_map::TagMap;

type Tags = TagMap<u32, &'static str, u64>;

/// The tag of every key leads back to the key, and every tag leads to a key
/// that carries it.
fn consistent(map: &Tags) -> bool {
    map.main.iter().all(|(key, entry)| map.tag.get(&entry.1) == Some(key))
        && map.tag.iter().all(|(tag, key)| map.main.get(key).map(|entry| entry.1) == Some(*tag))
}

fn drain(map: &mut Tags) -> Vec<(u32, &'static str, u64)> {
    let mut out = Vec::new();
    while let Some(entry) = map.delete_min_tag() {
        out.push(entry);
    }
    out
}

#[test]
fn distinct_tags_keep_the_indices_consistent() {
    let mut map = Tags::new();
    assert!(consistent(&map));
    map.insert(1, "a", 40);
    assert!(consistent(&map));
    map.insert(2, "b", 10);
    assert!(consistent(&map));
    map.insert(1, "c", 30);
    assert!(consistent(&map));
    map.update(2, "d", 50);
    assert!(consistent(&map));
    map.delete(1);
    assert!(consistent(&map));
    map.update(3, "e", 20);
    assert!(consistent(&map));
    map.insert(4, "f", 60);
    assert!(consistent(&map));
    map.delete(9);
    assert!(consistent(&map));
    map.delete_min_tag();
    assert!(consistent(&map));

    assert_eq!(map.main.len(), 2);
    assert_eq!(map.tag.len(), 2);
    assert_eq!(map.main.get(&2), Some(&("d", 50)));
    assert_eq!(map.main.get(&4), Some(&("f", 60)));
    assert_eq!(map.tag.get(&50), Some(&2));
    assert_eq!(map.tag.get(&60), Some(&4));
}

#[test]
fn shared_tag_breaks_consistency() {
    let mut map = Tags::new();
    map.insert(1, "a", 7);
    map.insert(2, "b", 7);
    assert!(!consistent(&map));
    assert!(map.tag.iter().all(|(tag, key)| map.main.get(key).map(|entry| entry.1) == Some(*tag)));
}

#[test]
fn drain_yields_strictly_increasing_tags() {
    let mut map = Tags::new();
    let tags: [u64; 8] = [70, 10, 50, 30, 80, 20, 60, 40];
    for (i, tag) in tags.iter().enumerate() {
        assert_eq!(map.insert(i as u32, "v", *tag), None);
    }
    let out = drain(&mut map);
    assert_eq!(
        out,
        vec![
            (1, "v", 10),
            (5, "v", 20),
            (3, "v", 30),
            (7, "v", 40),
            (2, "v", 50),
            (6, "v", 60),
            (0, "v", 70),
            (4, "v", 80),
        ]
    );
    assert!(out.windows(2).all(|pair| pair[0].2 < pair[1].2));
    assert_eq!(map.delete_min_tag(), None);
    assert!(map.main.is_empty());
}

#[test]
fn drain_yields_one_entry_for_each_key_left() {
    let mut map = Tags::new();
    map.insert(1, "a", 10);
    map.insert(2, "b", 20);
    map.insert(3, "c", 30);
    map.insert(1, "d", 40);
    map.delete(2);
    assert_eq!(map.main.len(), 2);
    assert_eq!(drain(&mut map), vec![(3, "c", 30), (1, "d", 40)]);
    assert_eq!(map.delete_min_tag(), None);
}

#[test]
fn second_insert_returns_the_first_entry() {
    let mut map = Tags::new();
    assert_eq!(map.insert(1, "first", 10), None);
    assert_eq!(map.insert(1, "second", 20), Some(("first", 10)));
    assert_eq!(drain(&mut map), vec![(1, "second", 20)]);
}

#[test]
fn update_returns_what_insert_stored() {
    let mut map = Tags::new();
    assert_eq!(map.insert(1, "v1", 10), None);
    assert_eq!(map.update(1, "v2", 20), Some(("v1", 10)));
    assert_eq!(map.get(&1), Some(&"v2"));
    assert_eq!(map.main.get(&1), Some(&("v2", 20)));
}

#[test]
fn update_leaves_what_delete_and_insert_leave() {
    let mut updated = Tags::new();
    let mut replayed = Tags::new();
    for map in [&mut updated, &mut replayed] {
        map.insert(1, "a", 10);
        map.insert(2, "b", 20);
        map.insert(3, "c", 30);
    }
    let returned = updated.update(2, "z", 5);
    let deleted = replayed.delete(2);
    assert_eq!(replayed.insert(2, "z", 5), None);
    assert_eq!(returned, deleted);
    assert_eq!(returned, Some(("b", 20)));
    assert_eq!(updated.main, replayed.main);
    assert_eq!(updated.tag, replayed.tag);
    assert_eq!(drain(&mut updated), vec![(2, "z", 5), (1, "a", 10), (3, "c", 30)]);
}

#[test]
fn deleted_key_is_not_yielded() {
    let mut map = Tags::new();
    map.insert(1, "a", 10);
    map.insert(2, "b", 20);
    map.insert(3, "c", 30);
    assert_eq!(map.delete(1), Some(("a", 10)));
    assert_eq!(map.get(&1), None);
    map.insert(4, "d", 5);
    let out = drain(&mut map);
    assert_eq!(out, vec![(4, "d", 5), (2, "b", 20), (3, "c", 30)]);
    assert!(out.iter().all(|entry| entry.0 != 1));
}

#[test]
fn key_without_tag_is_not_yielded() {
    let mut map = Tags::new();
    map.insert(1, "a", 7);
    map.insert(2, "b", 7);
    map.insert(3, "c", 3);
    map.insert(4, "d", 9);
    let out = drain(&mut map);
    assert_eq!(out, vec![(3, "c", 3), (2, "b", 7), (4, "d", 9)]);
    assert_eq!(map.get(&1), Some(&"a"));
}
