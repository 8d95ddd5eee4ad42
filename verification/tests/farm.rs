use cabarrus::farm::{new_farm, FarmHashLie, FarmMap};
use std::hash::Hasher;

#[test]
fn hasher_starts_at_zero() {
    assert_eq!(FarmHashLie::default().finish(), 0);
}

#[test]
fn hasher_holds_the_farmhash_of_what_was_written() {
    let mut hasher = FarmHashLie::default();
    hasher.write(b"hello world");
    assert_eq!(hasher.finish(), 6381520714923946011);
    assert_eq!(hasher.finish(), farmhash::hash64(b"hello world"));
    assert_ne!(hasher.finish(), 0);
}

#[test]
fn hasher_forgets_what_came_before() {
    let mut hasher = FarmHashLie::default();
    hasher.write(b"first");
    hasher.write(b"second");
    assert_eq!(hasher.finish(), farmhash::hash64(b"second"));
    let mut other = FarmHashLie::default();
    other.write(b"second");
    assert_eq!(hasher.finish(), other.finish());
}

#[test]
fn farm_map_starts_empty_and_works_as_a_map() {
    let mut map: FarmMap<String, usize> = new_farm();
    assert!(map.is_empty());
    assert_eq!(map.insert("one".to_string(), 1), None);
    assert_eq!(map.insert("two".to_string(), 2), None);
    assert_eq!(map.insert("one".to_string(), 11), Some(1));
    assert_eq!(map.get("one"), Some(&11));
    assert_eq!(map.get("three"), None);
    assert_eq!(map.len(), 2);
}
