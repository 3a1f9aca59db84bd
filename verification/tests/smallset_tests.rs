use elizadb::smallset::{Smallset, SmallsetItem};

type Small8 = Smallset<8>;

fn item(v: u8) -> SmallsetItem {
    SmallsetItem::try_new(v).unwrap()
}

#[test]
fn cannot_locate_item_in_empty_set() {
    let set = Small8::new_empty();
    assert!(!set.contains(item(2)))
}

#[test]
fn can_locate_item_after_insertion() {
    let mut set = Small8::new_empty();
    set.insert(item(2)).unwrap();
    assert!(set.contains(item(2)));
}

#[test]
fn can_remove() {
    let mut set = Small8::new_empty();
    set.insert(item(2)).unwrap();
    assert!(set.remove(item(2)));
    assert!(!set.contains(item(2)));
}

#[test]
fn collisions_are_resolved() {
    let mut set = Small8::new_empty();
    set.insert(item(2)).unwrap();
    set.insert(item(10)).unwrap();

    assert!(set.contains(item(2)));
    assert!(set.contains(item(10)));
}

#[test]
fn tombstones_are_placed_and_items_are_found_after_deletion() {
    let mut set = Small8::new_empty();
    set.insert(item(2)).unwrap();
    set.insert(item(10)).unwrap();
    set.remove(item(2));

    assert!(!set.contains(item(2)));
    assert!(set.contains(item(10)));
}

#[test]
fn sentinel_bytes_are_rejected_at_the_type_boundary() {
    assert!(SmallsetItem::try_new(0).is_none());
    assert!(SmallsetItem::try_new(255).is_none());
    assert!(SmallsetItem::try_new(1).is_some());
    assert!(SmallsetItem::try_new(254).is_some());
}

#[test]
fn size_tracks_live_inserts() {
    let mut set = Small8::new_empty();
    assert_eq!(set.size(), 0);
    for v in [3u8, 11, 19, 27] {
        assert_eq!(set.insert(item(v)), Ok(true));
    }
    assert_eq!(set.size(), 4);
    // Re-inserting an element does not grow the set.
    assert_eq!(set.insert(item(11)), Ok(false));
    assert_eq!(set.size(), 4);
    // Removing one element leaves the other three findable.
    assert!(set.remove(item(11)));
    assert_eq!(set.size(), 3);
    assert!(!set.contains(item(11)));
    for v in [3u8, 19, 27] {
        assert!(set.contains(item(v)));
    }
}

#[test]
fn insert_fails_only_when_full() {
    let mut set: Smallset<4> = Smallset::new_empty();
    for v in [1u8, 2, 3, 4] {
        assert_eq!(set.insert(item(v)), Ok(true));
    }
    assert_eq!(set.size(), 4);
    assert_eq!(set.capacity(), 4);
    assert_eq!(set.insert(item(5)), Err(5));
}

#[test]
fn reinsert_after_removal_churn_keeps_one_copy() {
    // 2 and 10 share home slot 2 in a table of 8; removing 2 leaves a
    // tombstone in 10's probe run, and re-inserting 10 must not duplicate it.
    let mut set = Small8::new_empty();
    set.insert(item(2)).unwrap();
    set.insert(item(10)).unwrap();
    set.remove(item(2));
    assert_eq!(set.insert(item(10)), Ok(false));
    assert_eq!(set.size(), 1);
    assert!(set.remove(item(10)));
    assert!(!set.contains(item(10)));
    assert_eq!(set.size(), 0);
}

#[test]
fn compact_drops_tombstones() {
    let mut set = Small8::new_empty();
    set.insert(item(2)).unwrap();
    set.insert(item(10)).unwrap();
    set.remove(item(2));

    let mut target: Smallset<4> = Smallset::new_empty();
    set.compact(&mut target);
    assert_eq!(target.size(), 1);
    assert!(target.contains(item(10)));
    assert!(!target.contains(item(2)));
}

#[test]
fn iterate_lists_each_stored_element_once() {
    let mut set = Small8::new_empty();
    for v in [5u8, 13, 21] {
        set.insert(item(v)).unwrap();
    }
    let mut listed = set.iter();
    listed.sort();
    assert_eq!(listed, vec![5u8, 13, 21]);
    // Re-running re-scans the array; no hidden cursor state.
    assert_eq!(set.iter().len(), 3);
}

#[test]
fn clear_empties_the_set() {
    let mut set = Small8::new_empty();
    set.insert(item(7)).unwrap();
    set.clear();
    assert_eq!(set.size(), 0);
    assert!(!set.contains(item(7)));
}

#[test]
fn reiterpret_adopts_raw_storage() {
    let mut set = Small8::new_empty();
    set.insert(item(9)).unwrap();
    let raw = set.raw_slots();
    assert!(elizadb::smallset::slots_coherent(&raw));
    let adopted: Small8 = Smallset::reiterpret(raw);
    assert!(adopted.contains(item(9)));
    assert_eq!(adopted.size(), 1);
}

#[test]
fn incoherent_storage_is_detected() {
    // Value 9 stored at slot 5 with its home slot 1 run broken by a hole.
    let raw: Vec<u8> = vec![0, 0, 0, 0, 0, 9, 0, 0];
    assert!(!elizadb::smallset::slots_coherent(&raw));
    let fine: Vec<u8> = vec![0, 9, 0, 0, 0, 0, 0, 0];
    assert!(elizadb::smallset::slots_coherent(&fine));
}
