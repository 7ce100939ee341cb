use conduit::error::Error;
use conduit::state_diff::{load_shortstatehash_info, save_state, update_shortstatehash_level};
use conduit::state_set::{entry, shorteventid, shortstatekey, StateSet};
use conduit::tree::Tree;
use lru_cache::LruCache;

fn set_of(entries: &[u128]) -> StateSet {
    let mut set = StateSet::new();
    for e in entries {
        set.insert(*e);
    }
    set
}

fn full_state(hash: u64, tree: &Tree) -> Vec<u128> {
    let mut lru = LruCache::new(100);
    let chain = load_shortstatehash_info(hash, tree, &mut lru).unwrap();
    chain.last().unwrap().full_state.as_slice().to_vec()
}

#[test]
fn entries_hold_key_and_event() {
    let e = entry(3, 9);
    assert_eq!(e, (3_u128 << 64) | 9);
    assert_eq!(shortstatekey(e), 3);
    assert_eq!(shorteventid(e), 9);
    assert_eq!(shortstatekey(u128::MAX), u64::MAX);
    assert_eq!(shorteventid(u128::MAX), u64::MAX);
}

#[test]
fn state_sets_are_sets() {
    let mut set = StateSet::new();
    assert!(set.is_empty());
    assert!(set.insert(5));
    assert!(set.insert(1));
    assert!(!set.insert(5));
    assert_eq!(set.len(), 2);
    assert_eq!(set.as_slice(), &[1, 5]);
    assert!(set.contains(1));
    assert!(!set.contains(2));
    assert!(set.remove(1));
    assert!(!set.remove(1));
    assert_eq!(set.as_slice(), &[5]);
}

#[test]
fn difference_takes_out_the_other_set() {
    let a = set_of(&[1, 2, 3, 4]);
    let b = set_of(&[2, 4, 6]);
    assert_eq!(a.difference(&b).as_slice(), &[1, 3]);
    assert_eq!(b.difference(&a).as_slice(), &[6]);
    assert_eq!(a.difference(&a).as_slice(), &[] as &[u128]);
}

#[test]
fn a_first_state_is_written_as_a_snapshot() {
    let mut tree = Tree::new();
    let mut lru = LruCache::new(100);
    let state = set_of(&[entry(1, 10), entry(2, 20)]);
    save_state(5, None, &state, &mut tree, &mut lru).unwrap();
    let mut expected = 0_u64.to_be_bytes().to_vec();
    expected.extend_from_slice(&entry(1, 10).to_be_bytes());
    expected.extend_from_slice(&entry(2, 20).to_be_bytes());
    assert_eq!(tree.get(&5_u64.to_be_bytes()), Some(expected));
}

#[test]
fn a_small_change_is_written_as_a_diff_on_its_parent() {
    let mut tree = Tree::new();
    let mut lru = LruCache::new(100);
    let mut entries: Vec<u128> = (1..=20).map(|k| entry(k, 100 + k)).collect();
    save_state(1, None, &set_of(&entries), &mut tree, &mut lru).unwrap();
    entries[0] = entry(1, 999);
    save_state(2, Some(1), &set_of(&entries), &mut tree, &mut lru).unwrap();
    let mut expected = 1_u64.to_be_bytes().to_vec();
    expected.extend_from_slice(&entry(1, 999).to_be_bytes());
    expected.extend_from_slice(&0_u64.to_be_bytes());
    expected.extend_from_slice(&entry(1, 101).to_be_bytes());
    assert_eq!(tree.get(&2_u64.to_be_bytes()), Some(expected));
    assert_eq!(full_state(2, &tree), entries);
}

#[test]
fn a_large_change_is_folded_into_a_new_snapshot() {
    let mut tree = Tree::new();
    let mut lru = LruCache::new(100);
    save_state(1, None, &set_of(&[entry(1, 10)]), &mut tree, &mut lru).unwrap();
    let next = set_of(&[entry(1, 11), entry(2, 20)]);
    save_state(2, Some(1), &next, &mut tree, &mut lru).unwrap();
    let value = tree.get(&2_u64.to_be_bytes()).unwrap();
    assert_eq!(&value[..8], &0_u64.to_be_bytes());
    assert_eq!(value.len(), 8 + 2 * 16);
    assert_eq!(full_state(2, &tree), vec![entry(1, 11), entry(2, 20)]);
}

#[test]
fn state_is_read_back_as_it_was_saved() {
    let mut tree = Tree::new();
    let mut lru = LruCache::new(100);
    let mut state: Vec<u128> = (1..=50).map(|k| entry(k, 1000 + k)).collect();
    let mut saved: Vec<Vec<u128>> = Vec::new();
    save_state(1, None, &set_of(&state), &mut tree, &mut lru).unwrap();
    saved.push(state.clone());
    for hash in 2..=60_u64 {
        let slot = (hash * 7 % 50) as usize;
        state[slot] = entry(slot as u64 + 1, 2000 + hash);
        if hash % 9 == 0 {
            state.push(entry(100 + hash, 3000 + hash));
        }
        if hash % 13 == 0 {
            state.remove(0);
        }
        state.sort();
        save_state(hash, Some(hash - 1), &set_of(&state), &mut tree, &mut lru).unwrap();
        saved.push(state.clone());
    }
    for hash in 1..=60_u64 {
        assert_eq!(full_state(hash, &tree), saved[hash as usize - 1]);
    }
}

#[test]
fn no_chain_is_deeper_than_four_layers() {
    let mut tree = Tree::new();
    let mut lru = LruCache::new(100);
    let mut state: Vec<u128> = (1..=400).map(|k| entry(k, k)).collect();
    save_state(1, None, &set_of(&state), &mut tree, &mut lru).unwrap();
    for hash in 2..=120_u64 {
        let slot = (hash * 31 % 400) as usize;
        state[slot] = entry(slot as u64 + 1, 10_000 + hash);
        save_state(hash, Some(hash - 1), &set_of(&state), &mut tree, &mut lru).unwrap();
    }
    let mut deepest = 0;
    for hash in 1..=120_u64 {
        let mut fresh = LruCache::new(10);
        let chain = load_shortstatehash_info(hash, &tree, &mut fresh).unwrap();
        assert!(chain.len() <= 4);
        assert_eq!(chain.last().unwrap().shortstatehash, hash);
        deepest = deepest.max(chain.len());
    }
    assert!(deepest >= 2);
}

#[test]
fn a_removed_entry_that_comes_back_is_kept() {
    let mut tree = Tree::new();
    let mut lru = LruCache::new(100);
    let base: Vec<u128> = (1..=100).map(|k| entry(k, k)).collect();
    save_state(1, None, &set_of(&base), &mut tree, &mut lru).unwrap();
    let without: Vec<u128> = base[1..].to_vec();
    save_state(2, Some(1), &set_of(&without), &mut tree, &mut lru).unwrap();
    let mut changed = without.clone();
    changed[0] = entry(2, 777);
    save_state(3, Some(2), &set_of(&changed), &mut tree, &mut lru).unwrap();
    let mut again = changed.clone();
    again[1] = entry(3, 778);
    save_state(4, Some(3), &set_of(&again), &mut tree, &mut lru).unwrap();
    let mut back = again.clone();
    back.insert(0, entry(1, 1));
    save_state(5, Some(4), &set_of(&back), &mut tree, &mut lru).unwrap();
    assert_eq!(full_state(5, &tree), back);
    let mut fresh = LruCache::new(10);
    assert!(load_shortstatehash_info(5, &tree, &mut fresh).unwrap().len() <= 4);
}

#[test]
fn a_missing_state_is_reported() {
    let tree = Tree::new();
    let mut lru = LruCache::new(10);
    match load_shortstatehash_info(1, &tree, &mut lru) {
        Err(Error::BadDatabase(message)) => assert_eq!(message, "State hash does not exist"),
        _ => panic!("a missing state was loaded"),
    }
}

#[test]
fn a_truncated_layer_is_reported() {
    let mut tree = Tree::new();
    tree.insert(&1_u64.to_be_bytes(), &[0, 0, 0]);
    let mut lru = LruCache::new(10);
    match load_shortstatehash_info(1, &tree, &mut lru) {
        Err(Error::BadDatabase(message)) => assert_eq!(message, "State diff in db is invalid."),
        _ => panic!("a truncated layer was loaded"),
    }
}

#[test]
fn a_parent_that_is_not_older_is_reported() {
    let mut tree = Tree::new();
    tree.insert(&1_u64.to_be_bytes(), &1_u64.to_be_bytes());
    tree.insert(&2_u64.to_be_bytes(), &3_u64.to_be_bytes());
    let mut lru = LruCache::new(10);
    for hash in [1_u64, 2] {
        match load_shortstatehash_info(hash, &tree, &mut lru) {
            Err(Error::BadDatabase(message)) => {
                assert_eq!(message, "State diff parent is not older.")
            }
            _ => panic!("a cyclic chain was loaded"),
        }
    }
}

#[test]
fn the_cache_hands_out_what_was_loaded() {
    let mut tree = Tree::new();
    let mut lru = LruCache::new(100);
    let state = set_of(&[entry(1, 10), entry(2, 20)]);
    save_state(1, None, &state, &mut tree, &mut lru).unwrap();
    let first = load_shortstatehash_info(1, &tree, &mut lru).unwrap();
    assert!(lru.contains_key(&1));
    let second = load_shortstatehash_info(1, &tree, &mut lru).unwrap();
    assert_eq!(first.len(), 1);
    assert_eq!(second.len(), 1);
    assert_eq!(first[0].full_state.as_slice(), second[0].full_state.as_slice());
    assert_eq!(second[0].added.as_slice(), &[entry(1, 10), entry(2, 20)]);
    assert_eq!(second[0].removed.as_slice(), &[] as &[u128]);
}

#[test]
fn a_layer_on_a_deep_chain_is_folded_upwards() {
    let mut tree = Tree::new();
    let mut lru = LruCache::new(100);
    let base: Vec<u128> = (1..=1000).map(|k| entry(k, k)).collect();
    save_state(1, None, &set_of(&base), &mut tree, &mut lru).unwrap();
    let parents = load_shortstatehash_info(1, &tree, &mut lru).unwrap();
    let added = set_of(&[entry(2000, 1)]);
    update_shortstatehash_level(2, added, StateSet::new(), 2, parents, &mut tree).unwrap();
    let value = tree.get(&2_u64.to_be_bytes()).unwrap();
    assert_eq!(&value[..8], &1_u64.to_be_bytes());
    assert_eq!(value.len(), 8 + 16);
}
