use conduit::tree::Tree;

fn row(key: &[u8], value: &[u8]) -> (Vec<u8>, Vec<u8>) {
    (key.to_vec(), value.to_vec())
}

fn sample() -> Tree {
    let mut tree = Tree::new();
    tree.insert(b"b", b"2");
    tree.insert(b"a\xffx", b"1");
    tree.insert(b"c", b"3");
    tree.insert(b"a\xffy", b"4");
    tree.insert(b"ab", b"5");
    tree
}

#[test]
fn get_finds_what_insert_stored() {
    let tree = sample();
    assert_eq!(tree.get(b"b"), Some(b"2".to_vec()));
    assert_eq!(tree.get(b"a"), None);
    assert!(tree.contains_key(b"c"));
    assert!(!tree.contains_key(b"d"));
    assert_eq!(tree.len(), 5);
}

#[test]
fn insert_overwrites() {
    let mut tree = sample();
    tree.insert(b"b", b"two");
    assert_eq!(tree.get(b"b"), Some(b"two".to_vec()));
    assert_eq!(tree.len(), 5);
}

#[test]
fn remove_deletes() {
    let mut tree = sample();
    tree.remove(b"b");
    assert_eq!(tree.get(b"b"), None);
    tree.remove(b"never there");
    assert_eq!(tree.len(), 4);
}

#[test]
fn iter_is_in_key_order() {
    let tree = sample();
    assert_eq!(
        tree.iter(),
        vec![row(b"ab", b"5"), row(b"a\xffx", b"1"), row(b"a\xffy", b"4"), row(b"b", b"2"), row(b"c", b"3")]
    );
}

#[test]
fn iter_from_goes_forwards_from_the_key() {
    let tree = sample();
    assert_eq!(
        tree.iter_from(b"a\xffy", false),
        vec![row(b"a\xffy", b"4"), row(b"b", b"2"), row(b"c", b"3")]
    );
    assert_eq!(tree.iter_from(b"bb", false), vec![row(b"c", b"3")]);
    assert_eq!(tree.iter_from(b"d", false), Vec::new());
}

#[test]
fn iter_from_goes_backwards_below_the_key() {
    let tree = sample();
    assert_eq!(tree.iter_from(b"a\xffy", true), vec![row(b"a\xffx", b"1"), row(b"ab", b"5")]);
    assert_eq!(tree.iter_from(b"a", true), Vec::new());
}

#[test]
fn scan_prefix_lists_the_keys_with_the_prefix() {
    let tree = sample();
    assert_eq!(tree.scan_prefix(b"a\xff"), vec![row(b"a\xffx", b"1"), row(b"a\xffy", b"4")]);
    assert_eq!(
        tree.scan_prefix(b"a"),
        vec![row(b"ab", b"5"), row(b"a\xffx", b"1"), row(b"a\xffy", b"4")]
    );
    assert_eq!(tree.scan_prefix(b"z"), Vec::new());
    assert_eq!(tree.scan_prefix(b"").len(), 5);
}

#[test]
fn scan_from_stops_at_the_end_of_the_prefix() {
    let tree = sample();
    assert_eq!(tree.scan_from(b"a\xffy", b"a\xff"), vec![row(b"a\xffy", b"4")]);
    assert_eq!(tree.scan_from(b"a\xffz", b"a\xff"), Vec::new());
}

#[test]
fn first_with_prefix_is_the_least() {
    let tree = sample();
    assert_eq!(tree.first_with_prefix(b"a"), Some(row(b"ab", b"5")));
    assert_eq!(tree.first_with_prefix(b"a\xff"), Some(row(b"a\xffx", b"1")));
    assert_eq!(tree.first_with_prefix(b"b"), Some(row(b"b", b"2")));
    assert_eq!(tree.first_with_prefix(b"bb"), None);
}

#[test]
fn increment_counts_from_one() {
    let mut tree = Tree::new();
    assert_eq!(tree.increment(b"c"), 1_u64.to_be_bytes().to_vec());
    assert_eq!(tree.increment(b"c"), 2_u64.to_be_bytes().to_vec());
    assert_eq!(tree.get(b"c"), Some(2_u64.to_be_bytes().to_vec()));
}

#[test]
fn try_increment_stops_at_the_end() {
    let mut tree = Tree::new();
    tree.insert(b"c", &u64::MAX.to_be_bytes());
    assert_eq!(tree.try_increment(b"c"), None);
    assert_eq!(tree.get(b"c"), Some(u64::MAX.to_be_bytes().to_vec()));
    tree.insert(b"c", &(u64::MAX - 1).to_be_bytes());
    assert_eq!(tree.try_increment(b"c"), Some(u64::MAX.to_be_bytes().to_vec()));
}

#[test]
fn clear_empties_the_tree() {
    let mut tree = sample();
    tree.clear();
    assert_eq!(tree.len(), 0);
    assert_eq!(tree.iter(), Vec::new());
}

#[test]
fn from_rows_lets_the_later_row_win() {
    let tree = Tree::from_rows(&vec![row(b"k", b"1"), row(b"a", b"0"), row(b"k", b"2")]);
    assert_eq!(tree.iter(), vec![row(b"a", b"0"), row(b"k", b"2")]);
}

#[test]
fn a_watcher_is_woken_by_an_insert_under_its_prefix() {
    let mut tree = Tree::new();
    tree.watch_prefix(b"@alice:example.org\xff", 7);
    tree.insert(b"@bob:example.org\xff!r:example.org", b"");
    assert_eq!(tree.take_woken(), Vec::<u64>::new());
    tree.insert(b"@alice:example.org\xff!r:example.org", b"");
    assert_eq!(tree.take_woken(), vec![7]);
    tree.insert(b"@alice:example.org\xff!s:example.org", b"");
    assert_eq!(tree.take_woken(), Vec::<u64>::new());
}

#[test]
fn a_watcher_is_woken_by_a_remove_under_its_prefix() {
    let mut tree = sample();
    tree.watch_prefix(b"a", 1);
    tree.watch_prefix(b"b", 2);
    tree.remove(b"ab");
    assert_eq!(tree.take_woken(), vec![1]);
    tree.remove(b"b");
    assert_eq!(tree.take_woken(), vec![2]);
}

#[test]
fn every_watcher_of_a_prefix_is_woken() {
    let mut tree = Tree::new();
    tree.watch_prefix(b"", 1);
    tree.watch_prefix(b"k", 2);
    tree.watch_prefix(b"key", 3);
    tree.watch_prefix(b"keys", 4);
    tree.insert(b"key", b"v");
    let mut woken = tree.take_woken();
    woken.sort();
    assert_eq!(woken, vec![1, 2, 3]);
}

#[test]
fn increment_wakes_nobody() {
    let mut tree = Tree::new();
    tree.watch_prefix(b"c", 1);
    tree.increment(b"c");
    assert_eq!(tree.take_woken(), Vec::<u64>::new());
}
