use dirview::entry::RawEntry;
use dirview::order::{path_precedes, sorted_indices};

fn at(path: &[u8]) -> RawEntry {
    RawEntry { path: path.to_vec(), name: None, file_type: None, mode: None }
}

#[test]
fn path_precedes_is_bytewise() {
    assert!(path_precedes(b"", b""));
    assert!(path_precedes(b"", b"a"));
    assert!(!path_precedes(b"a", b""));
    assert!(path_precedes(b"a", b"a"));
    assert!(path_precedes(b"a", b"ab"));
    assert!(!path_precedes(b"ab", b"a"));
    assert!(path_precedes(b"ab", b"b"));
    assert!(!path_precedes(b"b", b"ab"));
    // upper case comes before lower case
    assert!(path_precedes(b"Zebra", b"apple"));
    assert!(!path_precedes(b"apple", b"Zebra"));
    // bytes are unsigned
    assert!(path_precedes(b"a", &[0xff]));
    assert!(!path_precedes(&[0xff], b"a"));
    assert!(path_precedes(&[0x7f], &[0x80]));
}

#[test]
fn sorted_indices_of_nothing_and_of_one() {
    let none: Vec<RawEntry> = Vec::new();
    assert_eq!(sorted_indices(&none), Vec::<usize>::new());
    assert_eq!(sorted_indices(&vec![at(b"x")]), vec![0]);
}

#[test]
fn sorted_indices_orders_by_path() {
    let items = vec![at(b"./apple"), at(b"./Zebra"), at(b"./.hidden"), at(b"./b"), at(b"./a")];
    assert_eq!(sorted_indices(&items), vec![2, 1, 4, 0, 3]);
}

#[test]
fn sorted_indices_keeps_equal_paths_in_the_given_order() {
    let items = vec![at(b"b"), at(b"a"), at(b"b"), at(b"a"), at(b"b")];
    assert_eq!(sorted_indices(&items), vec![1, 3, 0, 2, 4]);
}

#[test]
fn sorted_indices_of_sorted_and_reversed_input() {
    let up = vec![at(b"a"), at(b"b"), at(b"c"), at(b"d")];
    assert_eq!(sorted_indices(&up), vec![0, 1, 2, 3]);
    let down = vec![at(b"d"), at(b"c"), at(b"b"), at(b"a")];
    assert_eq!(sorted_indices(&down), vec![3, 2, 1, 0]);
}
