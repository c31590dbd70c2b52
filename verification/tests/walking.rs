use dupfinder::traverse::{DirEntry, EntryKind, Traverser};

fn entry(path: &str, kind: EntryKind) -> DirEntry {
    DirEntry { path: String::from(path), kind }
}

#[test]
fn walk_starts_at_the_root() {
    let mut trav = Traverser::new(String::from("root"));
    assert_eq!(trav.next_dir(), Some(String::from("root")));
    assert_eq!(trav.next_dir(), None);
}

#[test]
fn listing_splits_into_files_and_pending_dirs() {
    let mut trav = Traverser::new(String::from("root"));
    assert_eq!(trav.next_dir(), Some(String::from("root")));
    let files = trav.traverse(vec![
        entry("root/a.txt", EntryKind::File),
        entry("root/sub", EntryKind::Dir),
        entry("root/link", EntryKind::Other),
        entry("root/b.txt", EntryKind::File),
    ]);
    assert_eq!(files, vec!["root/a.txt", "root/b.txt"]);
    assert_eq!(trav.next_dir(), Some(String::from("root/sub")));
    assert_eq!(trav.next_dir(), None);
}

#[test]
fn nested_directories_all_join_the_frontier() {
    let mut trav = Traverser::new(String::from("r"));
    assert_eq!(trav.next_dir(), Some(String::from("r")));
    let files = trav.traverse(vec![
        entry("r/d1", EntryKind::Dir),
        entry("r/d2", EntryKind::Dir),
    ]);
    assert!(files.is_empty());
    assert_eq!(trav.next_dir(), Some(String::from("r/d2")));
    let files = trav.traverse(vec![entry("r/d2/x.txt", EntryKind::File)]);
    assert_eq!(files, vec!["r/d2/x.txt"]);
    assert_eq!(trav.next_dir(), Some(String::from("r/d1")));
    assert_eq!(trav.next_dir(), None);
}

#[test]
fn unreadable_directory_skips_to_siblings() {
    let mut trav = Traverser::new(String::from("r"));
    assert_eq!(trav.next_dir(), Some(String::from("r")));
    trav.traverse(vec![
        entry("r/broken", EntryKind::Dir),
        entry("r/fine", EntryKind::Dir),
    ]);
    assert_eq!(trav.next_dir(), Some(String::from("r/fine")));
    let files = trav.traverse(vec![entry("r/fine/ok.txt", EntryKind::File)]);
    assert_eq!(files, vec!["r/fine/ok.txt"]);
    assert_eq!(trav.next_dir(), Some(String::from("r/broken")));
    assert_eq!(trav.next_dir(), None);
}
