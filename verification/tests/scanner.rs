use dupfinder::dupfinder::{DupFinder, Sighting};
use dupfinder::hashing::hash_content;
use dupfinder::records::FileRecord;

fn rec(path: &str, hash: u64, size: u64) -> FileRecord {
    FileRecord { path: String::from(path), hash, size }
}

#[test]
fn empty_scan_reports_nothing() {
    let finder = DupFinder::new();
    let report = finder.report();
    assert_eq!(report.files_hashed, 0);
    assert_eq!(report.single_hashes, 0);
    assert_eq!(report.multi_hashes, 0);
    assert_eq!(report.unique_bytes, 0);
    assert_eq!(report.duped_bytes, 0);
    assert!(report.groups.is_empty());
}

#[test]
fn single_file_is_a_first_sighting() {
    let mut finder = DupFinder::new();
    let h = hash_content(&b"hello".to_vec());
    let s = finder.insert(rec("a.txt", h, 5));
    assert_eq!(s, Sighting::First);
    let report = finder.report();
    assert_eq!(report.files_hashed, 1);
    assert_eq!(report.single_hashes, 1);
    assert_eq!(report.multi_hashes, 0);
    assert_eq!(report.unique_bytes, 5);
    assert_eq!(report.duped_bytes, 0);
    assert!(report.groups.is_empty());
}

#[test]
fn two_copies_form_one_group() {
    let mut finder = DupFinder::new();
    let h_hello = hash_content(&b"hello".to_vec());
    let h_world = hash_content(&b"world".to_vec());
    assert_eq!(finder.insert(rec("a.txt", h_hello, 5)), Sighting::First);
    assert_eq!(finder.insert(rec("b.txt", h_hello, 5)), Sighting::Duplicate);
    assert_eq!(finder.insert(rec("c.txt", h_world, 5)), Sighting::First);
    let report = finder.report();
    assert_eq!(report.files_hashed, 3);
    assert_eq!(report.single_hashes, 1);
    assert_eq!(report.multi_hashes, 1);
    assert_eq!(report.groups.len(), 1);
    assert_eq!(report.groups[0].hash, h_hello);
    assert_eq!(report.groups[0].paths, vec!["a.txt", "b.txt"]);
    assert_eq!(report.unique_bytes, 5);
    assert_eq!(report.duped_bytes, 10);
    assert_eq!(report.unique_bytes + report.duped_bytes, 15);
}

#[test]
fn grouping_ignores_directory_depth() {
    let mut finder = DupFinder::new();
    assert_eq!(finder.insert(rec("root/a.txt", 7, 3)), Sighting::First);
    assert_eq!(finder.insert(rec("root/sub/deep/b.txt", 7, 3)), Sighting::Duplicate);
    assert_eq!(finder.insert(rec("root/sub/c.txt", 9, 4)), Sighting::First);
    let report = finder.report();
    assert_eq!(report.multi_hashes, 1);
    assert_eq!(report.groups.len(), 1);
    assert_eq!(report.groups[0].hash, 7);
    assert_eq!(report.groups[0].paths, vec!["root/a.txt", "root/sub/deep/b.txt"]);
}

#[test]
fn arrival_order_does_not_change_the_statistics() {
    let records = vec![
        rec("a", 1, 10),
        rec("b", 2, 20),
        rec("c", 1, 30),
        rec("d", 3, 40),
        rec("e", 2, 50),
        rec("f", 1, 60),
    ];
    let reversed = vec![
        rec("f", 1, 60),
        rec("e", 2, 50),
        rec("d", 3, 40),
        rec("c", 1, 30),
        rec("b", 2, 20),
        rec("a", 1, 10),
    ];
    let mut one = DupFinder::new();
    one.process_all(records);
    let mut two = DupFinder::new();
    two.process_all(reversed);
    let r1 = one.report();
    let r2 = two.report();
    assert_eq!(r1.files_hashed, r2.files_hashed);
    assert_eq!(r1.single_hashes, r2.single_hashes);
    assert_eq!(r1.multi_hashes, r2.multi_hashes);
    assert_eq!(r1.unique_bytes, r2.unique_bytes);
    assert_eq!(r1.duped_bytes, r2.duped_bytes);
    assert_eq!(r1.groups.len(), r2.groups.len());
    for g1 in &r1.groups {
        let g2 = r2.groups.iter().find(|g| g.hash == g1.hash).unwrap();
        let mut p1 = g1.paths.clone();
        let mut p2 = g2.paths.clone();
        p1.sort();
        p2.sort();
        assert_eq!(p1, p2);
    }
}

#[test]
fn bytes_partition_between_unique_and_duplicated() {
    let mut finder = DupFinder::new();
    let total: u64 = 10 + 20 + 30 + 40 + 50;
    finder.insert(rec("a", 1, 10));
    finder.insert(rec("b", 2, 20));
    finder.insert(rec("c", 1, 30));
    finder.insert(rec("d", 1, 40));
    finder.insert(rec("e", 3, 50));
    assert_eq!(finder.unique_bytes_total() + finder.duped_bytes_total(), total);
    assert_eq!(finder.unique_bytes_total(), 20 + 50);
    assert_eq!(finder.duped_bytes_total(), 10 + 30 + 40);
    assert_eq!(finder.files_hashed(), 5);
}

#[test]
fn process_all_classifies_like_repeated_inserts() {
    let batch = vec![rec("a", 5, 1), rec("b", 6, 1), rec("c", 5, 1), rec("d", 5, 1)];
    let mut finder = DupFinder::new();
    let sights = finder.process_all(batch);
    assert_eq!(
        sights,
        vec![Sighting::First, Sighting::First, Sighting::Duplicate, Sighting::Duplicate]
    );
}

#[test]
fn duplicate_flag_sticks_once_set() {
    let mut finder = DupFinder::new();
    assert_eq!(finder.insert(rec("a", 4, 2)), Sighting::First);
    assert_eq!(finder.insert(rec("b", 4, 2)), Sighting::Duplicate);
    assert_eq!(finder.insert(rec("c", 4, 2)), Sighting::Duplicate);
    let report = finder.report();
    assert_eq!(report.multi_hashes, 1);
    assert_eq!(report.single_hashes, 0);
    assert_eq!(report.groups[0].paths.len(), 3);
    assert_eq!(report.unique_bytes, 0);
    assert_eq!(report.duped_bytes, 6);
}
