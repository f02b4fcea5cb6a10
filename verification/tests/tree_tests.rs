use updatepack::hash::compute_file_hash;
use updatepack::hash::HashAlgorithm;
use updatepack::tree::is_root;
use updatepack::fingerprint::path_info;
use updatepack::tree::EntryKind;
use updatepack::tree::FileRecord;
use updatepack::fingerprint::TraversalError;
use updatepack::tree::TreeEntry;
use updatepack::tree::TreeFingerprint;

fn dir(path: &str) -> TreeEntry {
    TreeEntry { path: path.to_string(), kind: EntryKind::Directory, content: Vec::new() }
}

fn file(path: &str, content: &[u8]) -> TreeEntry {
    TreeEntry { path: path.to_string(), kind: EntryKind::File, content: content.to_vec() }
}

fn sample_walk() -> Vec<TreeEntry> {
    vec![
        dir("old"),
        file("old/readme.txt", b"read me"),
        dir("old/src"),
        file("old/src/main.rs", b"fn main() {}"),
        dir("old/empty"),
    ]
}

#[test]
fn new_fingerprint_is_empty() {
    let fingerprint = TreeFingerprint::new();
    assert!(fingerprint.files().is_empty());
    assert!(fingerprint.dirs().is_empty());
    assert_eq!(fingerprint.lookup("anything"), None);
    assert!(!fingerprint.has_dir(""));
}

#[test]
fn add_dir_keeps_the_order() {
    let fingerprint = TreeFingerprint::new()
        .add_dir("b".to_string())
        .add_dir("a".to_string())
        .add_dir("b/c".to_string());
    assert_eq!(fingerprint.dirs(), &vec!["b".to_string(), "a".to_string(), "b/c".to_string()]);
    assert!(fingerprint.has_dir("a"));
    assert!(fingerprint.has_dir("b/c"));
    assert!(!fingerprint.has_dir("c"));
    assert!(fingerprint.files().is_empty());
}

#[test]
fn add_file_records_identity_and_path() {
    let fingerprint = TreeFingerprint::new()
        .add_file("id1".to_string(), "a.txt".to_string())
        .add_file("id2".to_string(), "b.txt".to_string());
    assert_eq!(
        fingerprint.files(),
        &vec![
            FileRecord { identity: "id1".to_string(), path: "a.txt".to_string() },
            FileRecord { identity: "id2".to_string(), path: "b.txt".to_string() },
        ]
    );
    assert_eq!(fingerprint.lookup("id1"), Some("a.txt"));
    assert_eq!(fingerprint.lookup("id2"), Some("b.txt"));
    assert_eq!(fingerprint.lookup("id3"), None);
}

#[test]
fn add_file_with_a_known_identity_takes_its_place() {
    let fingerprint = TreeFingerprint::new()
        .add_file("id1".to_string(), "a.txt".to_string())
        .add_file("id2".to_string(), "b.txt".to_string())
        .add_file("id1".to_string(), "c.txt".to_string());
    assert_eq!(
        fingerprint.files(),
        &vec![
            FileRecord { identity: "id1".to_string(), path: "c.txt".to_string() },
            FileRecord { identity: "id2".to_string(), path: "b.txt".to_string() },
        ]
    );
    assert_eq!(fingerprint.lookup("id1"), Some("c.txt"));
}

#[test]
fn is_root_knows_the_two_forms() {
    assert!(is_root(""));
    assert!(is_root("."));
    assert!(!is_root("a"));
    assert!(!is_root(".."));
    assert!(!is_root("./a"));
}

#[test]
fn path_info_records_children_by_relative_path() {
    let fingerprint = path_info(&sample_walk(), "old", HashAlgorithm::XxHash64).unwrap();
    assert_eq!(fingerprint.dirs(), &vec!["src".to_string(), "empty".to_string()]);
    let readme = "readme.txt".to_string();
    let main = "src/main.rs".to_string();
    assert_eq!(
        fingerprint.files(),
        &vec![
            FileRecord {
                identity: compute_file_hash(b"read me", &readme, HashAlgorithm::XxHash64),
                path: readme.clone(),
            },
            FileRecord {
                identity: compute_file_hash(b"fn main() {}", &main, HashAlgorithm::XxHash64),
                path: main.clone(),
            },
        ]
    );
}

#[test]
fn path_info_leaves_the_root_out() {
    let fingerprint = path_info(&vec![dir("tree")], "tree", HashAlgorithm::Md5).unwrap();
    assert!(fingerprint.dirs().is_empty());
    assert!(fingerprint.files().is_empty());
    let fingerprint =
        path_info(&vec![file("tree", b"a file as root")], "tree", HashAlgorithm::Md5).unwrap();
    assert!(fingerprint.dirs().is_empty());
    assert!(fingerprint.files().is_empty());
}

#[test]
fn path_info_of_no_entries_is_empty() {
    let fingerprint = path_info(&Vec::new(), "tree", HashAlgorithm::Md5).unwrap();
    assert!(fingerprint.dirs().is_empty());
    assert!(fingerprint.files().is_empty());
}

#[test]
fn path_info_never_shows_the_root_in_a_path() {
    let walk = vec![dir("/abs/old"), dir("/abs/old/sub"), file("/abs/old/sub/f", b"1")];
    let fingerprint = path_info(&walk, "/abs/old", HashAlgorithm::Md5).unwrap();
    assert_eq!(fingerprint.dirs(), &vec!["sub".to_string()]);
    assert_eq!(fingerprint.files().len(), 1);
    assert_eq!(fingerprint.files()[0].path, "sub/f");
}

#[test]
fn path_info_treats_other_entries_as_files() {
    let walk = vec![
        dir("t"),
        TreeEntry { path: "t/link".to_string(), kind: EntryKind::Other, content: b"x".to_vec() },
    ];
    let fingerprint = path_info(&walk, "t", HashAlgorithm::Md5).unwrap();
    assert!(fingerprint.dirs().is_empty());
    assert_eq!(fingerprint.files().len(), 1);
    assert_eq!(fingerprint.files()[0].path, "link");
}

#[test]
fn path_info_refuses_an_entry_outside_the_root() {
    let walk = vec![dir("old"), file("old/a", b"1"), file("other/b", b"2"), file("elsewhere", b"3")];
    let refused = path_info(&walk, "old", HashAlgorithm::XxHash64);
    assert_eq!(refused.err(), Some(TraversalError::OutsideRoot { index: 2 }));
}

#[test]
fn path_info_gives_the_same_fingerprint_twice() {
    for algorithm in [HashAlgorithm::Md5, HashAlgorithm::XxHash64] {
        let first = path_info(&sample_walk(), "old", algorithm).unwrap();
        let second = path_info(&sample_walk(), "old", algorithm).unwrap();
        assert_eq!(first.files(), second.files());
        assert_eq!(first.dirs(), second.dirs());
    }
}

#[test]
fn path_info_does_not_depend_on_where_the_tree_stands() {
    let here = vec![dir("here"), dir("here/d"), file("here/d/f.txt", b"same")];
    let there = vec![dir("/mnt/there"), dir("/mnt/there/d"), file("/mnt/there/d/f.txt", b"same")];
    let first = path_info(&here, "here", HashAlgorithm::Md5).unwrap();
    let second = path_info(&there, "/mnt/there", HashAlgorithm::Md5).unwrap();
    assert_eq!(first.files(), second.files());
    assert_eq!(first.dirs(), second.dirs());
}

#[test]
fn path_info_uses_the_algorithm_it_is_given() {
    let walk = vec![dir("t"), file("t/f", b"data")];
    let md5 = path_info(&walk, "t", HashAlgorithm::Md5).unwrap();
    let xxh = path_info(&walk, "t", HashAlgorithm::XxHash64).unwrap();
    assert_eq!(md5.files()[0].identity.len(), 32);
    assert_eq!(xxh.files()[0].identity.len(), 16);
}

#[test]
fn record_adds_one_entry() {
    let fingerprint = TreeFingerprint::new();
    let fingerprint = fingerprint.record(&dir("t/sub"), "t", HashAlgorithm::Md5).unwrap();
    let fingerprint = fingerprint.record(&file("t/sub/f", b"1"), "t", HashAlgorithm::Md5).unwrap();
    assert_eq!(fingerprint.dirs(), &vec!["sub".to_string()]);
    assert_eq!(fingerprint.files().len(), 1);
    assert!(fingerprint.record(&file("u/f", b"1"), "t", HashAlgorithm::Md5).is_none());
}

#[test]
fn path_info_holds_the_same_whatever_the_order_of_the_walk() {
    let forward = sample_walk();
    let mut backward = sample_walk();
    backward.reverse();
    for algorithm in [HashAlgorithm::Md5, HashAlgorithm::XxHash64] {
        let first = path_info(&forward, "old", algorithm).unwrap();
        let second = path_info(&backward, "old", algorithm).unwrap();
        assert_eq!(first.files().len(), second.files().len());
        for file in first.files() {
            assert_eq!(second.lookup(&file.identity), Some(file.path.as_str()));
        }
        assert_eq!(first.dirs().len(), second.dirs().len());
        for dir in first.dirs() {
            assert!(second.has_dir(dir));
        }
    }
}

#[test]
fn path_info_lists_every_entry_of_a_walk_once() {
    for algorithm in [HashAlgorithm::Md5, HashAlgorithm::XxHash64] {
        let fingerprint = path_info(&sample_walk(), "old", algorithm).unwrap();
        assert_eq!(fingerprint.dirs().len(), 2);
        assert_eq!(fingerprint.files().len(), 2);
        let mut paths: Vec<&str> = fingerprint.dirs().iter().map(|d| d.as_str()).collect();
        paths.extend(fingerprint.files().iter().map(|f| f.path.as_str()));
        let mut unique = paths.clone();
        unique.sort();
        unique.dedup();
        assert_eq!(unique.len(), paths.len());
        let mut identities: Vec<&str> =
            fingerprint.files().iter().map(|f| f.identity.as_str()).collect();
        identities.sort();
        identities.dedup();
        assert_eq!(identities.len(), fingerprint.files().len());
    }
}
