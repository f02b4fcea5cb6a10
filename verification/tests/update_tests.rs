use std::io::Read;

use updatepack::compress::CompressionMethod;
use updatepack::compress::PackageError;
use updatepack::diff::diff_directory;
use updatepack::fingerprint::path_info;
use updatepack::hash::compute_buffer_hash;
use updatepack::hash::HashAlgorithm;
use updatepack::staging::generate_tmpdir;
use updatepack::staging::ChangedPath;
use updatepack::staging::StagingAction;
use updatepack::tree::EntryKind;
use updatepack::tree::TreeEntry;
use updatepack::update::package_update;
use updatepack::update::UpdateOutcome;

fn entry(path: &str, kind: EntryKind, content: &[u8]) -> TreeEntry {
    TreeEntry { path: path.to_string(), kind, content: content.to_vec() }
}

fn old_walk() -> Vec<TreeEntry> {
    vec![
        entry("v1", EntryKind::Directory, b""),
        entry("v1/a", EntryKind::Directory, b""),
        entry("v1/a/one.txt", EntryKind::File, b"one"),
        entry("v1/a/two.txt", EntryKind::File, b"two"),
        entry("v1/gone.txt", EntryKind::File, b"gone in v2"),
    ]
}

fn new_walk() -> Vec<TreeEntry> {
    vec![
        entry("v2", EntryKind::Directory, b""),
        entry("v2/a", EntryKind::Directory, b""),
        entry("v2/a/one.txt", EntryKind::File, b"one"),
        entry("v2/a/two.txt", EntryKind::File, b"two, changed"),
        entry("v2/b", EntryKind::Directory, b""),
        entry("v2/b/new.txt", EntryKind::File, b"new"),
        entry("v2/hollow", EntryKind::Directory, b""),
    ]
}

/// Stands for the file system: performs the staging steps on the entries of
/// the new tree and gives back what a walk of the staging area would find.
fn stage_in_memory(
    new_tree: &Vec<TreeEntry>,
    new_root: &str,
    staging_dir: &str,
    algorithm: HashAlgorithm,
    old_tree: &Vec<TreeEntry>,
    old_root: &str,
) -> (Vec<ChangedPath>, Option<Vec<TreeEntry>>) {
    let old_fingerprint = path_info(old_tree, old_root, algorithm).unwrap();
    let new_fingerprint = path_info(new_tree, new_root, algorithm).unwrap();
    let diff = diff_directory(&old_fingerprint, &new_fingerprint);
    let find = |path: &str| new_tree.iter().find(|e| e.path == path).unwrap();
    let changes: Vec<ChangedPath> = diff
        .into_iter()
        .map(|path| {
            let is_dir = find(&format!("{}/{}", new_root, path)).kind == EntryKind::Directory;
            ChangedPath { path, is_dir }
        })
        .collect();
    let plan = generate_tmpdir(&changes, new_root, staging_dir);
    if plan.is_empty() {
        return (changes, None);
    }
    let mut staged = vec![entry(staging_dir, EntryKind::Directory, b"")];
    for step in plan {
        match step {
            StagingAction::CreateDir { path } => staged.push(entry(&path, EntryKind::Directory, b"")),
            StagingAction::CopyFile { parent, from, to } => {
                if !staged.iter().any(|e| e.path == parent) {
                    staged.push(entry(&parent, EntryKind::Directory, b""));
                }
                staged.push(entry(&to, EntryKind::File, &find(&from).content));
            }
        }
    }
    (changes, Some(staged))
}

fn one_change() -> Vec<ChangedPath> {
    vec![ChangedPath { path: "f".to_string(), is_dir: false }]
}

fn read_back(archive: &[u8]) -> Vec<(String, Vec<u8>)> {
    let mut reader = zip::ZipArchive::new(std::io::Cursor::new(archive.to_vec())).unwrap();
    let mut found = Vec::new();
    for index in 0..reader.len() {
        let mut member = reader.by_index(index).unwrap();
        let mut content = Vec::new();
        member.read_to_end(&mut content).unwrap();
        found.push((member.name().to_string(), content));
    }
    found
}

#[test]
fn identical_trees_give_no_archive_and_no_manifest() {
    for algorithm in [HashAlgorithm::Md5, HashAlgorithm::XxHash64] {
        let (changes, staged) =
            stage_in_memory(&old_walk(), "v1", "__package", algorithm, &old_walk(), "v1");
        assert!(changes.is_empty());
        assert!(staged.is_none());
        let method = CompressionMethod::Deflated;
        let outcome = package_update(&changes, staged.as_ref(), "__package", method, algorithm);
        assert!(matches!(outcome, Ok(UpdateOutcome::NoChanges)));
    }
}

#[test]
fn no_change_is_no_failure() {
    let method = CompressionMethod::Stored;
    let outcome = package_update(&Vec::new(), None, "__package", method, HashAlgorithm::XxHash64);
    assert!(matches!(outcome, Ok(UpdateOutcome::NoChanges)));
}

#[test]
fn no_change_packages_nothing_even_where_a_staging_area_is_left_over() {
    let stale = vec![
        entry("__package", EntryKind::Directory, b""),
        entry("__package/stale.txt", EntryKind::File, b"from an earlier run"),
    ];
    let method = CompressionMethod::Deflated;
    let outcome =
        package_update(&Vec::new(), Some(&stale), "__package", method, HashAlgorithm::Md5);
    assert!(matches!(outcome, Ok(UpdateOutcome::NoChanges)));
}

#[test]
fn a_change_without_staging_area_is_a_failure() {
    let method = CompressionMethod::Deflated;
    let outcome = package_update(&one_change(), None, "__package", method, HashAlgorithm::Md5);
    assert!(matches!(outcome, Err(PackageError::NothingToPackage)));
}

#[test]
fn changed_tree_gives_archive_and_manifest() {
    let algorithm = HashAlgorithm::XxHash64;
    let (changes, staged) =
        stage_in_memory(&new_walk(), "v2", "__package", algorithm, &old_walk(), "v1");
    let method = CompressionMethod::Deflated;
    let outcome = package_update(&changes, staged.as_ref(), "__package", method, algorithm);
    match outcome {
        Ok(UpdateOutcome::Packaged { archive, manifest }) => {
            assert_eq!(
                read_back(&archive),
                vec![
                    ("a/two.txt".to_string(), b"two, changed".to_vec()),
                    ("b/new.txt".to_string(), b"new".to_vec()),
                ]
            );
            assert_eq!(manifest.size(), archive.len() as u64);
            assert_eq!(manifest.hash(), compute_buffer_hash(&archive, algorithm));
            assert_eq!(manifest.hash(), format!("{:016x}", twox_hash::XxHash64::oneshot(0, &archive)));
            assert_eq!(manifest.hash_algorithm(), algorithm);
        }
        other => panic!("unexpected outcome: {:?}", other),
    }
}

#[test]
fn every_changed_file_is_in_the_archive_exactly_once() {
    let algorithm = HashAlgorithm::Md5;
    let (changes, staged) =
        stage_in_memory(&new_walk(), "v2", "__package", algorithm, &old_walk(), "v1");
    let method = CompressionMethod::Stored;
    let outcome = package_update(&changes, staged.as_ref(), "__package", method, algorithm);
    let archive = match outcome {
        Ok(UpdateOutcome::Packaged { archive, .. }) => archive,
        other => panic!("unexpected outcome: {:?}", other),
    };
    let members = read_back(&archive);
    for path in ["a/two.txt", "b/new.txt"] {
        let matching: Vec<&(String, Vec<u8>)> =
            members.iter().filter(|member| member.0 == path).collect();
        assert_eq!(matching.len(), 1);
        let source = new_walk().into_iter().find(|e| e.path == format!("v2/{}", path)).unwrap();
        assert_eq!(matching[0].1, source.content);
    }
    assert_eq!(members.len(), 2);
    assert!(!members.iter().any(|member| member.0 == "gone.txt"));
    assert!(!members.iter().any(|member| member.0 == "a/one.txt"));
}

#[test]
fn an_entry_outside_the_staging_area_is_a_failure() {
    let staged = vec![entry("elsewhere/f", EntryKind::File, b"f")];
    let outcome = package_update(
        &one_change(),
        Some(&staged),
        "__package",
        CompressionMethod::Deflated,
        HashAlgorithm::XxHash64,
    );
    assert!(matches!(outcome, Err(PackageError::OutsideStaging { index: 0 })));
}

#[test]
fn a_staging_area_of_directories_alone_is_packaged_empty() {
    let staged = vec![
        entry("__package", EntryKind::Directory, b""),
        entry("__package/hollow", EntryKind::Directory, b""),
    ];
    let changes = vec![ChangedPath { path: "hollow".to_string(), is_dir: true }];
    let outcome = package_update(
        &changes,
        Some(&staged),
        "__package",
        CompressionMethod::Deflated,
        HashAlgorithm::Md5,
    );
    match outcome {
        Ok(UpdateOutcome::Packaged { archive, manifest }) => {
            assert_eq!(read_back(&archive).len(), 0);
            assert_eq!(manifest.size(), archive.len() as u64);
        }
        other => panic!("unexpected outcome: {:?}", other),
    }
}
