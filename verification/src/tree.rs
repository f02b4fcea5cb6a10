//! The entries of a walked tree, and the fingerprint that is kept of a tree:
//! the relative paths of its directories and, for every file, an identity
//! with the relative path recorded for it.

use crate::hash::compute_file_hash;
use crate::hash::file_identity;
use crate::hash::HashAlgorithm;
use crate::paths::relative_path;
use crate::paths::relative_to;
use crate::text::same_text;
use vstd::hash_map::StringHashMap;
use vstd::prelude::*;

verus! {

/// What a walk found at a path.
#[derive(Clone, Copy, Debug, PartialEq, Eq, Structural)]
pub enum EntryKind {
    /// A directory.
    Directory,
    /// A regular file.
    File,
    /// Anything else, such as a link that leads nowhere.
    Other,
}

/// One entry of a walked tree: its path as the walk gave it, its kind, and for
/// anything but a directory the bytes read from it.
#[derive(Debug, PartialEq, Eq)]
pub struct TreeEntry {
    /// The path of the entry, beginning with the root that was walked.
    pub path: String,
    /// What stands at the path.
    pub kind: EntryKind,
    /// The bytes read from the entry; none for a directory.
    pub content: Vec<u8>,
}

/// The mathematical value of a [`TreeEntry`].
pub struct EntryView {
    pub path: Seq<char>,
    pub kind: EntryKind,
    pub content: Seq<u8>,
}

impl View for TreeEntry {
    type V = EntryView;

    open spec fn view(&self) -> EntryView {
        EntryView { path: self.path@, kind: self.kind, content: self.content@ }
    }
}

impl DeepView for TreeEntry {
    type V = EntryView;

    open spec fn deep_view(&self) -> EntryView {
        self@
    }
}

/// A file of a fingerprinted tree: its identity and its relative path.
#[derive(Debug, PartialEq, Eq)]
pub struct FileRecord {
    /// The identity of the file, in lowercase hexadecimal digits.
    pub identity: String,
    /// The path of the file relative to the root of its tree.
    pub path: String,
}

/// The mathematical value of a [`FileRecord`].
pub struct RecordView {
    pub identity: Seq<char>,
    pub path: Seq<char>,
}

impl View for FileRecord {
    type V = RecordView;

    open spec fn view(&self) -> RecordView {
        RecordView { identity: self.identity@, path: self.path@ }
    }
}

impl DeepView for FileRecord {
    type V = RecordView;

    open spec fn deep_view(&self) -> RecordView {
        self@
    }
}

/// The mathematical value of a [`TreeFingerprint`]: the files in the order in
/// which their identities were first recorded, and the directories in the
/// order in which they were recorded.
pub struct FingerprintView {
    pub files: Seq<RecordView>,
    pub dirs: Seq<Seq<char>>,
}

impl FingerprintView {
    /// The fingerprint of a tree without entries.
    pub open spec fn empty() -> FingerprintView {
        FingerprintView { files: Seq::empty(), dirs: Seq::empty() }
    }

    /// No identity is recorded twice.
    pub open spec fn wf(self) -> bool {
        forall|i: int, j: int|
            0 <= i < j < self.files.len() ==> self.files[i].identity != self.files[j].identity
    }

    /// Whether a file with this identity is recorded.
    pub open spec fn has_identity(self, identity: Seq<char>) -> bool {
        exists|i: int| 0 <= i < self.files.len() && #[trigger] self.files[i].identity == identity
    }

    /// The position of the file with this identity, where one is recorded.
    pub open spec fn position_of(self, identity: Seq<char>) -> int {
        choose|i: int| 0 <= i < self.files.len() && #[trigger] self.files[i].identity == identity
    }

    /// The files as a map from identity to relative path.
    pub open spec fn file_map(self) -> Map<Seq<char>, Seq<char>> {
        Map::new(
            |identity: Seq<char>| self.has_identity(identity),
            |identity: Seq<char>| self.files[self.position_of(identity)].path,
        )
    }

    /// The fingerprint with one more directory.
    pub open spec fn with_dir(self, path: Seq<char>) -> FingerprintView {
        FingerprintView { files: self.files, dirs: self.dirs.push(path) }
    }

    /// The fingerprint after a file is recorded: a new identity is added at
    /// the end, a known one keeps its place and takes the new path.
    pub open spec fn with_file(self, identity: Seq<char>, path: Seq<char>) -> FingerprintView {
        let record = RecordView { identity, path };
        if self.has_identity(identity) {
            FingerprintView {
                files: self.files.update(self.position_of(identity), record),
                dirs: self.dirs,
            }
        } else {
            FingerprintView { files: self.files.push(record), dirs: self.dirs }
        }
    }
}

/// In a well-formed fingerprint every file is found at its own position.
pub proof fn lemma_position_of(fingerprint: FingerprintView, at: int)
    requires
        fingerprint.wf(),
        0 <= at < fingerprint.files.len(),
    ensures
        fingerprint.has_identity(fingerprint.files[at].identity),
        fingerprint.position_of(fingerprint.files[at].identity) == at,
        fingerprint.file_map().contains_key(fingerprint.files[at].identity),
        fingerprint.file_map()[fingerprint.files[at].identity] == fingerprint.files[at].path,
{
    let identity = fingerprint.files[at].identity;
    let found = fingerprint.position_of(identity);
    if found < at {
        assert(fingerprint.files[found].identity != fingerprint.files[at].identity);
    } else if at < found {
        assert(fingerprint.files[at].identity != fingerprint.files[found].identity);
    }
}

/// Recording a directory or a file keeps a fingerprint well-formed.
pub proof fn lemma_recording_keeps_wf(
    fingerprint: FingerprintView,
    identity: Seq<char>,
    path: Seq<char>,
)
    requires
        fingerprint.wf(),
    ensures
        fingerprint.with_dir(path).wf(),
        fingerprint.with_file(identity, path).wf(),
{
    let after = fingerprint.with_file(identity, path);
    if fingerprint.has_identity(identity) {
        assert forall|i: int, j: int| 0 <= i < j < after.files.len() implies after.files[i].identity
            != after.files[j].identity by {
            assert(after.files[j].identity == fingerprint.files[j].identity);
        }
    } else {
        assert forall|i: int, j: int| 0 <= i < j < after.files.len() implies after.files[i].identity
            != after.files[j].identity by {
            if j < fingerprint.files.len() {
                assert(after.files[j].identity == fingerprint.files[j].identity);
            } else {
                assert(after.files[i] == fingerprint.files[i]);
            }
        }
    }
}

/// Recording a file acts on the map from identity to path as an insertion.
pub proof fn lemma_with_file_is_insert(
    fingerprint: FingerprintView,
    identity: Seq<char>,
    path: Seq<char>,
)
    requires
        fingerprint.wf(),
    ensures
        fingerprint.with_file(identity, path).file_map() == fingerprint.file_map().insert(
            identity,
            path,
        ),
        forall|other: Seq<char>|
            fingerprint.with_file(identity, path).has_identity(other) <==> (
            fingerprint.has_identity(other) || other == identity),
{
    let after = fingerprint.with_file(identity, path);
    lemma_recording_keeps_wf(fingerprint, identity, path);
    let at = if fingerprint.has_identity(identity) {
        fingerprint.position_of(identity)
    } else {
        fingerprint.files.len() as int
    };
    assert forall|i: int| 0 <= i < fingerprint.files.len() implies #[trigger] after.files[i].identity
        == fingerprint.files[i].identity by {}
    assert forall|other: Seq<char>| after.has_identity(other) <==> (fingerprint.has_identity(other)
        || other == identity) by {
        if after.has_identity(other) {
            let i = after.position_of(other);
            if i < fingerprint.files.len() {
                assert(fingerprint.files[i].identity == other);
            }
        }
        if fingerprint.has_identity(other) {
            let i = fingerprint.position_of(other);
            assert(after.files[i].identity == other);
        }
        if other == identity {
            assert(after.files[at].identity == other);
        }
    }
    assert forall|other: Seq<char>| after.has_identity(other) implies after.file_map()[other]
        == fingerprint.file_map().insert(identity, path)[other] by {
        let i = after.position_of(other);
        lemma_position_of(after, i);
        if other == identity {
            lemma_position_of(after, at);
        } else {
            lemma_position_of(fingerprint, i);
        }
    }
}

/// Whether one of `dirs` holds the characters of `path`.
spec fn listed(dirs: Seq<String>, path: Seq<char>) -> bool {
    exists|i: int| 0 <= i < dirs.len() && #[trigger] dirs[i]@ == path
}

/// The fingerprint of one directory tree: the relative paths of its
/// directories, and its files by identity.
pub struct TreeFingerprint {
    files: Vec<FileRecord>,
    positions: StringHashMap<usize>,
    dirs: Vec<String>,
    known_dirs: StringHashMap<bool>,
}

impl View for TreeFingerprint {
    type V = FingerprintView;

    closed spec fn view(&self) -> FingerprintView {
        if self.recorded().wf() {
            self.recorded()
        } else {
            FingerprintView::empty()
        }
    }
}

impl TreeFingerprint {
    /// The files and the directories as the two lists hold them.
    spec fn recorded(&self) -> FingerprintView {
        FingerprintView { files: self.files.deep_view(), dirs: self.dirs.deep_view() }
    }

    /// The value of every fingerprint is well-formed: no identity is
    /// recorded twice.
    pub proof fn lemma_well_formed(&self)
        ensures
            self@.wf(),
    {
    }

    /// The two indexes agree with the two lists.
    #[verifier::type_invariant]
    spec fn indexed(&self) -> bool {
        &&& forall|i: int|
            0 <= i < self.files@.len() ==> self.positions@.contains_key(
                #[trigger] self.files@[i].identity@,
            ) && self.positions@[self.files@[i].identity@] == i
        &&& forall|identity: Seq<char>| #[trigger]
            self.positions@.contains_key(identity) ==> self.positions@[identity]
                < self.files@.len() && self.files@[self.positions@[identity] as int].identity@
                == identity
        &&& forall|i: int|
            0 <= i < self.dirs@.len() ==> self.known_dirs@.contains_key(#[trigger] self.dirs@[i]@)
        &&& forall|path: Seq<char>| #[trigger]
            self.known_dirs@.contains_key(path) ==> listed(self.dirs@, path)
    }

    /// What the indexes say of the value: it is what the two lists hold,
    /// an identity is indexed exactly where a file carries it, and a path
    /// is indexed exactly where a directory carries it.
    proof fn lemma_indexed(&self)
        requires
            self.indexed(),
        ensures
            self@ == self.recorded(),
            self@.wf(),
            forall|identity: Seq<char>|
                self.positions@.contains_key(identity) <==> self@.has_identity(identity),
            forall|identity: Seq<char>|
                self.positions@.contains_key(identity) ==> self@.position_of(identity)
                    == self.positions@[identity],
            forall|path: Seq<char>| self.known_dirs@.contains_key(path) <==> self@.dirs.contains(path),
    {
        let v = self.recorded();
        assert forall|i: int, j: int| 0 <= i < j < v.files.len() implies v.files[i].identity
            != v.files[j].identity by {
            assert(v.files[i].identity == self.files@[i].identity@);
            assert(v.files[j].identity == self.files@[j].identity@);
        }
        assert forall|identity: Seq<char>| self.positions@.contains_key(identity) implies (
        v.has_identity(identity) && v.position_of(identity) == self.positions@[identity]) by {
            let at = self.positions@[identity] as int;
            assert(v.files[at].identity == identity);
            lemma_position_of(v, at);
        }
        assert forall|identity: Seq<char>| v.has_identity(identity) implies self.positions@.contains_key(
            identity,
        ) by {
            assert(self.files@[v.position_of(identity)].identity@ == identity);
        }
        assert forall|path: Seq<char>| self.known_dirs@.contains_key(path) <==> v.dirs.contains(
            path,
        ) by {
            if self.known_dirs@.contains_key(path) {
                assert(listed(self.dirs@, path));
                let i = choose|i: int| 0 <= i < self.dirs@.len() && #[trigger] self.dirs@[i]@ == path;
                assert(v.dirs[i] == path);
            }
            if v.dirs.contains(path) {
                let i = choose|i: int| 0 <= i < v.dirs.len() && v.dirs[i] == path;
                assert(self.dirs@[i]@ == path);
            }
        }
    }

    /// The fingerprint of a tree without entries.
    pub fn new() -> (r: TreeFingerprint)
        ensures
            r@ == FingerprintView::empty(),
            r@.wf(),
    {
        let r = TreeFingerprint {
            files: Vec::new(),
            positions: StringHashMap::new(),
            dirs: Vec::new(),
            known_dirs: StringHashMap::new(),
        };
        assert(r@.files =~= Seq::empty());
        assert(r@.dirs =~= Seq::empty());
        r
    }

    /// Records the directory at the relative path `path`.
    pub fn add_dir(self, path: String) -> (r: TreeFingerprint)
        ensures
            r@ == self@.with_dir(path@),
            r@.wf(),
    {
        proof {
            use_type_invariant(&self);
            self.lemma_indexed();
        }
        let ghost before = self@;
        let TreeFingerprint { files, positions, mut dirs, mut known_dirs } = self;
        let ghost old_dirs = dirs@;
        let ghost old_known = known_dirs@;
        known_dirs.insert(path.clone(), true);
        dirs.push(path);
        proof {
            assert forall|i: int| 0 <= i < dirs@.len() implies known_dirs@.contains_key(
                #[trigger] dirs@[i]@,
            ) by {
                if i < old_dirs.len() {
                    assert(old_known.contains_key(old_dirs[i]@));
                }
            }
            assert forall|p: Seq<char>| #[trigger] known_dirs@.contains_key(p) implies listed(
                dirs@,
                p,
            ) by {
                if p == path@ {
                    assert(dirs@[old_dirs.len() as int]@ == p);
                } else {
                    let i = choose|i: int| 0 <= i < old_dirs.len() && #[trigger] old_dirs[i]@ == p;
                    assert(dirs@[i]@ == p);
                }
            }
        }
        let r = TreeFingerprint { files, positions, dirs, known_dirs };
        proof {
            assert(r@.dirs =~= before.dirs.push(path@));
            r.lemma_indexed();
        }
        r
    }

    /// Records the file with identity `identity` at the relative path `path`.
    /// A second file with the same identity takes the place of the first.
    pub fn add_file(self, identity: String, path: String) -> (r: TreeFingerprint)
        ensures
            r@ == self@.with_file(identity@, path@),
            r@.wf(),
    {
        proof {
            use_type_invariant(&self);
            self.lemma_indexed();
        }
        let ghost before = self@;
        let TreeFingerprint { mut files, mut positions, dirs, known_dirs } = self;
        let found: Option<usize> = match positions.get(identity.as_str()) {
            Some(at) => Some(*at),
            None => None,
        };
        let ghost record = RecordView { identity: identity@, path: path@ };
        let ghost old_files = files@;
        let ghost old_positions = positions@;
        match found {
            Some(at) => {
                files.set(at, FileRecord { identity, path });
                assert(files.deep_view() =~= before.files.update(at as int, record));
                proof {
                    assert forall|i: int| 0 <= i < files@.len() implies positions@.contains_key(
                        #[trigger] files@[i].identity@,
                    ) && positions@[files@[i].identity@] == i by {
                        assert(files@[i].identity@ == old_files[i].identity@);
                    }
                    assert forall|k: Seq<char>| #[trigger] positions@.contains_key(k) implies (
                    positions@[k] < files@.len() && files@[positions@[k] as int].identity@ == k) by {
                        assert(files@[positions@[k] as int].identity@
                            == old_files[positions@[k] as int].identity@);
                    }
                }
            },
            None => {
                let at: usize = files.len();
                positions.insert(identity.clone(), at);
                files.push(FileRecord { identity, path });
                assert(files.deep_view() =~= before.files.push(record));
                proof {
                    assert forall|i: int| 0 <= i < files@.len() implies positions@.contains_key(
                        #[trigger] files@[i].identity@,
                    ) && positions@[files@[i].identity@] == i by {
                        if i < old_files.len() {
                            assert(old_positions.contains_key(old_files[i].identity@));
                        }
                    }
                    assert forall|k: Seq<char>| #[trigger] positions@.contains_key(k) implies (
                    positions@[k] < files@.len() && files@[positions@[k] as int].identity@ == k) by {
                        if k != record.identity {
                            assert(old_positions.contains_key(k));
                        }
                    }
                }
            },
        }
        let r = TreeFingerprint { files, positions, dirs, known_dirs };
        proof {
            r.lemma_indexed();
        }
        r
    }

    /// The relative path recorded for a file identity, if there is one.
    pub fn lookup(&self, identity: &str) -> (r: Option<&str>)
        ensures
            match r {
                Some(path) => self@.file_map().contains_key(identity@) && self@.file_map()[identity@]
                    == path@,
                None => !self@.file_map().contains_key(identity@),
            },
    {
        proof {
            use_type_invariant(self);
            self.lemma_indexed();
        }
        match self.positions.get(identity) {
            Some(at) => Some(self.files[*at].path.as_str()),
            None => None,
        }
    }

    /// Whether a directory is recorded at the relative path `path`.
    pub fn has_dir(&self, path: &str) -> (r: bool)
        ensures
            r == self@.dirs.contains(path@),
    {
        proof {
            use_type_invariant(self);
            self.lemma_indexed();
        }
        self.known_dirs.contains_key(path)
    }

    /// The recorded files, in the order of the value.
    pub fn files(&self) -> (r: &Vec<FileRecord>)
        ensures
            r.deep_view() == self@.files,
    {
        proof {
            use_type_invariant(self);
            self.lemma_indexed();
        }
        &self.files
    }

    /// The recorded directories, in the order of the value.
    pub fn dirs(&self) -> (r: &Vec<String>)
        ensures
            r.deep_view() == self@.dirs,
    {
        proof {
            use_type_invariant(self);
            self.lemma_indexed();
        }
        &self.dirs
    }
}

/// Whether a relative path denotes the root of the tree itself.
pub open spec fn is_root_path(rel: Seq<char>) -> bool {
    rel.len() == 0 || rel == "."@
}

/// The directory that an entry of a walk is recorded as, if it is recorded
/// as one.
pub open spec fn dir_of(entry: EntryView, base: Seq<char>) -> Option<Seq<char>> {
    match relative_to(entry.path, base) {
        Some(rel) => if !is_root_path(rel) && entry.kind is Directory {
            Some(rel)
        } else {
            None
        },
        None => None,
    }
}

/// The file that an entry of a walk is recorded as, if it is recorded as one.
pub open spec fn file_of(entry: EntryView, base: Seq<char>, algorithm: HashAlgorithm) -> Option<
    RecordView,
> {
    match relative_to(entry.path, base) {
        Some(rel) => if !is_root_path(rel) && !(entry.kind is Directory) {
            Some(RecordView { identity: file_identity(algorithm, entry.content, rel), path: rel })
        } else {
            None
        },
        None => None,
    }
}

/// The fingerprint after one more entry of a walk: a directory is recorded
/// by its relative path, anything else as a file by its identity. The root
/// itself and an entry outside `base` leave the fingerprint as it is.
pub open spec fn record_entry(
    fingerprint: FingerprintView,
    entry: EntryView,
    base: Seq<char>,
    algorithm: HashAlgorithm,
) -> FingerprintView {
    match (dir_of(entry, base), file_of(entry, base, algorithm)) {
        (Some(dir), _) => fingerprint.with_dir(dir),
        (None, Some(file)) => fingerprint.with_file(file.identity, file.path),
        (None, None) => fingerprint,
    }
}

/// Whether `rel` denotes the root of the tree itself.
pub fn is_root(rel: &str) -> (r: bool)
    ensures
        r == is_root_path(rel@),
{
    rel.is_empty() || same_text(rel, ".")
}

impl TreeFingerprint {
    /// Records one entry of a walk of the tree rooted at `base`. Gives
    /// nothing back where the entry lies outside `base`.
    pub fn record(self, entry: &TreeEntry, base: &str, algorithm: HashAlgorithm) -> (r: Option<
        TreeFingerprint,
    >)
        ensures
            match r {
                Some(after) => relative_to(entry.path@, base@) is Some && after@ == record_entry(
                    self@,
                    entry@,
                    base@,
                    algorithm,
                ) && after@.wf(),
                None => relative_to(entry.path@, base@) is None,
            },
    {
        proof {
            use_type_invariant(&self);
            self.lemma_indexed();
        }
        match relative_path(entry.path.as_str(), base) {
            None => None,
            Some(rel) => {
                if is_root(rel) {
                    Some(self)
                } else {
                    match entry.kind {
                        EntryKind::Directory => Some(self.add_dir(rel.to_owned())),
                        _ => {
                            let inner_path = rel.to_owned();
                            let identity = compute_file_hash(
                                entry.content.as_slice(),
                                &inner_path,
                                algorithm,
                            );
                            Some(self.add_file(identity, inner_path))
                        },
                    }
                }
            },
        }
    }
}

} // verus!
