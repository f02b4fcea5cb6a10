//! Fingerprinting: from the entries that a walk of a tree found to the
//! fingerprint of the tree.

use crate::diff::diff_of;
use crate::diff::lemma_diff_of_same_content_is_empty;
use crate::diff::paths_distinct;
use crate::hash::HashAlgorithm;
use crate::paths::is_relative;
use crate::paths::lemma_relative_to_is_relative;
use crate::paths::relative_to;
use crate::tree::EntryView;
use crate::tree::FingerprintView;
use crate::tree::dir_of;
use crate::tree::file_of;
use crate::tree::is_root_path;
use crate::tree::lemma_position_of;
use crate::tree::lemma_recording_keeps_wf;
use crate::tree::lemma_with_file_is_insert;
use crate::tree::record_entry;
use crate::tree::RecordView;
use crate::tree::TreeEntry;
use crate::tree::TreeFingerprint;
use vstd::prelude::*;

verus! {

/// Why a tree could not be fingerprinted.
#[derive(Clone, Copy, Debug, PartialEq, Eq, Structural)]
pub enum TraversalError {
    /// The entry at `index` does not lie at or under the root of the tree.
    OutsideRoot { index: usize },
}

/// The fingerprint of the tree rooted at `base` whose walk gave `entries`.
pub open spec fn fingerprint_of(
    entries: Seq<EntryView>,
    base: Seq<char>,
    algorithm: HashAlgorithm,
) -> FingerprintView
    decreases entries.len(),
{
    if entries.len() == 0 {
        FingerprintView::empty()
    } else {
        record_entry(
            fingerprint_of(entries.drop_last(), base, algorithm),
            entries.last(),
            base,
            algorithm,
        )
    }
}

/// Whether every one of `entries` lies at or under `base`.
pub open spec fn all_under(entries: Seq<EntryView>, base: Seq<char>) -> bool {
    forall|i: int| 0 <= i < entries.len() ==> relative_to(#[trigger] entries[i].path, base) is Some
}

/// Whether `index` is the first of `entries` that lies outside `base`.
pub open spec fn first_outside(entries: Seq<EntryView>, base: Seq<char>, index: int) -> bool {
    &&& 0 <= index < entries.len()
    &&& relative_to(entries[index].path, base) is None
    &&& forall|i: int| 0 <= i < index ==> relative_to(#[trigger] entries[i].path, base) is Some
}

/// Fingerprints the tree rooted at `base` from the entries that a walk of it
/// gave, in the order of the walk.
pub fn path_info(entries: &Vec<TreeEntry>, base: &str, algorithm: HashAlgorithm) -> (r: Result<
    TreeFingerprint,
    TraversalError,
>)
    ensures
        match r {
            Ok(fingerprint) => all_under(entries.deep_view(), base@) && fingerprint@
                == fingerprint_of(entries.deep_view(), base@, algorithm) && fingerprint@.wf(),
            Err(TraversalError::OutsideRoot { index }) => first_outside(
                entries.deep_view(),
                base@,
                index as int,
            ),
        },
{
    let ghost walked = entries.deep_view();
    let mut fingerprint = TreeFingerprint::new();
    let mut i: usize = 0;
    while i < entries.len()
        invariant
            i <= entries.len(),
            walked == entries.deep_view(),
            walked.len() == entries.len(),
            fingerprint@ == fingerprint_of(walked.take(i as int), base@, algorithm),
            fingerprint@.wf(),
            forall|j: int| 0 <= j < i ==> relative_to(#[trigger] walked[j].path, base@) is Some,
        decreases entries.len() - i,
    {
        let entry = &entries[i];
        assert(walked[i as int] == entry@);
        assert(walked.take(i as int + 1).drop_last() =~= walked.take(i as int));
        match fingerprint.record(entry, base, algorithm) {
            None => {
                return Err(TraversalError::OutsideRoot { index: i });
            },
            Some(after) => {
                fingerprint = after;
            },
        }
        i = i + 1;
    }
    assert(walked.take(i as int) =~= walked);
    Ok(fingerprint)
}

/// No entry of a walk is recorded under a path that begins with a
/// separator: the root of the tree never shows in what is recorded.
pub proof fn lemma_recorded_paths_are_relative(
    entry: EntryView,
    base: Seq<char>,
    algorithm: HashAlgorithm,
)
    ensures
        dir_of(entry, base) matches Some(dir) ==> is_relative(dir),
        file_of(entry, base, algorithm) matches Some(file) ==> is_relative(file.path),
{
    lemma_relative_to_is_relative(entry.path, base);
}

/// Whether one of `entries` is recorded as the directory `dir`.
pub open spec fn walk_has_dir(entries: Seq<EntryView>, base: Seq<char>, dir: Seq<char>) -> bool {
    exists|i: int| 0 <= i < entries.len() && dir_of(#[trigger] entries[i], base) == Some(dir)
}

/// Whether one of `entries` is recorded as the file `file`.
pub open spec fn walk_has_file(
    entries: Seq<EntryView>,
    base: Seq<char>,
    algorithm: HashAlgorithm,
    file: RecordView,
) -> bool {
    exists|i: int|
        0 <= i < entries.len() && file_of(#[trigger] entries[i], base, algorithm) == Some(file)
}

/// Whether the identities of the walk tell its files apart: no two files at
/// different relative paths carry the same identity.
pub open spec fn identities_tell_paths_apart(
    entries: Seq<EntryView>,
    base: Seq<char>,
    algorithm: HashAlgorithm,
) -> bool {
    forall|a: RecordView, b: RecordView|
        #![trigger
            walk_has_file(entries, base, algorithm, a),
            walk_has_file(entries, base, algorithm, b),
        ]
        walk_has_file(entries, base, algorithm, a) && walk_has_file(entries, base, algorithm, b)
            && a.identity == b.identity ==> a.path == b.path
}

/// What a fingerprint holds of a walk: a directory exactly where an entry is
/// recorded as that directory, an identity wherever an entry is recorded as
/// a file with it, and for each identity the path of one such entry.
pub proof fn lemma_fingerprint_contents(
    entries: Seq<EntryView>,
    base: Seq<char>,
    algorithm: HashAlgorithm,
)
    ensures
        fingerprint_of(entries, base, algorithm).wf(),
        forall|dir: Seq<char>|
            fingerprint_of(entries, base, algorithm).dirs.contains(dir) <==> walk_has_dir(
                entries,
                base,
                dir,
            ),
        forall|file: RecordView| #[trigger]
            walk_has_file(entries, base, algorithm, file) ==> fingerprint_of(
                entries,
                base,
                algorithm,
            ).has_identity(file.identity),
        forall|identity: Seq<char>| #[trigger]
            fingerprint_of(entries, base, algorithm).has_identity(identity) ==> walk_has_file(
                entries,
                base,
                algorithm,
                RecordView {
                    identity,
                    path: fingerprint_of(entries, base, algorithm).file_map()[identity],
                },
            ),
    decreases entries.len(),
{
    let whole = fingerprint_of(entries, base, algorithm);
    if entries.len() == 0 {
        assert forall|dir: Seq<char>| whole.dirs.contains(dir) <==> walk_has_dir(
            entries,
            base,
            dir,
        ) by {}
    } else {
        let front = entries.drop_last();
        let last = entries.last();
        let before = fingerprint_of(front, base, algorithm);
        lemma_fingerprint_contents(front, base, algorithm);
        assert forall|i: int| 0 <= i < front.len() implies #[trigger] front[i] == entries[i] by {}
        assert(whole == record_entry(before, last, base, algorithm));
        match file_of(last, base, algorithm) {
            Some(added) => {
                assert(whole == before.with_file(added.identity, added.path));
                lemma_recording_keeps_wf(before, added.identity, added.path);
                lemma_with_file_is_insert(before, added.identity, added.path);
            },
            None => {
                assert(whole.files == before.files);
                lemma_recording_keeps_wf(before, Seq::empty(), Seq::empty());
            },
        }
        assert forall|dir: Seq<char>| whole.dirs.contains(dir) <==> walk_has_dir(
            entries,
            base,
            dir,
        ) by {
            if whole.dirs.contains(dir) {
                if before.dirs.contains(dir) {
                    assert(walk_has_dir(front, base, dir));
                    let i = choose|i: int|
                        0 <= i < front.len() && dir_of(#[trigger] front[i], base) == Some(dir);
                    assert(dir_of(entries[i], base) == Some(dir));
                } else {
                    let at = choose|at: int| 0 <= at < whole.dirs.len() && whole.dirs[at] == dir;
                    if at < before.dirs.len() {
                        assert(before.dirs[at] == dir);
                    }
                    assert(dir_of(entries[entries.len() - 1], base) == Some(dir));
                }
            }
            if walk_has_dir(entries, base, dir) {
                let i = choose|i: int|
                    0 <= i < entries.len() && dir_of(#[trigger] entries[i], base) == Some(dir);
                if i < front.len() {
                    assert(dir_of(front[i], base) == Some(dir));
                    assert(walk_has_dir(front, base, dir));
                    let at = choose|at: int| 0 <= at < before.dirs.len() && before.dirs[at] == dir;
                    assert(whole.dirs[at] == dir);
                } else {
                    assert(whole.dirs[whole.dirs.len() - 1] == dir);
                }
            }
        }
        assert forall|file: RecordView| #[trigger]
            walk_has_file(entries, base, algorithm, file) implies whole.has_identity(
            file.identity,
        ) by {
            let i = choose|i: int|
                0 <= i < entries.len() && file_of(#[trigger] entries[i], base, algorithm) == Some(
                    file,
                );
            if i < front.len() {
                assert(file_of(front[i], base, algorithm) == Some(file));
                assert(walk_has_file(front, base, algorithm, file));
                assert(before.has_identity(file.identity));
                if file_of(last, base, algorithm) is None {
                    let at = before.position_of(file.identity);
                    assert(whole.files[at].identity == file.identity);
                }
            } else {
                assert(file_of(last, base, algorithm) == Some(file));
            }
        }
        assert forall|identity: Seq<char>| #[trigger]
            whole.has_identity(identity) implies walk_has_file(
            entries,
            base,
            algorithm,
            RecordView { identity, path: whole.file_map()[identity] },
        ) by {
            let found = RecordView { identity, path: whole.file_map()[identity] };
            if file_of(last, base, algorithm) is Some && file_of(last, base, algorithm)->0.identity
                == identity {
                assert(file_of(entries[entries.len() - 1], base, algorithm) == Some(found));
            } else {
                assert(before.has_identity(identity));
                assert(whole.file_map()[identity] == before.file_map()[identity]);
                assert(walk_has_file(front, base, algorithm, found));
                let i = choose|i: int|
                    0 <= i < front.len() && file_of(#[trigger] front[i], base, algorithm) == Some(
                        found,
                    );
                assert(file_of(entries[i], base, algorithm) == Some(found));
            }
        }
    }
}

/// The content of a fingerprint does not depend on the order of the walk:
/// two walks that find the same entries give the same map from identity to
/// path and the same set of directories, as long as the identities tell the
/// files of the walk apart.
pub proof fn lemma_fingerprint_ignores_walk_order(
    first: Seq<EntryView>,
    second: Seq<EntryView>,
    base: Seq<char>,
    algorithm: HashAlgorithm,
)
    requires
        forall|entry: EntryView| first.contains(entry) <==> second.contains(entry),
        identities_tell_paths_apart(first, base, algorithm),
    ensures
        fingerprint_of(first, base, algorithm).file_map() == fingerprint_of(
            second,
            base,
            algorithm,
        ).file_map(),
        fingerprint_of(first, base, algorithm).dirs.to_set() == fingerprint_of(
            second,
            base,
            algorithm,
        ).dirs.to_set(),
{
    let one = fingerprint_of(first, base, algorithm);
    let two = fingerprint_of(second, base, algorithm);
    lemma_fingerprint_contents(first, base, algorithm);
    lemma_fingerprint_contents(second, base, algorithm);
    assert forall|dir: Seq<char>| walk_has_dir(first, base, dir) <==> walk_has_dir(
        second,
        base,
        dir,
    ) by {
        if walk_has_dir(first, base, dir) {
            lemma_same_entries_same_dirs(first, second, base, dir);
        }
        if walk_has_dir(second, base, dir) {
            lemma_same_entries_same_dirs(second, first, base, dir);
        }
    }
    assert forall|file: RecordView|
        walk_has_file(first, base, algorithm, file) <==> walk_has_file(
            second,
            base,
            algorithm,
            file,
        ) by {
        if walk_has_file(first, base, algorithm, file) {
            lemma_same_entries_same_files(first, second, base, algorithm, file);
        }
        if walk_has_file(second, base, algorithm, file) {
            lemma_same_entries_same_files(second, first, base, algorithm, file);
        }
    }
    assert forall|identity: Seq<char>| one.has_identity(identity) <==> two.has_identity(
        identity,
    ) by {
        if one.has_identity(identity) {
            let file = RecordView { identity, path: one.file_map()[identity] };
            assert(walk_has_file(second, base, algorithm, file));
        }
        if two.has_identity(identity) {
            let file = RecordView { identity, path: two.file_map()[identity] };
            assert(walk_has_file(first, base, algorithm, file));
        }
    }
    assert forall|identity: Seq<char>| one.has_identity(identity) implies one.file_map()[identity]
        == two.file_map()[identity] by {
        let a = RecordView { identity, path: one.file_map()[identity] };
        let b = RecordView { identity, path: two.file_map()[identity] };
        assert(walk_has_file(first, base, algorithm, a));
        assert(walk_has_file(second, base, algorithm, b));
        assert(walk_has_file(first, base, algorithm, b));
    }
    assert(one.file_map() =~= two.file_map());
    assert forall|dir: Seq<char>| one.dirs.to_set().contains(dir) <==> two.dirs.to_set().contains(
        dir,
    ) by {
        assert(one.dirs.contains(dir) <==> walk_has_dir(first, base, dir));
        assert(two.dirs.contains(dir) <==> walk_has_dir(second, base, dir));
    }
    assert(one.dirs.to_set() =~= two.dirs.to_set());
}

/// A tree that is walked twice has no difference against itself, in
/// whatever order the two walks find its entries, as long as the identities
/// tell the files of the walk apart.
pub proof fn lemma_rewalked_tree_has_no_difference(
    first: Seq<EntryView>,
    second: Seq<EntryView>,
    base: Seq<char>,
    algorithm: HashAlgorithm,
)
    requires
        forall|entry: EntryView| first.contains(entry) <==> second.contains(entry),
        identities_tell_paths_apart(first, base, algorithm),
    ensures
        diff_of(fingerprint_of(first, base, algorithm), fingerprint_of(second, base, algorithm))
            == Seq::<Seq<char>>::empty(),
{
    lemma_fingerprint_ignores_walk_order(first, second, base, algorithm);
    lemma_fingerprint_contents(second, base, algorithm);
    lemma_diff_of_same_content_is_empty(
        fingerprint_of(first, base, algorithm),
        fingerprint_of(second, base, algorithm),
    );
}

/// The path under which an entry of a walk is recorded, as a directory or as
/// a file, if it is recorded.
pub open spec fn path_of(entry: EntryView, base: Seq<char>) -> Option<Seq<char>> {
    match relative_to(entry.path, base) {
        Some(rel) => if is_root_path(rel) {
            None
        } else {
            Some(rel)
        },
        None => None,
    }
}

/// Whether no two entries of the walk are recorded under the same path, as
/// it is with the walk of a tree.
pub open spec fn walk_paths_distinct(entries: Seq<EntryView>, base: Seq<char>) -> bool {
    forall|i: int, j: int|
        #![trigger entries[i], entries[j]]
        0 <= i < j < entries.len() && path_of(entries[i], base) is Some ==> path_of(
            entries[i],
            base,
        ) != path_of(entries[j], base)
}

/// A walk that finds every path once is recorded entry by entry: the
/// fingerprint lists each directory of the walk once, holds one identity for
/// each file of the walk, and no path stands in it twice, as long as the
/// identities tell the files of the walk apart.
pub proof fn lemma_fingerprint_lists_each_entry_once(
    entries: Seq<EntryView>,
    base: Seq<char>,
    algorithm: HashAlgorithm,
)
    requires
        walk_paths_distinct(entries, base),
        identities_tell_paths_apart(entries, base, algorithm),
    ensures
        paths_distinct(fingerprint_of(entries, base, algorithm)),
        fingerprint_of(entries, base, algorithm).dirs.len() == entries.filter(
            |entry: EntryView| dir_of(entry, base) is Some,
        ).len(),
        fingerprint_of(entries, base, algorithm).files.len() == entries.filter(
            |entry: EntryView| file_of(entry, base, algorithm) is Some,
        ).len(),
    decreases entries.len(),
{
    reveal(Seq::filter);
    if entries.len() > 0 {
        let front = entries.drop_last();
        let last = entries.last();
        let before = fingerprint_of(front, base, algorithm);
        let whole = fingerprint_of(entries, base, algorithm);
        assert forall|i: int| 0 <= i < front.len() implies #[trigger] front[i] == entries[i] by {}
        assert(front.push(last) =~= entries);
        assert(whole == record_entry(before, last, base, algorithm));
        assert(walk_paths_distinct(front, base)) by {
            assert forall|i: int, j: int|
                #![trigger front[i], front[j]]
                0 <= i < j < front.len() && path_of(front[i], base) is Some implies path_of(
                front[i],
                base,
            ) != path_of(front[j], base) by {
                assert(front[i] == entries[i] && front[j] == entries[j]);
            }
        }
        assert(identities_tell_paths_apart(front, base, algorithm)) by {
            assert forall|a: RecordView, b: RecordView|
                #![trigger
                    walk_has_file(front, base, algorithm, a),
                    walk_has_file(front, base, algorithm, b),
                ]
                walk_has_file(front, base, algorithm, a) && walk_has_file(
                    front,
                    base,
                    algorithm,
                    b,
                ) && a.identity == b.identity implies a.path == b.path by {
                lemma_walk_has_file_grows(front, last, base, algorithm, a);
                lemma_walk_has_file_grows(front, last, base, algorithm, b);
                assert(walk_has_file(entries, base, algorithm, a));
                assert(walk_has_file(entries, base, algorithm, b));
            }
        }
        lemma_fingerprint_lists_each_entry_once(front, base, algorithm);
        lemma_fingerprint_contents(front, base, algorithm);
        if path_of(last, base) is Some {
            let path = path_of(last, base)->0;
            assert forall|i: int| 0 <= i < before.dirs.len() implies before.dirs[i] != path by {
                if before.dirs[i] == path {
                    assert(before.dirs.contains(path));
                    assert(walk_has_dir(front, base, path));
                    let at = choose|at: int|
                        0 <= at < front.len() && dir_of(#[trigger] front[at], base) == Some(path);
                    assert(path_of(entries[at], base) == Some(path));
                    assert(entries[entries.len() - 1] == last);
                }
            }
            assert forall|i: int| 0 <= i < before.files.len() implies before.files[i].path
                != path by {
                if before.files[i].path == path {
                    lemma_position_of(before, i);
                    assert(walk_has_file(front, base, algorithm, before.files[i]));
                    let at = choose|at: int|
                        0 <= at < front.len() && file_of(#[trigger] front[at], base, algorithm)
                            == Some(before.files[i]);
                    assert(path_of(entries[at], base) == Some(path));
                    assert(entries[entries.len() - 1] == last);
                }
            }
            if file_of(last, base, algorithm) is Some {
                let file = file_of(last, base, algorithm)->0;
                if before.has_identity(file.identity) {
                    let known = RecordView {
                        identity: file.identity,
                        path: before.file_map()[file.identity],
                    };
                    assert(walk_has_file(front, base, algorithm, known));
                    lemma_walk_has_file_grows(front, last, base, algorithm, known);
                    assert(walk_has_file(entries, base, algorithm, known));
                    assert(file_of(entries[entries.len() - 1], base, algorithm) == Some(file));
                    assert(walk_has_file(entries, base, algorithm, file));
                    assert(known.path == file.path);
                    let at = before.position_of(file.identity);
                    lemma_position_of(before, at);
                    assert(before.files[at].path == path);
                }
                assert(whole.files == before.files.push(file));
            }
        }
    }
}

/// A file that a walk records is recorded by the walk with one more entry.
proof fn lemma_walk_has_file_grows(
    entries: Seq<EntryView>,
    entry: EntryView,
    base: Seq<char>,
    algorithm: HashAlgorithm,
    file: RecordView,
)
    requires
        walk_has_file(entries, base, algorithm, file),
    ensures
        walk_has_file(entries.push(entry), base, algorithm, file),
{
    let i = choose|i: int|
        0 <= i < entries.len() && file_of(#[trigger] entries[i], base, algorithm) == Some(file);
    assert(file_of(entries.push(entry)[i], base, algorithm) == Some(file));
}

/// A directory that one walk records is recorded by every walk that finds
/// the entries of the first.
proof fn lemma_same_entries_same_dirs(
    first: Seq<EntryView>,
    second: Seq<EntryView>,
    base: Seq<char>,
    dir: Seq<char>,
)
    requires
        forall|entry: EntryView| first.contains(entry) ==> second.contains(entry),
        walk_has_dir(first, base, dir),
    ensures
        walk_has_dir(second, base, dir),
{
    let i = choose|i: int| 0 <= i < first.len() && dir_of(#[trigger] first[i], base) == Some(dir);
    assert(first.contains(first[i]));
    let j = choose|j: int| 0 <= j < second.len() && second[j] == first[i];
    assert(dir_of(second[j], base) == Some(dir));
}

/// A file that one walk records is recorded by every walk that finds the
/// entries of the first.
proof fn lemma_same_entries_same_files(
    first: Seq<EntryView>,
    second: Seq<EntryView>,
    base: Seq<char>,
    algorithm: HashAlgorithm,
    file: RecordView,
)
    requires
        forall|entry: EntryView| first.contains(entry) ==> second.contains(entry),
        walk_has_file(first, base, algorithm, file),
    ensures
        walk_has_file(second, base, algorithm, file),
{
    let i = choose|i: int|
        0 <= i < first.len() && file_of(#[trigger] first[i], base, algorithm) == Some(file);
    assert(first.contains(first[i]));
    let j = choose|j: int| 0 <= j < second.len() && second[j] == first[i];
    assert(file_of(second[j], base, algorithm) == Some(file));
}

} // verus!
