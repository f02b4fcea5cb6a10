//! The difference between two fingerprinted trees.

use crate::text::same_text;
use crate::tree::FileRecord;
use crate::tree::FingerprintView;
use crate::tree::lemma_position_of;
use crate::tree::RecordView;
use crate::tree::TreeFingerprint;
use vstd::prelude::*;

verus! {

/// Whether a directory of the new tree is absent from the old tree.
pub open spec fn is_new_dir(old_tree: FingerprintView, dir: Seq<char>) -> bool {
    !old_tree.dirs.contains(dir)
}

/// Whether a file of the new tree is unchanged: the old tree records its
/// identity, and records it at the same relative path.
pub open spec fn is_unchanged(old_tree: FingerprintView, file: RecordView) -> bool {
    old_tree.file_map().contains_key(file.identity) && old_tree.file_map()[file.identity]
        == file.path
}

/// The directories of the new tree that the old tree lacks, in their order.
pub open spec fn new_dirs(old_tree: FingerprintView, dirs: Seq<Seq<char>>) -> Seq<Seq<char>> {
    dirs.filter(|dir: Seq<char>| is_new_dir(old_tree, dir))
}

/// The relative paths of the files of the new tree that are added or changed,
/// in their order.
pub open spec fn changed_files(old_tree: FingerprintView, files: Seq<RecordView>) -> Seq<
    Seq<char>,
> {
    files.filter(|file: RecordView| !is_unchanged(old_tree, file)).map_values(
        |file: RecordView| file.path,
    )
}

/// The relative paths that an update from the old tree to the new tree has to
/// carry: the new directories first, then the added and changed files.
/// Nothing stands for what only the old tree holds.
pub open spec fn diff_of(old_tree: FingerprintView, new_tree: FingerprintView) -> Seq<Seq<char>> {
    new_dirs(old_tree, new_tree.dirs) + changed_files(old_tree, new_tree.files)
}

/// One more directory adds its path to the new directories if the old tree
/// lacks it, and nothing otherwise.
pub proof fn lemma_new_dirs_push(old_tree: FingerprintView, dirs: Seq<Seq<char>>, dir: Seq<char>)
    ensures
        new_dirs(old_tree, dirs.push(dir)) == if is_new_dir(old_tree, dir) {
            new_dirs(old_tree, dirs).push(dir)
        } else {
            new_dirs(old_tree, dirs)
        },
{
    reveal(Seq::filter);
    assert(dirs.push(dir).drop_last() =~= dirs);
}

/// One more file adds its path to the changed files unless it is unchanged.
pub proof fn lemma_changed_files_push(
    old_tree: FingerprintView,
    files: Seq<RecordView>,
    file: RecordView,
)
    ensures
        changed_files(old_tree, files.push(file)) == if is_unchanged(old_tree, file) {
            changed_files(old_tree, files)
        } else {
            changed_files(old_tree, files).push(file.path)
        },
{
    reveal(Seq::filter);
    assert(files.push(file).drop_last() =~= files);
    let kept = files.filter(|f: RecordView| !is_unchanged(old_tree, f));
    if !is_unchanged(old_tree, file) {
        assert(kept.push(file).map_values(|f: RecordView| f.path) =~= kept.map_values(
            |f: RecordView| f.path,
        ).push(file.path));
    }
}

/// Computes the relative paths of the new tree `diry_info` that are absent
/// from the old tree `dirx_info` or changed against it.
pub fn diff_directory(dirx_info: &TreeFingerprint, diry_info: &TreeFingerprint) -> (r: Vec<String>)
    ensures
        r.deep_view() == diff_of(dirx_info@, diry_info@),
{
    let ghost old_tree = dirx_info@;
    let ghost new_tree = diry_info@;
    let mut need_packed: Vec<String> = Vec::new();
    let dirs = diry_info.dirs();
    let mut i: usize = 0;
    assert(need_packed.deep_view() =~= Seq::<Seq<char>>::empty());
    assert(new_tree.dirs.take(0) =~= Seq::<Seq<char>>::empty());
    while i < dirs.len()
        invariant
            i <= dirs.len(),
            old_tree == dirx_info@,
            dirs.deep_view() == new_tree.dirs,
            need_packed.deep_view() == new_dirs(old_tree, new_tree.dirs.take(i as int)),
        decreases dirs.len() - i,
    {
        let dir = &dirs[i];
        proof {
            assert(new_tree.dirs[i as int] == dir@);
            assert(new_tree.dirs.take(i as int + 1) =~= new_tree.dirs.take(i as int).push(dir@));
            lemma_new_dirs_push(old_tree, new_tree.dirs.take(i as int), dir@);
        }
        if !dirx_info.has_dir(dir.as_str()) {
            let ghost before = need_packed.deep_view();
            need_packed.push(dir.clone());
            assert(need_packed.deep_view() =~= before.push(dir@));
        }
        i = i + 1;
    }
    assert(new_tree.dirs.take(i as int) =~= new_tree.dirs);
    let files = diry_info.files();
    let ghost head = new_dirs(old_tree, new_tree.dirs);
    let mut k: usize = 0;
    assert(new_tree.files.take(0) =~= Seq::<RecordView>::empty());
    assert(need_packed.deep_view() =~= head + changed_files(old_tree, new_tree.files.take(0)));
    while k < files.len()
        invariant
            k <= files.len(),
            old_tree == dirx_info@,
            files.deep_view() == new_tree.files,
            head == new_dirs(old_tree, new_tree.dirs),
            need_packed.deep_view() == head + changed_files(old_tree, new_tree.files.take(k as int)),
        decreases files.len() - k,
    {
        let file: &FileRecord = &files[k];
        proof {
            assert(new_tree.files[k as int] == file@);
            assert(new_tree.files.take(k as int + 1) =~= new_tree.files.take(k as int).push(file@));
            lemma_changed_files_push(old_tree, new_tree.files.take(k as int), file@);
        }
        let unchanged = match dirx_info.lookup(file.identity.as_str()) {
            Some(path) => same_text(path, file.path.as_str()),
            None => false,
        };
        if !unchanged {
            let ghost before = need_packed.deep_view();
            need_packed.push(file.path.clone());
            assert(need_packed.deep_view() =~= before.push(file.path@));
        }
        k = k + 1;
    }
    assert(new_tree.files.take(k as int) =~= new_tree.files);
    need_packed
}

/// What kind of change a path of the difference stands for.
#[derive(Clone, Copy, Debug, PartialEq, Eq, Structural)]
pub enum ChangeKind {
    /// A directory that the old tree lacks.
    NewDirectory,
    /// A file whose identity the old tree lacks.
    Added,
    /// A file whose identity the old tree records at another path.
    Updated,
}

/// A path of the difference with the kind of its change.
#[derive(Debug, PartialEq, Eq)]
pub struct Change {
    /// The path relative to the root of the new tree.
    pub path: String,
    /// What changed there.
    pub kind: ChangeKind,
}

/// The mathematical value of a [`Change`].
pub struct ChangeView {
    pub path: Seq<char>,
    pub kind: ChangeKind,
}

impl View for Change {
    type V = ChangeView;

    open spec fn view(&self) -> ChangeView {
        ChangeView { path: self.path@, kind: self.kind }
    }
}

impl DeepView for Change {
    type V = ChangeView;

    open spec fn deep_view(&self) -> ChangeView {
        self@
    }
}

/// The change that a new directory stands for.
pub open spec fn dir_change(dir: Seq<char>) -> ChangeView {
    ChangeView { path: dir, kind: ChangeKind::NewDirectory }
}

/// The change that a file stands for which is not unchanged: updated where
/// the old tree records its identity, added where it does not.
pub open spec fn file_change(old_tree: FingerprintView, file: RecordView) -> ChangeView {
    ChangeView {
        path: file.path,
        kind: if old_tree.has_identity(file.identity) {
            ChangeKind::Updated
        } else {
            ChangeKind::Added
        },
    }
}

/// The changed files of the new tree with the kind of their change, in
/// their order.
pub open spec fn file_changes(old_tree: FingerprintView, files: Seq<RecordView>) -> Seq<
    ChangeView,
> {
    files.filter(|file: RecordView| !is_unchanged(old_tree, file)).map_values(
        |file: RecordView| file_change(old_tree, file),
    )
}

/// The difference with the kind of every change: the new directories first,
/// then the added and updated files.
pub open spec fn changes_of(old_tree: FingerprintView, new_tree: FingerprintView) -> Seq<
    ChangeView,
> {
    new_dirs(old_tree, new_tree.dirs).map_values(|dir: Seq<char>| dir_change(dir)) + file_changes(
        old_tree,
        new_tree.files,
    )
}

/// The changes name the paths of the difference, one for one.
pub proof fn lemma_changes_name_the_difference(old_tree: FingerprintView, new_tree: FingerprintView)
    ensures
        changes_of(old_tree, new_tree).map_values(|change: ChangeView| change.path) == diff_of(
            old_tree,
            new_tree,
        ),
{
    let paths = changes_of(old_tree, new_tree).map_values(|change: ChangeView| change.path);
    assert(paths =~= diff_of(old_tree, new_tree));
}

/// One more file adds its change unless it is unchanged.
pub proof fn lemma_file_changes_push(
    old_tree: FingerprintView,
    files: Seq<RecordView>,
    file: RecordView,
)
    ensures
        file_changes(old_tree, files.push(file)) == if is_unchanged(old_tree, file) {
            file_changes(old_tree, files)
        } else {
            file_changes(old_tree, files).push(file_change(old_tree, file))
        },
{
    reveal(Seq::filter);
    assert(files.push(file).drop_last() =~= files);
    let kept = files.filter(|f: RecordView| !is_unchanged(old_tree, f));
    if !is_unchanged(old_tree, file) {
        assert(kept.push(file).map_values(|f: RecordView| file_change(old_tree, f))
            =~= kept.map_values(|f: RecordView| file_change(old_tree, f)).push(
            file_change(old_tree, file),
        ));
    }
}

/// Computes the difference as [`diff_directory`] does, and tells for every
/// path what kind of change it stands for.
pub fn diff_changes(dirx_info: &TreeFingerprint, diry_info: &TreeFingerprint) -> (r: Vec<Change>)
    ensures
        r.deep_view() == changes_of(dirx_info@, diry_info@),
        r.len() == diff_of(dirx_info@, diry_info@).len(),
        forall|i: int|
            0 <= i < r.len() ==> (#[trigger] r[i]).path@ == diff_of(dirx_info@, diry_info@)[i],
{
    let ghost old_tree = dirx_info@;
    let ghost new_tree = diry_info@;
    let mut changes: Vec<Change> = Vec::new();
    let dirs = diry_info.dirs();
    let mut i: usize = 0;
    proof {
        reveal(Seq::filter);
        assert(new_tree.dirs.take(0) =~= Seq::<Seq<char>>::empty());
        assert(changes.deep_view() =~= new_dirs(old_tree, new_tree.dirs.take(0)).map_values(
            |dir: Seq<char>| dir_change(dir),
        ));
    }
    while i < dirs.len()
        invariant
            i <= dirs.len(),
            old_tree == dirx_info@,
            dirs.deep_view() == new_tree.dirs,
            changes.deep_view() == new_dirs(old_tree, new_tree.dirs.take(i as int)).map_values(
                |dir: Seq<char>| dir_change(dir),
            ),
        decreases dirs.len() - i,
    {
        let dir = &dirs[i];
        let ghost found = new_dirs(old_tree, new_tree.dirs.take(i as int));
        proof {
            assert(new_tree.dirs[i as int] == dir@);
            assert(new_tree.dirs.take(i as int + 1) =~= new_tree.dirs.take(i as int).push(dir@));
            lemma_new_dirs_push(old_tree, new_tree.dirs.take(i as int), dir@);
        }
        if !dirx_info.has_dir(dir.as_str()) {
            let ghost before = changes.deep_view();
            changes.push(Change { path: dir.clone(), kind: ChangeKind::NewDirectory });
            assert(changes.deep_view() =~= before.push(dir_change(dir@)));
            assert(before.push(dir_change(dir@)) =~= found.push(dir@).map_values(
                |dir: Seq<char>| dir_change(dir),
            ));
        }
        i = i + 1;
    }
    assert(new_tree.dirs.take(i as int) =~= new_tree.dirs);
    let files = diry_info.files();
    let ghost head = new_dirs(old_tree, new_tree.dirs).map_values(|dir: Seq<char>| dir_change(dir));
    let mut k: usize = 0;
    proof {
        assert(new_tree.files.take(0) =~= Seq::<RecordView>::empty());
        assert(changes.deep_view() =~= head + file_changes(old_tree, new_tree.files.take(0)));
    }
    while k < files.len()
        invariant
            k <= files.len(),
            old_tree == dirx_info@,
            files.deep_view() == new_tree.files,
            changes.deep_view() == head + file_changes(old_tree, new_tree.files.take(k as int)),
        decreases files.len() - k,
    {
        let file: &FileRecord = &files[k];
        proof {
            assert(new_tree.files[k as int] == file@);
            assert(new_tree.files.take(k as int + 1) =~= new_tree.files.take(k as int).push(file@));
            lemma_file_changes_push(old_tree, new_tree.files.take(k as int), file@);
        }
        let ghost before = changes.deep_view();
        match dirx_info.lookup(file.identity.as_str()) {
            Some(path) => {
                if !same_text(path, file.path.as_str()) {
                    changes.push(Change { path: file.path.clone(), kind: ChangeKind::Updated });
                    assert(changes.deep_view() =~= before.push(file_change(old_tree, file@)));
                }
            },
            None => {
                changes.push(Change { path: file.path.clone(), kind: ChangeKind::Added });
                assert(changes.deep_view() =~= before.push(file_change(old_tree, file@)));
            },
        }
        k = k + 1;
    }
    proof {
        assert(new_tree.files.take(k as int) =~= new_tree.files);
        lemma_changes_name_the_difference(old_tree, new_tree);
        let named = changes_of(old_tree, new_tree).map_values(|change: ChangeView| change.path);
        assert forall|j: int| 0 <= j < changes.len() implies (#[trigger] changes[j]).path@ == diff_of(
            old_tree,
            new_tree,
        )[j] by {
            assert(changes.deep_view()[j] == changes[j]@);
            assert(named[j] == changes_of(old_tree, new_tree)[j].path);
        }
    }
    changes
}

/// Every new directory of a difference is a directory of the new tree that
/// the old tree lacks.
pub proof fn lemma_new_dirs_origin(old_tree: FingerprintView, dirs: Seq<Seq<char>>, at: int)
    requires
        0 <= at < new_dirs(old_tree, dirs).len(),
    ensures
        dirs.contains(new_dirs(old_tree, dirs)[at]),
        is_new_dir(old_tree, new_dirs(old_tree, dirs)[at]),
    decreases dirs.len(),
{
    if dirs.len() == 0 {
        reveal(Seq::filter);
    } else {
        let front = dirs.drop_last();
        let dir = dirs.last();
        assert(front.push(dir) =~= dirs);
        lemma_new_dirs_push(old_tree, front, dir);
        if at < new_dirs(old_tree, front).len() {
            lemma_new_dirs_origin(old_tree, front, at);
            let found = new_dirs(old_tree, front)[at];
            let i = choose|i: int| 0 <= i < front.len() && front[i] == found;
            assert(dirs[i] == found);
        } else {
            assert(dirs[dirs.len() - 1] == dir);
        }
    }
}

/// Every changed file of a difference is the path of a file of the new tree
/// that is not unchanged.
pub proof fn lemma_changed_files_origin(old_tree: FingerprintView, files: Seq<RecordView>, at: int)
    requires
        0 <= at < changed_files(old_tree, files).len(),
    ensures
        exists|i: int|
            0 <= i < files.len() && (#[trigger] files[i]).path == changed_files(old_tree, files)[at]
                && !is_unchanged(old_tree, files[i]),
    decreases files.len(),
{
    if files.len() == 0 {
        reveal(Seq::filter);
    } else {
        let front = files.drop_last();
        let file = files.last();
        assert(front.push(file) =~= files);
        lemma_changed_files_push(old_tree, front, file);
        if at < changed_files(old_tree, front).len() {
            lemma_changed_files_origin(old_tree, front, at);
            let found = changed_files(old_tree, front)[at];
            let i = choose|i: int|
                0 <= i < front.len() && (#[trigger] front[i]).path == found && !is_unchanged(
                    old_tree,
                    front[i],
                );
            assert(files[i] == front[i]);
        } else {
            assert(files[files.len() - 1] == file);
        }
    }
}

/// The changed files of two lists, one after the other.
pub proof fn lemma_changed_files_concat(
    old_tree: FingerprintView,
    first: Seq<RecordView>,
    second: Seq<RecordView>,
)
    ensures
        changed_files(old_tree, first + second) == changed_files(old_tree, first) + changed_files(
            old_tree,
            second,
        ),
    decreases second.len(),
{
    if second.len() == 0 {
        reveal(Seq::filter);
        assert(first + second =~= first);
        assert(changed_files(old_tree, second) =~= Seq::<Seq<char>>::empty());
        assert(changed_files(old_tree, first) + Seq::<Seq<char>>::empty() =~= changed_files(
            old_tree,
            first,
        ));
    } else {
        let front = second.drop_last();
        let file = second.last();
        assert(front.push(file) =~= second);
        assert((first + front).push(file) =~= first + second);
        lemma_changed_files_concat(old_tree, first, front);
        lemma_changed_files_push(old_tree, first + front, file);
        lemma_changed_files_push(old_tree, front, file);
        if !is_unchanged(old_tree, file) {
            assert((changed_files(old_tree, first) + changed_files(old_tree, front)).push(file.path)
                =~= changed_files(old_tree, first) + changed_files(old_tree, front).push(
                file.path,
            ));
        }
    }
}

/// Files that a well-formed tree records itself are unchanged against it.
pub proof fn lemma_own_files_unchanged(tree: FingerprintView, files: Seq<RecordView>)
    requires
        tree.wf(),
        forall|i: int| 0 <= i < files.len() ==> tree.files.contains(#[trigger] files[i]),
    ensures
        changed_files(tree, files) == Seq::<Seq<char>>::empty(),
{
    if changed_files(tree, files).len() > 0 {
        lemma_changed_files_origin(tree, files, 0);
        let i = choose|i: int|
            0 <= i < files.len() && (#[trigger] files[i]).path == changed_files(tree, files)[0]
                && !is_unchanged(tree, files[i]);
        assert(tree.files.contains(files[i]));
        let at = choose|at: int| 0 <= at < tree.files.len() && tree.files[at] == files[i];
        lemma_position_of(tree, at);
    }
    assert(changed_files(tree, files) =~= Seq::<Seq<char>>::empty());
}

/// Directories that a tree records itself are not new against it.
pub proof fn lemma_own_dirs_not_new(tree: FingerprintView, dirs: Seq<Seq<char>>)
    requires
        forall|i: int| 0 <= i < dirs.len() ==> tree.dirs.contains(#[trigger] dirs[i]),
    ensures
        new_dirs(tree, dirs) == Seq::<Seq<char>>::empty(),
{
    if new_dirs(tree, dirs).len() > 0 {
        lemma_new_dirs_origin(tree, dirs, 0);
        let found = new_dirs(tree, dirs)[0];
        let i = choose|i: int| 0 <= i < dirs.len() && dirs[i] == found;
        assert(tree.dirs.contains(dirs[i]));
    }
    assert(new_dirs(tree, dirs) =~= Seq::<Seq<char>>::empty());
}

/// The difference between a tree and itself is empty.
pub proof fn lemma_diff_with_itself_is_empty(tree: FingerprintView)
    requires
        tree.wf(),
    ensures
        diff_of(tree, tree) == Seq::<Seq<char>>::empty(),
{
    assert forall|i: int| 0 <= i < tree.dirs.len() implies tree.dirs.contains(
        #[trigger] tree.dirs[i],
    ) by {}
    assert forall|i: int| 0 <= i < tree.files.len() implies tree.files.contains(
        #[trigger] tree.files[i],
    ) by {}
    lemma_own_dirs_not_new(tree, tree.dirs);
    lemma_own_files_unchanged(tree, tree.files);
    assert(diff_of(tree, tree) =~= Seq::<Seq<char>>::empty());
}

/// Two trees with the same directories and the same map from identity to
/// path have an empty difference, in whatever order each of them was
/// recorded.
pub proof fn lemma_diff_of_same_content_is_empty(
    old_tree: FingerprintView,
    new_tree: FingerprintView,
)
    requires
        new_tree.wf(),
        old_tree.file_map() == new_tree.file_map(),
        old_tree.dirs.to_set() == new_tree.dirs.to_set(),
    ensures
        diff_of(old_tree, new_tree) == Seq::<Seq<char>>::empty(),
{
    let head = new_dirs(old_tree, new_tree.dirs);
    let tail = changed_files(old_tree, new_tree.files);
    if head.len() > 0 {
        lemma_new_dirs_origin(old_tree, new_tree.dirs, 0);
        assert(new_tree.dirs.to_set().contains(head[0]));
        assert(old_tree.dirs.to_set().contains(head[0]));
    }
    if tail.len() > 0 {
        lemma_changed_files_origin(old_tree, new_tree.files, 0);
        let i = choose|i: int|
            0 <= i < new_tree.files.len() && (#[trigger] new_tree.files[i]).path == tail[0]
                && !is_unchanged(old_tree, new_tree.files[i]);
        lemma_position_of(new_tree, i);
    }
    assert(diff_of(old_tree, new_tree) =~= Seq::<Seq<char>>::empty());
}

/// Every path of a difference is a directory or a file of the new tree:
/// nothing stands for what only the old tree holds.
pub proof fn lemma_diff_within_new_tree(
    old_tree: FingerprintView,
    new_tree: FingerprintView,
    at: int,
)
    requires
        0 <= at < diff_of(old_tree, new_tree).len(),
    ensures
        new_tree.dirs.contains(diff_of(old_tree, new_tree)[at]) || exists|i: int|
            0 <= i < new_tree.files.len() && (#[trigger] new_tree.files[i]).path == diff_of(
                old_tree,
                new_tree,
            )[at],
{
    let head = new_dirs(old_tree, new_tree.dirs);
    if at < head.len() {
        lemma_new_dirs_origin(old_tree, new_tree.dirs, at);
    } else {
        lemma_changed_files_origin(old_tree, new_tree.files, at - head.len());
    }
}

/// Recording one more file in a tree makes that file the whole difference
/// between the tree and what it became, unless the tree records the file
/// already, under the same identity at the same path.
pub proof fn lemma_diff_of_added_file(tree: FingerprintView, identity: Seq<char>, path: Seq<char>)
    requires
        tree.wf(),
        !is_unchanged(tree, RecordView { identity, path }),
    ensures
        diff_of(tree, tree.with_file(identity, path)) == seq![path],
{
    let file = RecordView { identity, path };
    let after = tree.with_file(identity, path);
    assert forall|i: int| 0 <= i < tree.dirs.len() implies tree.dirs.contains(
        #[trigger] tree.dirs[i],
    ) by {}
    lemma_own_dirs_not_new(tree, tree.dirs);
    if tree.has_identity(identity) {
        lemma_replaced_file_is_the_difference(tree, tree.position_of(identity), file);
    } else {
        assert forall|i: int| 0 <= i < tree.files.len() implies tree.files.contains(
            #[trigger] tree.files[i],
        ) by {}
        lemma_own_files_unchanged(tree, tree.files);
        lemma_changed_files_push(tree, tree.files, file);
    }
    assert(diff_of(tree, after) =~= seq![path]);
}

/// Where one file of a tree is replaced by a file that is not unchanged
/// against the tree, the changed files are that file alone.
proof fn lemma_replaced_file_is_the_difference(tree: FingerprintView, at: int, file: RecordView)
    requires
        tree.wf(),
        0 <= at < tree.files.len(),
        !is_unchanged(tree, file),
    ensures
        changed_files(tree, tree.files.update(at, file)) == seq![file.path],
{
    let changed = tree.files.update(at, file);
    let before = tree.files.take(at);
    let behind = tree.files.skip(at + 1);
    assert(changed =~= before.push(file) + behind);
    assert forall|i: int| 0 <= i < before.len() implies tree.files.contains(
        #[trigger] before[i],
    ) by {
        assert(tree.files[i] == before[i]);
    }
    assert forall|i: int| 0 <= i < behind.len() implies tree.files.contains(
        #[trigger] behind[i],
    ) by {
        assert(tree.files[at + 1 + i] == behind[i]);
    }
    lemma_own_files_unchanged(tree, before);
    lemma_own_files_unchanged(tree, behind);
    lemma_changed_files_push(tree, before, file);
    lemma_changed_files_concat(tree, before.push(file), behind);
    assert(changed_files(tree, changed) =~= seq![file.path]);
}

/// A file recorded in a tree together with a directory that the tree lacks:
/// the difference is the directory, then the file.
pub proof fn lemma_diff_of_added_dir_and_file(
    tree: FingerprintView,
    dir: Seq<char>,
    identity: Seq<char>,
    path: Seq<char>,
)
    requires
        tree.wf(),
        !tree.dirs.contains(dir),
        !is_unchanged(tree, RecordView { identity, path }),
    ensures
        diff_of(tree, tree.with_dir(dir).with_file(identity, path)) == seq![dir, path],
{
    let grown = tree.with_dir(dir);
    let after = grown.with_file(identity, path);
    assert(grown.has_identity(identity) == tree.has_identity(identity));
    assert(grown.position_of(identity) == tree.position_of(identity));
    assert(after.files == tree.with_file(identity, path).files);
    assert forall|i: int| 0 <= i < tree.dirs.len() implies tree.dirs.contains(
        #[trigger] tree.dirs[i],
    ) by {}
    lemma_own_dirs_not_new(tree, tree.dirs);
    lemma_new_dirs_push(tree, tree.dirs, dir);
    lemma_diff_of_added_file(tree, identity, path);
    assert(changed_files(tree, after.files) =~= seq![path]) by {
        assert(diff_of(tree, tree.with_file(identity, path)) =~= new_dirs(tree, tree.dirs)
            + changed_files(tree, after.files));
    }
    assert(diff_of(tree, after) =~= seq![dir, path]);
}

/// A file whose content changed is the whole difference, and its path stands
/// there exactly once, unless the tree records its new identity already at
/// the same path, as it does where the digest tells the two contents not
/// apart.
pub proof fn lemma_diff_of_modified_file(tree: FingerprintView, at: int, identity: Seq<char>)
    requires
        tree.wf(),
        0 <= at < tree.files.len(),
        !is_unchanged(tree, RecordView { identity, path: tree.files[at].path }),
    ensures
        diff_of(
            tree,
            FingerprintView {
                files: tree.files.update(at, RecordView { identity, path: tree.files[at].path }),
                dirs: tree.dirs,
            },
        ) == seq![tree.files[at].path],
{
    let file = RecordView { identity, path: tree.files[at].path };
    assert forall|i: int| 0 <= i < tree.dirs.len() implies tree.dirs.contains(
        #[trigger] tree.dirs[i],
    ) by {}
    lemma_own_dirs_not_new(tree, tree.dirs);
    lemma_replaced_file_is_the_difference(tree, at, file);
    assert(diff_of(
        tree,
        FingerprintView { files: tree.files.update(at, file), dirs: tree.dirs },
    ) =~= seq![file.path]);
}

/// Whether no path stands twice in a tree: neither among its directories,
/// nor among its files, nor once as a directory and once as a file.
pub open spec fn paths_distinct(tree: FingerprintView) -> bool {
    &&& forall|i: int, j: int| 0 <= i < j < tree.dirs.len() ==> tree.dirs[i] != tree.dirs[j]
    &&& forall|i: int, j: int|
        0 <= i < j < tree.files.len() ==> tree.files[i].path != tree.files[j].path
    &&& forall|i: int, j: int|
        0 <= i < tree.dirs.len() && 0 <= j < tree.files.len() ==> tree.dirs[i]
            != tree.files[j].path
}

/// A directory of the new tree that the old tree lacks stands in the
/// difference.
pub proof fn lemma_diff_lists_new_dir(old_tree: FingerprintView, new_tree: FingerprintView, at: int)
    requires
        0 <= at < new_tree.dirs.len(),
        is_new_dir(old_tree, new_tree.dirs[at]),
    ensures
        diff_of(old_tree, new_tree).contains(new_tree.dirs[at]),
{
    lemma_new_dirs_hold(old_tree, new_tree.dirs, at);
    let head = new_dirs(old_tree, new_tree.dirs);
    let k = choose|k: int| 0 <= k < head.len() && head[k] == new_tree.dirs[at];
    assert(diff_of(old_tree, new_tree)[k] == new_tree.dirs[at]);
}

/// A file of the new tree that is not unchanged against the old tree stands
/// in the difference.
pub proof fn lemma_diff_lists_changed_file(
    old_tree: FingerprintView,
    new_tree: FingerprintView,
    at: int,
)
    requires
        0 <= at < new_tree.files.len(),
        !is_unchanged(old_tree, new_tree.files[at]),
    ensures
        diff_of(old_tree, new_tree).contains(new_tree.files[at].path),
{
    lemma_changed_files_hold(old_tree, new_tree.files, at);
    let head = new_dirs(old_tree, new_tree.dirs);
    let tail = changed_files(old_tree, new_tree.files);
    let k = choose|k: int| 0 <= k < tail.len() && tail[k] == new_tree.files[at].path;
    assert(diff_of(old_tree, new_tree)[head.len() + k] == new_tree.files[at].path);
}

/// Where no path stands twice in the new tree, none stands twice in the
/// difference.
pub proof fn lemma_diff_lists_each_path_once(old_tree: FingerprintView, new_tree: FingerprintView)
    requires
        paths_distinct(new_tree),
    ensures
        diff_of(old_tree, new_tree).no_duplicates(),
{
    let head = new_dirs(old_tree, new_tree.dirs);
    let diff = diff_of(old_tree, new_tree);
    lemma_new_dirs_once(old_tree, new_tree.dirs);
    lemma_changed_files_once(old_tree, new_tree.files);
    assert forall|i: int, j: int| 0 <= i < diff.len() && 0 <= j < diff.len() && i != j implies diff[i]
        != diff[j] by {
        if i < head.len() && j >= head.len() {
            lemma_new_dirs_origin(old_tree, new_tree.dirs, i);
            lemma_changed_files_origin(old_tree, new_tree.files, j - head.len());
        }
        if j < head.len() && i >= head.len() {
            lemma_new_dirs_origin(old_tree, new_tree.dirs, j);
            lemma_changed_files_origin(old_tree, new_tree.files, i - head.len());
        }
    }
}

/// Every directory that the old tree lacks is among the new directories.
proof fn lemma_new_dirs_hold(old_tree: FingerprintView, dirs: Seq<Seq<char>>, at: int)
    requires
        0 <= at < dirs.len(),
        is_new_dir(old_tree, dirs[at]),
    ensures
        new_dirs(old_tree, dirs).contains(dirs[at]),
    decreases dirs.len(),
{
    let front = dirs.drop_last();
    let dir = dirs.last();
    assert(front.push(dir) =~= dirs);
    lemma_new_dirs_push(old_tree, front, dir);
    if at < front.len() {
        lemma_new_dirs_hold(old_tree, front, at);
        let k = choose|k: int|
            0 <= k < new_dirs(old_tree, front).len() && new_dirs(old_tree, front)[k] == front[at];
        assert(new_dirs(old_tree, dirs)[k] == dirs[at]);
    } else {
        assert(new_dirs(old_tree, dirs)[new_dirs(old_tree, front).len() as int] == dirs[at]);
    }
}

/// Every file that is not unchanged is among the changed files.
proof fn lemma_changed_files_hold(old_tree: FingerprintView, files: Seq<RecordView>, at: int)
    requires
        0 <= at < files.len(),
        !is_unchanged(old_tree, files[at]),
    ensures
        changed_files(old_tree, files).contains(files[at].path),
    decreases files.len(),
{
    let front = files.drop_last();
    let file = files.last();
    assert(front.push(file) =~= files);
    lemma_changed_files_push(old_tree, front, file);
    if at < front.len() {
        lemma_changed_files_hold(old_tree, front, at);
        let k = choose|k: int|
            0 <= k < changed_files(old_tree, front).len() && changed_files(old_tree, front)[k]
                == front[at].path;
        assert(changed_files(old_tree, files)[k] == files[at].path);
    } else {
        assert(changed_files(old_tree, files)[changed_files(old_tree, front).len() as int]
            == files[at].path);
    }
}

/// Directories that are pairwise distinct give new directories that are
/// pairwise distinct.
proof fn lemma_new_dirs_once(old_tree: FingerprintView, dirs: Seq<Seq<char>>)
    requires
        forall|i: int, j: int| 0 <= i < j < dirs.len() ==> dirs[i] != dirs[j],
    ensures
        new_dirs(old_tree, dirs).no_duplicates(),
    decreases dirs.len(),
{
    if dirs.len() == 0 {
        reveal(Seq::filter);
    } else {
        let front = dirs.drop_last();
        let dir = dirs.last();
        assert(front.push(dir) =~= dirs);
        lemma_new_dirs_push(old_tree, front, dir);
        assert forall|i: int, j: int| 0 <= i < j < front.len() implies front[i] != front[j] by {
            assert(front[i] == dirs[i] && front[j] == dirs[j]);
        }
        lemma_new_dirs_once(old_tree, front);
        let found = new_dirs(old_tree, front);
        assert forall|k: int| 0 <= k < found.len() implies found[k] != dir by {
            lemma_new_dirs_origin(old_tree, front, k);
            let i = choose|i: int| 0 <= i < front.len() && front[i] == found[k];
            assert(dirs[i] == found[k]);
        }
    }
}

/// Files at pairwise distinct paths give changed files that are pairwise
/// distinct.
proof fn lemma_changed_files_once(old_tree: FingerprintView, files: Seq<RecordView>)
    requires
        forall|i: int, j: int| 0 <= i < j < files.len() ==> files[i].path != files[j].path,
    ensures
        changed_files(old_tree, files).no_duplicates(),
    decreases files.len(),
{
    if files.len() == 0 {
        reveal(Seq::filter);
    } else {
        let front = files.drop_last();
        let file = files.last();
        assert(front.push(file) =~= files);
        lemma_changed_files_push(old_tree, front, file);
        assert forall|i: int, j: int| 0 <= i < j < front.len() implies front[i].path
            != front[j].path by {
            assert(front[i] == files[i] && front[j] == files[j]);
        }
        lemma_changed_files_once(old_tree, front);
        let found = changed_files(old_tree, front);
        assert forall|k: int| 0 <= k < found.len() implies found[k] != file.path by {
            lemma_changed_files_origin(old_tree, front, k);
            let i = choose|i: int|
                0 <= i < front.len() && (#[trigger] front[i]).path == found[k] && !is_unchanged(
                    old_tree,
                    front[i],
                );
            assert(files[i] == front[i]);
        }
    }
}

} // verus!
