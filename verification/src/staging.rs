//! The staging area: which directories to create and which files to copy so
//! that it mirrors the changed part of the new tree.

use crate::compress::CompressionMethod;
use crate::compress::ENTRY_DATE;
use crate::compress::ENTRY_MODE;
use crate::compress::ENTRY_TIME;
use crate::compress::lemma_packed_files_push;
use crate::compress::packed_files;
use crate::diff::diff_of;
use crate::diff::lemma_diff_with_itself_is_empty;
use crate::paths::is_relative;
use crate::paths::join_path;
use crate::paths::joined;
use crate::paths::lemma_relative_to_joined;
use crate::paths::parent_of;
use crate::paths::parent_path;
use crate::tree::EntryKind;
use crate::tree::EntryView;
use crate::tree::FingerprintView;
use vstd::prelude::*;

verus! {

/// A path of the difference, with what the new tree holds there now.
#[derive(Debug, PartialEq, Eq)]
pub struct ChangedPath {
    /// The path relative to the root of the new tree.
    pub path: String,
    /// Whether the new tree holds a directory there.
    pub is_dir: bool,
}

/// The mathematical value of a [`ChangedPath`].
pub struct ChangedPathView {
    pub path: Seq<char>,
    pub is_dir: bool,
}

impl View for ChangedPath {
    type V = ChangedPathView;

    open spec fn view(&self) -> ChangedPathView {
        ChangedPathView { path: self.path@, is_dir: self.is_dir }
    }
}

impl DeepView for ChangedPath {
    type V = ChangedPathView;

    open spec fn deep_view(&self) -> ChangedPathView {
        self@
    }
}

/// One step of building the staging area.
#[derive(Debug, PartialEq, Eq)]
pub enum StagingAction {
    /// Create the directory `path` with every ancestor that is missing.
    CreateDir { path: String },
    /// Create the directory `parent` with every ancestor that is missing,
    /// unless it exists, then copy the file `from` to `to`.
    CopyFile { parent: String, from: String, to: String },
}

/// The mathematical value of a [`StagingAction`].
pub enum ActionView {
    CreateDir { path: Seq<char> },
    CopyFile { parent: Seq<char>, from: Seq<char>, to: Seq<char> },
}

impl View for StagingAction {
    type V = ActionView;

    open spec fn view(&self) -> ActionView {
        match self {
            StagingAction::CreateDir { path } => ActionView::CreateDir { path: path@ },
            StagingAction::CopyFile { parent, from, to } => ActionView::CopyFile {
                parent: parent@,
                from: from@,
                to: to@,
            },
        }
    }
}

impl DeepView for StagingAction {
    type V = ActionView;

    open spec fn deep_view(&self) -> ActionView {
        self@
    }
}

/// What staging one changed path takes: a directory is created under the
/// staging root, a file is copied there from the new tree, into a parent
/// directory that is made to exist.
pub open spec fn staging_action(
    change: ChangedPathView,
    new_root: Seq<char>,
    staging_root: Seq<char>,
) -> ActionView {
    let target = joined(staging_root, change.path);
    if change.is_dir {
        ActionView::CreateDir { path: target }
    } else {
        ActionView::CopyFile {
            parent: parent_of(target),
            from: joined(new_root, change.path),
            to: target,
        }
    }
}

/// The steps that build the staging area: one for each changed path, in order.
pub open spec fn staging_plan(
    changes: Seq<ChangedPathView>,
    new_root: Seq<char>,
    staging_root: Seq<char>,
) -> Seq<ActionView> {
    Seq::new(changes.len(), |i: int| staging_action(changes[i], new_root, staging_root))
}

/// Decides how one changed path is staged.
pub fn stage(change: &ChangedPath, base_diry: &str, outer_dir: &str) -> (r: StagingAction)
    ensures
        r@ == staging_action(change@, base_diry@, outer_dir@),
{
    let need_create = join_path(outer_dir, change.path.as_str());
    if change.is_dir {
        StagingAction::CreateDir { path: need_create }
    } else {
        let parent = parent_path(need_create.as_str()).to_owned();
        let from = join_path(base_diry, change.path.as_str());
        StagingAction::CopyFile { parent, from, to: need_create }
    }
}

/// Plans the staging area under `outer_dir` for the changed paths of the new
/// tree rooted at `base_diry`.
pub fn generate_tmpdir(diff_info: &Vec<ChangedPath>, base_diry: &str, outer_dir: &str) -> (r: Vec<
    StagingAction,
>)
    ensures
        r.deep_view() == staging_plan(diff_info.deep_view(), base_diry@, outer_dir@),
{
    let ghost changes = diff_info.deep_view();
    let mut plan: Vec<StagingAction> = Vec::new();
    let mut i: usize = 0;
    while i < diff_info.len()
        invariant
            i <= diff_info.len(),
            changes == diff_info.deep_view(),
            plan.len() == i,
            forall|j: int|
                0 <= j < i ==> (#[trigger] plan@[j])@ == staging_action(
                    changes[j],
                    base_diry@,
                    outer_dir@,
                ),
        decreases diff_info.len() - i,
    {
        plan.push(stage(&diff_info[i], base_diry, outer_dir));
        i = i + 1;
    }
    plan
}

/// What a walk of the staging area finds of a file that was copied there.
pub open spec fn staged_file(
    staging_root: Seq<char>,
    path: Seq<char>,
    content: Seq<u8>,
) -> EntryView {
    EntryView { path: joined(staging_root, path), kind: EntryKind::File, content }
}

/// Every file copied to the staging area is archived exactly once, under its
/// own relative path and with its own content, in the order of the walk.
pub proof fn lemma_staged_files_are_packed(
    staging_root: Seq<char>,
    paths: Seq<Seq<char>>,
    contents: Seq<Seq<u8>>,
    method: CompressionMethod,
)
    requires
        paths.len() == contents.len(),
        forall|i: int| 0 <= i < paths.len() ==> is_relative(#[trigger] paths[i]),
    ensures
        packed_files(
            Seq::new(paths.len(), |i: int| staged_file(staging_root, paths[i], contents[i])),
            staging_root,
            method,
        ) == Seq::new(
            paths.len(),
            |i: int|
                (paths[i], method is Deflated, ENTRY_MODE, ENTRY_DATE, ENTRY_TIME, contents[i]),
        ),
    decreases paths.len(),
{
    let staged = Seq::new(paths.len(), |i: int| staged_file(staging_root, paths[i], contents[i]));
    let packed = Seq::new(
        paths.len(),
        |i: int| (paths[i], method is Deflated, ENTRY_MODE, ENTRY_DATE, ENTRY_TIME, contents[i]),
    );
    if paths.len() == 0 {
        reveal(Seq::filter);
        assert(packed_files(staged, staging_root, method) =~= packed);
    } else {
        let front_paths = paths.drop_last();
        let front_contents = contents.drop_last();
        let front = Seq::new(
            front_paths.len(),
            |i: int| staged_file(staging_root, front_paths[i], front_contents[i]),
        );
        assert forall|i: int| 0 <= i < front_paths.len() implies is_relative(
            #[trigger] front_paths[i],
        ) by {
            assert(front_paths[i] == paths[i]);
        }
        lemma_staged_files_are_packed(staging_root, front_paths, front_contents, method);
        assert(staged =~= front.push(staged.last()));
        lemma_packed_files_push(front, staged.last(), staging_root, method);
        assert(is_relative(paths[paths.len() - 1]));
        lemma_relative_to_joined(staging_root, paths.last());
        assert(packed_files(staged, staging_root, method) =~= packed);
    }
}

/// Between a tree and itself nothing changed, so nothing is staged.
pub proof fn lemma_unchanged_tree_stages_nothing(
    tree: FingerprintView,
    changes: Seq<ChangedPathView>,
    new_root: Seq<char>,
    staging_root: Seq<char>,
)
    requires
        tree.wf(),
        changes.len() == diff_of(tree, tree).len(),
    ensures
        staging_plan(changes, new_root, staging_root) == Seq::<ActionView>::empty(),
{
    lemma_diff_with_itself_is_empty(tree);
}

} // verus!
