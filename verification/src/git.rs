//! What version control says of the files of the tree.
use crate::path::{PathView, TreePath};
use crate::path_map::PathMap;
use vstd::prelude::*;

verus! {

#[derive(Clone, Copy, Debug, PartialEq, Eq, Structural)]
pub enum FileChangeKind {
    Untracked,
    Modified,
    Conflict,
    Deleted,
    Renamed,
}

/// A changed file; that of a renaming is known by its new path.
#[derive(Debug)]
pub enum FileChange {
    Untracked { path: TreePath },
    Modified { path: TreePath },
    Conflict { path: TreePath },
    Deleted { path: TreePath },
    Renamed { from_path: TreePath, to_path: TreePath },
}

impl FileChange {
    pub open spec fn subject(self) -> PathView {
        match self {
            FileChange::Untracked { path } => path@,
            FileChange::Modified { path } => path@,
            FileChange::Conflict { path } => path@,
            FileChange::Deleted { path } => path@,
            FileChange::Renamed { from_path, to_path } => to_path@,
        }
    }

    pub open spec fn kind(self) -> FileChangeKind {
        match self {
            FileChange::Untracked { path } => FileChangeKind::Untracked,
            FileChange::Modified { path } => FileChangeKind::Modified,
            FileChange::Conflict { path } => FileChangeKind::Conflict,
            FileChange::Deleted { path } => FileChangeKind::Deleted,
            FileChange::Renamed { from_path, to_path } => FileChangeKind::Renamed,
        }
    }
}

/// `path` has the status `kind` now, and every other path has the status that it had.
pub open spec fn is_recorded(
    before: Map<PathView, FileChangeKind>,
    after: Map<PathView, FileChangeKind>,
    path: PathView,
    kind: FileChangeKind,
) -> bool {
    &&& after.contains_key(path) && after[path] == kind
    &&& forall|other: PathView|
        other != path ==> (#[trigger] after.contains_key(other) <==> before.contains_key(other))
    &&& forall|other: PathView|
        other != path && #[trigger] before.contains_key(other) ==> after[other] == before[other]
}

/// A changed file is recorded under the path that it has now, with the kind of its change, and no
/// other record changes.
pub proof fn lemma_changes_are_recorded(
    statuses: Map<PathView, FileChangeKind>,
    change: FileChange,
)
    ensures
        ({
            let after = statuses.insert(change.subject(), change.kind());
            match change {
                FileChange::Untracked { path } => is_recorded(
                    statuses,
                    after,
                    path@,
                    FileChangeKind::Untracked,
                ),
                FileChange::Modified { path } => is_recorded(
                    statuses,
                    after,
                    path@,
                    FileChangeKind::Modified,
                ),
                FileChange::Conflict { path } => is_recorded(
                    statuses,
                    after,
                    path@,
                    FileChangeKind::Conflict,
                ),
                FileChange::Deleted { path } => is_recorded(
                    statuses,
                    after,
                    path@,
                    FileChangeKind::Deleted,
                ),
                FileChange::Renamed { from_path, to_path } => is_recorded(
                    statuses,
                    after,
                    to_path@,
                    FileChangeKind::Renamed,
                ),
            }
        }),
{
}

/// Takes note of a changed file, or of a failure (`None`) to tell which files have changed. Gives
/// whether more changes are wanted, which is not so after a failure.
pub fn record_change(statuses: &mut PathMap<FileChangeKind>, change: Option<FileChange>) -> (r: bool)
    requires
        old(statuses).wf(),
    ensures
        final(statuses).wf(),
        match change {
            Some(change) => r && final(statuses)@ == old(statuses)@.insert(
                change.subject(),
                change.kind(),
            ),
            None => !r && final(statuses)@ == old(statuses)@,
        },
        change matches Some(FileChange::Untracked { path }) ==> is_recorded(
            old(statuses)@,
            final(statuses)@,
            path@,
            FileChangeKind::Untracked,
        ),
        change matches Some(FileChange::Modified { path }) ==> is_recorded(
            old(statuses)@,
            final(statuses)@,
            path@,
            FileChangeKind::Modified,
        ),
        change matches Some(FileChange::Conflict { path }) ==> is_recorded(
            old(statuses)@,
            final(statuses)@,
            path@,
            FileChangeKind::Conflict,
        ),
        change matches Some(FileChange::Deleted { path }) ==> is_recorded(
            old(statuses)@,
            final(statuses)@,
            path@,
            FileChangeKind::Deleted,
        ),
        change matches Some(FileChange::Renamed { from_path, to_path }) ==> is_recorded(
            old(statuses)@,
            final(statuses)@,
            to_path@,
            FileChangeKind::Renamed,
        ),
{
    let (path, kind) = match change {
        None => return false,
        Some(FileChange::Untracked { path }) => (path, FileChangeKind::Untracked),
        Some(FileChange::Modified { path }) => (path, FileChangeKind::Modified),
        Some(FileChange::Conflict { path }) => (path, FileChangeKind::Conflict),
        Some(FileChange::Deleted { path }) => (path, FileChangeKind::Deleted),
        Some(FileChange::Renamed { from_path: _, to_path }) => (to_path, FileChangeKind::Renamed),
    };
    statuses.insert(path, kind);
    true
}

} // verus!
