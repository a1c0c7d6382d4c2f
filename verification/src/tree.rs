//! The rows that show a tree of directories, some of which are expanded.
use crate::entry::{entry_row, EntryKind, EntryView};
use crate::listing::ChildView;
use crate::path::{lemma_below_is_strict_order, PathView};
use vstd::prelude::*;

verus! {

/// The outcome of walking a tree: its rows, or the first directory on the way that was not read.
pub enum WalkView {
    Listed(Seq<EntryView>),
    Unread(PathView),
}

/// The expanded directories below `dir`.
pub open spec fn expanded_below(expanded: Set<PathView>, dir: PathView) -> Set<PathView> {
    expanded.filter(|p: PathView| p.is_below(dir))
}

/// Fewer expanded directories lie below an expanded directory than below one above it.
pub proof fn lemma_expanded_below_shrinks(expanded: Set<PathView>, dir: PathView, sub: PathView)
    requires
        expanded.finite(),
        expanded.contains(sub),
        sub.is_below(dir),
    ensures
        expanded_below(expanded, sub).len() < expanded_below(expanded, dir).len(),
{
    let inner = expanded_below(expanded, sub);
    let outer = expanded_below(expanded, dir);
    assert forall|p: PathView| inner.contains(p) implies outer.remove(sub).contains(p) by {
        lemma_below_is_strict_order(p, sub, dir);
        lemma_below_is_strict_order(sub, sub, sub);
    }
    assert(inner.subset_of(outer.remove(sub)));
    vstd::set_lib::lemma_len_subset(inner, outer.remove(sub));
}

/// The rows of the first child and the rows of the others, where both are known.
pub open spec fn followed_by(first: WalkView, rest: WalkView) -> WalkView {
    match first {
        WalkView::Unread(p) => WalkView::Unread(p),
        WalkView::Listed(a) => match rest {
            WalkView::Unread(p) => WalkView::Unread(p),
            WalkView::Listed(b) => WalkView::Listed(a + b),
        },
    }
}

/// The rows of `children`, which are children of `dir`, at the given depth. Each child has a row,
/// and that of an expanded directory is followed by the rows of its own children, one level deeper.
pub open spec fn walk(
    disk: Map<PathView, Seq<ChildView>>,
    expanded: Set<PathView>,
    dir: PathView,
    children: Seq<ChildView>,
    depth: nat,
) -> WalkView
    decreases expanded_below(expanded, dir).len(), children.len(),
    when expanded.finite()
{
    if children.len() == 0 {
        WalkView::Listed(Seq::empty())
    } else {
        let child = children[0];
        let opened = child.kind == EntryKind::Directory && expanded.contains(child.path);
        let row = WalkView::Listed(seq![entry_row(child.path, depth, child.kind, opened)]);
        let first = if opened && child.path.is_below(dir) {
            if disk.contains_key(child.path) {
                proof {
                    lemma_expanded_below_shrinks(expanded, dir, child.path);
                }
                followed_by(row, walk(disk, expanded, child.path, disk[child.path], depth + 1))
            } else {
                WalkView::Unread(child.path)
            }
        } else {
            row
        };
        followed_by(first, walk(disk, expanded, dir, children.drop_first(), depth))
    }
}

/// The rows of a directory at the given depth: its own, and if it is expanded those of its
/// children.
pub open spec fn branch(
    disk: Map<PathView, Seq<ChildView>>,
    expanded: Set<PathView>,
    path: PathView,
    depth: nat,
) -> WalkView {
    let opened = expanded.contains(path);
    let row = WalkView::Listed(seq![entry_row(path, depth, EntryKind::Directory, opened)]);
    if !opened {
        row
    } else if disk.contains_key(path) {
        followed_by(row, walk(disk, expanded, path, disk[path], depth + 1))
    } else {
        WalkView::Unread(path)
    }
}

/// The rows of the tree below `root`, which has no row itself.
pub open spec fn tree_rows(
    disk: Map<PathView, Seq<ChildView>>,
    expanded: Set<PathView>,
    root: PathView,
) -> WalkView {
    if disk.contains_key(root) {
        walk(disk, expanded, root, disk[root], 0)
    } else {
        WalkView::Unread(root)
    }
}

/// The rows of one child at the given depth.
pub open spec fn child_rows(
    disk: Map<PathView, Seq<ChildView>>,
    expanded: Set<PathView>,
    child: ChildView,
    depth: nat,
) -> WalkView {
    match child.kind {
        EntryKind::Directory => branch(disk, expanded, child.path, depth),
        EntryKind::File => WalkView::Listed(
            seq![entry_row(child.path, depth, EntryKind::File, false)],
        ),
    }
}

/// A walk takes the children one after the other.
pub proof fn lemma_walk_step(
    disk: Map<PathView, Seq<ChildView>>,
    expanded: Set<PathView>,
    dir: PathView,
    children: Seq<ChildView>,
    depth: nat,
)
    requires
        expanded.finite(),
        children.len() > 0,
        children[0].path.is_below(dir),
    ensures
        walk(disk, expanded, dir, children, depth) == followed_by(
            child_rows(disk, expanded, children[0], depth),
            walk(disk, expanded, dir, children.drop_first(), depth),
        ),
{
}

} // verus!
