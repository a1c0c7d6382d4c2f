//! In what order the rows of a tree stand.
use crate::entry::{EntryKind, EntryView};
use crate::listing::{all_below, lemma_rest_is_below, lists_below, ChildView};
use crate::path::PathView;
use crate::tree::{lemma_expanded_below_shrinks, tree_rows, walk, WalkView};
use crate::tree_laws::{is_row_of, lemma_rows_are_nested};
use vstd::prelude::*;

verus! {

/// The row shows the child at the depth, and as expanded exactly if it is a directory that is
/// expanded.
pub open spec fn is_row_of_child(
    row: EntryView,
    child: ChildView,
    depth: nat,
    expanded: Set<PathView>,
) -> bool {
    &&& row.path == child.path
    &&& row.kind == child.kind
    &&& row.depth == depth
    &&& row.expanded <==> child.kind == EntryKind::Directory && expanded.contains(child.path)
}

/// The rows of one child: its own, and where it is an expanded directory, behind that the rows of
/// its children, one level deeper. Where such a directory is not listed, there are no rows, and it
/// is the one to be read.
pub proof fn lemma_rows_of_one_child(
    disk: Map<PathView, Seq<ChildView>>,
    expanded: Set<PathView>,
    dir: PathView,
    child: ChildView,
    depth: nat,
)
    requires
        expanded.finite(),
        child.path.is_below(dir),
    ensures
        ({
            let rows = walk(disk, expanded, dir, seq![child], depth);
            if child.kind == EntryKind::Directory && expanded.contains(child.path) {
                if disk.contains_key(child.path) {
                    match walk(disk, expanded, child.path, disk[child.path], depth + 1) {
                        WalkView::Listed(below) => {
                            &&& rows matches WalkView::Listed(all)
                            &&& all.len() == 1 + below.len()
                            &&& is_row_of_child(all[0], child, depth, expanded)
                            &&& all.skip(1) == below
                        },
                        WalkView::Unread(missing) => rows == WalkView::Unread(missing),
                    }
                } else {
                    rows == WalkView::Unread(child.path)
                }
            } else {
                &&& rows matches WalkView::Listed(all)
                &&& all.len() == 1
                &&& is_row_of_child(all[0], child, depth, expanded)
            }
        }),
{
    let one = seq![child];
    let rows = walk(disk, expanded, dir, one, depth);
    assert(one[0] == child);
    assert(one.drop_first() =~= Seq::<ChildView>::empty());
    assert(walk(disk, expanded, dir, one.drop_first(), depth) == WalkView::Listed(
        Seq::<EntryView>::empty(),
    ));
    if child.kind == EntryKind::Directory && expanded.contains(child.path) && disk.contains_key(
        child.path,
    ) {
        match walk(disk, expanded, child.path, disk[child.path], depth + 1) {
            WalkView::Listed(below) => {
                assert(rows->Listed_0.skip(1) =~= below);
            },
            WalkView::Unread(_) => {},
        }
    }
}

/// The rows of some children and then of others are those of the first and behind them those of the
/// others. What is to be read first among the first children, is to be read first of all.
pub proof fn lemma_rows_follow_the_children(
    disk: Map<PathView, Seq<ChildView>>,
    expanded: Set<PathView>,
    dir: PathView,
    first: Seq<ChildView>,
    others: Seq<ChildView>,
    depth: nat,
)
    requires
        expanded.finite(),
    ensures
        walk(disk, expanded, dir, Seq::empty(), depth) == WalkView::Listed(
            Seq::<EntryView>::empty(),
        ),
        walk(disk, expanded, dir, first, depth) matches WalkView::Unread(missing) ==> walk(
            disk,
            expanded,
            dir,
            first + others,
            depth,
        ) == WalkView::Unread(missing),
        walk(disk, expanded, dir, first, depth) matches WalkView::Listed(a) ==> (match walk(
            disk,
            expanded,
            dir,
            others,
            depth,
        ) {
            WalkView::Listed(b) => walk(disk, expanded, dir, first + others, depth)
                == WalkView::Listed(a + b),
            WalkView::Unread(missing) => walk(disk, expanded, dir, first + others, depth)
                == WalkView::Unread(missing),
        }),
    decreases first.len(),
{
    let all = first + others;
    if first.len() == 0 {
        assert(all =~= others);
        if walk(disk, expanded, dir, others, depth) is Listed {
            let b = walk(disk, expanded, dir, others, depth)->Listed_0;
            assert(Seq::<EntryView>::empty() + b =~= b);
        }
    } else {
        let rest = first.drop_first();
        assert(all.drop_first() =~= rest + others);
        assert(all[0] == first[0]);
        lemma_rows_follow_the_children(disk, expanded, dir, rest, others, depth);
        if walk(disk, expanded, dir, first, depth) is Listed && walk(
            disk,
            expanded,
            dir,
            others,
            depth,
        ) is Listed {
            let a = walk(disk, expanded, dir, first, depth)->Listed_0;
            let b = walk(disk, expanded, dir, others, depth)->Listed_0;
            let c = walk(disk, expanded, dir, rest, depth)->Listed_0;
            let d = walk(disk, expanded, dir, all, depth)->Listed_0;
            let n = a.len() - c.len();
            assert(a =~= a.take(n) + c);
            assert(d =~= a.take(n) + (c + b));
            assert(d =~= a + b);
        }
    }
}

/// The rows of a tree are those of the children of its root, at no depth. The root has to be listed.
pub proof fn lemma_rows_of_a_tree(
    disk: Map<PathView, Seq<ChildView>>,
    expanded: Set<PathView>,
    root: PathView,
)
    ensures
        disk.contains_key(root) ==> tree_rows(disk, expanded, root) == walk(
            disk,
            expanded,
            root,
            disk[root],
            0,
        ),
        !disk.contains_key(root) ==> tree_rows(disk, expanded, root) == WalkView::Unread(root),
{
}

/// The rows of the depth `depth`, in order.
pub open spec fn of_depth(rows: Seq<EntryView>, depth: nat) -> Seq<EntryView> {
    rows.filter(|row: EntryView| row.depth == depth)
}

proof fn lemma_deeper_rows(rows: Seq<EntryView>, depth: nat)
    requires
        forall|i: int| 0 <= i < rows.len() ==> (#[trigger] rows[i]).depth > depth,
    ensures
        of_depth(rows, depth).len() == 0,
{
    rows.lemma_all_neg_filter_empty(|row: EntryView| row.depth == depth);
}

/// The rows of the least depth are those of the children, all of them and in their order.
pub proof fn lemma_siblings_keep_their_order(
    disk: Map<PathView, Seq<ChildView>>,
    expanded: Set<PathView>,
    dir: PathView,
    children: Seq<ChildView>,
    depth: nat,
)
    requires
        expanded.finite(),
        lists_below(disk),
        all_below(children, dir),
        walk(disk, expanded, dir, children, depth) is Listed,
    ensures
        ({
            let rows = of_depth(walk(disk, expanded, dir, children, depth)->Listed_0, depth);
            &&& rows.len() == children.len()
            &&& forall|i: int|
                0 <= i < rows.len() ==> is_row_of_child(
                    #[trigger] rows[i],
                    children[i],
                    depth,
                    expanded,
                )
        }),
    decreases children.len(),
{
    let at = |row: EntryView| row.depth == depth;
    let rows = walk(disk, expanded, dir, children, depth)->Listed_0;
    reveal(Seq::filter);
    if children.len() == 0 {
        assert(rows.len() == 0);
        assert(rows.filter(at).len() == 0);
    } else {
        let child = children[0];
        let rest = children.drop_first();
        assert(child.path.is_below(dir));
        lemma_rest_is_below(children, dir);
        assert(children =~= seq![child] + rest);
        lemma_rows_of_one_child(disk, expanded, dir, child, depth);
        lemma_rows_follow_the_children(disk, expanded, dir, seq![child], rest, depth);
        lemma_siblings_keep_their_order(disk, expanded, dir, rest, depth);
        let first = walk(disk, expanded, dir, seq![child], depth)->Listed_0;
        let tail = walk(disk, expanded, dir, rest, depth)->Listed_0;
        assert(rows == first + tail);
        let below = first.skip(1);
        if child.kind == EntryKind::Directory && expanded.contains(child.path) {
            lemma_expanded_below_shrinks(expanded, dir, child.path);
            lemma_rows_are_nested(disk, expanded, child.path, disk[child.path], depth + 1);
            assert forall|i: int| 0 <= i < below.len() implies (#[trigger] below[i]).depth > depth by {
                assert(is_row_of(disk, expanded, disk[child.path], depth + 1, below, i));
            }
        }
        lemma_deeper_rows(below, depth);
        assert(first =~= seq![first[0]] + below);
        Seq::filter_distributes_over_add(seq![first[0]], below, at);
        Seq::filter_distributes_over_add(first, tail, at);
        let head = seq![first[0]];
        assert(head.drop_last() =~= Seq::<EntryView>::empty());
        assert(head.drop_last().filter(at) =~= Seq::<EntryView>::empty());
        assert(head.filter(at) =~= seq![first[0]]);
        let out = rows.filter(at);
        assert(out =~= seq![first[0]] + tail.filter(at));
        assert forall|i: int| 0 <= i < out.len() implies is_row_of_child(
            #[trigger] out[i],
            children[i],
            depth,
            expanded,
        ) by {
            if i > 0 {
                let k = i - 1;
                assert(out[i] == tail.filter(at)[k]);
                assert(rest[k] == children[i]);
                assert(is_row_of_child(of_depth(tail, depth)[k], rest[k], depth, expanded));
            }
        }
    }
}

} // verus!
