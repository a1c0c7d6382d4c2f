//! What holds of the rows that show a tree.
use crate::entry::{entry_row, EntryKind, EntryView};
use crate::listing::{all_below, lemma_rest_is_below, lists_below, ChildView};
use crate::path::{lemma_below_is_strict_order, PathView};
use crate::sidebar::{position, shallower_before};
use crate::tree::{
    child_rows, expanded_below, lemma_expanded_below_shrinks, lemma_walk_step, tree_rows, walk,
    WalkView,
};
use vstd::prelude::*;

verus! {

/// One of `children` has the given path and kind.
pub open spec fn has_child(children: Seq<ChildView>, path: PathView, kind: EntryKind) -> bool {
    exists|i: int|
        0 <= i < children.len() && (#[trigger] children[i]).path == path && children[i].kind == kind
}

/// Row `p` shows the expanded directory in which the listing has the entry of row `i`, and all
/// rows between them belong to the same directory.
pub open spec fn is_parent_row(
    disk: Map<PathView, Seq<ChildView>>,
    rows: Seq<EntryView>,
    p: int,
    i: int,
) -> bool {
    &&& 0 <= p < i < rows.len()
    &&& rows[p].depth + 1 == rows[i].depth
    &&& rows[p].kind == EntryKind::Directory
    &&& rows[p].expanded
    &&& disk.contains_key(rows[p].path)
    &&& has_child(disk[rows[p].path], rows[i].path, rows[i].kind)
    &&& forall|k: int| p < k < i ==> (#[trigger] rows[k]).depth >= rows[i].depth
}

/// What is known of row `i` of the rows of `children`, which are children of `dir`.
pub open spec fn is_row_of(
    disk: Map<PathView, Seq<ChildView>>,
    expanded: Set<PathView>,
    children: Seq<ChildView>,
    depth: nat,
    rows: Seq<EntryView>,
    i: int,
) -> bool {
    let row = rows[i];
    &&& row.depth >= depth
    &&& row == entry_row(
        row.path,
        row.depth,
        row.kind,
        row.kind == EntryKind::Directory && expanded.contains(row.path),
    )
    &&& row.depth == depth ==> has_child(children, row.path, row.kind)
    &&& row.depth > depth ==> exists|p: int| is_parent_row(disk, rows, p, i)
}

proof fn lemma_parent_row_shifts(
    disk: Map<PathView, Seq<ChildView>>,
    a: Seq<EntryView>,
    b: Seq<EntryView>,
    c: Seq<EntryView>,
    p: int,
    i: int,
)
    requires
        is_parent_row(disk, b, p, i),
    ensures
        is_parent_row(disk, a + b + c, a.len() + p, a.len() + i),
{
    let all = a + b + c;
    let n = a.len() as int;
    assert(all[n + p] == b[p]);
    assert(all[n + i] == b[i]);
    assert forall|k: int| n + p < k < n + i implies (#[trigger] all[k]).depth >= all[n + i].depth by {
        assert(all[k] == b[k - n]);
    }
}

/// Every row has the label that belongs to it; the rows of the least depth show the children, and
/// each other row has a parent row.
pub proof fn lemma_rows_are_nested(
    disk: Map<PathView, Seq<ChildView>>,
    expanded: Set<PathView>,
    dir: PathView,
    children: Seq<ChildView>,
    depth: nat,
)
    requires
        expanded.finite(),
        lists_below(disk),
        all_below(children, dir),
        walk(disk, expanded, dir, children, depth) is Listed,
    ensures
        forall|i: int|
            0 <= i < walk(disk, expanded, dir, children, depth)->Listed_0.len() ==> #[trigger]
            is_row_of(
                disk,
                expanded,
                children,
                depth,
                walk(disk, expanded, dir, children, depth)->Listed_0,
                i,
            ),
    decreases expanded_below(expanded, dir).len(), children.len(),
{
    let rows = walk(disk, expanded, dir, children, depth)->Listed_0;
    if children.len() > 0 {
        let child = children[0];
        let rest = children.drop_first();
        assert(child.path.is_below(dir));
        lemma_walk_step(disk, expanded, dir, children, depth);
        lemma_rest_is_below(children, dir);
        lemma_rows_are_nested(disk, expanded, dir, rest, depth);
        let tail = walk(disk, expanded, dir, rest, depth)->Listed_0;
        let opened = child.kind == EntryKind::Directory && expanded.contains(child.path);
        let row = entry_row(child.path, depth, child.kind, opened);
        let sub = if opened {
            walk(disk, expanded, child.path, disk[child.path], depth + 1)->Listed_0
        } else {
            Seq::<EntryView>::empty()
        };
        if opened {
            lemma_expanded_below_shrinks(expanded, dir, child.path);
            lemma_rows_are_nested(disk, expanded, child.path, disk[child.path], depth + 1);
        }
        assert(rows =~= seq![row] + sub + tail);
        let n = 1 + sub.len() as int;
        assert forall|i: int| 0 <= i < rows.len() implies #[trigger] is_row_of(
            disk,
            expanded,
            children,
            depth,
            rows,
            i,
        ) by {
            if i == 0 {
                assert(rows[0] == row);
                assert(has_child(children, row.path, row.kind)) by {
                    assert(children[0] == child);
                }
            } else if i < n {
                assert(rows[i] == sub[i - 1]);
                assert(is_row_of(disk, expanded, disk[child.path], depth + 1, sub, i - 1));
                if sub[i - 1].depth > depth + 1 {
                    let j = i - 1;
                    let p = choose|p: int| is_parent_row(disk, sub, p, j);
                    lemma_parent_row_shifts(disk, seq![row], sub, tail, p, j);
                    assert(is_parent_row(disk, rows, 1 + p, i));
                } else {
                    assert forall|k: int| 0 < k < i implies (#[trigger] rows[k]).depth
                        >= rows[i].depth by {
                        assert(rows[k] == sub[k - 1]);
                        assert(is_row_of(disk, expanded, disk[child.path], depth + 1, sub, k - 1));
                    }
                    assert(rows[0] == row);
                    assert(is_parent_row(disk, rows, 0, i));
                }
            } else {
                assert(rows[i] == tail[i - n]);
                assert(is_row_of(disk, expanded, rest, depth, tail, i - n));
                if tail[i - n].depth > depth {
                    let j = i - n;
                    let p = choose|p: int| is_parent_row(disk, tail, p, j);
                    lemma_parent_row_shifts(
                        disk,
                        seq![row] + sub,
                        tail,
                        Seq::<EntryView>::empty(),
                        p,
                        j,
                    );
                    assert((seq![row] + sub) + tail + Seq::<EntryView>::empty() =~= rows);
                    assert(is_parent_row(disk, rows, n + p, i));
                } else {
                    let k = choose|k: int|
                        0 <= k < rest.len() && (#[trigger] rest[k]).path == tail[i - n].path
                            && rest[k].kind == tail[i - n].kind;
                    assert(children[k + 1] == rest[k]);
                }
            }
        }
    }
}

proof fn lemma_shallower_before(
    disk: Map<PathView, Seq<ChildView>>,
    rows: Seq<EntryView>,
    p: int,
    i: int,
    k: int,
)
    requires
        is_parent_row(disk, rows, p, i),
        p < k <= i,
    ensures
        shallower_before(rows, k, rows[i].depth) == Some(p),
    decreases k,
{
    if k - 1 > p {
        assert(rows[k - 1].depth >= rows[i].depth);
        lemma_shallower_before(disk, rows, p, i, k - 1);
    }
}

/// The last less deep row before a row shows the directory that holds its entry.
pub proof fn lemma_parent_row(
    disk: Map<PathView, Seq<ChildView>>,
    expanded: Set<PathView>,
    root: PathView,
    i: int,
)
    requires
        expanded.finite(),
        lists_below(disk),
        tree_rows(disk, expanded, root) is Listed,
        0 <= i < tree_rows(disk, expanded, root)->Listed_0.len(),
        tree_rows(disk, expanded, root)->Listed_0[i].depth > 0,
    ensures
        ({
            let rows = tree_rows(disk, expanded, root)->Listed_0;
            shallower_before(rows, i, rows[i].depth) matches Some(p) && is_parent_row(
                disk,
                rows,
                p,
                i,
            ) && rows[i].path.is_below(rows[p].path)
        }),
{
    let rows = tree_rows(disk, expanded, root)->Listed_0;
    lemma_rows_are_nested(disk, expanded, root, disk[root], 0);
    assert(is_row_of(disk, expanded, disk[root], 0, rows, i));
    let p = choose|p: int| is_parent_row(disk, rows, p, i);
    lemma_shallower_before(disk, rows, p, i, i);
    let listed = disk[rows[p].path];
    assert(all_below(listed, rows[p].path));
    let k = choose|k: int|
        0 <= k < listed.len() && (#[trigger] listed[k]).path == rows[i].path && listed[k].kind
            == rows[i].kind;
    assert(listed[k].path.is_below(rows[p].path));
}

/// A directory that has to be read is not in the listing, and it is the root or expanded: the
/// number of directories that are asked for one after the other is limited.
pub proof fn lemma_unread_is_new(
    disk: Map<PathView, Seq<ChildView>>,
    expanded: Set<PathView>,
    root: PathView,
)
    requires
        expanded.finite(),
        tree_rows(disk, expanded, root) is Unread,
    ensures
        !disk.contains_key(tree_rows(disk, expanded, root)->Unread_0),
        tree_rows(disk, expanded, root)->Unread_0 == root || expanded.contains(
            tree_rows(disk, expanded, root)->Unread_0,
        ),
{
    if disk.contains_key(root) {
        lemma_walk_unread(disk, expanded, root, disk[root], 0);
    }
}

proof fn lemma_walk_unread(
    disk: Map<PathView, Seq<ChildView>>,
    expanded: Set<PathView>,
    dir: PathView,
    children: Seq<ChildView>,
    depth: nat,
)
    requires
        expanded.finite(),
        walk(disk, expanded, dir, children, depth) is Unread,
    ensures
        !disk.contains_key(walk(disk, expanded, dir, children, depth)->Unread_0),
        expanded.contains(walk(disk, expanded, dir, children, depth)->Unread_0),
    decreases expanded_below(expanded, dir).len(), children.len(),
{
    if children.len() > 0 {
        let child = children[0];
        let opened = child.kind == EntryKind::Directory && expanded.contains(child.path);
        if opened && child.path.is_below(dir) && disk.contains_key(child.path) {
            lemma_expanded_below_shrinks(expanded, dir, child.path);
            if walk(disk, expanded, child.path, disk[child.path], depth + 1) is Unread {
                lemma_walk_unread(disk, expanded, child.path, disk[child.path], depth + 1);
            }
        }
        if walk(disk, expanded, dir, children.drop_first(), depth) is Unread {
            lemma_walk_unread(disk, expanded, dir, children.drop_first(), depth);
        }
    }
}

/// `position` gives a row that shows the path, and gives none only where there is no such row.
pub proof fn lemma_position(rows: Seq<EntryView>, path: PathView)
    ensures
        position(rows, path) matches Some(i) ==> 0 <= i < rows.len() && rows[i].path == path,
        position(rows, path) is Some <==> exists|i: int|
            0 <= i < rows.len() && (#[trigger] rows[i]).path == path,
        position(rows, path) matches Some(i) ==> forall|k: int|
            0 <= k < i ==> (#[trigger] rows[k]).path != path,
    decreases rows.len(),
{
    if rows.len() > 0 {
        let front = rows.drop_last();
        lemma_position(front, path);
        assert(forall|k: int| 0 <= k < front.len() ==> front[k] == rows[k]);
        if exists|i: int| 0 <= i < rows.len() && (#[trigger] rows[i]).path == path {
            let i = choose|i: int| 0 <= i < rows.len() && (#[trigger] rows[i]).path == path;
            if i < front.len() {
                assert(front[i].path == path);
            }
        }
        if position(front, path) is Some {
            let i = position(front, path)->0;
            assert(rows[i].path == path);
        } else if rows.last().path == path {
            assert(rows[rows.len() - 1].path == path);
            assert forall|k: int| 0 <= k < rows.len() - 1 implies (#[trigger] rows[k]).path
                != path by {
                assert(front[k] == rows[k]);
            }
        }
    }
}

proof fn lemma_position_add(a: Seq<EntryView>, b: Seq<EntryView>, path: PathView)
    ensures
        position(a + b, path) == match position(a, path) {
            Some(i) => Some(i),
            None => match position(b, path) {
                Some(i) => Some(a.len() + i),
                None => None,
            },
        },
    decreases b.len(),
{
    if b.len() == 0 {
        assert(a + b == a);
    } else {
        lemma_position_add(a, b.drop_last(), path);
        assert((a + b).drop_last() == a + b.drop_last());
    }
}

proof fn lemma_position_one(row: EntryView, path: PathView)
    ensures
        position(seq![row], path) == if row.path == path {
            Some(0int)
        } else {
            None
        },
{
    assert(seq![row].drop_last() == Seq::<EntryView>::empty());
    assert(position(Seq::<EntryView>::empty(), path) is None);
}

/// What two sets of rows have in common that differ in whether the directory `path` is expanded:
/// its row is at the same place in both, and without such a row they are the same.
pub open spec fn differ_below(a: Seq<EntryView>, b: Seq<EntryView>, path: PathView) -> bool {
    match position(a, path) {
        Some(i) => {
            &&& position(b, path) == Some(i)
            &&& 0 <= i < a.len()
            &&& i < b.len()
            &&& a[i].kind == b[i].kind
        },
        None => a == b,
    }
}

proof fn lemma_differ_below_add(
    a1: Seq<EntryView>,
    b1: Seq<EntryView>,
    a2: Seq<EntryView>,
    b2: Seq<EntryView>,
    path: PathView,
)
    requires
        differ_below(a1, b1, path),
        position(a1, path) is None ==> differ_below(a2, b2, path),
    ensures
        differ_below(a1 + a2, b1 + b2, path),
{
    lemma_position_add(a1, a2, path);
    lemma_position_add(b1, b2, path);
    if position(a1, path) is Some {
        let i = position(a1, path)->0;
        assert((a1 + a2)[i] == a1[i]);
        assert((b1 + b2)[i] == b1[i]);
    } else if position(a2, path) is Some {
        let i = position(a2, path)->0;
        assert((a1 + a2)[a1.len() + i] == a2[i]);
        assert((b1 + b2)[b1.len() + i] == b2[i]);
    }
}

/// Expanding one more directory needs to read no less, and changes nothing up to the row of that
/// directory.
pub proof fn lemma_one_more_expanded(
    disk: Map<PathView, Seq<ChildView>>,
    expanded: Set<PathView>,
    path: PathView,
    dir: PathView,
    children: Seq<ChildView>,
    depth: nat,
)
    requires
        expanded.finite(),
        !expanded.contains(path),
        lists_below(disk),
        all_below(children, dir),
    ensures
        walk(disk, expanded.insert(path), dir, children, depth) is Listed ==> {
            &&& walk(disk, expanded, dir, children, depth) is Listed
            &&& differ_below(
                walk(disk, expanded, dir, children, depth)->Listed_0,
                walk(disk, expanded.insert(path), dir, children, depth)->Listed_0,
                path,
            )
        },
        walk(disk, expanded, dir, children, depth) matches WalkView::Listed(rows) ==> position(
            rows,
            path,
        ) is None ==> walk(disk, expanded.insert(path), dir, children, depth) == walk(
            disk,
            expanded,
            dir,
            children,
            depth,
        ),
    decreases expanded_below(expanded.insert(path), dir).len(), children.len(),
{
    let more = expanded.insert(path);
    if children.len() > 0 {
        let child = children[0];
        let rest = children.drop_first();
        assert(child.path.is_below(dir));
        lemma_rest_is_below(children, dir);
        lemma_one_more_expanded(disk, expanded, path, dir, rest, depth);
        lemma_walk_step(disk, expanded, dir, children, depth);
        lemma_walk_step(disk, more, dir, children, depth);
        let first_a = child_rows(disk, expanded, child, depth);
        let first_b = child_rows(disk, more, child, depth);
        let tail_a = walk(disk, expanded, dir, rest, depth);
        let tail_b = walk(disk, more, dir, rest, depth);
        let opened_a = child.kind == EntryKind::Directory && expanded.contains(child.path);
        let opened_b = child.kind == EntryKind::Directory && more.contains(child.path);
        let row_a = entry_row(child.path, depth, child.kind, opened_a);
        let row_b = entry_row(child.path, depth, child.kind, opened_b);
        lemma_position_one(row_a, path);
        lemma_position_one(row_b, path);
        if opened_b && disk.contains_key(child.path) {
            lemma_expanded_below_shrinks(more, dir, child.path);
            lemma_one_more_expanded(
                disk,
                expanded,
                path,
                child.path,
                disk[child.path],
                depth + 1,
            );
        }
        // The first child alone.
        if first_b is Listed {
            assert(first_a is Listed);
            if opened_b {
                let sub_b = walk(disk, more, child.path, disk[child.path], depth + 1)->Listed_0;
                if child.path == path {
                    lemma_position_add(seq![row_b], sub_b, path);
                    assert(differ_below(first_a->Listed_0, first_b->Listed_0, path));
                } else {
                    let sub_a = walk(
                        disk,
                        expanded,
                        child.path,
                        disk[child.path],
                        depth + 1,
                    )->Listed_0;
                    lemma_differ_below_add(seq![row_a], seq![row_b], sub_a, sub_b, path);
                }
            } else {
                assert(differ_below(first_a->Listed_0, first_b->Listed_0, path));
            }
        }
        if first_a is Listed && position(first_a->Listed_0, path) is None {
            assert(first_b == first_a) by {
                if opened_a {
                    let sub_a = walk(
                        disk,
                        expanded,
                        child.path,
                        disk[child.path],
                        depth + 1,
                    )->Listed_0;
                    lemma_position_add(seq![row_a], sub_a, path);
                }
            }
        }
        // The first child and the others.
        if walk(disk, more, dir, children, depth) is Listed {
            if position(first_a->Listed_0, path) is None {
                assert(first_b == first_a);
            }
            lemma_differ_below_add(
                first_a->Listed_0,
                first_b->Listed_0,
                tail_a->Listed_0,
                tail_b->Listed_0,
                path,
            );
        }
        if walk(disk, expanded, dir, children, depth) is Listed {
            lemma_position_add(first_a->Listed_0, tail_a->Listed_0, path);
        }
    }
}

/// One of the rows shows the given path as an entry of the given kind.
pub open spec fn shows(rows: Seq<EntryView>, path: PathView, kind: EntryKind) -> bool {
    exists|i: int| 0 <= i < rows.len() && (#[trigger] rows[i]).path == path && rows[i].kind == kind
}

proof fn lemma_shows_add(
    a: Seq<EntryView>,
    b: Seq<EntryView>,
    path: PathView,
    kind: EntryKind,
)
    ensures
        shows(a, path, kind) || shows(b, path, kind) ==> shows(a + b, path, kind),
{
    if shows(a, path, kind) {
        let i = choose|i: int|
            0 <= i < a.len() && (#[trigger] a[i]).path == path && a[i].kind == kind;
        assert((a + b)[i] == a[i]);
    } else if shows(b, path, kind) {
        let i = choose|i: int|
            0 <= i < b.len() && (#[trigger] b[i]).path == path && b[i].kind == kind;
        assert((a + b)[a.len() + i] == b[i]);
    }
}

/// Every child has a row.
proof fn lemma_children_are_shown(
    disk: Map<PathView, Seq<ChildView>>,
    expanded: Set<PathView>,
    dir: PathView,
    children: Seq<ChildView>,
    depth: nat,
    path: PathView,
    kind: EntryKind,
)
    requires
        expanded.finite(),
        all_below(children, dir),
        walk(disk, expanded, dir, children, depth) is Listed,
        has_child(children, path, kind),
    ensures
        shows(walk(disk, expanded, dir, children, depth)->Listed_0, path, kind),
    decreases children.len(),
{
    let k = choose|k: int|
        0 <= k < children.len() && (#[trigger] children[k]).path == path && children[k].kind
            == kind;
    let child = children[0];
    let rest = children.drop_first();
    assert(child.path.is_below(dir));
    lemma_rest_is_below(children, dir);
    lemma_walk_step(disk, expanded, dir, children, depth);
    let first = child_rows(disk, expanded, child, depth)->Listed_0;
    let tail = walk(disk, expanded, dir, rest, depth)->Listed_0;
    if k == 0 {
        assert(first[0].path == path && first[0].kind == kind);
    } else {
        assert(rest[k - 1] == children[k]);
        lemma_children_are_shown(disk, expanded, dir, rest, depth, path, kind);
    }
    lemma_shows_add(first, tail, path, kind);
}

/// Where a directory is shown and expanded, every entry of it is shown.
proof fn lemma_contents_are_shown(
    disk: Map<PathView, Seq<ChildView>>,
    expanded: Set<PathView>,
    dir: PathView,
    children: Seq<ChildView>,
    depth: nat,
    parent: PathView,
    path: PathView,
    kind: EntryKind,
)
    requires
        expanded.finite(),
        lists_below(disk),
        all_below(children, dir),
        walk(disk, expanded, dir, children, depth) is Listed,
        shows(
            walk(disk, expanded, dir, children, depth)->Listed_0,
            parent,
            EntryKind::Directory,
        ),
        expanded.contains(parent),
        disk.contains_key(parent),
        has_child(disk[parent], path, kind),
    ensures
        shows(walk(disk, expanded, dir, children, depth)->Listed_0, path, kind),
    decreases expanded_below(expanded, dir).len(), children.len(),
{
    let rows = walk(disk, expanded, dir, children, depth)->Listed_0;
    let at = choose|i: int|
        0 <= i < rows.len() && (#[trigger] rows[i]).path == parent && rows[i].kind
            == EntryKind::Directory;
    assert(children.len() > 0);
    let child = children[0];
    let rest = children.drop_first();
    assert(child.path.is_below(dir));
    lemma_rest_is_below(children, dir);
    lemma_walk_step(disk, expanded, dir, children, depth);
    let first = child_rows(disk, expanded, child, depth)->Listed_0;
    let tail = walk(disk, expanded, dir, rest, depth)->Listed_0;
    let opened = child.kind == EntryKind::Directory && expanded.contains(child.path);
    let row = entry_row(child.path, depth, child.kind, opened);
    if at < first.len() {
        assert(rows[at] == first[at]);
        if at == 0 {
            assert(child.path == parent);
        }
        assert(opened);
        let sub = walk(disk, expanded, child.path, disk[child.path], depth + 1)->Listed_0;
        assert(first == seq![row] + sub);
        if at == 0 {
            lemma_children_are_shown(
                disk,
                expanded,
                child.path,
                disk[child.path],
                depth + 1,
                path,
                kind,
            );
        } else {
            assert(sub[at - 1] == rows[at]);
            lemma_expanded_below_shrinks(expanded, dir, child.path);
            lemma_contents_are_shown(
                disk,
                expanded,
                child.path,
                disk[child.path],
                depth + 1,
                parent,
                path,
                kind,
            );
        }
        lemma_shows_add(seq![row], sub, path, kind);
    } else {
        assert(rows[at] == tail[at - first.len()]);
        lemma_contents_are_shown(disk, expanded, dir, rest, depth, parent, path, kind);
    }
    lemma_shows_add(first, tail, path, kind);
}

/// The listing leads from `root` to `path`: it has `path` in its parent, that in its own parent,
/// and so on up to `root`.
pub open spec fn leads_to(
    disk: Map<PathView, Seq<ChildView>>,
    root: PathView,
    path: PathView,
    kind: EntryKind,
) -> bool
    decreases path.parts.len(),
{
    match path.parent() {
        Some(dir) => {
            &&& disk.contains_key(dir)
            &&& has_child(disk[dir], path, kind)
            &&& dir == root || leads_to(disk, root, dir, EntryKind::Directory)
        },
        None => false,
    }
}

/// `ancestor` is `path` without some of its last names.
pub open spec fn is_ancestor(ancestor: PathView, path: PathView) -> bool {
    &&& ancestor.absolute == path.absolute
    &&& ancestor.parts.len() < path.parts.len()
    &&& ancestor.parts == path.parts.take(ancestor.parts.len() as int)
}

/// An entry to which the listing leads is shown if all directories on the way are expanded.
pub proof fn lemma_entries_on_the_way_are_shown(
    disk: Map<PathView, Seq<ChildView>>,
    expanded: Set<PathView>,
    root: PathView,
    path: PathView,
    kind: EntryKind,
)
    requires
        expanded.finite(),
        lists_below(disk),
        tree_rows(disk, expanded, root) is Listed,
        leads_to(disk, root, path, kind),
        forall|q: PathView|
            #[trigger] is_ancestor(q, path) && q.starts_with(root) && q != root
                ==> expanded.contains(q),
    ensures
        shows(tree_rows(disk, expanded, root)->Listed_0, path, kind),
        path.starts_with(root),
        path != root,
    decreases path.parts.len(),
{
    let dir = path.parent()->0;
    assert(is_ancestor(dir, path)) by {
        assert(path.parts.drop_last() == path.parts.take(path.parts.len() - 1));
    }
    assert(all_below(disk[dir], dir));
    let k = choose|k: int|
        0 <= k < disk[dir].len() && (#[trigger] disk[dir][k]).path == path && disk[dir][k].kind
            == kind;
    assert(disk[dir][k].path.is_below(dir));
    if dir == root {
        lemma_children_are_shown(disk, expanded, root, disk[root], 0, path, kind);
    } else {
        assert forall|q: PathView| #[trigger] is_ancestor(q, dir) && q.starts_with(root) && q
            != root implies expanded.contains(q) by {
            assert(is_ancestor(q, path)) by {
                assert(q.parts == path.parts.take(q.parts.len() as int));
            }
        }
        lemma_entries_on_the_way_are_shown(disk, expanded, root, dir, EntryKind::Directory);
        lemma_contents_are_shown(disk, expanded, root, disk[root], 0, dir, path, kind);
        lemma_below_is_strict_order(path, dir, root);
    }
}

/// The children lie directly in `dir`, and no two of them have the same path.
pub open spec fn are_direct(children: Seq<ChildView>, dir: PathView) -> bool {
    &&& forall|i: int| 0 <= i < children.len() ==> (#[trigger] children[i]).path.parent() == Some(dir)
    &&& forall|i: int, j: int|
        0 <= i < j < children.len() ==> (#[trigger] children[i]).path != (
        #[trigger] children[j]).path
}

/// Every listed directory has its own entries as children, each once.
pub open spec fn lists_directly(disk: Map<PathView, Seq<ChildView>>) -> bool {
    forall|dir: PathView| #[trigger] disk.contains_key(dir) ==> are_direct(disk[dir], dir)
}

/// No two rows show the same path.
pub open spec fn are_distinct(rows: Seq<EntryView>) -> bool {
    forall|i: int, j: int|
        0 <= i < j < rows.len() ==> (#[trigger] rows[i]).path != (#[trigger] rows[j]).path
}

/// Row `i` shows one of `children` or something below it.
pub open spec fn is_in_branch(rows: Seq<EntryView>, i: int, children: Seq<ChildView>) -> bool {
    exists|k: int|
        0 <= k < children.len() && rows[i].path.starts_with((#[trigger] children[k]).path)
}

proof fn lemma_siblings_are_apart(path: PathView, a: PathView, b: PathView, dir: PathView)
    requires
        a.parent() == Some(dir),
        b.parent() == Some(dir),
        path.starts_with(a),
        path.starts_with(b),
    ensures
        a == b,
{
    assert(a.parent()->0.parts.len() == a.parts.len() - 1);
    assert(b.parent()->0.parts.len() == b.parts.len() - 1);
    assert(a.parts == path.parts.subrange(0, a.parts.len() as int));
    assert(b.parts == path.parts.subrange(0, b.parts.len() as int));
    assert(a =~= b);
}

/// A listing of directories as they are is a listing of what lies below them.
pub proof fn lemma_direct_is_below(disk: Map<PathView, Seq<ChildView>>)
    requires
        lists_directly(disk),
    ensures
        lists_below(disk),
{
    assert forall|dir: PathView| #[trigger] disk.contains_key(dir) implies all_below(disk[dir], dir) by {
        let children = disk[dir];
        assert forall|i: int| 0 <= i < children.len() implies (#[trigger] children[i]).path.is_below(
            dir,
        ) by {
            lemma_child_is_below(children[i].path, dir);
        }
    }
}

proof fn lemma_child_is_below(path: PathView, dir: PathView)
    requires
        path.parent() == Some(dir),
    ensures
        path.is_below(dir),
{
    assert(dir.parts == path.parts.subrange(0, dir.parts.len() as int));
    assert(path.parts.len() != dir.parts.len());
}

/// No path has two rows, where the directories are listed as they are.
pub proof fn lemma_rows_are_distinct(
    disk: Map<PathView, Seq<ChildView>>,
    expanded: Set<PathView>,
    dir: PathView,
    children: Seq<ChildView>,
    depth: nat,
)
    requires
        expanded.finite(),
        lists_directly(disk),
        are_direct(children, dir),
        walk(disk, expanded, dir, children, depth) is Listed,
    ensures
        are_distinct(walk(disk, expanded, dir, children, depth)->Listed_0),
        forall|i: int|
            0 <= i < walk(disk, expanded, dir, children, depth)->Listed_0.len() ==> #[trigger]
            is_in_branch(walk(disk, expanded, dir, children, depth)->Listed_0, i, children),
    decreases expanded_below(expanded, dir).len(), children.len(),
{
    let rows = walk(disk, expanded, dir, children, depth)->Listed_0;
    if children.len() > 0 {
        let child = children[0];
        let rest = children.drop_first();
        lemma_child_is_below(child.path, dir);
        assert(are_direct(rest, dir)) by {
            assert forall|i: int| 0 <= i < rest.len() implies (#[trigger] rest[i]).path.parent()
                == Some(dir) by {
                assert(rest[i] == children[i + 1]);
            }
            assert forall|i: int, j: int| 0 <= i < j < rest.len() implies (#[trigger] rest[i]).path
                != (#[trigger] rest[j]).path by {
                assert(rest[i] == children[i + 1]);
                assert(rest[j] == children[j + 1]);
            }
        }
        lemma_walk_step(disk, expanded, dir, children, depth);
        lemma_rows_are_distinct(disk, expanded, dir, rest, depth);
        let tail = walk(disk, expanded, dir, rest, depth)->Listed_0;
        let opened = child.kind == EntryKind::Directory && expanded.contains(child.path);
        let row = entry_row(child.path, depth, child.kind, opened);
        let sub = if opened {
            walk(disk, expanded, child.path, disk[child.path], depth + 1)->Listed_0
        } else {
            Seq::<EntryView>::empty()
        };
        let first = seq![row] + sub;
        if opened {
            lemma_expanded_below_shrinks(expanded, dir, child.path);
            lemma_rows_are_distinct(disk, expanded, child.path, disk[child.path], depth + 1);
        }
        assert(rows =~= first + tail);
        assert forall|i: int| 0 <= i < sub.len() implies (#[trigger] sub[i]).path.is_below(
            child.path,
        ) by {
            let grand = disk[child.path];
            assert(is_in_branch(sub, i, grand));
            let k = choose|k: int|
                0 <= k < grand.len() && sub[i].path.starts_with((#[trigger] grand[k]).path);
            lemma_child_is_below(grand[k].path, child.path);
            lemma_below_is_strict_order(sub[i].path, grand[k].path, child.path);
        }
        assert(child.path.starts_with(child.path)) by {
            assert(child.path.parts == child.path.parts.subrange(
                0,
                child.path.parts.len() as int,
            ));
        }
        assert forall|i: int| 0 <= i < first.len() implies (#[trigger] first[i]).path.starts_with(
            child.path,
        ) by {
            if i > 0 {
                assert(first[i] == sub[i - 1]);
            }
        }
        assert forall|i: int| 0 <= i < rows.len() implies #[trigger] is_in_branch(rows, i, children) by {
            if i < first.len() {
                assert(rows[i] == first[i]);
                assert(rows[i].path.starts_with(children[0].path));
            } else {
                let j = i - first.len();
                assert(rows[i] == tail[j]);
                assert(is_in_branch(tail, j, rest));
                let k = choose|k: int|
                    0 <= k < rest.len() && tail[j].path.starts_with((#[trigger] rest[k]).path);
                assert(rest[k] == children[k + 1]);
                assert(rows[i].path.starts_with(children[k + 1].path));
            }
        }
        assert forall|i: int, j: int| 0 <= i < j < rows.len() implies (#[trigger] rows[i]).path != (
        #[trigger] rows[j]).path by {
            if j < first.len() {
                assert(rows[i] == first[i] && rows[j] == first[j]);
                assert(rows[j] == sub[j - 1]);
                if i > 0 {
                    assert(rows[i] == sub[i - 1]);
                }
            } else {
                let m = j - first.len();
                assert(rows[j] == tail[m]);
                if i < first.len() {
                    assert(rows[i] == first[i]);
                    if rows[i].path == rows[j].path {
                        assert(is_in_branch(tail, m, rest));
                        let k = choose|k: int|
                            0 <= k < rest.len() && tail[m].path.starts_with(
                                (#[trigger] rest[k]).path,
                            );
                        lemma_siblings_are_apart(rows[i].path, child.path, rest[k].path, dir);
                        assert(children[k + 1] == rest[k]);
                        assert(children[0].path != children[k + 1].path);
                    }
                } else {
                    assert(rows[i] == tail[i - first.len()]);
                }
            }
        }
    }
}

/// No path has two rows in the tree of `root`, where the directories are listed as they are.
pub proof fn lemma_tree_rows_are_distinct(
    disk: Map<PathView, Seq<ChildView>>,
    expanded: Set<PathView>,
    root: PathView,
)
    requires
        expanded.finite(),
        lists_directly(disk),
        tree_rows(disk, expanded, root) is Listed,
    ensures
        are_distinct(tree_rows(disk, expanded, root)->Listed_0),
{
    lemma_rows_are_distinct(disk, expanded, root, disk[root], 0);
}

} // verus!
