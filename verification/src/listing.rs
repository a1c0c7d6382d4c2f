//! What is known of the contents of directories.
use crate::entry::EntryKind;
use crate::order::{
    in_order, is_total_preorder, lemma_in_order, lemma_in_order_map, rank_order, stable_sort, Ranked,
};
use crate::path::{
    lemma_relation_chains, lemma_relation_flips, PathView, Relation, TreePath,
};
use crate::path_map::PathMap;
use crate::sidebar::FileTreeSidebar;
use vstd::prelude::*;

verus! {

/// An entry of a directory.
pub struct ChildView {
    pub path: PathView,
    pub kind: EntryKind,
}

impl ChildView {
    /// The order in which a directory is shown: its directories before its files, each group by
    /// path.
    pub open spec fn shown_before(self, other: ChildView) -> bool {
        if self.kind == other.kind {
            self.path.relation(other.path) != Relation::After
        } else {
            self.kind == EntryKind::Directory
        }
    }
}

pub open spec fn shown_order() -> spec_fn(ChildView, ChildView) -> bool {
    |a: ChildView, b: ChildView| a.shown_before(b)
}

/// An entry of a directory.
#[derive(Debug)]
pub struct Child {
    pub path: TreePath,
    pub kind: EntryKind,
}

impl View for Child {
    type V = ChildView;

    open spec fn view(&self) -> ChildView {
        ChildView { path: self.path@, kind: self.kind }
    }
}

pub open spec fn child_views(children: Seq<Child>) -> Seq<ChildView> {
    children.map_values(|c: Child| c@)
}

impl Ranked for Child {
    open spec fn rank_le(self, other: Child) -> bool {
        self@.shown_before(other@)
    }

    proof fn rank_is_total(a: Child, b: Child) {
        lemma_relation_flips(a@.path, b@.path);
    }

    proof fn rank_is_transitive(a: Child, b: Child, c: Child) {
        if a.kind == b.kind && b.kind == c.kind {
            lemma_relation_chains(a@.path, b@.path, c@.path);
        }
    }

    fn ranks_at_most(&self, other: &Child) -> (r: bool) {
        match (self.kind, other.kind) {
            (EntryKind::Directory, EntryKind::File) => true,
            (EntryKind::File, EntryKind::Directory) => false,
            _ => match self.path.compare(&other.path) {
                Relation::After => false,
                _ => true,
            },
        }
    }
}

/// What the walk of a directory reports of one entry: its path, and whether it is a directory
/// where its type is known.
pub struct WalkedView {
    pub path: PathView,
    pub is_dir: Option<bool>,
}

/// What the walk of a directory reports of one entry: its path, and whether it is a directory
/// where its type is known.
#[derive(Debug)]
pub struct WalkedEntry {
    pub path: TreePath,
    pub is_dir: Option<bool>,
}

impl View for WalkedEntry {
    type V = WalkedView;

    open spec fn view(&self) -> WalkedView {
        WalkedView { path: self.path@, is_dir: self.is_dir }
    }
}

/// The report of one step of a walk; `None` where the step failed.
pub open spec fn walked_view(w: Option<WalkedEntry>) -> Option<WalkedView> {
    match w {
        Some(e) => Some(e@),
        None => None,
    }
}

pub open spec fn walked_views(walked: Seq<Option<WalkedEntry>>) -> Seq<Option<WalkedView>> {
    walked.map_values(|w: Option<WalkedEntry>| walked_view(w))
}

/// The child of `dir` that a step of its walk reports. There is none where the step failed, where
/// the type of the entry is not known, and where the entry is `dir` itself.
pub open spec fn reported_child(w: Option<WalkedView>, dir: PathView) -> Option<ChildView> {
    match w {
        Some(e) => match e.is_dir {
            Some(is_dir) => if e.path == dir {
                None
            } else {
                Some(
                    ChildView {
                        path: e.path,
                        kind: if is_dir {
                            EntryKind::Directory
                        } else {
                            EntryKind::File
                        },
                    },
                )
            },
            None => None,
        },
        None => None,
    }
}

/// The children of `dir` that its walk reports, in the order of the walk.
pub open spec fn reported_children(walked: Seq<Option<WalkedView>>, dir: PathView) -> Seq<
    ChildView,
>
    decreases walked.len(),
{
    if walked.len() == 0 {
        Seq::empty()
    } else {
        let before = reported_children(walked.drop_last(), dir);
        match reported_child(walked.last(), dir) {
            Some(c) => before.push(c),
            None => before,
        }
    }
}

impl FileTreeSidebar {
    /// The children of `dir`, from what its walk reports, in the order in which they are shown.
    pub fn read_children(dir: &TreePath, walked: Vec<Option<WalkedEntry>>) -> (r: Vec<Child>)
        ensures
            child_views(r@) == in_order(
                reported_children(walked_views(walked@), dir@),
                shown_order(),
            ),
            (forall|i: int|
                0 <= i < walked@.len() && (#[trigger] walked@[i]) is Some ==> walked@[i]->0.path@.starts_with(
                    dir@,
                )) ==> all_below(child_views(r@), dir@),
            are_the_children(child_views(r@), walked_views(walked@), dir@),
    {
        let mut content: Vec<Child> = Vec::new();
        let ghost all = walked_views(walked@);
        let ghost origin = walked@;
        assert(child_views(content@) == Seq::<ChildView>::empty());
        for step in it: walked
            invariant
                it.seq() == origin,
                all == walked_views(origin),
                child_views(content@) == reported_children(all.take(it.index()), dir@),
        {
            let ghost i = it.index();
            let ghost before = content@;
            assert(all.take(i + 1).drop_last() == all.take(i));
            assert(all.take(i + 1).last() == walked_view(step));
            if let Some(entry) = step {
                if let Some(is_dir) = entry.is_dir {
                    if !entry.path.equals(dir) {
                        let kind = if is_dir {
                            EntryKind::Directory
                        } else {
                            EntryKind::File
                        };
                        let child = Child { path: entry.path, kind };
                        content.push(child);
                        assert(child_views(content@) == child_views(before).push(child@));
                    }
                }
            }
        }
        assert(all.take(all.len() as int) == all);
        let ghost found = content@;
        let sorted = stable_sort(content);
        proof {
            lemma_child_order(found);
            lemma_every_child_is_listed(all, dir@);
            if forall|i: int|
                0 <= i < origin.len() && (#[trigger] origin[i]) is Some
                    ==> origin[i]->0.path@.starts_with(dir@) {
                assert forall|i: int| 0 <= i < all.len() && (#[trigger] all[i]) is Some implies all[i]->0.path.starts_with(
                    dir@,
                ) by {
                    assert(origin[i] is Some);
                }
                lemma_reported_below(all, dir@);
                lemma_all_below_in_order(child_views(found), dir@);
            }
        }
        sorted
    }
}

proof fn lemma_child_order(s: Seq<Child>)
    ensures
        child_views(in_order(s, rank_order::<Child>())) == in_order(child_views(s), shown_order()),
{
    let f = |c: Child| c@;
    assert forall|x: Child, y: Child| #[trigger] rank_order::<Child>()(x, y) == shown_order()(
        f(x),
        f(y),
    ) by {}
    lemma_in_order_map(s, f, rank_order::<Child>(), shown_order());
}

/// The order in which a directory is shown is total.
pub proof fn lemma_shown_order()
    ensures
        is_total_preorder(shown_order()),
{
    let le = shown_order();
    assert forall|a: ChildView, b: ChildView| #[trigger] le(a, b) || le(b, a) by {
        lemma_relation_flips(a.path, b.path);
    }
    assert forall|a: ChildView, b: ChildView, c: ChildView| #[trigger]
        le(a, b) && #[trigger] le(b, c) implies le(a, c) by {
        if a.kind == b.kind && b.kind == c.kind {
            lemma_relation_chains(a.path, b.path, c.path);
        }
    }
}

/// In what `read_children` gives, every directory precedes every file, and the paths of each kind
/// ascend.
pub proof fn lemma_directories_come_first(walked: Seq<Option<WalkedView>>, dir: PathView)
    ensures
        ({
            let shown = in_order(reported_children(walked, dir), shown_order());
            forall|i: int, j: int|
                0 <= i < j < shown.len() ==> {
                    &&& (#[trigger] shown[i]).kind == EntryKind::File ==> (#[trigger] shown[j]).kind
                        == EntryKind::File
                    &&& shown[i].kind == shown[j].kind ==> shown[i].path.relation(shown[j].path)
                        != Relation::After
                }
        }),
{
    lemma_shown_order();
    lemma_in_order(reported_children(walked, dir), shown_order());
    let shown = in_order(reported_children(walked, dir), shown_order());
    assert forall|i: int, j: int| 0 <= i < j < shown.len() implies {
        &&& (#[trigger] shown[i]).kind == EntryKind::File ==> (#[trigger] shown[j]).kind
            == EntryKind::File
        &&& shown[i].kind == shown[j].kind ==> shown[i].path.relation(shown[j].path)
            != Relation::After
    } by {
        assert(shown_order()(shown[i], shown[j]));
    }
}

/// The step of a walk has found an entry of the directory: it succeeded, the type of the entry is
/// known, and the entry is not the directory itself.
pub open spec fn finds_child(step: Option<WalkedView>, dir: PathView) -> bool {
    step matches Some(entry) && entry.is_dir is Some && entry.path != dir
}

/// `child` has the path that the step has found, and is a directory exactly if that is one.
pub open spec fn is_found_by(child: ChildView, step: Option<WalkedView>) -> bool {
    step matches Some(entry) && child.path == entry.path && (child.kind == EntryKind::Directory
        <==> entry.is_dir == Some(true))
}

/// What a step has found.
pub open spec fn found_child(step: Option<WalkedView>) -> ChildView {
    ChildView {
        path: step->0.path,
        kind: if step->0.is_dir == Some(true) {
            EntryKind::Directory
        } else {
            EntryKind::File
        },
    }
}

/// The steps of a walk that have found an entry of the directory.
pub open spec fn finding_steps(walked: Seq<Option<WalkedView>>, dir: PathView) -> Seq<
    Option<WalkedView>,
> {
    walked.filter(|step: Option<WalkedView>| finds_child(step, dir))
}

/// Some child is what the step has found.
pub open spec fn is_listed(step: Option<WalkedView>, children: Seq<ChildView>) -> bool {
    exists|i: int| 0 <= i < children.len() && is_found_by(#[trigger] children[i], step)
}

/// Some step has found the child.
pub open spec fn is_found(
    child: ChildView,
    walked: Seq<Option<WalkedView>>,
    dir: PathView,
) -> bool {
    exists|n: int|
        0 <= n < walked.len() && finds_child(#[trigger] walked[n], dir) && is_found_by(
            child,
            walked[n],
        )
}

/// The children are what the walk has found: every step that has found an entry has its child,
/// every child has its step, there are as many children as such steps, and each child is there as
/// often as it was found.
pub open spec fn are_the_children(
    children: Seq<ChildView>,
    walked: Seq<Option<WalkedView>>,
    dir: PathView,
) -> bool {
    &&& forall|n: int|
        0 <= n < walked.len() && finds_child(#[trigger] walked[n], dir) ==> is_listed(
            walked[n],
            children,
        )
    &&& forall|i: int|
        0 <= i < children.len() ==> is_found(#[trigger] children[i], walked, dir)
    &&& children.len() == finding_steps(walked, dir).len()
    &&& children.to_multiset() == finding_steps(walked, dir).map_values(
        |step: Option<WalkedView>| found_child(step),
    ).to_multiset()
}

proof fn lemma_reported_are_found(walked: Seq<Option<WalkedView>>, dir: PathView)
    ensures
        reported_children(walked, dir) == finding_steps(walked, dir).map_values(
            |step: Option<WalkedView>| found_child(step),
        ),
    decreases walked.len(),
{
    let f = |step: Option<WalkedView>| finds_child(step, dir);
    let g = |step: Option<WalkedView>| found_child(step);
    reveal(Seq::filter);
    if walked.len() > 0 {
        let front = walked.drop_last();
        let last = walked.last();
        lemma_reported_are_found(front, dir);
        assert(reported_children(walked, dir) =~= walked.filter(f).map_values(g));
    } else {
        assert(reported_children(walked, dir) =~= walked.filter(f).map_values(g));
    }
}

/// Every step of a walk that succeeded, found an entry whose type is known, and not the directory
/// itself, has a child in what `read_children` gives, with the same path, and a directory exactly
/// if the entry is one. There are no other children, and as many as such steps.
pub proof fn lemma_every_child_is_listed(walked: Seq<Option<WalkedView>>, dir: PathView)
    ensures
        are_the_children(in_order(reported_children(walked, dir), shown_order()), walked, dir),
{
    broadcast use vstd::seq_lib::group_to_multiset_ensures;

    let f = |step: Option<WalkedView>| finds_child(step, dir);
    let reported = reported_children(walked, dir);
    let steps = finding_steps(walked, dir);
    let shown = in_order(reported, shown_order());
    lemma_shown_order();
    lemma_in_order(reported, shown_order());
    lemma_reported_are_found(walked, dir);
    assert(shown.len() == shown.to_multiset().len());
    assert(reported.len() == reported.to_multiset().len());
    assert forall|n: int| 0 <= n < walked.len() && finds_child(#[trigger] walked[n], dir) implies is_listed(
        walked[n],
        shown,
    ) by {
        walked.lemma_filter_contains(f, n);
        let m = steps.index_of(walked[n]);
        assert(reported[m] == found_child(walked[n]));
        assert(reported.to_multiset().count(reported[m]) > 0);
        assert(shown.contains(reported[m]));
        let i = shown.index_of(reported[m]);
        assert(is_found_by(shown[i], walked[n]));
    }
    assert forall|i: int| 0 <= i < shown.len() implies is_found(#[trigger] shown[i], walked, dir) by {
        assert(shown.to_multiset().count(shown[i]) > 0);
        assert(reported.contains(shown[i]));
        let m = reported.index_of(shown[i]);
        assert(steps.contains(steps[m]));
        walked.lemma_filter_contains_rev(f, steps[m]);
        let n = walked.index_of(steps[m]);
        walked.lemma_filter_pred(f, m);
        assert(finds_child(walked[n], dir));
    }
}

proof fn lemma_reported_below(walked: Seq<Option<WalkedView>>, dir: PathView)
    requires
        forall|i: int|
            0 <= i < walked.len() && (#[trigger] walked[i]) is Some
                ==> walked[i]->0.path.starts_with(dir),
    ensures
        all_below(reported_children(walked, dir), dir),
    decreases walked.len(),
{
    if walked.len() > 0 {
        let front = walked.drop_last();
        assert forall|i: int| 0 <= i < front.len() && (#[trigger] front[i]) is Some implies front[i]->0.path.starts_with(
            dir,
        ) by {
            assert(front[i] == walked[i]);
        }
        lemma_reported_below(front, dir);
        assert(walked[walked.len() - 1] == walked.last());
    }
}

proof fn lemma_all_below_in_order(s: Seq<ChildView>, dir: PathView)
    requires
        all_below(s, dir),
    ensures
        all_below(in_order(s, shown_order()), dir),
{
    broadcast use vstd::seq_lib::group_to_multiset_ensures;

    lemma_shown_order();
    lemma_in_order(s, shown_order());
    let t = in_order(s, shown_order());
    assert forall|i: int| 0 <= i < t.len() implies (#[trigger] t[i]).path.is_below(dir) by {
        assert(t.contains(t[i]));
        assert(t.to_multiset().contains(t[i]));
        assert(s.to_multiset().contains(t[i]));
        assert(s.contains(t[i]));
        let k = s.index_of(t[i]);
        assert(s[k].path.is_below(dir));
    }
}

/// Every one of the entries lies below `dir`.
pub open spec fn all_below(children: Seq<ChildView>, dir: PathView) -> bool {
    forall|i: int| 0 <= i < children.len() ==> (#[trigger] children[i]).path.is_below(dir)
}

/// Where all entries lie below `dir`, all but the first do.
pub proof fn lemma_rest_is_below(children: Seq<ChildView>, dir: PathView)
    requires
        all_below(children, dir),
        children.len() > 0,
    ensures
        all_below(children.drop_first(), dir),
{
    let rest = children.drop_first();
    assert forall|i: int| 0 <= i < rest.len() implies (#[trigger] rest[i]).path.is_below(dir) by {
        assert(rest[i] == children[i + 1]);
    }
}

/// What is known of the contents of directories: the children of each directory that was read, in
/// the order in which they are shown.
#[derive(Debug)]
pub struct Listing {
    dirs: PathMap<Vec<Child>>,
}

impl View for Listing {
    type V = Map<PathView, Seq<ChildView>>;

    closed spec fn view(&self) -> Map<PathView, Seq<ChildView>> {
        self.dirs@.map_values(|children: Vec<Child>| child_views(children@))
    }
}

/// Every child of every listed directory lies below that directory.
pub open spec fn lists_below(disk: Map<PathView, Seq<ChildView>>) -> bool {
    forall|dir: PathView| #[trigger] disk.contains_key(dir) ==> all_below(disk[dir], dir)
}

impl Listing {
    pub closed spec fn wf(&self) -> bool {
        self.dirs.wf() && lists_below(self@)
    }

    pub proof fn lemma_lists_below(&self)
        requires
            self.wf(),
        ensures
            lists_below(self@),
    {
    }

    pub fn new() -> (r: Listing)
        ensures
            r.wf(),
            r@ == Map::<PathView, Seq<ChildView>>::empty(),
    {
        let r = Listing { dirs: PathMap::new() };
        assert(r@ =~= Map::<PathView, Seq<ChildView>>::empty());
        r
    }

    /// Records that `dir` has these children.
    pub fn insert(&mut self, dir: TreePath, children: Vec<Child>)
        requires
            old(self).wf(),
            all_below(child_views(children@), dir@),
        ensures
            final(self).wf(),
            final(self)@ == old(self)@.insert(dir@, child_views(children@)),
    {
        let ghost d = dir@;
        let ghost c = child_views(children@);
        self.dirs.insert(dir, children);
        assert(self@ =~= old(self)@.insert(d, c));
        assert forall|p: PathView| #[trigger] self@.contains_key(p) implies all_below(self@[p], p) by {
            if p != d {
                assert(old(self)@.contains_key(p));
            }
        }
    }

    /// The children of `dir`, where it was read.
    pub fn get(&self, dir: &TreePath) -> (r: Option<&Vec<Child>>)
        requires
            self.wf(),
        ensures
            r is Some == self@.contains_key(dir@),
            r is Some ==> child_views(r->0@) == self@[dir@],
    {
        self.dirs.get(dir)
    }
}

/// Whether every one of `children` lies below `dir`.
pub fn are_below(children: &Vec<Child>, dir: &TreePath) -> (r: bool)
    ensures
        r == all_below(child_views(children@), dir@),
{
    let mut i: usize = 0;
    while i < children.len()
        invariant
            i <= children.len(),
            forall|j: int|
                0 <= j < i ==> (#[trigger] child_views(children@)[j]).path.is_below(dir@),
        decreases children.len() - i,
    {
        let below = children[i].path.starts_with(dir) && !children[i].path.equals(dir);
        if !below {
            assert(!child_views(children@)[i as int].path.is_below(dir@));
            return false;
        }
        i += 1;
    }
    true
}

} // verus!
