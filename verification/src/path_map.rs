//! Sets of paths and maps keyed by paths, kept in the order of paths.
use crate::path::{
    lemma_relation_chains, lemma_relation_flips, lemma_relation_same, PathView, Relation, TreePath,
};
use vstd::prelude::*;

verus! {

pub open spec fn path_views(paths: Seq<TreePath>) -> Seq<PathView> {
    Seq::new(paths.len(), |i: int| paths[i]@)
}

/// Each path of `s` comes before all later ones.
pub open spec fn strictly_ascending(s: Seq<PathView>) -> bool {
    forall|i: int, j: int|
        0 <= i < j < s.len() ==> (#[trigger] s[i]).relation(#[trigger] s[j]) == Relation::Before
}

proof fn lemma_before_chains(a: PathView, b: PathView, c: PathView)
    requires
        a.relation(b) == Relation::Before,
        b.relation(c) == Relation::Before,
    ensures
        a.relation(c) == Relation::Before,
{
    lemma_relation_chains(a, b, c);
    lemma_relation_same(a, c);
    lemma_relation_flips(a, b);
}

/// A set of paths.
#[derive(Debug)]
pub struct PathSet {
    paths: Vec<TreePath>,
}

impl View for PathSet {
    type V = Set<PathView>;

    closed spec fn view(&self) -> Set<PathView> {
        path_views(self.paths@).to_set()
    }
}

impl PathSet {
    /// The paths stand in ascending order, so none occurs twice.
    pub closed spec fn wf(&self) -> bool {
        strictly_ascending(path_views(self.paths@))
    }

    /// The members in ascending order.
    closed spec fn members(&self) -> Seq<PathView> {
        path_views(self.paths@)
    }

    /// A set of paths has no more members than memory has room for.
    pub proof fn lemma_finite(&self)
        ensures
            self@.finite(),
            self@.len() <= usize::MAX,
    {
        vstd::seq_lib::seq_to_set_is_finite(path_views(self.paths@));
        path_views(self.paths@).lemma_cardinality_of_set();
        assert(self.paths.len() <= usize::MAX);
    }

    pub fn new() -> (r: PathSet)
        ensures
            r.wf(),
            r@ == Set::<PathView>::empty(),
    {
        let r = PathSet { paths: Vec::new() };
        assert(r@ =~= Set::<PathView>::empty());
        r
    }

    /// Where `path` stands, or where it would have to be inserted.
    fn find(&self, path: &TreePath) -> (r: Result<usize, usize>)
        requires
            self.wf(),
        ensures
            self.paths.len() == self.members().len(),
            r is Ok <==> self@.contains(path@),
            r is Ok ==> r->Ok_0 < self.paths.len() && self.members()[r->Ok_0 as int] == path@,
            r is Err ==> {
                &&& r->Err_0 <= self.paths.len()
                &&& forall|i: int|
                    0 <= i < r->Err_0 ==> (#[trigger] self.members()[i]).relation(path@)
                        == Relation::Before
                &&& forall|i: int|
                    r->Err_0 <= i < self.paths.len() ==> path@.relation(
                        #[trigger] self.members()[i],
                    ) == Relation::Before
            },
    {
        let mut lo: usize = 0;
        let mut hi: usize = self.paths.len();
        let ghost s = self.members();
        while lo < hi
            invariant
                self.wf(),
                s == self.members(),
                s == path_views(self.paths@),
                lo <= hi <= self.paths.len(),
                forall|i: int|
                    0 <= i < lo ==> (#[trigger] s[i]).relation(path@) == Relation::Before,
                forall|i: int|
                    hi <= i < s.len() ==> path@.relation(#[trigger] s[i]) == Relation::Before,
            decreases hi - lo,
        {
            let mid: usize = lo + (hi - lo) / 2;
            assert(s[mid as int] == self.paths@[mid as int]@);
            match self.paths[mid].compare(path) {
                Relation::Same => {
                    proof {
                        lemma_relation_same(s[mid as int], path@);
                        assert(s.contains(path@));
                    }
                    return Ok(mid);
                },
                Relation::Before => {
                    assert forall|i: int| 0 <= i < mid + 1 implies (#[trigger] s[i]).relation(path@)
                        == Relation::Before by {
                        if i < mid {
                            lemma_before_chains(s[i], s[mid as int], path@);
                        }
                    }
                    lo = mid + 1;
                },
                Relation::After => {
                    assert forall|i: int| mid <= i < s.len() implies path@.relation(#[trigger] s[i])
                        == Relation::Before by {
                        lemma_relation_flips(s[mid as int], path@);
                        if i > mid {
                            lemma_before_chains(path@, s[mid as int], s[i]);
                        }
                    }
                    hi = mid;
                },
            }
        }
        proof {
            if s.contains(path@) {
                let k = s.index_of(path@);
                lemma_relation_same(path@, path@);
                if k < lo {
                    assert(s[k].relation(path@) == Relation::Before);
                } else {
                    assert(path@.relation(s[k]) == Relation::Before);
                }
            }
        }
        Err(lo)
    }

    pub fn contains(&self, path: &TreePath) -> (r: bool)
        requires
            self.wf(),
        ensures
            r == self@.contains(path@),
    {
        match self.find(path) {
            Ok(_) => true,
            Err(_) => false,
        }
    }

    pub fn insert(&mut self, path: TreePath)
        requires
            old(self).wf(),
        ensures
            final(self).wf(),
            final(self)@ == old(self)@.insert(path@),
    {
        match self.find(&path) {
            Ok(_) => {
                assert(self@ =~= old(self)@.insert(path@));
            },
            Err(at) => {
                self.insert_at(at, path);
            },
        }
    }

    fn insert_at(&mut self, at: usize, path: TreePath)
        requires
            old(self).wf(),
            at <= old(self).paths.len(),
            old(self).members().len() == old(self).paths.len(),
            forall|i: int|
                0 <= i < at ==> (#[trigger] old(self).members()[i]).relation(path@)
                    == Relation::Before,
            forall|i: int|
                at <= i < old(self).paths.len() ==> path@.relation(
                    #[trigger] old(self).members()[i],
                ) == Relation::Before,
        ensures
            final(self).wf(),
            final(self)@ == old(self)@.insert(path@),
            final(self).members() == old(self).members().insert(at as int, path@),
    {
        let ghost s = self.members();
        let ghost p = path@;
        self.paths.insert(at, path);
        let ghost t = self.members();
        assert(t == s.insert(at as int, p));
        assert forall|i: int, j: int| 0 <= i < j < t.len() implies (#[trigger] t[i]).relation(
            #[trigger] t[j],
        ) == Relation::Before by {
            let a = if i < at { i } else { i - 1 };
            let b = if j < at { j } else { j - 1 };
            if i != at && j != at {
                assert(t[i] == s[a] && t[j] == s[b]);
            } else if i == at {
                assert(t[j] == s[b]);
            } else {
                assert(t[i] == s[a]);
            }
        }
        assert forall|q: PathView| t.to_set().contains(q) <==> s.to_set().insert(p).contains(q) by {
            if t.contains(q) {
                let k = t.index_of(q);
                if k < at {
                    assert(s[k] == q);
                } else if k > at {
                    assert(s[k - 1] == q);
                }
            }
            if s.contains(q) {
                let k = s.index_of(q);
                if k < at {
                    assert(t[k] == q);
                } else {
                    assert(t[k + 1] == q);
                }
            }
            if q == p {
                assert(t[at as int] == p);
            }
        }
        assert(t.to_set() =~= s.to_set().insert(p));
    }

    pub fn remove(&mut self, path: &TreePath)
        requires
            old(self).wf(),
        ensures
            final(self).wf(),
            final(self)@ == old(self)@.remove(path@),
    {
        match self.find(path) {
            Ok(at) => {
                let ghost s = self.members();
                let _ = self.paths.remove(at);
                let ghost t = self.members();
                assert(t == s.remove(at as int));
                assert forall|q: PathView| t.to_set().contains(q) <==> s.to_set().remove(
                    path@,
                ).contains(q) by {
                    if t.contains(q) {
                        let k = t.index_of(q);
                        lemma_relation_same(q, path@);
                        if k < at {
                            assert(s[k] == q);
                            assert(s[k].relation(s[at as int]) == Relation::Before);
                        } else {
                            assert(s[k + 1] == q);
                            assert(s[at as int].relation(s[k + 1]) == Relation::Before);
                            lemma_relation_same(path@, q);
                        }
                    }
                    if s.contains(q) && q != path@ {
                        let k = s.index_of(q);
                        if k < at {
                            assert(t[k] == q);
                        } else {
                            assert(t[k - 1] == q);
                        }
                    }
                }
                assert(t.to_set() =~= s.to_set().remove(path@));
            },
            Err(_) => {
                assert(self@ =~= old(self)@.remove(path@));
            },
        }
    }

    /// A set with the same members.
    pub fn duplicate(&self) -> (r: PathSet)
        requires
            self.wf(),
        ensures
            r.wf(),
            r@ == self@,
    {
        let mut paths: Vec<TreePath> = Vec::with_capacity(self.paths.len());
        let mut i: usize = 0;
        while i < self.paths.len()
            invariant
                i <= self.paths.len(),
                paths.len() == i,
                forall|j: int| 0 <= j < i ==> (#[trigger] paths@[j])@ == self.paths@[j]@,
            decreases self.paths.len() - i,
        {
            paths.push(self.paths[i].clone());
            i += 1;
        }
        assert(path_views(paths@) == path_views(self.paths@));
        PathSet { paths }
    }
}

/// A map from paths to values.
#[derive(Debug)]
pub struct PathMap<V> {
    keys: PathSet,
    values: Vec<V>,
}

impl<V> View for PathMap<V> {
    type V = Map<PathView, V>;

    closed spec fn view(&self) -> Map<PathView, V> {
        Map::new(
            |p: PathView| self.keys@.contains(p),
            |p: PathView| self.values@[self.keys.members().index_of(p)],
        )
    }
}

impl<V> PathMap<V> {
    pub closed spec fn wf(&self) -> bool {
        &&& self.keys.wf()
        &&& self.values@.len() == self.keys.members().len()
    }

    proof fn lemma_at(&self, i: int)
        requires
            self.wf(),
            0 <= i < self.keys.members().len(),
        ensures
            self@.contains_key(self.keys.members()[i]),
            self@[self.keys.members()[i]] == self.values@[i],
            self.keys.members().index_of(self.keys.members()[i]) == i,
    {
        let s = self.keys.members();
        assert(s.contains(s[i]));
        let k = s.index_of(s[i]);
        lemma_relation_same(s[i], s[i]);
        if k < i {
            assert(s[k].relation(s[i]) == Relation::Before);
        } else if i < k {
            assert(s[i].relation(s[k]) == Relation::Before);
        }
    }

    pub fn new() -> (r: PathMap<V>)
        ensures
            r.wf(),
            r@ == Map::<PathView, V>::empty(),
    {
        let r = PathMap { keys: PathSet::new(), values: Vec::new() };
        assert(r.keys.members().len() == 0) by {
            if r.keys.members().len() > 0 {
                assert(r.keys@.contains(r.keys.members()[0]));
            }
        }
        assert(r@ =~= Map::<PathView, V>::empty());
        r
    }

    /// The value that `path` has.
    pub fn get(&self, path: &TreePath) -> (r: Option<&V>)
        requires
            self.wf(),
        ensures
            r is Some == self@.contains_key(path@),
            r is Some ==> *r->0 == self@[path@],
    {
        match self.keys.find(path) {
            Ok(at) => {
                proof {
                    self.lemma_at(at as int);
                }
                Some(&self.values[at])
            },
            Err(_) => None,
        }
    }

    /// Gives `path` the value `value`, in place of the one it had.
    pub fn insert(&mut self, path: TreePath, value: V)
        requires
            old(self).wf(),
        ensures
            final(self).wf(),
            final(self)@ == old(self)@.insert(path@, value),
    {
        let ghost p = path@;
        let ghost s = self.keys.members();
        let ghost vs = self.values@;
        match self.keys.find(&path) {
            Ok(at) => {
                self.values.set(at, value);
                proof {
                    old(self).lemma_at(at as int);
                    assert forall|q: PathView| #[trigger] self@.contains_key(q) && q != p implies self@[q]
                        == old(self)@[q] by {
                        assert(s.contains(q));
                        let k = s.index_of(q);
                        assert(k != at);
                    }
                    assert(self@ =~= old(self)@.insert(p, value));
                }
            },
            Err(at) => {
                self.keys.insert_at(at, path);
                self.values.insert(at, value);
                proof {
                    let t = self.keys.members();
                    assert(self.values@ == vs.insert(at as int, value));
                    assert forall|q: PathView| #[trigger] self@.contains_key(q) implies self@[q]
                        == old(self)@.insert(p, value)[q] by {
                        assert(t.contains(q));
                        let k = t.index_of(q);
                        self.lemma_at(k);
                        if k < at {
                            assert(s[k] == q);
                            old(self).lemma_at(k);
                            assert(!s.contains(p));
                        } else if k > at {
                            assert(s[k - 1] == q);
                            old(self).lemma_at(k - 1);
                            assert(!s.contains(p));
                        }
                    }
                    assert(self@ =~= old(self)@.insert(p, value));
                }
            },
        }
    }

    pub fn clear(&mut self)
        ensures
            final(self).wf(),
            final(self)@ == Map::<PathView, V>::empty(),
    {
        *self = PathMap::new();
    }
}

} // verus!
