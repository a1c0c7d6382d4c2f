//! What holds of paths, told by their names and by the bytes of their names.
use crate::path::{
    component_relation, is_plain_name, last_dot, lemma_relation_flips, lemma_relation_same,
    name_relation, names_relation, PathView, Relation,
};
use vstd::prelude::*;

verus! {

/// `a` and `b` agree in their first `n` elements, and both have that many.
pub open spec fn agree_up_to<A>(a: Seq<A>, b: Seq<A>, n: int) -> bool {
    &&& 0 <= n <= a.len()
    &&& n <= b.len()
    &&& forall|i: int| 0 <= i < n ==> #[trigger] a[i] == b[i]
}

/// `a` comes before `b` byte by byte: where they first differ, `a` ends or has the lower byte.
pub open spec fn is_bytewise_before(a: Seq<u8>, b: Seq<u8>) -> bool {
    exists|n: int| #[trigger] agree_up_to(a, b, n) && n < b.len() && (n == a.len() || a[n] < b[n])
}

/// The name `a` comes before the name `b`: two dots before anything else, else byte by byte.
pub open spec fn is_name_before(a: Seq<u8>, b: Seq<u8>) -> bool {
    &&& a != b
    &&& a == seq![46u8, 46u8] || (b != seq![46u8, 46u8] && is_bytewise_before(a, b))
}

/// The names `a` come before the names `b`: where they first differ, `a` ends or has the name that
/// comes first.
pub open spec fn are_names_before(a: Seq<Seq<u8>>, b: Seq<Seq<u8>>) -> bool {
    exists|n: int| #[trigger]
        agree_up_to(a, b, n) && n < b.len() && (n == a.len() || is_name_before(a[n], b[n]))
}

proof fn lemma_bytes_at(a: Seq<u8>, b: Seq<u8>, n: int)
    requires
        agree_up_to(a, b, n),
        n < b.len(),
        n == a.len() || a[n] < b[n],
    ensures
        name_relation(a, b) == Relation::Before,
    decreases n,
{
    if n > 0 {
        assert(a[0] == b[0]);
        let (x, y) = (a.drop_first(), b.drop_first());
        assert forall|i: int| 0 <= i < n - 1 implies #[trigger] x[i] == y[i] by {
            assert(a[i + 1] == b[i + 1]);
        }
        lemma_bytes_at(x, y, n - 1);
    }
}

proof fn lemma_bytes_before(a: Seq<u8>, b: Seq<u8>)
    requires
        name_relation(a, b) == Relation::Before,
    ensures
        is_bytewise_before(a, b),
    decreases a.len(),
{
    if a.len() == 0 || b.len() == 0 || a[0] != b[0] {
        assert(agree_up_to(a, b, 0));
    } else {
        let (x, y) = (a.drop_first(), b.drop_first());
        lemma_bytes_before(x, y);
        let m = choose|m: int| #[trigger]
            agree_up_to(x, y, m) && m < y.len() && (m == x.len() || x[m] < y[m]);
        let n = m + 1;
        assert forall|i: int| 0 <= i < n implies #[trigger] a[i] == b[i] by {
            if i > 0 {
                assert(x[i - 1] == y[i - 1]);
            }
        }
        assert(agree_up_to(a, b, n));
    }
}

proof fn lemma_name_before(a: Seq<u8>, b: Seq<u8>)
    ensures
        component_relation(a, b) == Relation::Before <==> is_name_before(a, b),
        component_relation(a, b) == Relation::Same <==> a == b,
{
    if is_bytewise_before(a, b) {
        let n = choose|n: int| #[trigger]
            agree_up_to(a, b, n) && n < b.len() && (n == a.len() || a[n] < b[n]);
        lemma_bytes_at(a, b, n);
    }
    if name_relation(a, b) == Relation::Before {
        lemma_bytes_before(a, b);
    }
    let p = PathView { absolute: false, parts: seq![a] };
    let q = PathView { absolute: false, parts: seq![b] };
    lemma_relation_same(p, q);
    assert(p.parts[0] == a && q.parts[0] == b);
    assert(p.parts.drop_first() == q.parts.drop_first());
    assert(names_relation(p.parts.drop_first(), q.parts.drop_first()) == Relation::Same);
    assert(names_relation(p.parts, q.parts) == component_relation(a, b));
    if a == b {
        assert(p == q);
    }
}

proof fn lemma_names_at(a: Seq<Seq<u8>>, b: Seq<Seq<u8>>, n: int)
    requires
        agree_up_to(a, b, n),
        n < b.len(),
        n == a.len() || is_name_before(a[n], b[n]),
    ensures
        names_relation(a, b) == Relation::Before,
    decreases n,
{
    if n > 0 {
        assert(a[0] == b[0]);
        lemma_name_before(a[0], b[0]);
        let (x, y) = (a.drop_first(), b.drop_first());
        assert forall|i: int| 0 <= i < n - 1 implies #[trigger] x[i] == y[i] by {
            assert(a[i + 1] == b[i + 1]);
        }
        lemma_names_at(x, y, n - 1);
    } else if a.len() > 0 {
        lemma_name_before(a[0], b[0]);
    }
}

proof fn lemma_names_before(a: Seq<Seq<u8>>, b: Seq<Seq<u8>>)
    requires
        names_relation(a, b) == Relation::Before,
    ensures
        are_names_before(a, b),
    decreases a.len(),
{
    if a.len() == 0 || b.len() == 0 {
        assert(agree_up_to(a, b, 0));
    } else {
        lemma_name_before(a[0], b[0]);
        if a[0] != b[0] {
            assert(agree_up_to(a, b, 0));
        } else {
            let (x, y) = (a.drop_first(), b.drop_first());
            lemma_names_before(x, y);
            let m = choose|m: int| #[trigger]
                agree_up_to(x, y, m) && m < y.len() && (m == x.len() || is_name_before(x[m], y[m]));
            let n = m + 1;
            assert forall|i: int| 0 <= i < n implies #[trigger] a[i] == b[i] by {
                if i > 0 {
                    assert(x[i - 1] == y[i - 1]);
                }
            }
            assert(agree_up_to(a, b, n));
        }
    }
}

/// Paths are ordered by the names in which they first differ; a path comes before those that go on
/// behind it. Two dots come before all other names, and those are in the order of their bytes. An
/// absolute path comes before a relative one, unless that is empty.
pub proof fn lemma_paths_are_ordered_by_names(a: PathView, b: PathView)
    ensures
        a.absolute == b.absolute ==> (a.relation(b) == Relation::Before <==> are_names_before(
            a.parts,
            b.parts,
        )),
        a.absolute && !b.absolute ==> (a.relation(b) == Relation::Before <==> b.parts.len() > 0),
        !a.absolute && b.absolute ==> (a.relation(b) == Relation::Before <==> a.parts.len() == 0),
        a.relation(b) == Relation::Same <==> a == b,
        a.relation(b) == Relation::After <==> b.relation(a) == Relation::Before,
{
    lemma_relation_same(a, b);
    lemma_relation_flips(a, b);
    if are_names_before(a.parts, b.parts) {
        let n = choose|n: int| #[trigger]
            agree_up_to(a.parts, b.parts, n) && n < b.parts.len() && (n == a.parts.len()
                || is_name_before(a.parts[n], b.parts[n]));
        lemma_names_at(a.parts, b.parts, n);
    }
    if names_relation(a.parts, b.parts) == Relation::Before {
        lemma_names_before(a.parts, b.parts);
    }
}

/// A path starts with another if that one has no more names, the same names as far as it has any,
/// and both are absolute or both relative; and every path starts with the empty relative one.
pub proof fn lemma_starting_is_agreeing(path: PathView, base: PathView)
    ensures
        path.starts_with(base) <==> agree_up_to(path.parts, base.parts, base.parts.len() as int)
            && (path.absolute == base.absolute || (!base.absolute && base.parts.len() == 0)),
{
    if agree_up_to(path.parts, base.parts, base.parts.len() as int) {
        assert(base.parts =~= path.parts.subrange(0, base.parts.len() as int));
    }
    if base.parts.is_prefix_of(path.parts) {
        assert forall|i: int| 0 <= i < base.parts.len() implies #[trigger] path.parts[i]
            == base.parts[i] by {
            assert(path.parts.subrange(0, base.parts.len() as int)[i] == path.parts[i]);
        }
    }
}

/// A path is the parent of each path that has one name more. A path without names has no parent.
pub proof fn lemma_parent_lacks_the_last_name(dir: PathView, name: Seq<u8>, path: PathView)
    ensures
        (PathView { absolute: dir.absolute, parts: dir.parts.push(name) }).parent() == Some(dir),
        path.parent() is None <==> path.parts.len() == 0,
{
    assert(dir.parts.push(name).drop_last() =~= dir.parts);
}

/// The names that can stand in a path: not empty, not a single dot, and without a slash.
pub proof fn lemma_names_that_can_stand(name: Seq<u8>)
    ensures
        is_plain_name(name) <==> {
            &&& name.len() > 0
            &&& !(name.len() == 1 && name[0] == 46)
            &&& forall|i: int| 0 <= i < name.len() ==> #[trigger] name[i] != 47
        },
{
    if name.len() == 1 && name[0] == 46 {
        assert(name =~= seq![46u8]);
    }
    if name.contains(47u8) {
        let i = name.index_of(47u8);
        assert(name[i] == 47);
    }
    if exists|i: int| 0 <= i < name.len() && #[trigger] name[i] == 47 {
        let i = choose|i: int| 0 <= i < name.len() && #[trigger] name[i] == 47;
        assert(name.contains(name[i]));
    }
}

/// The text of a path is that of its parent, a slash and its last name. There is no slash between
/// where the parent has no name; the text of an absolute path begins with one.
pub proof fn lemma_text_goes_name_by_name(dir: PathView, name: Seq<u8>)
    ensures
        (PathView { absolute: true, parts: Seq::empty() }).text() == seq![47u8],
        (PathView { absolute: false, parts: Seq::empty() }).text() == Seq::<u8>::empty(),
        (PathView { absolute: dir.absolute, parts: dir.parts.push(name) }).text()
            == if dir.parts.len() == 0 {
            dir.text() + name
        } else {
            dir.text() + seq![47u8] + name
        },
{
    let path = PathView { absolute: dir.absolute, parts: dir.parts.push(name) };
    assert(path.parts.drop_last() =~= dir.parts);
    assert(path.parts.last() == name);
    assert(seq![47u8] + Seq::<u8>::empty() =~= seq![47u8]);
    if dir.parts.len() == 0 {
        assert(path.parts[0] == name);
        assert(path.text() =~= dir.text() + name);
    } else {
        assert(path.text() =~= dir.text() + seq![47u8] + name);
    }
}

proof fn lemma_last_dot(name: Seq<u8>, stem: Seq<u8>, ext: Seq<u8>)
    requires
        name == stem + seq![46u8] + ext,
        !ext.contains(46u8),
    ensures
        last_dot(name) == stem.len(),
    decreases ext.len(),
{
    if ext.len() > 0 {
        let end = ext.len() - 1;
        assert(ext[end] != 46) by {
            assert(ext.contains(ext[end]));
        }
        assert(name.last() == ext[end]);
        let front = ext.drop_last();
        assert(name.drop_last() =~= stem + seq![46u8] + front);
        assert(!front.contains(46u8)) by {
            if front.contains(46u8) {
                let i = front.index_of(46u8);
                assert(ext[i] == 46);
            }
        }
        lemma_last_dot(name.drop_last(), stem, front);
    } else {
        assert(name.last() == 46);
    }
}

proof fn lemma_last_dot_splits(name: Seq<u8>)
    ensures
        -1 <= last_dot(name) < name.len(),
        last_dot(name) >= 0 ==> name[last_dot(name)] == 46,
        forall|i: int| last_dot(name) < i < name.len() ==> #[trigger] name[i] != 46,
    decreases name.len(),
{
    if name.len() > 0 && name.last() != 46 {
        let front = name.drop_last();
        lemma_last_dot_splits(front);
        assert forall|i: int| last_dot(name) < i < name.len() implies #[trigger] name[i] != 46 by {
            if i < front.len() {
                assert(front[i] == name[i]);
            }
        }
    }
}

/// `name` is `stem`, a dot and `ext`, with something before the dot and no dot behind it.
pub open spec fn is_split_at_dot(name: Seq<u8>, stem: Seq<u8>, ext: Seq<u8>) -> bool {
    &&& name == stem + seq![46u8] + ext
    &&& stem.len() > 0
    &&& !ext.contains(46u8)
}

/// The extension of a path is what follows the last dot of its last name, where something precedes
/// that dot and the name is not two dots. Without such a dot there is none.
pub proof fn lemma_extension_follows_the_last_dot(path: PathView)
    ensures
        path.parts.len() == 0 ==> path.extension() is None,
        path.parts.len() > 0 && path.parts.last() == seq![46u8, 46u8] ==> path.extension() is None,
        path.parts.len() > 0 && path.parts.last() != seq![46u8, 46u8] ==> forall|
            stem: Seq<u8>,
            ext: Seq<u8>,
        | #[trigger] is_split_at_dot(path.parts.last(), stem, ext) ==> path.extension() == Some(ext),
        path.extension() matches Some(ext) ==> exists|stem: Seq<u8>| #[trigger]
            is_split_at_dot(path.parts.last(), stem, ext),
{
    if path.parts.len() > 0 {
        let name = path.parts.last();
        assert forall|stem: Seq<u8>, ext: Seq<u8>|
            name != seq![46u8, 46u8] && #[trigger] is_split_at_dot(name, stem, ext) implies path.extension() == Some(
            ext,
        ) by {
            lemma_last_dot(name, stem, ext);
            assert(name.skip(stem.len() as int + 1) =~= ext);
        }
        if path.extension() is Some {
            lemma_last_dot_splits(name);
            let d = last_dot(name);
            let stem = name.take(d);
            let ext = name.skip(d + 1);
            assert(name =~= stem + seq![46u8] + ext);
            assert(!ext.contains(46u8)) by {
                if ext.contains(46u8) {
                    let i = ext.index_of(46u8);
                    assert(name[d + 1 + i] == 46);
                }
            }
            assert(path.extension() == Some(ext));
            assert(is_split_at_dot(path.parts.last(), stem, path.extension()->0));
        }
    }
}

} // verus!
