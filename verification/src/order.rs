//! Stable sorting by a total preorder.
use vstd::multiset::Multiset;
use vstd::prelude::*;

verus! {

/// Every two values can be put in order, and the order is transitive.
///
/// Two values may be of the same rank without being equal.
pub open spec fn is_total_preorder<A>(le: spec_fn(A, A) -> bool) -> bool {
    &&& forall|a: A, b: A| #[trigger] le(a, b) || le(b, a)
    &&& forall|a: A, b: A, c: A| #[trigger] le(a, b) && #[trigger] le(b, c) ==> le(a, c)
}

/// `s` with `x` put behind the last element that does not come after `x`.
pub open spec fn placed<A>(s: Seq<A>, x: A, le: spec_fn(A, A) -> bool) -> Seq<A>
    decreases s.len(),
{
    if s.len() == 0 {
        seq![x]
    } else if le(s.last(), x) {
        s.push(x)
    } else {
        placed(s.drop_last(), x, le).push(s.last())
    }
}

/// The elements of `s` in ascending order, those of the same rank in the order in which `s` has
/// them.
pub open spec fn in_order<A>(s: Seq<A>, le: spec_fn(A, A) -> bool) -> Seq<A>
    decreases s.len(),
{
    if s.len() == 0 {
        s
    } else {
        placed(in_order(s.drop_last(), le), s.last(), le)
    }
}

/// No element of `s` comes after a later one.
pub open spec fn ascending<A>(s: Seq<A>, le: spec_fn(A, A) -> bool) -> bool {
    forall|i: int, j: int| 0 <= i < j < s.len() ==> le(#[trigger] s[i], #[trigger] s[j])
}

/// No element of `s` comes after `b`.
spec fn none_after<A>(s: Seq<A>, b: A, le: spec_fn(A, A) -> bool) -> bool {
    forall|i: int| 0 <= i < s.len() ==> le(#[trigger] s[i], b)
}

/// The elements of `s` that are of the same rank as `x`, in the order in which `s` has them.
pub open spec fn of_rank<A>(s: Seq<A>, x: A, le: spec_fn(A, A) -> bool) -> Seq<A> {
    s.filter(|y: A| le(x, y) && le(y, x))
}

/// `a` and `b` hold the same elements of each rank, in the same order.
pub open spec fn agree_by_rank<A>(a: Seq<A>, b: Seq<A>, le: spec_fn(A, A) -> bool) -> bool {
    forall|x: A| #[trigger] of_rank(a, x, le) == of_rank(b, x, le)
}

proof fn lemma_of_rank_push<A>(s: Seq<A>, e: A, x: A, le: spec_fn(A, A) -> bool)
    ensures
        of_rank(s.push(e), x, le) == if le(x, e) && le(e, x) {
            of_rank(s, x, le).push(e)
        } else {
            of_rank(s, x, le)
        },
{
    s.lemma_filter_push(e, |y: A| le(x, y) && le(y, x));
}

proof fn lemma_of_rank_add<A>(a: Seq<A>, b: Seq<A>, x: A, le: spec_fn(A, A) -> bool)
    ensures
        of_rank(a + b, x, le) == of_rank(a, x, le) + of_rank(b, x, le),
{
    Seq::filter_distributes_over_add(a, b, |y: A| le(x, y) && le(y, x));
}

proof fn lemma_of_rank_none<A>(s: Seq<A>, x: A, le: spec_fn(A, A) -> bool)
    requires
        forall|i: int| 0 <= i < s.len() ==> !(le(x, #[trigger] s[i]) && le(s[i], x)),
    ensures
        of_rank(s, x, le) == Seq::<A>::empty(),
    decreases s.len(),
{
    reveal(Seq::filter);
    if s.len() > 0 {
        lemma_of_rank_none(s.drop_last(), x, le);
        assert(s == s.drop_last().push(s.last()));
        lemma_of_rank_push(s.drop_last(), s.last(), x, le);
    }
}

proof fn lemma_placed<A>(s: Seq<A>, x: A, le: spec_fn(A, A) -> bool)
    requires
        is_total_preorder(le),
        ascending(s, le),
    ensures
        ascending(placed(s, x, le), le),
        placed(s, x, le).to_multiset() == s.to_multiset().insert(x),
        placed(s, x, le).len() == s.len() + 1,
        agree_by_rank(placed(s, x, le), s.push(x), le),
        forall|b: A|
            le(x, b) && #[trigger] none_after(s, b, le) ==> none_after(placed(s, x, le), b, le),
    decreases s.len(),
{
    broadcast use vstd::seq_lib::group_to_multiset_ensures;

    let p = placed(s, x, le);
    if s.len() == 0 {
        assert(p == s.push(x));
    } else if le(s.last(), x) {
        assert forall|i: int, j: int| 0 <= i < j < p.len() implies le(#[trigger] p[i], #[trigger] p[j]) by {
            if j == s.len() && i < s.len() - 1 {
                assert(le(s[i], s[s.len() - 1]));
            }
        }
    } else {
        let front = s.drop_last();
        lemma_placed(front, x, le);
        let q = placed(front, x, le);
        assert(le(x, s.last()));
        assert(none_after(front, s.last(), le));
        assert(none_after(q, s.last(), le));
        assert(s == front.push(s.last()));
        assert(p == q.push(s.last()));
        assert(s.to_multiset() == front.to_multiset().insert(s.last()));
        assert(p.to_multiset() == q.to_multiset().insert(s.last()));
        assert(p.to_multiset() =~= s.to_multiset().insert(x));
        assert forall|y: A| #[trigger] of_rank(p, y, le) == of_rank(s.push(x), y, le) by {
            lemma_of_rank_push(q, s.last(), y, le);
            lemma_of_rank_push(front, x, y, le);
            lemma_of_rank_push(front, s.last(), y, le);
            lemma_of_rank_push(s, x, y, le);
            assert(of_rank(q, y, le) == of_rank(front.push(x), y, le));
            if le(y, x) && le(x, y) && le(y, s.last()) && le(s.last(), y) {
                assert(le(s.last(), x));
            }
        }
        assert forall|b: A| le(x, b) && #[trigger] none_after(s, b, le) implies none_after(p, b, le) by {
            assert(forall|i: int| 0 <= i < front.len() ==> front[i] == s[i]);
            assert(none_after(front, b, le));
            assert(none_after(q, b, le));
            assert(le(s[s.len() - 1], b));
        }
    }
}

/// `in_order` gives a permutation of its argument that ascends and that keeps the order of the
/// elements of each rank.
pub proof fn lemma_in_order<A>(s: Seq<A>, le: spec_fn(A, A) -> bool)
    requires
        is_total_preorder(le),
    ensures
        ascending(in_order(s, le), le),
        in_order(s, le).to_multiset() == s.to_multiset(),
        in_order(s, le).len() == s.len(),
        agree_by_rank(in_order(s, le), s, le),
    decreases s.len(),
{
    broadcast use vstd::seq_lib::group_to_multiset_ensures;

    if s.len() > 0 {
        let front = s.drop_last();
        lemma_in_order(front, le);
        lemma_placed(in_order(front, le), s.last(), le);
        assert(s == front.push(s.last()));
        assert forall|y: A| #[trigger] of_rank(in_order(s, le), y, le) == of_rank(s, y, le) by {
            assert(of_rank(in_order(front, le), y, le) == of_rank(front, y, le));
            assert(of_rank(in_order(s, le), y, le) == of_rank(
                in_order(front, le).push(s.last()),
                y,
                le,
            ));
            lemma_of_rank_push(in_order(front, le), s.last(), y, le);
            lemma_of_rank_push(front, s.last(), y, le);
        }
    }
}

proof fn lemma_of_rank_first<A>(s: Seq<A>, le: spec_fn(A, A) -> bool, x: A)
    requires
        is_total_preorder(le),
        s.len() > 0,
        le(x, s[0]) && le(s[0], x),
    ensures
        of_rank(s, x, le).len() > 0,
        of_rank(s, x, le)[0] == s[0],
{
    let rest = s.drop_first();
    assert(s == seq![s[0]] + rest);
    lemma_of_rank_add(seq![s[0]], rest, x, le);
    assert(seq![s[0]] == Seq::<A>::empty().push(s[0]));
    lemma_of_rank_push(Seq::<A>::empty(), s[0], x, le);
    lemma_of_rank_none(Seq::<A>::empty(), x, le);
}

proof fn lemma_of_rank_source<A>(s: Seq<A>, x: A, le: spec_fn(A, A) -> bool)
    ensures
        forall|i: int|
            0 <= i < of_rank(s, x, le).len() ==> s.contains(#[trigger] of_rank(s, x, le)[i]),
{
    let p = |y: A| le(x, y) && le(y, x);
    assert forall|i: int| 0 <= i < s.filter(p).len() implies s.contains(#[trigger] s.filter(p)[i]) by {
        s.lemma_filter_contains_rev(p, s.filter(p)[i]);
    }
}

/// Two ascending sequences that hold the same elements of each rank in the same order are equal:
/// what a stable sort gives is determined by what it is given.
pub proof fn lemma_stable_order_is_unique<A>(a: Seq<A>, b: Seq<A>, le: spec_fn(A, A) -> bool)
    requires
        is_total_preorder(le),
        ascending(a, le),
        ascending(b, le),
        agree_by_rank(a, b, le),
    ensures
        a == b,
    decreases a.len(),
{
    if a.len() == 0 {
        if b.len() > 0 {
            lemma_of_rank_first(b, le, b[0]);
            lemma_of_rank_none(a, b[0], le);
            assert(of_rank(a, b[0], le) == of_rank(b, b[0], le));
        }
        assert(a == b);
    } else if b.len() == 0 {
        lemma_of_rank_first(a, le, a[0]);
        lemma_of_rank_none(b, a[0], le);
        assert(of_rank(a, a[0], le) == of_rank(b, a[0], le));
    } else {
        lemma_of_rank_first(a, le, a[0]);
        lemma_of_rank_first(b, le, b[0]);
        assert(of_rank(a, a[0], le) == of_rank(b, a[0], le));
        assert(of_rank(a, b[0], le) == of_rank(b, b[0], le));
        lemma_of_rank_source(b, a[0], le);
        lemma_of_rank_source(a, b[0], le);
        assert(b.contains(of_rank(b, a[0], le)[0]));
        assert(a.contains(of_rank(a, b[0], le)[0]));
        let i = b.index_of(a[0]);
        let j = a.index_of(b[0]);
        assert(le(b[0], a[0])) by {
            if i > 0 {
                assert(le(b[0], b[i]));
            }
        }
        assert(le(a[0], b[0])) by {
            if j > 0 {
                assert(le(a[0], a[j]));
            }
        }
        lemma_of_rank_first(b, le, a[0]);
        assert(a[0] == b[0]);
        let ta = a.drop_first();
        let tb = b.drop_first();
        assert forall|x: A| #[trigger] of_rank(ta, x, le) == of_rank(tb, x, le) by {
            assert(of_rank(a, x, le) == of_rank(b, x, le));
            assert(a == seq![a[0]] + ta);
            assert(b == seq![a[0]] + tb);
            lemma_of_rank_add(seq![a[0]], ta, x, le);
            lemma_of_rank_add(seq![a[0]], tb, x, le);
            let h = of_rank(seq![a[0]], x, le);
            assert(of_rank(ta, x, le) == (h + of_rank(ta, x, le)).skip(h.len() as int));
            assert(of_rank(tb, x, le) == (h + of_rank(tb, x, le)).skip(h.len() as int));
        }
        lemma_stable_order_is_unique(ta, tb, le);
        assert(a == seq![a[0]] + ta);
        assert(b == seq![a[0]] + tb);
    }
}

/// Sorting by a key that a function `f` leaves as it is may be done before or after `f`.
pub proof fn lemma_in_order_map<A, B>(
    s: Seq<A>,
    f: spec_fn(A) -> B,
    le_a: spec_fn(A, A) -> bool,
    le_b: spec_fn(B, B) -> bool,
)
    requires
        forall|x: A, y: A| #[trigger] le_a(x, y) == le_b(f(x), f(y)),
    ensures
        in_order(s, le_a).map_values(f) == in_order(s.map_values(f), le_b),
    decreases s.len(),
{
    if s.len() > 0 {
        lemma_in_order_map(s.drop_last(), f, le_a, le_b);
        assert(s.map_values(f).drop_last() == s.drop_last().map_values(f));
        lemma_placed_map(in_order(s.drop_last(), le_a), s.last(), f, le_a, le_b);
    } else {
        assert(in_order(s, le_a).map_values(f) == in_order(s.map_values(f), le_b));
    }
}

proof fn lemma_placed_map<A, B>(
    s: Seq<A>,
    x: A,
    f: spec_fn(A) -> B,
    le_a: spec_fn(A, A) -> bool,
    le_b: spec_fn(B, B) -> bool,
)
    requires
        forall|x: A, y: A| #[trigger] le_a(x, y) == le_b(f(x), f(y)),
    ensures
        placed(s, x, le_a).map_values(f) == placed(s.map_values(f), f(x), le_b),
    decreases s.len(),
{
    let m = s.map_values(f);
    if s.len() == 0 {
        assert(placed(s, x, le_a).map_values(f) == placed(m, f(x), le_b));
    } else if le_a(s.last(), x) {
        assert(s.push(x).map_values(f) == m.push(f(x)));
    } else {
        lemma_placed_map(s.drop_last(), x, f, le_a, le_b);
        assert(m.drop_last() == s.drop_last().map_values(f));
        assert(placed(s, x, le_a).map_values(f) == placed(m, f(x), le_b));
    }
}

proof fn lemma_filter_is_smaller<A>(m: Multiset<A>, f: spec_fn(A) -> bool)
    ensures
        m.filter(f).len() <= m.len(),
{
    let g = |x: A| !f(x);
    assert(m.filter(f).add(m.filter(g)) =~= m);
}

proof fn lemma_ranks_at_most<A>(a: Seq<A>, b: Seq<A>, le: spec_fn(A, A) -> bool, i: int)
    requires
        is_total_preorder(le),
        ascending(a, le),
        ascending(b, le),
        a.to_multiset() == b.to_multiset(),
        a.len() == b.len(),
        0 <= i < a.len(),
    ensures
        le(b[i], a[i]),
{
    broadcast use vstd::seq_lib::group_to_multiset_ensures;

    if !le(b[i], a[i]) {
        // More elements of `a` than of `b` rank no higher than `a[i]`.
        let f = |x: A| le(x, a[i]);
        let low = a.take(i + 1);
        let high = a.skip(i + 1);
        assert(a =~= low + high);
        vstd::seq_lib::lemma_multiset_commutative(low, high);
        assert forall|x: A| low.to_multiset().count(x) > 0 implies f(x) by {
            assert(low.contains(x));
            let k = low.index_of(x);
            assert(le(a[i], a[i]));
            if k < i {
                assert(le(a[k], a[i]));
            }
        }
        assert(low.to_multiset().filter(f) =~= low.to_multiset());
        assert(a.to_multiset().filter(f) =~= low.to_multiset().filter(f).add(
            high.to_multiset().filter(f),
        ));
        let before = b.take(i);
        let after = b.skip(i);
        assert(b =~= before + after);
        vstd::seq_lib::lemma_multiset_commutative(before, after);
        assert forall|x: A| after.to_multiset().count(x) > 0 implies !f(x) by {
            assert(after.contains(x));
            let k = after.index_of(x);
            assert(after[k] == b[i + k]);
            if k > 0 {
                assert(le(b[i], b[i + k]));
            }
        }
        assert(after.to_multiset().filter(f) =~= Multiset::empty());
        assert(b.to_multiset().filter(f) =~= before.to_multiset().filter(f).add(
            after.to_multiset().filter(f),
        ));
        lemma_filter_is_smaller(before.to_multiset(), f);
        assert(low.len() == low.to_multiset().len());
        assert(before.len() == before.to_multiset().len());
        assert(a.to_multiset().filter(f).len() >= i + 1);
        assert(b.to_multiset().filter(f).len() <= i);
    }
}

/// Two ascending sequences of the same elements have elements of the same rank at every place.
pub proof fn lemma_ranks_agree<A>(a: Seq<A>, b: Seq<A>, le: spec_fn(A, A) -> bool)
    requires
        is_total_preorder(le),
        ascending(a, le),
        ascending(b, le),
        a.to_multiset() == b.to_multiset(),
    ensures
        a.len() == b.len(),
        forall|i: int| 0 <= i < a.len() ==> le(#[trigger] a[i], b[i]) && le(b[i], a[i]),
{
    broadcast use vstd::seq_lib::group_to_multiset_ensures;

    assert(a.len() == a.to_multiset().len());
    assert forall|i: int| 0 <= i < a.len() implies le(#[trigger] a[i], b[i]) && le(b[i], a[i]) by {
        lemma_ranks_at_most(a, b, le, i);
        lemma_ranks_at_most(b, a, le, i);
    }
}

/// Values that are sorted by a total preorder of their own.
pub trait Ranked: Sized {
    /// This value does not come after `other`.
    spec fn rank_le(self, other: Self) -> bool;

    proof fn rank_is_total(a: Self, b: Self)
        ensures
            a.rank_le(b) || b.rank_le(a),
    ;

    proof fn rank_is_transitive(a: Self, b: Self, c: Self)
        requires
            a.rank_le(b),
            b.rank_le(c),
        ensures
            a.rank_le(c),
    ;

    fn ranks_at_most(&self, other: &Self) -> (r: bool)
        ensures
            r == self.rank_le(*other),
    ;
}

/// The order of a ranked type.
pub open spec fn rank_order<T: Ranked>() -> spec_fn(T, T) -> bool {
    |a: T, b: T| a.rank_le(b)
}

pub proof fn lemma_rank_order<T: Ranked>()
    ensures
        is_total_preorder(rank_order::<T>()),
{
    let le = rank_order::<T>();
    assert forall|a: T, b: T| #[trigger] le(a, b) || le(b, a) by {
        T::rank_is_total(a, b);
    }
    assert forall|a: T, b: T, c: T| #[trigger] le(a, b) && #[trigger] le(b, c) implies le(a, c) by {
        T::rank_is_transitive(a, b, c);
    }
}

/// What is known while two ascending runs are merged from their ends into `tail`, which holds the
/// elements taken so far, the last one first.
spec fn merging<T: Ranked>(
    left: Seq<T>,
    right: Seq<T>,
    tail: Seq<T>,
    whole: Seq<T>,
) -> bool {
    let le = rank_order::<T>();
    &&& ascending(left, le)
    &&& ascending(right, le)
    &&& ascending(tail.reverse(), le)
    &&& forall|i: int, j: int|
        0 <= i < left.len() && 0 <= j < tail.len() ==> le(#[trigger] left[i], #[trigger] tail[j])
    &&& forall|i: int, j: int|
        0 <= i < right.len() && 0 <= j < tail.len() ==> le(#[trigger] right[i], #[trigger] tail[j])
    &&& left.len() + right.len() + tail.len() == whole.len()
    &&& agree_by_rank(left + right + tail.reverse(), whole, le)
}

proof fn lemma_merge_takes_right<T: Ranked>(
    left: Seq<T>,
    right: Seq<T>,
    tail: Seq<T>,
    whole: Seq<T>,
)
    requires
        merging(left, right, tail, whole),
        right.len() > 0,
        left.len() > 0 ==> left.last().rank_le(right.last()),
    ensures
        merging(left, right.drop_last(), tail.push(right.last()), whole),
{
    lemma_rank_order::<T>();
    let le = rank_order::<T>();
    let e = right.last();
    let rest = right.drop_last();
    let tail2 = tail.push(e);
    assert(tail2.reverse() == seq![e] + tail.reverse());
    assert(left + rest + tail2.reverse() == left + right + tail.reverse());
    assert forall|i: int, j: int| 0 <= i < left.len() && 0 <= j < tail2.len() implies le(
        #[trigger] left[i],
        #[trigger] tail2[j],
    ) by {
        if j < tail.len() {
            assert(le(left[i], tail[j]));
        } else {
            assert(le(left[left.len() - 1], e));
            if i < left.len() - 1 {
                assert(le(left[i], left[left.len() - 1]));
            }
        }
    }
    assert forall|i: int, j: int| 0 <= i < rest.len() && 0 <= j < tail2.len() implies le(
        #[trigger] rest[i],
        #[trigger] tail2[j],
    ) by {
        assert(le(right[i], right[right.len() - 1]));
        if j < tail.len() {
            assert(le(right[i], tail[j]));
        }
    }
    assert forall|i: int, j: int| 0 <= i < j < tail2.len() implies le(
        #[trigger] tail2.reverse()[i],
        #[trigger] tail2.reverse()[j],
    ) by {
        if i == 0 {
            assert(tail2.reverse()[j] == tail[tail.len() - j]);
            assert(le(right[right.len() - 1], tail[tail.len() - j]));
        } else {
            assert(tail2.reverse()[i] == tail.reverse()[i - 1]);
            assert(tail2.reverse()[j] == tail.reverse()[j - 1]);
        }
    }
}

proof fn lemma_merge_takes_left<T: Ranked>(
    left: Seq<T>,
    right: Seq<T>,
    tail: Seq<T>,
    whole: Seq<T>,
)
    requires
        merging(left, right, tail, whole),
        left.len() > 0,
        right.len() > 0 ==> !left.last().rank_le(right.last()),
    ensures
        merging(left.drop_last(), right, tail.push(left.last()), whole),
{
    lemma_rank_order::<T>();
    let le = rank_order::<T>();
    let e = left.last();
    let rest = left.drop_last();
    let tail2 = tail.push(e);
    assert forall|i: int| 0 <= i < right.len() implies le(#[trigger] right[i], e) && !le(e, right[i]) by {
        let r = right.last();
        assert(le(r, e) || le(e, r));
        if i < right.len() - 1 {
            assert(le(right[i], right[right.len() - 1]));
        }
        if le(e, right[i]) {
            assert(le(e, right[right.len() - 1]));
        }
    }
    assert(tail2.reverse() == seq![e] + tail.reverse());
    assert(left == rest + seq![e]);
    assert forall|x: T| #[trigger] of_rank(rest + right + tail2.reverse(), x, le) == of_rank(
        whole,
        x,
        le,
    ) by {
        assert(of_rank(left + right + tail.reverse(), x, le) == of_rank(whole, x, le));
        lemma_of_rank_add(left + right, tail.reverse(), x, le);
        lemma_of_rank_add(left, right, x, le);
        lemma_of_rank_add(rest, seq![e], x, le);
        lemma_of_rank_add(rest + right, tail2.reverse(), x, le);
        lemma_of_rank_add(rest, right, x, le);
        lemma_of_rank_add(seq![e], tail.reverse(), x, le);
        if le(x, e) && le(e, x) {
            assert forall|i: int| 0 <= i < right.len() implies !(le(x, #[trigger] right[i]) && le(
                right[i],
                x,
            )) by {
                if le(x, right[i]) {
                    assert(le(e, right[i]));
                }
            }
            lemma_of_rank_none(right, x, le);
        } else {
            assert forall|i: int| 0 <= i < seq![e].len() implies !(le(x, #[trigger] seq![e][i])
                && le(seq![e][i], x)) by {}
            lemma_of_rank_none(seq![e], x, le);
        }
        assert(of_rank(rest + right + tail2.reverse(), x, le) =~= of_rank(whole, x, le));
    }
    assert forall|i: int, j: int| 0 <= i < rest.len() && 0 <= j < tail2.len() implies le(
        #[trigger] rest[i],
        #[trigger] tail2[j],
    ) by {
        assert(le(left[i], left[left.len() - 1]));
        if j < tail.len() {
            assert(le(left[i], tail[j]));
        }
    }
    assert forall|i: int, j: int| 0 <= i < j < tail2.len() implies le(
        #[trigger] tail2.reverse()[i],
        #[trigger] tail2.reverse()[j],
    ) by {
        if i == 0 {
            assert(tail2.reverse()[j] == tail[tail.len() - j]);
            assert(le(left[left.len() - 1], tail[tail.len() - j]));
        } else {
            assert(tail2.reverse()[i] == tail.reverse()[i - 1]);
            assert(tail2.reverse()[j] == tail.reverse()[j - 1]);
        }
    }
}

fn merge<T: Ranked>(left: Vec<T>, right: Vec<T>) -> (out: Vec<T>)
    requires
        ascending(left@, rank_order::<T>()),
        ascending(right@, rank_order::<T>()),
    ensures
        ascending(out@, rank_order::<T>()),
        agree_by_rank(out@, left@ + right@, rank_order::<T>()),
{
    let ghost whole = left@ + right@;
    let mut left = left;
    let mut right = right;
    let mut tail: Vec<T> = Vec::new();
    assert(left@ + right@ + tail@.reverse() == whole);
    while left.len() > 0 || right.len() > 0
        invariant
            merging(left@, right@, tail@, whole),
        decreases left.len() + right.len(),
    {
        let take_right = if left.len() == 0 {
            true
        } else if right.len() == 0 {
            false
        } else {
            left[left.len() - 1].ranks_at_most(&right[right.len() - 1])
        };
        if take_right {
            proof {
                lemma_merge_takes_right(left@, right@, tail@, whole);
            }
            if let Some(e) = right.pop() {
                tail.push(e);
            }
        } else {
            proof {
                lemma_merge_takes_left(left@, right@, tail@, whole);
            }
            if let Some(e) = left.pop() {
                tail.push(e);
            }
        }
    }
    let ghost all = tail@.reverse();
    assert(left@ + right@ + tail@.reverse() == all);
    let mut out: Vec<T> = left;
    while tail.len() > 0
        invariant
            out@ + tail@.reverse() == all,
        decreases tail.len(),
    {
        let ghost before = out@ + tail@.reverse();
        let ghost t = tail@;
        if let Some(e) = tail.pop() {
            out.push(e);
            assert(t.reverse() == seq![e] + tail@.reverse());
            assert(out@ + tail@.reverse() == before);
        }
    }
    assert(out@ == all);
    out
}

/// Sorts `items` by rank and keeps the order of those of the same rank.
pub fn stable_sort<T: Ranked>(items: Vec<T>) -> (out: Vec<T>)
    ensures
        out@ == in_order(items@, rank_order::<T>()),
    decreases items.len(),
{
    let ghost s = items@;
    let ghost le = rank_order::<T>();
    proof {
        lemma_rank_order::<T>();
        lemma_in_order(s, le);
    }
    if items.len() < 2 {
        assert(s == in_order(s, le)) by {
            if s.len() == 1 {
                assert(s.drop_last() == Seq::<T>::empty());
                assert(in_order(s.drop_last(), le) == Seq::<T>::empty());
            }
        }
        return items;
    }
    let mut front = items;
    let mid: usize = front.len() / 2;
    let back = front.split_off(mid);
    let ghost a = front@;
    let ghost b = back@;
    assert(a + b == s);
    let front = stable_sort(front);
    let back = stable_sort(back);
    proof {
        lemma_in_order(a, le);
        lemma_in_order(b, le);
    }
    let ghost sorted_a = front@;
    let ghost sorted_b = back@;
    let out = merge(front, back);
    proof {
        assert forall|x: T| #[trigger] of_rank(out@, x, le) == of_rank(in_order(s, le), x, le) by {
            assert(of_rank(out@, x, le) == of_rank(sorted_a + sorted_b, x, le));
            lemma_of_rank_add(sorted_a, sorted_b, x, le);
            lemma_of_rank_add(a, b, x, le);
            assert(of_rank(sorted_a, x, le) == of_rank(a, x, le));
            assert(of_rank(sorted_b, x, le) == of_rank(b, x, le));
            assert(of_rank(in_order(s, le), x, le) == of_rank(s, x, le));
        }
        lemma_stable_order_is_unique(out@, in_order(s, le), le);
    }
    out
}

} // verus!
