//! A stable insertion sort, the order that `slice::sort_by_key` gives:
//! an element moves ahead of another only if it belongs strictly before it.

use vstd::prelude::*;

verus! {

/// A preorder on the values of a type, told as "belongs after".
pub trait SortOrder: Sized {
    /// `self` belongs strictly after `other`.
    spec fn goes_after(&self, other: &Self) -> bool;

    fn is_after(&self, other: &Self) -> (r: bool)
        ensures
            r == self.goes_after(other),
    ;
}

/// The order of `T` as a function.
pub open spec fn order_of<T: SortOrder>() -> spec_fn(T, T) -> bool {
    |a: T, b: T| a.goes_after(&b)
}

/// Where `x` goes among the sorted `s`: before the first element that
/// belongs after it, so after every element it ties with.
pub open spec fn insert_pos<A>(s: Seq<A>, x: A, after: spec_fn(A, A) -> bool) -> nat
    decreases s.len(),
{
    if s.len() == 0 {
        0
    } else if after(s[0], x) {
        0
    } else {
        1 + insert_pos(s.drop_first(), x, after)
    }
}

/// `s` sorted by insertion, element by element in order of `s`: the stable
/// sort of `s` by `after`.
pub open spec fn sort_by<A>(s: Seq<A>, after: spec_fn(A, A) -> bool) -> Seq<A>
    decreases s.len(),
{
    if s.len() == 0 {
        s
    } else {
        let r = sort_by(s.drop_last(), after);
        r.insert(insert_pos(r, s.last(), after) as int, s.last())
    }
}

/// The stable sort of `s` in the order of `T`.
pub open spec fn sort_seq<T: SortOrder>(s: Seq<T>) -> Seq<T> {
    sort_by(s, order_of::<T>())
}

/// `s` is in order: no element belongs after one that follows it.
pub open spec fn in_order_by<A>(s: Seq<A>, after: spec_fn(A, A) -> bool) -> bool {
    forall|i: int, j: int| #![trigger s[i], s[j]] 0 <= i < j < s.len() ==> !after(s[i], s[j])
}

/// `after` is a strict partial order.
pub open spec fn strict_by<A>(after: spec_fn(A, A) -> bool) -> bool {
    &&& forall|a: A, b: A| #[trigger] after(a, b) ==> !after(b, a)
    &&& forall|a: A, b: A, c: A| #[trigger] after(a, b) && #[trigger] after(b, c) ==> after(a, c)
}

pub proof fn lemma_insert_pos_bound<A>(s: Seq<A>, x: A, after: spec_fn(A, A) -> bool)
    ensures
        insert_pos(s, x, after) <= s.len(),
    decreases s.len(),
{
    if s.len() > 0 {
        lemma_insert_pos_bound(s.drop_first(), x, after);
    }
}

proof fn lemma_insert_pos_at<A>(s: Seq<A>, x: A, after: spec_fn(A, A) -> bool, p: int)
    requires
        0 <= p <= s.len(),
        forall|j: int| 0 <= j < p ==> !after(#[trigger] s[j], x),
        p < s.len() ==> after(s[p], x),
    ensures
        insert_pos(s, x, after) == p,
    decreases p,
{
    if p > 0 {
        assert forall|j: int| 0 <= j < p - 1 implies !after(#[trigger] s.drop_first()[j], x) by {
            assert(s.drop_first()[j] == s[j + 1]);
        }
        lemma_insert_pos_at(s.drop_first(), x, after, p - 1);
    }
}

/// Sorting keeps every element, as often as it occurs.
pub proof fn lemma_sort_permutes<A>(s: Seq<A>, after: spec_fn(A, A) -> bool)
    ensures
        sort_by(s, after).to_multiset() == s.to_multiset(),
        sort_by(s, after).len() == s.len(),
    decreases s.len(),
{
    broadcast use vstd::seq_lib::group_to_multiset_ensures;

    if s.len() > 0 {
        lemma_sort_permutes(s.drop_last(), after);
        let r = sort_by(s.drop_last(), after);
        lemma_insert_pos_bound(r, s.last(), after);
        assert(s.drop_last().push(s.last()) == s);
    }
}

proof fn lemma_insert_pos_before<A>(s: Seq<A>, x: A, after: spec_fn(A, A) -> bool, j: int)
    requires
        0 <= j < insert_pos(s, x, after),
        insert_pos(s, x, after) <= s.len(),
    ensures
        !after(s[j], x),
    decreases s.len(),
{
    if j > 0 {
        lemma_insert_pos_bound(s.drop_first(), x, after);
        lemma_insert_pos_before(s.drop_first(), x, after, j - 1);
    }
}

proof fn lemma_insert_pos_stop<A>(s: Seq<A>, x: A, after: spec_fn(A, A) -> bool)
    ensures
        insert_pos(s, x, after) < s.len() ==> after(s[insert_pos(s, x, after) as int], x),
    decreases s.len(),
{
    if s.len() > 0 && !after(s[0], x) {
        lemma_insert_pos_stop(s.drop_first(), x, after);
    }
}

/// Under a strict partial order the sort puts everything in order.
pub proof fn lemma_sort_in_order<A>(s: Seq<A>, after: spec_fn(A, A) -> bool)
    requires
        strict_by(after),
    ensures
        in_order_by(sort_by(s, after), after),
    decreases s.len(),
{
    if s.len() > 0 {
        lemma_sort_in_order(s.drop_last(), after);
        let r = sort_by(s.drop_last(), after);
        let x = s.last();
        let p = insert_pos(r, x, after) as int;
        lemma_insert_pos_bound(r, x, after);
        lemma_insert_pos_stop(r, x, after);
        let w = r.insert(p, x);
        assert forall|i: int, j: int| #![trigger w[i], w[j]] 0 <= i < j < w.len() implies !after(
            w[i],
            w[j],
        ) by {
            if j < p {
                assert(w[i] == r[i] && w[j] == r[j]);
            } else if j == p {
                assert(w[i] == r[i]);
                lemma_insert_pos_before(r, x, after, i);
            } else if i == p {
                assert(w[j] == r[j - 1]);
                assert(after(r[p], x));
                if j - 1 > p {
                    assert(!after(r[p], r[j - 1]));
                }
            } else if i < p {
                assert(w[i] == r[i] && w[j] == r[j - 1]);
            } else {
                assert(w[i] == r[i - 1] && w[j] == r[j - 1]);
            }
        }
    }
}

proof fn lemma_insert_pos_map<A, B>(
    s: Seq<A>,
    x: A,
    f: spec_fn(A) -> B,
    after_a: spec_fn(A, A) -> bool,
    after_b: spec_fn(B, B) -> bool,
)
    requires
        forall|a: A, b: A| #[trigger] after_a(a, b) == after_b(f(a), f(b)),
    ensures
        insert_pos(s, x, after_a) == insert_pos(s.map_values(f), f(x), after_b),
    decreases s.len(),
{
    if s.len() > 0 {
        assert(s.drop_first().map_values(f) == s.map_values(f).drop_first());
        assert(after_a(s[0], x) == after_b(f(s[0]), f(x)));
        lemma_insert_pos_map(s.drop_first(), x, f, after_a, after_b);
    }
}

/// Sorting commutes with a map that keeps the order.
pub proof fn lemma_sort_map<A, B>(
    s: Seq<A>,
    f: spec_fn(A) -> B,
    after_a: spec_fn(A, A) -> bool,
    after_b: spec_fn(B, B) -> bool,
)
    requires
        forall|a: A, b: A| #[trigger] after_a(a, b) == after_b(f(a), f(b)),
    ensures
        sort_by(s, after_a).map_values(f) == sort_by(s.map_values(f), after_b),
    decreases s.len(),
{
    if s.len() > 0 {
        lemma_sort_map(s.drop_last(), f, after_a, after_b);
        let r = sort_by(s.drop_last(), after_a);
        lemma_insert_pos_map(r, s.last(), f, after_a, after_b);
        lemma_insert_pos_bound(r, s.last(), after_a);
        assert(s.drop_last().map_values(f) == s.map_values(f).drop_last());
        assert(r.insert(insert_pos(r, s.last(), after_a) as int, s.last()).map_values(f)
            =~= r.map_values(f).insert(insert_pos(r, s.last(), after_a) as int, f(s.last())));
    }
}

/// Sorts `v` stably, as `sort_seq` describes.
pub fn sort_vec<T: SortOrder>(v: Vec<T>) -> (r: Vec<T>)
    ensures
        r@ == sort_seq(v@),
{
    let ghost orig = v@;
    let ghost after = order_of::<T>();
    let mut v = v;
    let mut r: Vec<T> = Vec::new();
    while v.len() > 0
        invariant
            v.len() <= orig.len(),
            v@ == orig.skip(orig.len() - v.len()),
            r@ == sort_by(orig.take(orig.len() - v.len()), after),
            after == order_of::<T>(),
        decreases v.len(),
    {
        let ghost k = orig.len() - v.len();
        assert(v@[0] == orig[k]);
        let x = v.remove(0);
        assert(v@ == orig.skip(k + 1));
        assert(orig.take(k + 1).drop_last() == orig.take(k));
        assert(orig.take(k + 1).last() == x);
        let mut p: usize = 0;
        while p < r.len() && !r[p].is_after(&x)
            invariant
                p <= r.len(),
                after == order_of::<T>(),
                forall|j: int| 0 <= j < p ==> !after(#[trigger] r@[j], x),
            decreases r.len() - p,
        {
            p += 1;
        }
        proof {
            lemma_insert_pos_at(r@, x, after, p as int);
        }
        r.insert(p, x);
    }
    assert(orig.take(orig.len() as int) == orig);
    r
}

/// The first `k` elements of the sorted `s`: each comes from `s`, no more
/// often than there, and any element of `s` left out of them belongs after
/// none of them.
pub proof fn lemma_sorted_prefix<A>(s: Seq<A>, after: spec_fn(A, A) -> bool, k: int)
    requires
        strict_by(after),
        0 <= k <= s.len(),
    ensures
        forall|x: A|
            #[trigger] sort_by(s, after).take(k).to_multiset().count(x) <= s.to_multiset().count(
                x,
            ),
        forall|x: A, i: int|
            #![trigger sort_by(s, after)[i], s.to_multiset().count(x)]
            0 <= i < k && s.to_multiset().count(x) > sort_by(s, after).take(k).to_multiset().count(
                x,
            ) ==> !after(sort_by(s, after)[i], x),
{
    broadcast use vstd::seq_lib::group_to_multiset_ensures;
    broadcast use vstd::multiset::group_multiset_axioms;

    let t = sort_by(s, after);
    lemma_sort_permutes(s, after);
    lemma_sort_in_order(s, after);
    let a = t.take(k);
    let b = t.skip(k);
    assert(t == a + b);
    vstd::seq_lib::lemma_multiset_commutative(a, b);
    assert forall|x: A, i: int|
        #![trigger t[i], s.to_multiset().count(x)]
        0 <= i < k && s.to_multiset().count(x) > a.to_multiset().count(x) implies !after(t[i], x) by {
        assert(b.to_multiset().count(x) > 0);
        assert(b.contains(x));
        let j = choose|j: int| 0 <= j < b.len() && b[j] == x;
        assert(t[k + j] == x);
    }
}

} // verus!
