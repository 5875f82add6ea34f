//! Stable insertion into sorted sequences, the order every report of the
//! crate is sorted in.
use vstd::prelude::*;

verus! {

/// `s` with `x` placed after every element that `x` does not come before:
/// the place a stable sort gives the last of several equal elements.
pub open spec fn insert_sorted<T>(s: Seq<T>, x: T, less: spec_fn(T, T) -> bool) -> Seq<T>
    decreases s.len(),
{
    if s.len() == 0 {
        seq![x]
    } else if less(x, s[0]) {
        seq![x] + s
    } else {
        seq![s[0]] + insert_sorted(s.drop_first(), x, less)
    }
}

/// `s` stably sorted by `less`: each element is inserted, in order, after
/// the elements before it that it does not come before.
pub open spec fn sorted_by<T>(s: Seq<T>, less: spec_fn(T, T) -> bool) -> Seq<T>
    decreases s.len(),
{
    if s.len() == 0 {
        Seq::empty()
    } else {
        insert_sorted(sorted_by(s.drop_last(), less), s.last(), less)
    }
}

/// Inserting before the first element that `x` comes before is the stable
/// insertion.
pub proof fn lemma_insert_at_first_greater<T>(
    s: Seq<T>,
    x: T,
    less: spec_fn(T, T) -> bool,
    p: int,
)
    requires
        0 <= p <= s.len(),
        forall|k: int| 0 <= k < p ==> !less(x, #[trigger] s[k]),
        p < s.len() ==> less(x, s[p]),
    ensures
        insert_sorted(s, x, less) == s.subrange(0, p) + seq![x] + s.subrange(p, s.len() as int),
    decreases s.len(),
{
    if s.len() == 0 {
        assert(seq![x] =~= s.subrange(0, p) + seq![x] + s.subrange(p, s.len() as int));
    } else if p == 0 {
        assert(seq![x] + s =~= s.subrange(0, p) + seq![x] + s.subrange(p, s.len() as int));
    } else {
        let t = s.drop_first();
        assert forall|k: int| 0 <= k < p - 1 implies !less(x, #[trigger] t[k]) by {
            assert(t[k] == s[k + 1]);
        }
        lemma_insert_at_first_greater(t, x, less, p - 1);
        assert(seq![s[0]] + (t.subrange(0, p - 1) + seq![x] + t.subrange(p - 1, t.len() as int))
            =~= s.subrange(0, p) + seq![x] + s.subrange(p, s.len() as int));
    }
}

/// No element of `s` comes, by `less`, before an element earlier in `s`.
pub open spec fn is_sorted_by<T>(s: Seq<T>, less: spec_fn(T, T) -> bool) -> bool {
    forall|i: int, j: int| 0 <= i < j < s.len() ==> !less(#[trigger] s[j], #[trigger] s[i])
}

/// `less` is a strict order: irreflexive and transitive.
pub open spec fn strict_order<T>(less: spec_fn(T, T) -> bool) -> bool {
    &&& forall|a: T| !#[trigger] less(a, a)
    &&& forall|a: T, b: T, c: T| #[trigger] less(a, b) && #[trigger] less(b, c) ==> less(a, c)
}

/// Any two different elements of `s` are ordered one way or the other.
pub open spec fn total_on<T>(s: Seq<T>, less: spec_fn(T, T) -> bool) -> bool {
    forall|a: T, b: T| s.contains(a) && s.contains(b) && a != b ==> #[trigger] less(a, b) || #[trigger] less(b, a)
}

/// Stable insertion adds `x` to the elements of `s`.
pub proof fn lemma_insert_sorted_multiset<T>(s: Seq<T>, x: T, less: spec_fn(T, T) -> bool)
    ensures
        insert_sorted(s, x, less).to_multiset() == s.to_multiset().insert(x),
        insert_sorted(s, x, less).len() == s.len() + 1,
    decreases s.len(),
{
    broadcast use vstd::seq_lib::group_to_multiset_ensures;
    broadcast use vstd::multiset::group_multiset_axioms;

    if s.len() == 0 {
        assert(seq![x] =~= s.insert(0, x));
    } else if less(x, s[0]) {
        assert(seq![x] + s =~= s.insert(0, x));
    } else {
        let t = s.drop_first();
        lemma_insert_sorted_multiset(t, x, less);
        let r = insert_sorted(t, x, less);
        assert(seq![s[0]] + r =~= r.insert(0, s[0]));
        assert(s =~= t.insert(0, s[0]));
        assert((seq![s[0]] + r).to_multiset() =~= s.to_multiset().insert(x));
    }
}

/// Sorting keeps the elements.
pub proof fn lemma_sorted_by_multiset<T>(s: Seq<T>, less: spec_fn(T, T) -> bool)
    ensures
        sorted_by(s, less).to_multiset() == s.to_multiset(),
        sorted_by(s, less).len() == s.len(),
    decreases s.len(),
{
    broadcast use vstd::seq_lib::group_to_multiset_ensures;

    if s.len() > 0 {
        lemma_sorted_by_multiset(s.drop_last(), less);
        lemma_insert_sorted_multiset(sorted_by(s.drop_last(), less), s.last(), less);
        assert(s =~= s.drop_last().push(s.last()));
    } else {
        assert(s.to_multiset() =~= Seq::<T>::empty().to_multiset());
    }
}

/// Stable insertion into a sorted sequence gives a sorted sequence.
pub proof fn lemma_insert_sorted_sorted<T>(s: Seq<T>, x: T, less: spec_fn(T, T) -> bool)
    requires
        strict_order(less),
        is_sorted_by(s, less),
    ensures
        is_sorted_by(insert_sorted(s, x, less), less),
    decreases s.len(),
{
    broadcast use vstd::seq_lib::group_to_multiset_ensures;
    broadcast use vstd::multiset::group_multiset_axioms;

    let r = insert_sorted(s, x, less);
    if s.len() == 0 {
    } else if less(x, s[0]) {
        assert forall|i: int, j: int| 0 <= i < j < r.len() implies !less(#[trigger] r[j], #[trigger] r[i]) by {
            if i == 0 {
                assert(r[j] == s[j - 1]);
                if less(s[j - 1], x) {
                    assert(less(s[j - 1], s[0]));
                }
            } else {
                assert(r[i] == s[i - 1] && r[j] == s[j - 1]);
            }
        }
    } else {
        let t = s.drop_first();
        assert(is_sorted_by(t, less)) by {
            assert forall|i: int, j: int| 0 <= i < j < t.len() implies !less(#[trigger] t[j], #[trigger] t[i]) by {
                assert(t[i] == s[i + 1] && t[j] == s[j + 1]);
            }
        }
        lemma_insert_sorted_sorted(t, x, less);
        lemma_insert_sorted_multiset(t, x, less);
        let q = insert_sorted(t, x, less);
        assert forall|i: int, j: int| 0 <= i < j < r.len() implies !less(#[trigger] r[j], #[trigger] r[i]) by {
            if i == 0 {
                let e = q[j - 1];
                assert(r[j] == e);
                assert(q.contains(e));
                assert(q.to_multiset().count(e) > 0);
                if e != x {
                    assert(t.to_multiset().count(e) > 0);
                    let k = choose|k: int| 0 <= k < t.len() && t[k] == e;
                    assert(s[k + 1] == e);
                }
            } else {
                assert(r[i] == q[i - 1] && r[j] == q[j - 1]);
            }
        }
    }
}

/// Sorting gives a sorted sequence.
pub proof fn lemma_sorted_by_sorted<T>(s: Seq<T>, less: spec_fn(T, T) -> bool)
    requires
        strict_order(less),
    ensures
        is_sorted_by(sorted_by(s, less), less),
    decreases s.len(),
{
    if s.len() > 0 {
        lemma_sorted_by_sorted(s.drop_last(), less);
        lemma_insert_sorted_sorted(sorted_by(s.drop_last(), less), s.last(), less);
    }
}

/// Two sorted sequences with the same elements are equal when any two of
/// their different elements are ordered.
pub proof fn lemma_sorted_unique<T>(a: Seq<T>, b: Seq<T>, less: spec_fn(T, T) -> bool)
    requires
        strict_order(less),
        is_sorted_by(a, less),
        is_sorted_by(b, less),
        a.to_multiset() == b.to_multiset(),
        total_on(a, less),
    ensures
        a == b,
    decreases a.len(),
{
    broadcast use vstd::seq_lib::group_to_multiset_ensures;
    broadcast use vstd::multiset::group_multiset_axioms;

    assert(a.to_multiset().len() == a.len() && b.to_multiset().len() == b.len());
    if a.len() == 0 {
        assert(b.len() == 0);
        assert(a =~= b);
    } else {
        assert(b.len() == a.len());
        let x = a[0];
        let y = b[0];
        assert(a.contains(x));
        assert(b.to_multiset().count(x) > 0);
        assert(b.contains(x));
        assert(b.contains(y));
        assert(a.to_multiset().count(y) > 0);
        assert(a.contains(y));
        let i = choose|i: int| 0 <= i < a.len() && a[i] == y;
        let j = choose|j: int| 0 <= j < b.len() && b[j] == x;
        if x != y {
            if less(y, x) {
                assert(i > 0);
                assert(!less(a[i], a[0]));
            } else {
                assert(less(x, y));
                assert(j > 0);
                assert(!less(b[j], b[0]));
            }
        }
        let a1 = a.drop_first();
        let b1 = b.drop_first();
        assert(a1 =~= a.remove(0));
        assert(b1 =~= b.remove(0));
        assert(a1.to_multiset() == b1.to_multiset());
        assert(is_sorted_by(a1, less)) by {
            assert forall|p: int, q: int| 0 <= p < q < a1.len() implies !less(#[trigger] a1[q], #[trigger] a1[p]) by {
                assert(a1[p] == a[p + 1] && a1[q] == a[q + 1]);
            }
        }
        assert(is_sorted_by(b1, less)) by {
            assert forall|p: int, q: int| 0 <= p < q < b1.len() implies !less(#[trigger] b1[q], #[trigger] b1[p]) by {
                assert(b1[p] == b[p + 1] && b1[q] == b[q + 1]);
            }
        }
        assert(total_on(a1, less)) by {
            assert forall|u: T, v: T| a1.contains(u) && a1.contains(v) && u != v implies #[trigger] less(u, v) || #[trigger] less(v, u) by {
                let pu = choose|p: int| 0 <= p < a1.len() && a1[p] == u;
                let pv = choose|p: int| 0 <= p < a1.len() && a1[p] == v;
                assert(a[pu + 1] == u && a[pv + 1] == v);
                assert(a.contains(u) && a.contains(v));
            }
        }
        lemma_sorted_unique(a1, b1, less);
        assert(a =~= b) by {
            assert forall|p: int| 0 <= p < a.len() implies a[p] == b[p] by {
                if p > 0 {
                    assert(a[p] == a1[p - 1] && b[p] == b1[p - 1]);
                }
            }
        }
    }
}

/// Sorting ignores the order of its input when any two different elements
/// are ordered.
pub proof fn lemma_sorted_by_permutation<T>(s: Seq<T>, t: Seq<T>, less: spec_fn(T, T) -> bool)
    requires
        strict_order(less),
        s.to_multiset() == t.to_multiset(),
        total_on(s, less),
    ensures
        sorted_by(s, less) == sorted_by(t, less),
{
    broadcast use vstd::seq_lib::group_to_multiset_ensures;

    lemma_sorted_by_multiset(s, less);
    lemma_sorted_by_multiset(t, less);
    lemma_sorted_by_sorted(s, less);
    lemma_sorted_by_sorted(t, less);
    let a = sorted_by(s, less);
    assert(total_on(a, less)) by {
        assert forall|u: T, v: T| a.contains(u) && a.contains(v) && u != v implies #[trigger] less(u, v) || #[trigger] less(v, u) by {
            assert(a.to_multiset().count(u) > 0 && a.to_multiset().count(v) > 0);
            assert(s.contains(u) && s.contains(v));
        }
    }
    lemma_sorted_unique(a, sorted_by(t, less), less);
}

} // verus!
