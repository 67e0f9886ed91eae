//! Stable insertion sort, as a specification, and the fact that makes
//! canonical forms canonical: sorting two arrangements of the same items gives
//! the same sequence, when the order leaves no two different items tied.

use vstd::prelude::*;

verus! {

broadcast use {vstd::seq_lib::group_to_multiset_ensures, vstd::multiset::group_multiset_axioms};

/// Inserts `x` into `r` after every element it does not sort before,
/// scanning from the end; so equal elements keep their order of arrival.
pub open spec fn insert_sorted<T>(r: Seq<T>, x: T, lt: spec_fn(T, T) -> bool) -> Seq<T>
    decreases r.len(),
{
    if r.len() == 0 {
        seq![x]
    } else if lt(x, r.last()) {
        insert_sorted(r.drop_last(), x, lt).push(r.last())
    } else {
        r.push(x)
    }
}

/// Stable insertion sort of `s` by the strict order `lt`.
pub open spec fn sort_by<T>(s: Seq<T>, lt: spec_fn(T, T) -> bool) -> Seq<T>
    decreases s.len(),
{
    if s.len() == 0 {
        seq![]
    } else {
        insert_sorted(sort_by(s.drop_last(), lt), s.last(), lt)
    }
}

/// Where the insertion lands: at the first position from which every element
/// sorts after `x`.
pub proof fn lemma_insert_sorted_at<T>(r: Seq<T>, x: T, lt: spec_fn(T, T) -> bool, j: int)
    requires
        0 <= j <= r.len(),
        forall|k: int| j <= k < r.len() ==> lt(x, #[trigger] r[k]),
        j == 0 || !lt(x, r[j - 1]),
    ensures
        insert_sorted(r, x, lt) == r.insert(j, x),
    decreases r.len(),
{
    if r.len() == 0 {
        assert(r.insert(j, x) =~= seq![x]);
    } else if j == r.len() {
        assert(r.insert(j, x) =~= r.push(x));
    } else {
        assert(lt(x, r[r.len() - 1]));
        lemma_insert_sorted_at(r.drop_last(), x, lt, j);
        assert(r.drop_last().insert(j, x).push(r.last()) =~= r.insert(j, x));
    }
}

/// `lt` is a strict order on the elements of `s` under which any two different
/// elements are comparable.
pub open spec fn strict_order_on<T>(s: Seq<T>, lt: spec_fn(T, T) -> bool) -> bool {
    &&& forall|a: T| #[trigger] s.contains(a) ==> !lt(a, a)
    &&& forall|a: T, b: T, c: T|
        s.contains(a) && s.contains(b) && s.contains(c) && #[trigger] lt(a, b) && #[trigger] lt(
            b,
            c,
        ) ==> lt(a, c)
    &&& forall|a: T, b: T|
        #[trigger] s.contains(a) && #[trigger] s.contains(b) ==> a == b || lt(a, b) || lt(b, a)
}

/// No element sorts before one that precedes it.
pub open spec fn sorted_on<T>(r: Seq<T>, lt: spec_fn(T, T) -> bool) -> bool {
    forall|i: int, j: int| 0 <= i < j < r.len() ==> !lt(#[trigger] r[j], #[trigger] r[i])
}

proof fn lemma_order_sub<T>(s: Seq<T>, t: Seq<T>, lt: spec_fn(T, T) -> bool)
    requires
        strict_order_on(s, lt),
        forall|a: T| #[trigger] t.contains(a) ==> s.contains(a),
    ensures
        strict_order_on(t, lt),
{
}

proof fn lemma_insert_sorted_props<T>(r: Seq<T>, x: T, lt: spec_fn(T, T) -> bool)
    requires
        sorted_on(r, lt),
        strict_order_on(r.push(x), lt),
    ensures
        sorted_on(insert_sorted(r, x, lt), lt),
        insert_sorted(r, x, lt).to_multiset() == r.to_multiset().insert(x),
    decreases r.len(),
{
    let p = r.push(x);
    assert(p.contains(x)) by {
        assert(p[r.len() as int] == x);
    }
    if r.len() == 0 {
        assert(seq![x] =~= Seq::<T>::empty().push(x));
    } else {
        let rl = r.drop_last();
        let last = r.last();
        assert(p.contains(last)) by {
            assert(p[r.len() - 1] == last);
        }
        assert forall|i: int| 0 <= i < rl.len() implies p.contains(#[trigger] rl[i]) by {
            assert(p[i] == rl[i]);
        }
        if lt(x, last) {
            assert forall|a: T| #[trigger] rl.push(x).contains(a) implies p.contains(a) by {
                let k = choose|k: int| 0 <= k < rl.push(x).len() && rl.push(x)[k] == a;
                if k < rl.len() {
                    assert(rl[k] == a);
                }
            }
            lemma_order_sub(p, rl.push(x), lt);
            assert(sorted_on(rl, lt));
            lemma_insert_sorted_props(rl, x, lt);
            let ins = insert_sorted(rl, x, lt);
            assert(rl =~= rl.drop_last().push(rl.last()) || rl.len() == 0);
            assert(r =~= rl.push(last));
            let res = ins.push(last);
            assert forall|i: int, j: int| 0 <= i < j < res.len() implies !lt(
                #[trigger] res[j],
                #[trigger] res[i],
            ) by {
                if j == res.len() - 1 {
                    let e = res[i];
                    assert(ins.contains(e)) by {
                        assert(ins[i] == e);
                    }
                    assert(ins.to_multiset().count(e) > 0);
                    if e == x {
                        if lt(last, x) {
                            assert(lt(last, last));
                        }
                    } else {
                        assert(rl.to_multiset().count(e) > 0);
                        let k = choose|k: int| 0 <= k < rl.len() && rl[k] == e;
                        assert(r[k] == e);
                        assert(!lt(r[r.len() - 1], r[k]));
                    }
                } else {
                    assert(res[i] == ins[i]);
                    assert(res[j] == ins[j]);
                }
            }
            assert(r.to_multiset() =~= rl.to_multiset().insert(last));
        } else {
            let res = r.push(x);
            assert forall|i: int, j: int| 0 <= i < j < res.len() implies !lt(
                #[trigger] res[j],
                #[trigger] res[i],
            ) by {
                if j == res.len() - 1 {
                    let e = r[i];
                    assert(p.contains(e)) by {
                        assert(p[i] == e);
                    }
                    if i < r.len() - 1 {
                        assert(!lt(r[r.len() - 1], r[i]));
                        if lt(x, e) {
                            if e != last {
                                assert(lt(e, last));
                            }
                        }
                    }
                } else {
                    assert(res[i] == r[i]);
                    assert(res[j] == r[j]);
                }
            }
        }
    }
}

/// Sorting gives a sorted arrangement of the same items.
pub proof fn lemma_sort_by_props<T>(s: Seq<T>, lt: spec_fn(T, T) -> bool)
    requires
        strict_order_on(s, lt),
    ensures
        sorted_on(sort_by(s, lt), lt),
        sort_by(s, lt).to_multiset() == s.to_multiset(),
    decreases s.len(),
{
    if s.len() == 0 {
    } else {
        let sl = s.drop_last();
        assert forall|a: T| #[trigger] sl.contains(a) implies s.contains(a) by {
            let k = choose|k: int| 0 <= k < sl.len() && sl[k] == a;
            assert(s[k] == a);
        }
        lemma_order_sub(s, sl, lt);
        lemma_sort_by_props(sl, lt);
        let r = sort_by(sl, lt);
        assert(s =~= sl.push(s.last()));
        assert forall|a: T| #[trigger] r.push(s.last()).contains(a) implies s.contains(a) by {
            let k = choose|k: int| 0 <= k < r.push(s.last()).len() && r.push(s.last())[k] == a;
            if k < r.len() {
                assert(r[k] == a);
                assert(r.to_multiset().count(a) > 0);
                assert(sl.to_multiset().count(a) > 0);
            } else {
                assert(s[s.len() - 1] == a);
            }
        }
        lemma_order_sub(s, r.push(s.last()), lt);
        lemma_insert_sorted_props(r, s.last(), lt);
    }
}

/// Two sorted arrangements of the same items are the same sequence.
proof fn lemma_sorted_unique<T>(r1: Seq<T>, r2: Seq<T>, lt: spec_fn(T, T) -> bool)
    requires
        sorted_on(r1, lt),
        sorted_on(r2, lt),
        r1.to_multiset() == r2.to_multiset(),
        strict_order_on(r1, lt),
    ensures
        r1 == r2,
    decreases r1.len(),
{
    assert(r1.len() == r1.to_multiset().len());
    assert(r2.len() == r2.to_multiset().len());
    if r1.len() > 0 {
        let a = r1[0];
        let b = r2[0];
        assert(r1.contains(a));
        assert(r2.contains(b));
        assert(r2.to_multiset().count(a) > 0);
        assert(r1.to_multiset().count(b) > 0);
        let m = choose|m: int| 0 <= m < r1.len() && r1[m] == b;
        let k = choose|k: int| 0 <= k < r2.len() && r2[k] == a;
        if a != b {
            assert(m > 0);
            assert(k > 0);
            assert(!lt(r1[m], r1[0]));
            assert(!lt(r2[k], r2[0]));
            assert(lt(a, b) || lt(b, a));
        }
        assert(a == b);
        let t1 = r1.drop_first();
        let t2 = r2.drop_first();
        assert(r1 =~= seq![a] + t1);
        assert(r2 =~= seq![a] + t2);
        assert(r1.remove(0) =~= t1);
        assert(r2.remove(0) =~= t2);
        assert(t1.to_multiset() =~= r1.to_multiset().remove(a));
        assert(t2.to_multiset() =~= r2.to_multiset().remove(a));
        assert forall|x: T| #[trigger] t1.contains(x) implies r1.contains(x) by {
            let q = choose|q: int| 0 <= q < t1.len() && t1[q] == x;
            assert(r1[q + 1] == x);
        }
        lemma_order_sub(r1, t1, lt);
        assert(sorted_on(t1, lt)) by {
            assert forall|i: int, j: int| 0 <= i < j < t1.len() implies !lt(
                #[trigger] t1[j],
                #[trigger] t1[i],
            ) by {
                assert(t1[j] == r1[j + 1]);
                assert(t1[i] == r1[i + 1]);
            }
        }
        assert(sorted_on(t2, lt)) by {
            assert forall|i: int, j: int| 0 <= i < j < t2.len() implies !lt(
                #[trigger] t2[j],
                #[trigger] t2[i],
            ) by {
                assert(t2[j] == r2[j + 1]);
                assert(t2[i] == r2[i + 1]);
            }
        }
        lemma_sorted_unique(t1, t2, lt);
    } else {
        assert(r2.len() == 0);
        assert(r1 =~= r2);
    }
}

/// Sorting two arrangements of the same items gives the same sequence, when
/// the order leaves no two different items tied.
pub proof fn lemma_sort_by_permutation<T>(s1: Seq<T>, s2: Seq<T>, lt: spec_fn(T, T) -> bool)
    requires
        s1.to_multiset() == s2.to_multiset(),
        strict_order_on(s1, lt),
    ensures
        sort_by(s1, lt) == sort_by(s2, lt),
{
    assert forall|a: T| #[trigger] s2.contains(a) implies s1.contains(a) by {
        assert(s2.to_multiset().count(a) > 0);
    }
    lemma_order_sub(s1, s2, lt);
    lemma_sort_by_props(s1, lt);
    lemma_sort_by_props(s2, lt);
    let r1 = sort_by(s1, lt);
    assert forall|a: T| #[trigger] r1.contains(a) implies s1.contains(a) by {
        assert(r1.to_multiset().count(a) > 0);
    }
    lemma_order_sub(s1, r1, lt);
    lemma_sorted_unique(r1, sort_by(s2, lt), lt);
}

} // verus!
