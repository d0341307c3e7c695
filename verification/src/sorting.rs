//! The stable sort of a sequence, and what it guarantees.
use vstd::prelude::*;

verus! {

/// `x` put into `s` behind every member that does not come after it.
pub open spec fn insert_sorted<A>(s: Seq<A>, x: A, leq: spec_fn(A, A) -> bool) -> Seq<A>
    decreases s.len(),
{
    if s.len() == 0 || leq(s.last(), x) {
        s.push(x)
    } else {
        insert_sorted(s.drop_last(), x, leq).push(s.last())
    }
}

/// The members of `s` in the order `leq`; members that are equal in that order keep theirs.
pub open spec fn stable_sorted<A>(s: Seq<A>, leq: spec_fn(A, A) -> bool) -> Seq<A>
    decreases s.len(),
{
    if s.len() == 0 {
        s
    } else {
        insert_sorted(stable_sorted(s.drop_last(), leq), s.last(), leq)
    }
}

/// `s` is in the order `leq`.
pub open spec fn in_order<A>(s: Seq<A>, leq: spec_fn(A, A) -> bool) -> bool {
    forall|i: int, j: int| 0 <= i < j < s.len() ==> leq(s[i], s[j])
}

/// `leq` compares any two members and is transitive.
pub open spec fn total_preorder<A>(leq: spec_fn(A, A) -> bool) -> bool {
    &&& forall|a: A, b: A| #![trigger leq(a, b)] leq(a, b) || leq(b, a)
    &&& forall|a: A, b: A, c: A| #![trigger leq(a, b), leq(b, c)] leq(a, b) && leq(b, c) ==> leq(a, c)
}

/// Where `p` splits `s` into what stays before `x` and what comes after it, insertion puts `x` at `p`.
pub proof fn lemma_insert_at<A>(s: Seq<A>, x: A, leq: spec_fn(A, A) -> bool, p: int)
    requires
        0 <= p <= s.len(),
        p > 0 ==> leq(s[p - 1], x),
        forall|i: int| p <= i < s.len() ==> !leq(#[trigger] s[i], x),
    ensures
        insert_sorted(s, x, leq) == s.insert(p, x),
    decreases s.len(),
{
    if s.len() == p {
        assert(s.insert(p, x) =~= s.push(x));
    } else {
        assert(!leq(s[s.len() - 1], x));
        lemma_insert_at(s.drop_last(), x, leq, p);
        assert(s.insert(p, x) =~= s.drop_last().insert(p, x).push(s.last()));
    }
}

/// Insertion keeps the members.
pub proof fn lemma_insert_multiset<A>(s: Seq<A>, x: A, leq: spec_fn(A, A) -> bool)
    ensures
        insert_sorted(s, x, leq).to_multiset() == s.to_multiset().insert(x),
        insert_sorted(s, x, leq).len() == s.len() + 1,
    decreases s.len(),
{
    broadcast use vstd::seq_lib::group_to_multiset_ensures;
    if s.len() == 0 || leq(s.last(), x) {
    } else {
        lemma_insert_multiset(s.drop_last(), x, leq);
        assert(s =~= s.drop_last().push(s.last()));
        assert(s.to_multiset() =~= s.drop_last().to_multiset().insert(s.last()));
        assert(insert_sorted(s, x, leq).to_multiset() =~= s.to_multiset().insert(x));
    }
}

/// Sorting loses nothing and adds nothing: the sorted sequence has the same members, each as often.
pub proof fn lemma_sorted_permutes<A>(s: Seq<A>, leq: spec_fn(A, A) -> bool)
    ensures
        stable_sorted(s, leq).to_multiset() == s.to_multiset(),
        stable_sorted(s, leq).len() == s.len(),
    decreases s.len(),
{
    broadcast use vstd::seq_lib::group_to_multiset_ensures;
    if s.len() > 0 {
        lemma_sorted_permutes(s.drop_last(), leq);
        lemma_insert_multiset(stable_sorted(s.drop_last(), leq), s.last(), leq);
        assert(s =~= s.drop_last().push(s.last()));
    }
}

proof fn lemma_insert_in_order<A>(s: Seq<A>, x: A, leq: spec_fn(A, A) -> bool)
    requires
        total_preorder(leq),
        in_order(s, leq),
    ensures
        in_order(insert_sorted(s, x, leq), leq),
        forall|i: int| 0 <= i < insert_sorted(s, x, leq).len() ==> #[trigger] insert_sorted(s, x, leq)[i] == x
            || s.contains(insert_sorted(s, x, leq)[i]),
    decreases s.len(),
{
    let r = insert_sorted(s, x, leq);
    if s.len() == 0 {
    } else if leq(s.last(), x) {
        assert forall|i: int, j: int| 0 <= i < j < r.len() implies leq(r[i], r[j]) by {
            if j == s.len() {
                if i < s.len() - 1 {
                    assert(leq(s[i], s[s.len() - 1]));
                }
                assert(leq(s[i], x));
            }
        }
        assert forall|i: int| 0 <= i < r.len() implies #[trigger] r[i] == x || s.contains(r[i]) by {
            if i < s.len() {
                assert(s[i] == r[i]);
            }
        }
    } else {
        let d = s.drop_last();
        lemma_insert_in_order(d, x, leq);
        let q = insert_sorted(d, x, leq);
        lemma_insert_multiset(d, x, leq);
        assert(r =~= q.push(s.last()));
        assert forall|i: int| 0 <= i < q.len() implies leq(#[trigger] q[i], s.last()) by {
            if q[i] == x {
                assert(leq(x, s.last()));
            } else {
                let k = choose|k: int| 0 <= k < d.len() && d[k] == q[i];
                assert(s[k] == q[i]);
                assert(leq(s[k], s[s.len() - 1]));
            }
        }
        assert forall|i: int, j: int| 0 <= i < j < r.len() implies leq(r[i], r[j]) by {
            if j < q.len() {
                assert(leq(q[i], q[j]));
            } else {
                assert(leq(q[i], s.last()));
            }
        }
        assert forall|i: int| 0 <= i < r.len() implies #[trigger] r[i] == x || s.contains(r[i]) by {
            if i < q.len() {
                assert(q[i] == r[i]);
                if q[i] != x {
                    let k = choose|k: int| 0 <= k < d.len() && d[k] == q[i];
                    assert(s[k] == q[i]);
                }
            } else {
                assert(s[s.len() - 1] == r[i]);
            }
        }
    }
}

/// The sorted sequence is in order.
pub proof fn lemma_sorted_in_order<A>(s: Seq<A>, leq: spec_fn(A, A) -> bool)
    requires
        total_preorder(leq),
    ensures
        in_order(stable_sorted(s, leq), leq),
    decreases s.len(),
{
    if s.len() > 0 {
        lemma_sorted_in_order(s.drop_last(), leq);
        lemma_insert_in_order(stable_sorted(s.drop_last(), leq), s.last(), leq);
    }
}

proof fn lemma_insert_stable<A>(s: Seq<A>, x: A, leq: spec_fn(A, A) -> bool, k: A)
    requires
        total_preorder(leq),
    ensures
        insert_sorted(s, x, leq).filter(|y: A| leq(k, y) && leq(y, k)) == if leq(k, x) && leq(x, k) {
            s.filter(|y: A| leq(k, y) && leq(y, k)).push(x)
        } else {
            s.filter(|y: A| leq(k, y) && leq(y, k))
        },
    decreases s.len(),
{
    reveal(Seq::filter);
    let same = |y: A| leq(k, y) && leq(y, k);
    let r = insert_sorted(s, x, leq);
    if s.len() == 0 || leq(s.last(), x) {
        assert(r.drop_last() =~= s);
    } else {
        let d = s.drop_last();
        lemma_insert_stable(d, x, leq, k);
        assert(r.drop_last() =~= insert_sorted(d, x, leq));
        assert(r.last() == s.last());
        if same(x) && same(s.last()) {
            assert(leq(s.last(), k) && leq(k, x));
            assert(leq(s.last(), x));
        }
    }
}

/// Sorting keeps the order of those that the order does not tell apart.
pub proof fn lemma_sorted_stable<A>(s: Seq<A>, leq: spec_fn(A, A) -> bool, k: A)
    requires
        total_preorder(leq),
    ensures
        stable_sorted(s, leq).filter(|y: A| leq(k, y) && leq(y, k)) == s.filter(|y: A| leq(k, y) && leq(y, k)),
    decreases s.len(),
{
    reveal(Seq::filter);
    let same = |y: A| leq(k, y) && leq(y, k);
    if s.len() > 0 {
        lemma_sorted_stable(s.drop_last(), leq, k);
        lemma_insert_stable(stable_sorted(s.drop_last(), leq), s.last(), leq, k);
    }
}

} // verus!
