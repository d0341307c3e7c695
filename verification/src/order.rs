//! Increasing listings of finite sets of program counters.
use vstd::prelude::*;
use std::collections::HashMap;

verus! {

/// `s` is strictly increasing.
pub open spec fn is_increasing(s: Seq<usize>) -> bool {
    forall|i: int, j: int| 0 <= i < j < s.len() ==> s[i] < s[j]
}

/// `s` lists exactly the members of `dom`, in increasing order.
pub open spec fn lists(s: Seq<usize>, dom: Set<usize>) -> bool {
    &&& is_increasing(s)
    &&& forall|k: usize| s.contains(k) <==> dom.contains(k)
}

/// The members of `dom` in increasing order.
pub open spec fn listing(dom: Set<usize>) -> Seq<usize> {
    choose|s: Seq<usize>| lists(s, dom)
}

/// There is at most one increasing listing of a set.
pub proof fn lemma_lists_unique(a: Seq<usize>, b: Seq<usize>, dom: Set<usize>)
    requires
        lists(a, dom),
        lists(b, dom),
    ensures
        a == b,
    decreases a.len(),
{
    if a.len() == 0 {
        if b.len() > 0 {
            assert(b.contains(b[0]));
            assert(a.contains(b[0]));
        }
        assert(a =~= b);
    } else {
        assert(a.contains(a[0]));
        assert(b.contains(a[0]));
        assert(b.len() > 0);
        let la = a.last();
        let lb = b.last();
        assert(a.contains(la));
        assert(b.contains(lb));
        assert(b.contains(la));
        assert(a.contains(lb));
        assert(la == lb);
        let rest = dom.remove(la);
        assert(lists(a.drop_last(), rest)) by {
            lemma_lists_drop_last(a, dom);
        }
        assert(lists(b.drop_last(), rest)) by {
            lemma_lists_drop_last(b, dom);
        }
        lemma_lists_unique(a.drop_last(), b.drop_last(), rest);
        assert(a =~= a.drop_last().push(la));
        assert(b =~= b.drop_last().push(lb));
    }
}

proof fn lemma_lists_drop_last(a: Seq<usize>, dom: Set<usize>)
    requires
        lists(a, dom),
        a.len() > 0,
    ensures
        lists(a.drop_last(), dom.remove(a.last())),
{
    let r = a.drop_last();
    assert forall|k: usize| r.contains(k) <==> dom.remove(a.last()).contains(k) by {
        if r.contains(k) {
            let i = choose|i: int| 0 <= i < r.len() && r[i] == k;
            assert(a[i] == k);
            assert(a.contains(k));
        }
        if dom.remove(a.last()).contains(k) {
            assert(a.contains(k));
            let i = choose|i: int| 0 <= i < a.len() && a[i] == k;
            assert(i < a.len() - 1);
            assert(r[i] == k);
        }
    }
}

/// A listing of `dom` is the listing of `dom`.
pub proof fn lemma_listing_is(s: Seq<usize>, dom: Set<usize>)
    requires
        lists(s, dom),
    ensures
        s == listing(dom),
        lists(listing(dom), dom),
{
    lemma_lists_unique(s, listing(dom), dom);
}

/// A listing with one more member in its place.
pub open spec fn with_member(s: Seq<usize>, k: usize) -> Seq<usize>
    decreases s.len(),
{
    if s.len() == 0 || s.last() < k {
        s.push(k)
    } else {
        with_member(s.drop_last(), k).push(s.last())
    }
}

proof fn lemma_with_member(s: Seq<usize>, k: usize)
    requires
        is_increasing(s),
        !s.contains(k),
    ensures
        is_increasing(with_member(s, k)),
        forall|x: usize| #[trigger] with_member(s, k).contains(x) <==> s.contains(x) || x == k,
    decreases s.len(),
{
    let r = with_member(s, k);
    if s.len() == 0 || s.last() < k {
        assert forall|x: usize| #[trigger] r.contains(x) <==> s.contains(x) || x == k by {
            if s.contains(x) {
                let i = choose|i: int| 0 <= i < s.len() && s[i] == x;
                assert(r[i] == x);
            }
            assert(r[s.len() as int] == k);
            if r.contains(x) && x != k {
                let i = choose|i: int| 0 <= i < r.len() && r[i] == x;
                assert(s[i] == x);
            }
        }
        assert forall|i: int, j: int| 0 <= i < j < r.len() implies r[i] < r[j] by {
            if j == s.len() {
                assert(i == s.len() - 1 || s[i] < s[s.len() - 1]);
            }
        }
    } else {
        let d = s.drop_last();
        let before = with_member(d, k);
        assert(!d.contains(k)) by {
            if d.contains(k) {
                let i = choose|i: int| 0 <= i < d.len() && d[i] == k;
                assert(s[i] == k);
            }
        }
        lemma_with_member(d, k);
        assert(s[s.len() - 1] != k);
        assert forall|x: usize| #[trigger] r.contains(x) <==> s.contains(x) || x == k by {
            if r.contains(x) {
                let i = choose|i: int| 0 <= i < r.len() && r[i] == x;
                if i < before.len() {
                    assert(before[i] == x);
                    assert(before.contains(x));
                    if d.contains(x) {
                        let j = choose|j: int| 0 <= j < d.len() && d[j] == x;
                        assert(s[j] == x);
                    }
                } else {
                    assert(s[s.len() - 1] == x);
                }
            }
            if s.contains(x) || x == k {
                if x == s.last() {
                    assert(r[before.len() as int] == x);
                } else {
                    if s.contains(x) {
                        let j = choose|j: int| 0 <= j < s.len() && s[j] == x;
                        assert(d[j] == x);
                    }
                    assert(before.contains(x));
                    let i = choose|i: int| 0 <= i < before.len() && before[i] == x;
                    assert(r[i] == x);
                }
            }
        }
        assert forall|i: int, j: int| 0 <= i < j < r.len() implies r[i] < r[j] by {
            if j < before.len() {
                assert(before[i] < before[j]);
            } else {
                assert(before.contains(before[i]));
                if d.contains(before[i]) {
                    let m = choose|m: int| 0 <= m < d.len() && d[m] == before[i];
                    assert(s[m] < s[s.len() - 1]);
                }
            }
        }
    }
}

/// The listing of a set with one more member is that of the set with the member in its place.
pub proof fn lemma_listing_insert(dom: Set<usize>, k: usize)
    requires
        lists(listing(dom), dom),
        !dom.contains(k),
    ensures
        lists(listing(dom.insert(k)), dom.insert(k)),
        listing(dom.insert(k)) == with_member(listing(dom), k),
{
    let s = listing(dom);
    assert(!s.contains(k));
    lemma_with_member(s, k);
    assert(lists(with_member(s, k), dom.insert(k)));
    lemma_listing_is(with_member(s, k), dom.insert(k));
}

/// Every finite set has a listing.
pub proof fn lemma_has_listing(dom: Set<usize>)
    requires
        dom.finite(),
    ensures
        lists(listing(dom), dom),
    decreases dom.len(),
{
    if dom.len() == 0 {
        assert(dom =~= Set::empty());
        assert(lists(Seq::<usize>::empty(), dom));
        lemma_listing_is(Seq::<usize>::empty(), dom);
    } else {
        let k = dom.choose();
        let rest = dom.remove(k);
        lemma_has_listing(rest);
        lemma_listing_insert(rest, k);
        assert(rest.insert(k) =~= dom);
    }
}

/// A listing is as long as the set is large.
pub proof fn lemma_listing_len(s: Seq<usize>, dom: Set<usize>)
    requires
        lists(s, dom),
    ensures
        s.len() == dom.len(),
{
    assert(s.to_set() =~= dom);
    s.unique_seq_to_set();
}

/// Merges two increasing sequences; a member of both comes out once.
fn merge(a: &Vec<usize>, b: &Vec<usize>) -> (r: Vec<usize>)
    requires
        is_increasing(a@),
        is_increasing(b@),
    ensures
        is_increasing(r@),
        forall|k: usize| r@.contains(k) <==> a@.contains(k) || b@.contains(k),
{
    let mut r: Vec<usize> = Vec::new();
    let mut i: usize = 0;
    let mut j: usize = 0;
    while i < a.len() || j < b.len()
        invariant
            i <= a@.len(),
            j <= b@.len(),
            is_increasing(a@),
            is_increasing(b@),
            is_increasing(r@),
            forall|x: int, y: int| 0 <= x < r@.len() && i <= y < a@.len() ==> r@[x] < a@[y],
            forall|x: int, y: int| 0 <= x < r@.len() && j <= y < b@.len() ==> r@[x] < b@[y],
            forall|x: int| 0 <= x < i ==> r@.contains(#[trigger] a@[x]),
            forall|x: int| 0 <= x < j ==> r@.contains(#[trigger] b@[x]),
            forall|x: int| 0 <= x < r@.len() ==> a@.contains(#[trigger] r@[x]) || b@.contains(r@[x]),
        decreases a.len() - i + b.len() - j,
    {
        let ghost before = r@;
        let next: usize;
        let ghost i0 = i as int;
        let ghost j0 = j as int;
        if j >= b.len() || (i < a.len() && a[i] < b[j]) {
            next = a[i];
            i += 1;
        } else if i >= a.len() || b[j] < a[i] {
            next = b[j];
            j += 1;
        } else {
            next = a[i];
            i += 1;
            j += 1;
        }
        r.push(next);
        proof {
            assert(r@[before.len() as int] == next);
            assert forall|x: int| 0 <= x < i implies r@.contains(#[trigger] a@[x]) by {
                if x < i0 {
                    assert(before.contains(a@[x]));
                    let p = choose|p: int| 0 <= p < before.len() && before[p] == a@[x];
                    assert(r@[p] == a@[x]);
                }
            }
            assert forall|x: int| 0 <= x < j implies r@.contains(#[trigger] b@[x]) by {
                if x < j0 {
                    assert(before.contains(b@[x]));
                    let p = choose|p: int| 0 <= p < before.len() && before[p] == b@[x];
                    assert(r@[p] == b@[x]);
                }
            }
        }
    }
    proof {
        assert forall|k: usize| r@.contains(k) <==> a@.contains(k) || b@.contains(k) by {
            if a@.contains(k) {
                let x = choose|x: int| 0 <= x < a@.len() && a@[x] == k;
                assert(r@.contains(a@[x]));
            }
            if b@.contains(k) {
                let x = choose|x: int| 0 <= x < b@.len() && b@[x] == k;
                assert(r@.contains(b@[x]));
            }
        }
    }
    r
}

/// The distinct members of `v[lo..hi]` in increasing order.
fn sort_range(v: &Vec<usize>, lo: usize, hi: usize) -> (r: Vec<usize>)
    requires
        lo <= hi <= v@.len(),
    ensures
        is_increasing(r@),
        forall|k: usize| r@.contains(k) <==> v@.subrange(lo as int, hi as int).contains(k),
    decreases hi - lo,
{
    let ghost part = v@.subrange(lo as int, hi as int);
    if hi - lo == 0 {
        return Vec::new();
    }
    if hi - lo == 1 {
        let mut r: Vec<usize> = Vec::new();
        r.push(v[lo]);
        assert(r@ =~= part);
        return r;
    }
    let mid: usize = lo + (hi - lo) / 2;
    let a = sort_range(v, lo, mid);
    let b = sort_range(v, mid, hi);
    let r = merge(&a, &b);
    proof {
        let pa = v@.subrange(lo as int, mid as int);
        let pb = v@.subrange(mid as int, hi as int);
        assert(part =~= pa + pb);
        assert forall|k: usize| r@.contains(k) <==> part.contains(k) by {
            if pa.contains(k) {
                let x = choose|x: int| 0 <= x < pa.len() && pa[x] == k;
                assert(part[x] == k);
            }
            if pb.contains(k) {
                let x = choose|x: int| 0 <= x < pb.len() && pb[x] == k;
                assert(part[pa.len() + x] == k);
            }
            if part.contains(k) {
                let x = choose|x: int| 0 <= x < part.len() && part[x] == k;
                if x < pa.len() {
                    assert(pa[x] == k);
                } else {
                    assert(pb[x - pa.len()] == k);
                }
            }
        }
    }
    r
}

/// The distinct members of `v` in increasing order.
pub fn sort_distinct(v: &Vec<usize>) -> (r: Vec<usize>)
    ensures
        r@ == listing(v@.to_set()),
        lists(r@, v@.to_set()),
{
    let r = sort_range(v, 0, v.len());
    proof {
        assert(v@.subrange(0, v@.len() as int) =~= v@);
        assert forall|k: usize| r@.contains(k) <==> v@.to_set().contains(k) by {}
        lemma_listing_is(r@, v@.to_set());
    }
    r
}

/// The keys of `m` in increasing order.
pub fn sorted_keys(m: &HashMap<usize, u64>) -> (r: Vec<usize>)
    ensures
        r@ == listing(m@.dom()),
        lists(r@, m@.dom()),
{
    broadcast use vstd::std_specs::hash::group_hash_axioms;
    let mut v: Vec<usize> = Vec::new();
    let ghost all = vstd::std_specs::iter::IteratorSpec::remaining(&vstd::std_specs::hash::spec_keys_iter(m));
    for k in it: m.keys()
        invariant
            v@.len() == it.index(),
            it.seq() == all,
            forall|i: int| 0 <= i < v@.len() ==> v@[i] == *all[i],
    {
        v.push(*k);
    }
    assert(v@ =~= all.unref());
    sort_distinct(&v)
}

} // verus!
