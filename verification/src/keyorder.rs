//! Addresses in the order of their bytes.
use vstd::prelude::*;
use crate::lexical::bytes_less;
#[allow(unused_imports)]
use crate::lexical::{bytes_lt, lemma_bytes_order};
#[allow(unused_imports)]
use crate::sorting::{in_order, lemma_insert_at, lemma_sorted_in_order, lemma_sorted_permutes, stable_sorted, total_preorder};
use crate::types::{add_key, Pubkey};
#[allow(unused_imports)]
use crate::types::{lemma_key_ext, with_key};

verus! {

/// The order of addresses: that of their bytes.
pub open spec fn key_leq() -> spec_fn(Pubkey, Pubkey) -> bool {
    |a: Pubkey, b: Pubkey| !bytes_lt(b@, a@)
}

/// The addresses in the order of their bytes.
pub open spec fn key_sorted(s: Seq<Pubkey>) -> Seq<Pubkey> {
    stable_sorted(s, key_leq())
}

/// The addresses, each once, in the order in which they come.
pub open spec fn distinct(s: Seq<Pubkey>) -> Seq<Pubkey>
    decreases s.len(),
{
    if s.len() == 0 {
        s
    } else {
        with_key(distinct(s.drop_last()), s.last())
    }
}

/// The order of addresses is total.
pub proof fn lemma_key_order()
    ensures
        total_preorder(key_leq()),
        forall|a: Pubkey, b: Pubkey| #![trigger key_leq()(a, b)] key_leq()(a, b) && key_leq()(b, a) ==> a == b,
{
    assert forall|a: Pubkey, b: Pubkey| #![trigger key_leq()(a, b)] key_leq()(a, b) || key_leq()(b, a) by {
        lemma_bytes_order(a@, b@, a@);
    }
    assert forall|a: Pubkey, b: Pubkey, c: Pubkey|
        #![trigger key_leq()(a, b), key_leq()(b, c)]
        key_leq()(a, b) && key_leq()(b, c) implies key_leq()(a, c) by {
        lemma_bytes_order(c@, b@, a@);
        lemma_bytes_order(b@, a@, c@);
        lemma_bytes_order(c@, a@, b@);
        lemma_bytes_order(a@, b@, c@);
        lemma_bytes_order(b@, c@, a@);
        lemma_bytes_order(a@, c@, b@);
    }
    assert forall|a: Pubkey, b: Pubkey| #![trigger key_leq()(a, b)] key_leq()(a, b) && key_leq()(b, a) implies a == b by {
        lemma_bytes_order(a@, b@, a@);
        lemma_key_ext(a, b);
    }
}

/// Nothing is lost or added where repetitions are dropped.
pub proof fn lemma_distinct(s: Seq<Pubkey>)
    ensures
        distinct(s).no_duplicates(),
        forall|k: Pubkey| #[trigger] distinct(s).contains(k) <==> s.contains(k),
    decreases s.len(),
{
    if s.len() > 0 {
        let d = s.drop_last();
        lemma_distinct(d);
        let before = distinct(d);
        assert forall|k: Pubkey| #[trigger] distinct(s).contains(k) <==> s.contains(k) by {
            if distinct(s).contains(k) {
                if before.contains(k) {
                    let i = choose|i: int| 0 <= i < d.len() && d[i] == k;
                    assert(s[i] == k);
                } else {
                    assert(s[s.len() - 1] == k);
                }
            }
            if s.contains(k) {
                let i = choose|i: int| 0 <= i < s.len() && s[i] == k;
                if i < d.len() {
                    assert(d[i] == k);
                    assert(before.contains(k));
                    let j = choose|j: int| 0 <= j < before.len() && before[j] == k;
                    assert(distinct(s)[j] == k);
                } else if !before.contains(k) {
                    assert(distinct(s)[before.len() as int] == k);
                }
            }
        }
    }
}

/// Sorting keeps the members, puts them in order, and repeats none that was not repeated.
pub proof fn lemma_key_sorted(s: Seq<Pubkey>)
    ensures
        in_order(key_sorted(s), key_leq()),
        key_sorted(s).len() == s.len(),
        forall|k: Pubkey| #[trigger] key_sorted(s).contains(k) <==> s.contains(k),
        s.no_duplicates() ==> key_sorted(s).no_duplicates(),
{
    lemma_key_order();
    lemma_sorted_in_order(s, key_leq());
    lemma_sorted_permutes(s, key_leq());
    let t = key_sorted(s);
    assert forall|k: Pubkey| #[trigger] t.contains(k) <==> s.contains(k) by {
        t.to_multiset_ensures();
        s.to_multiset_ensures();
        assert(t.contains(k) <==> t.to_multiset().count(k) > 0);
        assert(s.contains(k) <==> s.to_multiset().count(k) > 0);
    }
    if s.no_duplicates() {
        s.lemma_multiset_has_no_duplicates();
        assert forall|k: Pubkey| t.to_multiset().contains(k) implies t.to_multiset().count(k) == 1 by {}
        t.lemma_multiset_has_no_duplicates_conv();
    }
}

/// Two lists without repetitions that are in order and have the same members are the same list: the
/// order in which the members were found does not matter.
pub proof fn lemma_sorted_keys_unique(a: Seq<Pubkey>, b: Seq<Pubkey>)
    requires
        in_order(a, key_leq()),
        in_order(b, key_leq()),
        a.no_duplicates(),
        b.no_duplicates(),
        forall|k: Pubkey| a.contains(k) <==> b.contains(k),
    ensures
        a == b,
    decreases a.len(),
{
    lemma_key_order();
    if a.len() == 0 {
        if b.len() > 0 {
            assert(b.contains(b[0]));
        }
        assert(a =~= b);
    } else {
        assert(a.contains(a[0]));
        assert(b.len() > 0);
        let x = a.last();
        let y = b.last();
        assert(a[a.len() - 1] == x && a.contains(x));
        assert(b[b.len() - 1] == y && b.contains(y));
        let i = choose|i: int| 0 <= i < b.len() && b[i] == x;
        let j = choose|j: int| 0 <= j < a.len() && a[j] == y;
        assert(x == y) by {
            if i < b.len() - 1 && j < a.len() - 1 {
                assert(key_leq()(b[i], b[b.len() - 1]));
                assert(key_leq()(a[j], a[a.len() - 1]));
            }
        }
        let a1 = a.drop_last();
        let b1 = b.drop_last();
        assert forall|k: Pubkey| a1.contains(k) <==> b1.contains(k) by {
            if a1.contains(k) {
                let m = choose|m: int| 0 <= m < a1.len() && a1[m] == k;
                assert(a[m] == k && a.contains(k));
                let n = choose|n: int| 0 <= n < b.len() && b[n] == k;
                assert(k != x);
                assert(b1[n] == k);
            }
            if b1.contains(k) {
                let m = choose|m: int| 0 <= m < b1.len() && b1[m] == k;
                assert(b[m] == k && b.contains(k));
                let n = choose|n: int| 0 <= n < a.len() && a[n] == k;
                assert(k != y);
                assert(a1[n] == k);
            }
        }
        lemma_sorted_keys_unique(a1, b1);
        assert(a =~= a1.push(x));
        assert(b =~= b1.push(y));
    }
}

/// Whether an address comes before another.
pub fn key_less(a: &Pubkey, b: &Pubkey) -> (r: bool)
    ensures
        r == bytes_lt(a@, b@),
{
    let x: [u8; 32] = a.bytes;
    let y: [u8; 32] = b.bytes;
    bytes_less(&x, &y)
}

/// The addresses in the order of their bytes.
pub fn sort_keys(v: &Vec<Pubkey>) -> (r: Vec<Pubkey>)
    ensures
        r@ == key_sorted(v@),
{
    let mut r: Vec<Pubkey> = Vec::new();
    let mut i: usize = 0;
    while i < v.len()
        invariant
            i <= v@.len(),
            r@ == key_sorted(v@.take(i as int)),
        decreases v.len() - i,
    {
        let k = v[i];
        let mut p: usize = r.len();
        while p > 0 && key_less(&k, &r[p - 1])
            invariant
                p <= r@.len(),
                forall|j: int| p <= j < r@.len() ==> !key_leq()(#[trigger] r@[j], k),
            decreases p,
        {
            p -= 1;
        }
        proof {
            lemma_insert_at(r@, k, key_leq(), p as int);
            assert(v@.take(i + 1).drop_last() =~= v@.take(i as int));
        }
        r.insert(p, k);
        i += 1;
    }
    assert(v@.take(i as int) =~= v@);
    r
}

/// The addresses, each once, in the order in which they come.
pub fn drop_repeats(v: &Vec<Pubkey>) -> (r: Vec<Pubkey>)
    ensures
        r@ == distinct(v@),
{
    let mut r: Vec<Pubkey> = Vec::new();
    let mut i: usize = 0;
    assert(v@.take(0) =~= Seq::<Pubkey>::empty());
    while i < v.len()
        invariant
            i <= v@.len(),
            r@ == distinct(v@.take(i as int)),
        decreases v.len() - i,
    {
        assert(v@.take(i + 1).drop_last() =~= v@.take(i as int));
        add_key(&mut r, v[i]);
        i += 1;
    }
    assert(v@.take(i as int) =~= v@);
    r
}

} // verus!
