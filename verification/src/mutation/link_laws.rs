//! What the findings on accounts that name each other say of the runs they are made from.
use vstd::prelude::*;
#[allow(unused_imports)]
use litesvm::LiteSVM;
#[allow(unused_imports)]
use crate::ids::known_sysvar;
#[allow(unused_imports)]
use crate::keyorder::{distinct, key_sorted, lemma_distinct, lemma_key_sorted};
#[allow(unused_imports)]
use crate::lexical::{bytes_lt, lemma_bytes_order};
#[allow(unused_imports)]
use crate::keys::base58;
#[allow(unused_imports)]
use crate::mutation::accounts::{account_keys, lemma_slot_keys};
#[allow(unused_imports)]
use crate::mutation::binding::{
    binding_finding, binding_findings, edge_findings, pair_matters, reference_findings, side_findings, source_finding,
    source_findings, swap_finding, swap_findings, target_finding, target_findings,
};
#[allow(unused_imports)]
use crate::mutation::classes::{class_in, class_members, class_text, lemma_replacements, replacements, scope_of, Scope};
#[allow(unused_imports)]
use crate::mutation::effects::{load_bearing, ConfigView, Probe};
#[allow(unused_imports)]
use crate::mutation::findings::{call_text, found_id, FindingView};
#[allow(unused_imports)]
use crate::mutation::laws::{
    lemma_added, lemma_instead, lemma_needs_lamports, lemma_reads, lemma_uses, lemma_with_finding, needs_lamports, reads,
    reads_instead, takes_instead, uses,
};
#[allow(unused_imports)]
use crate::mutation::probe::Findings;
#[allow(unused_imports)]
use crate::mutation::refs::{
    embedded, explained, holds_address, in_pair, keys_held, keys_in, keys_rise, lemma_ref_edges, lemma_ref_pairs, on_edge,
    ref_edges, ref_pairs, refers, swaps, swaps_for, swaps_of, BidirectionalRefPair, FieldRefEdge, SwapView,
};
#[allow(unused_imports)]
use crate::svm::account_at;
#[allow(unused_imports)]
use crate::text::dec;
#[allow(unused_imports)]
use crate::token::spl_shape;
#[allow(unused_imports)]
use crate::types::{slots_of, InstructionView, Pubkey};

verus! {

/// The data of the one account hold the address of the other. Both exist, neither is a sysvar or an account of the
/// token program, the first is not executable, and the address is not that of all zeros.
pub open spec fn names(svm: LiteSVM, a: Pubkey, b: Pubkey) -> bool {
    &&& a != b && b@ != Seq::new(32, |i: int| 0u8)
    &&& !known_sysvar(a) && !known_sysvar(b)
    &&& account_at(svm, a) is Some && account_at(svm, b) is Some
    &&& !account_at(svm, a)->0.executable && account_at(svm, a)->0.data.len() > 0
    &&& !spl_shape(account_at(svm, a)->0) && !spl_shape(account_at(svm, b)->0)
    &&& exists|at: int|
        0 <= at && at + 32 <= account_at(svm, a)->0.data.len() && #[trigger] account_at(svm, a)->0.data.subrange(at, at + 32) == b@
}

/// One account refers to another just where its data name it.
pub proof fn lemma_refers(svm: LiteSVM, a: Pubkey, b: Pubkey)
    ensures
        refers(svm, a, b) == names(svm, a, b),
{
    assert(crate::types::zero_key() =~= Seq::new(32, |i: int| 0u8));
    if account_at(svm, a) is Some {
        let data = account_at(svm, a)->0.data;
        if holds_address(data, b) {
            let at = choose|at: int| #[trigger] crate::mutation::refs::key_at(data, b, at);
            assert(data.subrange(at, at + 32) == b@);
        }
        if exists|at: int| 0 <= at && at + 32 <= data.len() && #[trigger] data.subrange(at, at + 32) == b@ {
            let at = choose|at: int| 0 <= at && at + 32 <= data.len() && #[trigger] data.subrange(at, at + 32) == b@;
            assert(crate::mutation::refs::key_at(data, b, at));
        }
    }
}

/// The account names another that is used, or is named by one.
pub open spec fn is_named(p: Probe, k: Pubkey) -> bool {
    uses(p.ixs, k) && exists|o: Pubkey| #[trigger] uses(p.ixs, o) && (names(p.svm, k, o) || names(p.svm, o, k))
}

/// What an account is there for is told just where it names another account, or another names it.
pub proof fn lemma_explained(p: Probe, k: Pubkey)
    ensures
        explained(p.svm, p.ixs, k) == is_named(p, k),
{
    let edges = ref_edges(p.svm, p.ixs);
    let pairs = ref_pairs(p.svm, p.ixs);
    lemma_ref_edges(p.svm, p.ixs);
    lemma_ref_pairs(p.svm, p.ixs);
    lemma_uses(p.ixs, k);
    assert forall|e: FieldRefEdge| #[trigger] edges.contains(e) implies uses(p.ixs, e.source) && uses(p.ixs, e.target) && names(
        p.svm,
        e.source,
        e.target,
    ) by {
        lemma_uses(p.ixs, e.source);
        lemma_uses(p.ixs, e.target);
        lemma_refers(p.svm, e.source, e.target);
    }
    if on_edge(edges, k) {
        let i = choose|i: int| 0 <= i < edges.len() && ((#[trigger] edges[i]).source == k || edges[i].target == k);
        assert(edges.contains(edges[i]));
    }
    if in_pair(pairs, k) {
        let i = choose|i: int|
            0 <= i < pairs.len() && ((#[trigger] pairs[i]).left == k || pairs[i].right == k || pairs[i].root == Some(k));
        let q = pairs[i];
        assert(pairs.contains(q));
        let e = FieldRefEdge { source: q.left, target: if q.root is Some { q.root->0 } else { q.right } };
        let g = FieldRefEdge { source: q.right, target: if q.root is Some { q.root->0 } else { q.left } };
        assert(edges.contains(e) && edges.contains(g));
    }
    if is_named(p, k) {
        let o = choose|o: Pubkey| #[trigger] uses(p.ixs, o) && (names(p.svm, k, o) || names(p.svm, o, k));
        lemma_uses(p.ixs, o);
        lemma_refers(p.svm, k, o);
        lemma_refers(p.svm, o, k);
        if names(p.svm, k, o) {
            let e = FieldRefEdge { source: k, target: o };
            assert(edges.contains(e));
            let i = choose|i: int| 0 <= i < edges.len() && edges[i] == e;
            assert(edges[i].source == k);
        } else {
            let e = FieldRefEdge { source: o, target: k };
            assert(edges.contains(e));
            let i = choose|i: int| 0 <= i < edges.len() && edges[i] == e;
            assert(edges[i].target == k);
        }
    }
}

/// An account was observed and has a class just where it was observed, is neither marked as unverified nor a sysvar,
/// exists, is not executable, and holds data. The class is told by its owner, and by what its data are.
pub proof fn lemma_class_told(s: Scope, k: Pubkey)
    ensures
        class_in(s, k) is Some <==> s.observed.contains(k) && !s.unverified.contains(k) && !known_sysvar(k) && account_at(
            s.svm,
            k,
        ) is Some && !account_at(s.svm, k)->0.executable && account_at(s.svm, k)->0.data.len() > 0,
        class_in(s, k) is None ==> class_text(s, k) == "unknown"@,
        class_in(s, k) is Some ==> ({
            let a = account_at(s.svm, k)->0;
            let spl = crate::ids::token_owned(a.owner);
            class_text(s, k) == "owner "@ + base58(a.owner@) + if spl && crate::token::mint_shape(a.data) {
                " spl-mint"@
            } else if spl && crate::token::token_shape(a.data) {
                " spl-token-account"@
            } else if crate::schema::tag_of(s.tags, a.data) is Some {
                " discriminator "@ + crate::text::hex_bytes(crate::schema::tag_of(s.tags, a.data)->0)
            } else {
                " data-len "@ + dec(a.data.len() as usize as nat)
            }
        }),
{
    if class_in(s, k) is Some {
        let a = account_at(s.svm, k)->0;
        let o = "owner "@ + base58(a.owner@);
        if crate::schema::tag_of(s.tags, a.data) is Some {
            let t = crate::text::hex_bytes(crate::schema::tag_of(s.tags, a.data)->0);
            assert(o + " discriminator "@ + t =~= o + (" discriminator "@ + t));
        }
        let n = dec(a.data.len() as usize as nat);
        assert(o + " data-len "@ + n =~= o + (" data-len "@ + n));
    }
}

/// Two accounts are alike just where both have a class, with the same owner, and both are mints, both are token
/// accounts, both have the same tag, or both have no tag and data of the same length.
pub proof fn lemma_alike_told(s: Scope, a: Pubkey, b: Pubkey)
    requires
        class_in(s, a) is Some,
        class_in(s, b) is Some,
        account_at(s.svm, a)->0.data.len() <= usize::MAX,
        account_at(s.svm, b)->0.data.len() <= usize::MAX,
    ensures
        class_in(s, a) == class_in(s, b) <==> ({
            let x = account_at(s.svm, a)->0;
            let y = account_at(s.svm, b)->0;
            let spl = crate::ids::token_owned(x.owner);
            &&& x.owner == y.owner
            &&& (spl && crate::token::mint_shape(x.data)) == (spl && crate::token::mint_shape(y.data))
            &&& (spl && crate::token::mint_shape(x.data)) || (spl && crate::token::token_shape(x.data)) == (spl
                && crate::token::token_shape(y.data))
            &&& (spl && (crate::token::mint_shape(x.data) || crate::token::token_shape(x.data))) || crate::schema::tag_of(
                s.tags,
                x.data,
            ) == crate::schema::tag_of(s.tags, y.data)
            &&& (spl && (crate::token::mint_shape(x.data) || crate::token::token_shape(x.data))) || crate::schema::tag_of(
                s.tags,
                x.data,
            ) is Some || x.data.len() == y.data.len()
        }),
{
}

proof fn lemma_keys_held(data: Seq<u8>, keys: Seq<Pubkey>)
    requires
        keys_rise(keys),
    ensures
        forall|k: Pubkey| #[trigger]
            keys_held(data, keys).contains(k) <==> keys.contains(k) && k@ != crate::types::zero_key() && !known_sysvar(k)
                && holds_address(data, k),
        keys_rise(keys_held(data, keys)),
    decreases keys.len(),
{
    let r = keys_held(data, keys);
    if keys.len() > 0 {
        let d = keys.drop_last();
        assert(keys_rise(d)) by {
            assert forall|i: int, j: int| 0 <= i < j < d.len() implies bytes_lt((#[trigger] d[i])@, (#[trigger] d[j])@) by {
                assert(bytes_lt(keys[i]@, keys[j]@));
            }
        }
        lemma_keys_held(data, d);
        let before = keys_held(data, d);
        let l = keys.last();
        assert forall|k: Pubkey| #[trigger] r.contains(k) <==> keys.contains(k) && k@ != crate::types::zero_key() && !known_sysvar(k)
            && holds_address(data, k) by {
            if before.contains(k) {
                let i = choose|i: int| 0 <= i < before.len() && before[i] == k;
                assert(r[i] == k);
                let j = choose|j: int| 0 <= j < d.len() && d[j] == k;
                assert(keys[j] == k);
            }
            if r.contains(k) {
                let i = choose|i: int| 0 <= i < r.len() && r[i] == k;
                if i < before.len() {
                    assert(before[i] == k);
                } else {
                    assert(keys[keys.len() - 1] == k);
                }
            }
            if keys.contains(k) {
                let j = choose|j: int| 0 <= j < keys.len() && keys[j] == k;
                if j < d.len() {
                    assert(d[j] == k);
                } else if r.len() > before.len() {
                    assert(r[before.len() as int] == k);
                }
            }
        }
        assert forall|i: int, j: int| 0 <= i < j < r.len() implies bytes_lt((#[trigger] r[i])@, (#[trigger] r[j])@) by {
            assert(r[i] == before[i]);
            if j < before.len() {
                assert(r[j] == before[j]);
            } else {
                assert(before.contains(before[i]));
                let m = choose|m: int| 0 <= m < d.len() && d[m] == before[i];
                assert(bytes_lt(keys[m]@, keys[keys.len() - 1]@));
            }
        }
    }
}

/// The addresses that are counted in an account are those observed that its data hold, each once and in their
/// order, but for that of all zeros and the sysvars.
pub proof fn lemma_keys_counted(data: Seq<u8>, observed: Seq<Pubkey>)
    ensures
        forall|k: Pubkey| #[trigger]
            embedded(data, observed).contains(k) <==> observed.contains(k) && k@ != crate::types::zero_key() && !known_sysvar(k)
                && holds_address(data, k),
        keys_rise(embedded(data, observed)),
{
    lemma_distinct(observed);
    lemma_key_sorted(distinct(observed));
    crate::mutation::refs::lemma_sorted_rises(distinct(observed));
    lemma_keys_held(data, key_sorted(distinct(observed)));
}

/// The account can be told from others of its class by the addresses that it holds: it is not marked as unverified,
/// names no account that is used and is named by none, is no account of the token program, and holds some
/// address that was observed.
pub open spec fn has_profile(p: Probe, k: Pubkey) -> bool {
    &&& !p.unverified.contains(k) && !is_named(p, k)
    &&& account_at(p.svm, k) is Some && !spl_shape(account_at(p.svm, k)->0)
    &&& embedded(account_at(p.svm, k)->0.data, p.observed).len() > 0
}

proof fn lemma_swaps_of(s: Scope, ixs: Seq<InstructionView>, target: Pubkey, others: Seq<Pubkey>)
    ensures
        forall|c: SwapView| #[trigger]
            swaps_of(s, ixs, target, others).contains(c) <==> c.target == target && others.contains(c.replacement)
                && crate::mutation::refs::fits_swap(s, ixs, target, c.replacement) && c.target_keys == keys_in(s, target)
                && c.replacement_keys == keys_in(s, c.replacement),
    decreases others.len(),
{
    if others.len() > 0 {
        let d = others.drop_last();
        lemma_swaps_of(s, ixs, target, d);
        let before = swaps_of(s, ixs, target, d);
        let r = swaps_of(s, ixs, target, others);
        assert forall|c: SwapView| #[trigger] r.contains(c) <==> c.target == target && others.contains(c.replacement)
            && crate::mutation::refs::fits_swap(s, ixs, target, c.replacement) && c.target_keys == keys_in(s, target)
            && c.replacement_keys == keys_in(s, c.replacement) by {
            if before.contains(c) {
                let i = choose|i: int| 0 <= i < before.len() && before[i] == c;
                assert(r[i] == c);
                let j = choose|j: int| 0 <= j < d.len() && d[j] == c.replacement;
                assert(others[j] == c.replacement);
            }
            if r.contains(c) {
                let i = choose|i: int| 0 <= i < r.len() && r[i] == c;
                if i < before.len() {
                    assert(before[i] == c);
                } else {
                    assert(others[others.len() - 1] == c.replacement);
                }
            }
            if others.contains(c.replacement) {
                let j = choose|j: int| 0 <= j < others.len() && others[j] == c.replacement;
                if j < d.len() {
                    assert(d[j] == c.replacement);
                } else if r.len() > before.len() {
                    assert(r[before.len() as int].replacement == c.replacement);
                    if c.target == target && c.target_keys == keys_in(s, target) && c.replacement_keys == keys_in(
                        s,
                        c.replacement,
                    ) {
                        assert(r[before.len() as int] == c);
                    }
                }
            }
        }
    }
}

proof fn lemma_swaps_for(s: Scope, ixs: Seq<InstructionView>, targets: Seq<Pubkey>)
    ensures
        forall|c: SwapView| #[trigger]
            swaps_for(s, ixs, targets).contains(c) <==> targets.contains(c.target) && crate::mutation::refs::swappable(
                s,
                ixs,
                c.target,
            ) && swaps_of(s, ixs, c.target, replacements(s, c.target)).contains(c),
    decreases targets.len(),
{
    if targets.len() > 0 {
        let d = targets.drop_last();
        let t = targets.last();
        lemma_swaps_for(s, ixs, d);
        lemma_swaps_of(s, ixs, t, replacements(s, t));
        let before = swaps_for(s, ixs, d);
        let own = swaps_of(s, ixs, t, replacements(s, t));
        let r = swaps_for(s, ixs, targets);
        assert forall|c: SwapView| #[trigger] r.contains(c) <==> targets.contains(c.target) && crate::mutation::refs::swappable(
            s,
            ixs,
            c.target,
        ) && swaps_of(s, ixs, c.target, replacements(s, c.target)).contains(c) by {
            if before.contains(c) {
                let i = choose|i: int| 0 <= i < before.len() && before[i] == c;
                assert(r[i] == c);
                let j = choose|j: int| 0 <= j < d.len() && d[j] == c.target;
                assert(targets[j] == c.target);
            }
            if own.contains(c) && crate::mutation::refs::swappable(s, ixs, t) {
                let i = choose|i: int| 0 <= i < own.len() && own[i] == c;
                assert(r[before.len() + i] == c);
                assert(targets[targets.len() - 1] == c.target);
            }
            if r.contains(c) {
                let i = choose|i: int| 0 <= i < r.len() && r[i] == c;
                if i < before.len() {
                    assert(before[i] == c);
                } else {
                    assert(own[i - before.len()] == c);
                }
            }
            if targets.contains(c.target) {
                let j = choose|j: int| 0 <= j < targets.len() && targets[j] == c.target;
                if j < d.len() {
                    assert(d[j] == c.target);
                }
            }
        }
    }
}

proof fn lemma_swap_members(p: Probe, cs: Seq<SwapView>)
    ensures
        forall|f: FindingView| #[trigger]
            swap_findings(p, cs).contains(f) <==> exists|c: SwapView| #[trigger] cs.contains(c) && swap_finding(p, c) == Some(f),
    decreases cs.len(),
{
    if cs.len() > 0 {
        let d = cs.drop_last();
        let before = swap_findings(p, d);
        let r = swap_findings(p, cs);
        lemma_swap_members(p, d);
        lemma_with_finding(before, swap_finding(p, cs.last()));
        assert forall|f: FindingView| #[trigger] r.contains(f) <==> exists|c: SwapView| #[trigger]
            cs.contains(c) && swap_finding(p, c) == Some(f) by {
            if before.contains(f) {
                let c = choose|c: SwapView| #[trigger] d.contains(c) && swap_finding(p, c) == Some(f);
                let i = choose|i: int| 0 <= i < d.len() && d[i] == c;
                assert(cs[i] == c);
                assert(cs.contains(c));
            }
            if swap_finding(p, cs.last()) == Some(f) {
                assert(cs[cs.len() - 1] == cs.last());
                assert(cs.contains(cs.last()));
            }
            if exists|c: SwapView| #[trigger] cs.contains(c) && swap_finding(p, c) == Some(f) {
                let c = choose|c: SwapView| #[trigger] cs.contains(c) && swap_finding(p, c) == Some(f);
                let i = choose|i: int| 0 <= i < cs.len() && cs[i] == c;
                if i < d.len() {
                    assert(d[i] == c);
                    assert(d.contains(c));
                }
            }
        }
    }
}

/// The findings on accounts of one class: one for just each account that the transaction reads, and each other one of
/// the same class that it does not use, which hold different addresses, where the transaction succeeds, does
/// what it did, and reads the other one when that stands in the place of the first.
pub proof fn lemma_swap_findings(found: Findings, p: Probe, config: ConfigView, f: FindingView)
    requires
        found.found_by(p, config),
    ensures
        found.swaps.contains(f) <==> exists|k: Pubkey, r: Pubkey|
            {
                &&& uses(p.ixs, k) && !uses(p.ixs, r)
                &&& has_profile(p, k) && has_profile(p, r)
                &&& class_in(scope_of(p), k) is Some && class_in(scope_of(p), r) == class_in(scope_of(p), k)
                &&& embedded(account_at(p.svm, k)->0.data, p.observed) != embedded(account_at(p.svm, r)->0.data, p.observed)
                &&& reads(p, k) && #[trigger] takes_instead(p, k, r) && reads_instead(p, k, r)
                &&& f.id == found_id(p, "CC-7.7 semantic-swap"@, k)
                &&& f.message == "[CC-7.7 semantic-swap] account "@ + base58(k@) + " ("@ + class_text(scope_of(p), k)
                    + ") has embedded-key profile with "@ + dec(embedded(account_at(p.svm, k)->0.data, p.observed).len())
                    + " observed key(s), substituted with same-class account "@ + base58(r@) + " with "@ + dec(
                    embedded(account_at(p.svm, r)->0.data, p.observed).len(),
                ) + " observed key(s), instr "@ + call_text(p)
                    + " still succeeded (missing semantic same-class binding check)"@
            },
{
    let s = scope_of(p);
    let keys = account_keys(p.ixs);
    let cs = swaps(s, p.ixs);
    lemma_slot_keys(slots_of(p.ixs));
    lemma_key_sorted(keys);
    lemma_swaps_for(s, p.ixs, key_sorted(keys));
    lemma_swap_members(p, cs);
    if found.swaps.contains(f) {
        let c = choose|c: SwapView| #[trigger] cs.contains(c) && swap_finding(p, c) == Some(f);
        let k = c.target;
        let r = c.replacement;
        lemma_swaps_of(s, p.ixs, k, replacements(s, k));
        lemma_replacements(s, k);
        lemma_uses(p.ixs, k);
        lemma_uses(p.ixs, r);
        lemma_explained(p, k);
        lemma_explained(p, r);
        lemma_reads(p, k);
        lemma_instead(p, k, r);
        assert(takes_instead(p, k, r));
    }
    if exists|k: Pubkey, r: Pubkey|
            {
                &&& uses(p.ixs, k) && !uses(p.ixs, r)
                &&& has_profile(p, k) && has_profile(p, r)
                &&& class_in(scope_of(p), k) is Some && class_in(scope_of(p), r) == class_in(scope_of(p), k)
                &&& embedded(account_at(p.svm, k)->0.data, p.observed) != embedded(account_at(p.svm, r)->0.data, p.observed)
                &&& reads(p, k) && #[trigger] takes_instead(p, k, r) && reads_instead(p, k, r)
                &&& f.id == found_id(p, "CC-7.7 semantic-swap"@, k)
                &&& f.message == "[CC-7.7 semantic-swap] account "@ + base58(k@) + " ("@ + class_text(scope_of(p), k)
                    + ") has embedded-key profile with "@ + dec(embedded(account_at(p.svm, k)->0.data, p.observed).len())
                    + " observed key(s), substituted with same-class account "@ + base58(r@) + " with "@ + dec(
                    embedded(account_at(p.svm, r)->0.data, p.observed).len(),
                ) + " observed key(s), instr "@ + call_text(p)
                    + " still succeeded (missing semantic same-class binding check)"@
            } {
        let (k, r) = choose|k: Pubkey, r: Pubkey|
            {
                &&& uses(p.ixs, k) && !uses(p.ixs, r)
                &&& has_profile(p, k) && has_profile(p, r)
                &&& class_in(scope_of(p), k) is Some && class_in(scope_of(p), r) == class_in(scope_of(p), k)
                &&& embedded(account_at(p.svm, k)->0.data, p.observed) != embedded(account_at(p.svm, r)->0.data, p.observed)
                &&& reads(p, k) && #[trigger] takes_instead(p, k, r) && reads_instead(p, k, r)
                &&& f.id == found_id(p, "CC-7.7 semantic-swap"@, k)
                &&& f.message == "[CC-7.7 semantic-swap] account "@ + base58(k@) + " ("@ + class_text(scope_of(p), k)
                    + ") has embedded-key profile with "@ + dec(embedded(account_at(p.svm, k)->0.data, p.observed).len())
                    + " observed key(s), substituted with same-class account "@ + base58(r@) + " with "@ + dec(
                    embedded(account_at(p.svm, r)->0.data, p.observed).len(),
                ) + " observed key(s), instr "@ + call_text(p)
                    + " still succeeded (missing semantic same-class binding check)"@
            };
        let c = SwapView { target: k, replacement: r, target_keys: keys_in(s, k), replacement_keys: keys_in(s, r) };
        lemma_swaps_of(s, p.ixs, k, replacements(s, k));
        lemma_replacements(s, k);
        lemma_uses(p.ixs, k);
        lemma_uses(p.ixs, r);
        lemma_explained(p, k);
        lemma_explained(p, r);
        lemma_reads(p, k);
        lemma_instead(p, k, r);
        assert(cs.contains(c));
        assert(swap_finding(p, c) == Some(f));
    }
}

proof fn lemma_side_members(p: Probe, pair: BidirectionalRefPair, gone: Pubkey, kept: Pubkey, others: Seq<Pubkey>)
    ensures
        forall|f: FindingView| #[trigger]
            side_findings(p, pair, gone, kept, others).contains(f) <==> exists|r: Pubkey| #[trigger]
                others.contains(r) && binding_finding(p, pair, gone, kept, r) == Some(f),
    decreases others.len(),
{
    if others.len() > 0 {
        let d = others.drop_last();
        let before = side_findings(p, pair, gone, kept, d);
        let now = side_findings(p, pair, gone, kept, others);
        lemma_side_members(p, pair, gone, kept, d);
        lemma_with_finding(before, binding_finding(p, pair, gone, kept, others.last()));
        assert forall|f: FindingView| #[trigger] now.contains(f) <==> exists|r: Pubkey| #[trigger]
            others.contains(r) && binding_finding(p, pair, gone, kept, r) == Some(f) by {
            if before.contains(f) {
                let r = choose|r: Pubkey| #[trigger] d.contains(r) && binding_finding(p, pair, gone, kept, r) == Some(f);
                let i = choose|i: int| 0 <= i < d.len() && d[i] == r;
                assert(others[i] == r);
                assert(others.contains(r));
            }
            if binding_finding(p, pair, gone, kept, others.last()) == Some(f) {
                assert(others[others.len() - 1] == others.last());
                assert(others.contains(others.last()));
            }
            if exists|r: Pubkey| #[trigger] others.contains(r) && binding_finding(p, pair, gone, kept, r) == Some(f) {
                let r = choose|r: Pubkey| #[trigger] others.contains(r) && binding_finding(p, pair, gone, kept, r) == Some(f);
                let i = choose|i: int| 0 <= i < others.len() && others[i] == r;
                if i < d.len() {
                    assert(d[i] == r);
                    assert(d.contains(r));
                }
            }
        }
    }
}

/// The two accounts are bound to each other: both name the root, or, where there is none, each names the other.
pub open spec fn is_bound(p: Probe, left: Pubkey, right: Pubkey, root: Option<Pubkey>) -> bool {
    &&& uses(p.ixs, left) && uses(p.ixs, right) && bytes_lt(left@, right@)
    &&& match root {
        Some(o) => uses(p.ixs, o) && names(p.svm, left, o) && names(p.svm, right, o),
        None => names(p.svm, left, right) && names(p.svm, right, left),
    }
}

/// The account `r` would be bound to `kept` too: it holds the address of the root, or, where there is none, each of the
/// two holds the address of the other.
pub open spec fn binds_too(p: Probe, root: Option<Pubkey>, kept: Pubkey, r: Pubkey) -> bool {
    account_at(p.svm, r) is Some && account_at(p.svm, kept) is Some && match root {
        Some(o) => holds_address(account_at(p.svm, r)->0.data, o),
        None => holds_address(account_at(p.svm, r)->0.data, kept) && holds_address(account_at(p.svm, kept)->0.data, r),
    }
}

spec fn from_pair(p: Probe, pair: BidirectionalRefPair, gone: Pubkey, kept: Pubkey, r: Pubkey, f: FindingView) -> bool {
    &&& pair_matters(p, pair)
    &&& (gone == pair.left && kept == pair.right) || (gone == pair.right && kept == pair.left)
    &&& replacements(scope_of(p), gone).contains(r)
    &&& binding_finding(p, pair, gone, kept, r) == Some(f)
}

spec fn in_either(p: Probe, q: BidirectionalRefPair, f: FindingView) -> bool {
    pair_matters(p, q) && (side_findings(p, q, q.left, q.right, replacements(scope_of(p), q.left)).contains(f)
        || side_findings(p, q, q.right, q.left, replacements(scope_of(p), q.right)).contains(f))
}

proof fn lemma_in_either(p: Probe, q: BidirectionalRefPair, f: FindingView)
    ensures
        in_either(p, q, f) <==> exists|gone: Pubkey, kept: Pubkey, r: Pubkey| #[trigger] from_pair(p, q, gone, kept, r, f),
{
    let s = scope_of(p);
    let one = side_findings(p, q, q.left, q.right, replacements(s, q.left));
    let two = side_findings(p, q, q.right, q.left, replacements(s, q.right));
    lemma_side_members(p, q, q.left, q.right, replacements(s, q.left));
    lemma_side_members(p, q, q.right, q.left, replacements(s, q.right));
    if pair_matters(p, q) && one.contains(f) {
        let r = choose|r: Pubkey| #[trigger]
            replacements(s, q.left).contains(r) && binding_finding(p, q, q.left, q.right, r) == Some(f);
        assert(from_pair(p, q, q.left, q.right, r, f));
    }
    if pair_matters(p, q) && two.contains(f) {
        let r = choose|r: Pubkey| #[trigger]
            replacements(s, q.right).contains(r) && binding_finding(p, q, q.right, q.left, r) == Some(f);
        assert(from_pair(p, q, q.right, q.left, r, f));
    }
    if exists|gone: Pubkey, kept: Pubkey, r: Pubkey| #[trigger] from_pair(p, q, gone, kept, r, f) {
        let (gone, kept, r) = choose|gone: Pubkey, kept: Pubkey, r: Pubkey| #[trigger] from_pair(p, q, gone, kept, r, f);
        assert(replacements(s, gone).contains(r) && binding_finding(p, q, gone, kept, r) == Some(f));
    }
}

proof fn lemma_binding_members(p: Probe, pairs: Seq<BidirectionalRefPair>)
    ensures
        forall|f: FindingView| #[trigger]
            binding_findings(p, pairs).contains(f) <==> exists|q: BidirectionalRefPair|
                pairs.contains(q) && #[trigger] in_either(p, q, f),
    decreases pairs.len(),
{
    if pairs.len() > 0 {
        let d = pairs.drop_last();
        let l = pairs.last();
        let s = scope_of(p);
        let before = binding_findings(p, d);
        let one = side_findings(p, l, l.left, l.right, replacements(s, l.left));
        let two = side_findings(p, l, l.right, l.left, replacements(s, l.right));
        let now = binding_findings(p, pairs);
        lemma_binding_members(p, d);
        lemma_added(before, one);
        lemma_added(before + one, two);
        assert forall|f: FindingView| #[trigger] now.contains(f) <==> before.contains(f) || in_either(p, l, f) by {
            assert((before + one + two).contains(f) <==> (before + one).contains(f) || two.contains(f));
            assert((before + one).contains(f) <==> before.contains(f) || one.contains(f));
        }
        assert forall|f: FindingView| #[trigger] now.contains(f) <==> exists|q: BidirectionalRefPair|
            pairs.contains(q) && #[trigger] in_either(p, q, f) by {
            if before.contains(f) {
                let q = choose|q: BidirectionalRefPair| d.contains(q) && #[trigger] in_either(p, q, f);
                let i = choose|i: int| 0 <= i < d.len() && d[i] == q;
                assert(pairs[i] == q);
                assert(pairs.contains(q) && in_either(p, q, f));
            }
            if in_either(p, l, f) {
                assert(pairs[pairs.len() - 1] == l);
                assert(pairs.contains(l));
            }
            if exists|q: BidirectionalRefPair| pairs.contains(q) && #[trigger] in_either(p, q, f) {
                let q = choose|q: BidirectionalRefPair| pairs.contains(q) && #[trigger] in_either(p, q, f);
                let i = choose|i: int| 0 <= i < pairs.len() && pairs[i] == q;
                if i < d.len() {
                    assert(d[i] == q);
                    assert(d.contains(q) && in_either(p, q, f));
                }
            }
        }
    }
}

/// What makes a finding of two accounts that are bound to each other, one of which another account replaces.
pub open spec fn breaks_bond(
    p: Probe,
    left: Pubkey,
    right: Pubkey,
    root: Option<Pubkey>,
    gone: Pubkey,
    r: Pubkey,
    f: FindingView,
) -> bool {
    let kept = if gone == left { right } else { left };
    &&& is_bound(p, left, right, root) && (gone == left || gone == right)
    &&& reads(p, left) && reads(p, right)
    &&& root is Some ==> reads(p, root->0) || needs_lamports(p, root->0)
    &&& r != gone && !uses(p.ixs, r)
    &&& class_in(scope_of(p), gone) is Some && class_in(scope_of(p), r) == class_in(scope_of(p), gone)
    &&& !binds_too(p, root, kept, r)
    &&& takes_instead(p, gone, r) && reads_instead(p, gone, r)
    &&& f.id == found_id(p, "CC-7.3 bidirectional-ref"@, gone)
    &&& f.message == "[CC-7.3 bidirectional-ref] accounts "@ + base58(left@) + " and "@ + base58(right@) + " are linked by "@
        + (if root is Some { "shared root "@ + base58(root->0@) } else { "mutual counterpart keys"@ }) + ", substituted "@
        + base58(gone@) + " with same-class account "@ + base58(r@) + ", instr "@ + call_text(p)
        + " still succeeded (missing bidirectional/shared-root field binding check)"@
}

proof fn lemma_bond(p: Probe, pair: BidirectionalRefPair, gone: Pubkey, r: Pubkey, f: FindingView)
    ensures
        ref_pairs(p.svm, p.ixs).contains(pair) && from_pair(
            p,
            pair,
            gone,
            if gone == pair.left { pair.right } else { pair.left },
            r,
            f,
        ) <==> breaks_bond(p, pair.left, pair.right, pair.root, gone, r, f),
{
    let e1 = FieldRefEdge { source: pair.left, target: if pair.root is Some { pair.root->0 } else { pair.right } };
    let e2 = FieldRefEdge { source: pair.right, target: if pair.root is Some { pair.root->0 } else { pair.left } };
    lemma_ref_pairs(p.svm, p.ixs);
    lemma_ref_edges(p.svm, p.ixs);
    assert(ref_edges(p.svm, p.ixs).contains(e1) == (uses(p.ixs, e1.source) && uses(p.ixs, e1.target) && names(
        p.svm,
        e1.source,
        e1.target,
    ))) by {
        lemma_uses(p.ixs, e1.source);
        lemma_uses(p.ixs, e1.target);
        lemma_refers(p.svm, e1.source, e1.target);
    }
    assert(ref_edges(p.svm, p.ixs).contains(e2) == (uses(p.ixs, e2.source) && uses(p.ixs, e2.target) && names(
        p.svm,
        e2.source,
        e2.target,
    ))) by {
        lemma_uses(p.ixs, e2.source);
        lemma_uses(p.ixs, e2.target);
        lemma_refers(p.svm, e2.source, e2.target);
    }
    lemma_bytes_order(pair.left@, pair.right@, pair.left@);
    lemma_replacements(scope_of(p), gone);
    lemma_uses(p.ixs, r);
    lemma_reads(p, pair.left);
    lemma_reads(p, pair.right);
    lemma_instead(p, gone, r);
    if pair.root is Some {
        lemma_reads(p, pair.root->0);
        lemma_needs_lamports(p, pair.root->0);
    }
}

/// The findings on accounts that are bound to each other: one for just each such two accounts that the transaction
/// reads, each of the two, and each account of the same class that the transaction does not use and that is not
/// bound in the same way, where the transaction succeeds, does what it did, and reads the other account when
/// that stands in the place of this one.
pub proof fn lemma_binding_findings(found: Findings, p: Probe, config: ConfigView, f: FindingView)
    requires
        found.found_by(p, config),
    ensures
        found.bindings.contains(f) <==> exists|left: Pubkey, right: Pubkey, root: Option<Pubkey>, gone: Pubkey, r: Pubkey|
            #[trigger] breaks_bond(p, left, right, root, gone, r, f),
{
    let pairs = ref_pairs(p.svm, p.ixs);
    lemma_binding_members(p, pairs);
    if found.bindings.contains(f) {
        let pair = choose|q: BidirectionalRefPair| pairs.contains(q) && #[trigger] in_either(p, q, f);
        lemma_in_either(p, pair, f);
        let (gone, kept, r) = choose|gone: Pubkey, kept: Pubkey, r: Pubkey| #[trigger] from_pair(p, pair, gone, kept, r, f);
        lemma_ref_pairs(p.svm, p.ixs);
        lemma_bytes_order(pair.left@, pair.right@, pair.left@);
        lemma_bond(p, pair, gone, r, f);
        assert(breaks_bond(p, pair.left, pair.right, pair.root, gone, r, f));
    }
    if exists|left: Pubkey, right: Pubkey, root: Option<Pubkey>, gone: Pubkey, r: Pubkey| #[trigger]
        breaks_bond(p, left, right, root, gone, r, f) {
        let (left, right, root, gone, r) = choose|
            left: Pubkey,
            right: Pubkey,
            root: Option<Pubkey>,
            gone: Pubkey,
            r: Pubkey,
        | #[trigger]
            breaks_bond(p, left, right, root, gone, r, f);
        let pair = BidirectionalRefPair { left, right, root };
        lemma_bond(p, pair, gone, r, f);
        assert(from_pair(p, pair, gone, if gone == pair.left { pair.right } else { pair.left }, r, f));
        lemma_in_either(p, pair, f);
        assert(pairs.contains(pair) && in_either(p, pair, f));
    }
}

proof fn lemma_source_members(p: Probe, edge: FieldRefEdge, others: Seq<Pubkey>)
    ensures
        forall|f: FindingView| #[trigger]
            source_findings(p, edge, others).contains(f) <==> exists|r: Pubkey| #[trigger]
                others.contains(r) && source_finding(p, edge, r) == Some(f),
    decreases others.len(),
{
    if others.len() > 0 {
        let d = others.drop_last();
        let before = source_findings(p, edge, d);
        let now = source_findings(p, edge, others);
        lemma_source_members(p, edge, d);
        lemma_with_finding(before, source_finding(p, edge, others.last()));
        assert forall|f: FindingView| #[trigger] now.contains(f) <==> exists|r: Pubkey| #[trigger]
            others.contains(r) && source_finding(p, edge, r) == Some(f) by {
            if before.contains(f) {
                let r = choose|r: Pubkey| #[trigger] d.contains(r) && source_finding(p, edge, r) == Some(f);
                let i = choose|i: int| 0 <= i < d.len() && d[i] == r;
                assert(others[i] == r);
                assert(others.contains(r));
            }
            if source_finding(p, edge, others.last()) == Some(f) {
                assert(others[others.len() - 1] == others.last());
                assert(others.contains(others.last()));
            }
            if exists|r: Pubkey| #[trigger] others.contains(r) && source_finding(p, edge, r) == Some(f) {
                let r = choose|r: Pubkey| #[trigger] others.contains(r) && source_finding(p, edge, r) == Some(f);
                let i = choose|i: int| 0 <= i < others.len() && others[i] == r;
                if i < d.len() {
                    assert(d[i] == r);
                    assert(d.contains(r));
                }
            }
        }
    }
}

proof fn lemma_target_members(p: Probe, edge: FieldRefEdge, others: Seq<Pubkey>)
    ensures
        forall|f: FindingView| #[trigger]
            target_findings(p, edge, others).contains(f) <==> exists|r: Pubkey| #[trigger]
                others.contains(r) && target_finding(p, edge, r) == Some(f),
    decreases others.len(),
{
    if others.len() > 0 {
        let d = others.drop_last();
        let before = target_findings(p, edge, d);
        let now = target_findings(p, edge, others);
        lemma_target_members(p, edge, d);
        lemma_with_finding(before, target_finding(p, edge, others.last()));
        assert forall|f: FindingView| #[trigger] now.contains(f) <==> exists|r: Pubkey| #[trigger]
            others.contains(r) && target_finding(p, edge, r) == Some(f) by {
            if before.contains(f) {
                let r = choose|r: Pubkey| #[trigger] d.contains(r) && target_finding(p, edge, r) == Some(f);
                let i = choose|i: int| 0 <= i < d.len() && d[i] == r;
                assert(others[i] == r);
                assert(others.contains(r));
            }
            if target_finding(p, edge, others.last()) == Some(f) {
                assert(others[others.len() - 1] == others.last());
                assert(others.contains(others.last()));
            }
            if exists|r: Pubkey| #[trigger] others.contains(r) && target_finding(p, edge, r) == Some(f) {
                let r = choose|r: Pubkey| #[trigger] others.contains(r) && target_finding(p, edge, r) == Some(f);
                let i = choose|i: int| 0 <= i < others.len() && others[i] == r;
                if i < d.len() {
                    assert(d[i] == r);
                    assert(d.contains(r));
                }
            }
        }
    }
}

spec fn from_edge(p: Probe, e: FieldRefEdge, first: bool, r: Pubkey, f: FindingView) -> bool {
    &&& load_bearing(p, e.source)
    &&& first ==> load_bearing(p, e.target) && replacements(scope_of(p), e.source).contains(r) && source_finding(p, e, r) == Some(f)
    &&& !first ==> replacements(scope_of(p), e.target).contains(r) && target_finding(p, e, r) == Some(f)
}

proof fn lemma_edge_members(p: Probe, e: FieldRefEdge, f: FindingView)
    ensures
        edge_findings(p, e).contains(f) <==> exists|first: bool, r: Pubkey| #[trigger] from_edge(p, e, first, r, f),
{
    let s = scope_of(p);
    let one = source_findings(p, e, replacements(s, e.source));
    let two = target_findings(p, e, replacements(s, e.target));
    lemma_source_members(p, e, replacements(s, e.source));
    lemma_target_members(p, e, replacements(s, e.target));
    lemma_added(one, two);
    if edge_findings(p, e).contains(f) {
        if two.contains(f) {
            let r = choose|r: Pubkey| #[trigger] replacements(s, e.target).contains(r) && target_finding(p, e, r) == Some(f);
            assert(from_edge(p, e, false, r, f));
        } else {
            let r = choose|r: Pubkey| #[trigger] replacements(s, e.source).contains(r) && source_finding(p, e, r) == Some(f);
            assert(from_edge(p, e, true, r, f));
        }
    }
    if exists|first: bool, r: Pubkey| #[trigger] from_edge(p, e, first, r, f) {
        let (first, r) = choose|first: bool, r: Pubkey| #[trigger] from_edge(p, e, first, r, f);
        if first {
            assert(replacements(s, e.source).contains(r) && source_finding(p, e, r) == Some(f));
            assert(one.contains(f));
        } else {
            assert(replacements(s, e.target).contains(r) && target_finding(p, e, r) == Some(f));
            assert(two.contains(f));
        }
    }
}

proof fn lemma_reference_members(p: Probe, edges: Seq<FieldRefEdge>)
    ensures
        forall|f: FindingView| #[trigger]
            reference_findings(p, edges).contains(f) <==> exists|e: FieldRefEdge| #[trigger]
                edges.contains(e) && edge_findings(p, e).contains(f),
    decreases edges.len(),
{
    if edges.len() > 0 {
        let d = edges.drop_last();
        let q = edges.last();
        let before = reference_findings(p, d);
        let now = reference_findings(p, edges);
        lemma_reference_members(p, d);
        lemma_added(before, edge_findings(p, q));
        assert(edges[edges.len() - 1] == q);
        assert forall|f: FindingView| #[trigger] now.contains(f) <==> exists|e: FieldRefEdge| #[trigger]
            edges.contains(e) && edge_findings(p, e).contains(f) by {
            if before.contains(f) {
                let e = choose|e: FieldRefEdge| #[trigger] d.contains(e) && edge_findings(p, e).contains(f);
                let i = choose|i: int| 0 <= i < d.len() && d[i] == e;
                assert(edges[i] == e);
                assert(edges.contains(e));
            }
            if edge_findings(p, q).contains(f) {
                assert(edges.contains(q));
            }
            if exists|e: FieldRefEdge| #[trigger] edges.contains(e) && edge_findings(p, e).contains(f) {
                let e = choose|e: FieldRefEdge| #[trigger] edges.contains(e) && edge_findings(p, e).contains(f);
                let i = choose|i: int| 0 <= i < edges.len() && edges[i] == e;
                if i < d.len() {
                    assert(d[i] == e);
                    assert(d.contains(e));
                }
            }
        }
    }
}

/// The one account names the other, and the transaction goes on when an account of the same class, that it does not use
/// and that does not keep up the reference, stands in the place of `gone`, one of the two. Where it reads the
/// second, it also reads what stands in its place, and what is told depends on how many accounts have the
/// class of the one that is kept.
pub open spec fn breaks_reference(p: Probe, a: Pubkey, b: Pubkey, gone: Pubkey, r: Pubkey, f: FindingView) -> bool {
    let kept = if gone == a { b } else { a };
    let class = if class_members(scope_of(p), kept).len() <= 1 { "CC-7 root-ref"@ } else { "CC-7 field-ref"@ };
    &&& uses(p.ixs, a) && uses(p.ixs, b) && names(p.svm, a, b) && reads(p, a)
    &&& gone == b || (gone == a && reads(p, b))
    &&& r != gone && !uses(p.ixs, r)
    &&& class_in(scope_of(p), gone) is Some && class_in(scope_of(p), r) == class_in(scope_of(p), gone)
    &&& if gone == a {
        account_at(p.svm, r) is Some && !holds_address(account_at(p.svm, r)->0.data, b)
    } else {
        !holds_address(account_at(p.svm, a)->0.data, r)
    }
    &&& takes_instead(p, gone, r)
    &&& reads(p, b) ==> {
        &&& reads_instead(p, gone, r)
        &&& f.id == found_id(p, class, gone)
        &&& f.message == "["@ + class + "] account "@ + base58(a@) + " references "@ + base58(b@) + ", substituted "@ + base58(
            gone@,
        ) + " with same-class account "@ + base58(r@) + ", instr "@ + call_text(p)
            + " still succeeded (missing field cross-reference check)"@
    }
    &&& !reads(p, b) ==> {
        &&& f.id == found_id(p, "CC-7 value-ref"@, b)
        &&& f.message == "[CC-7 value-ref] account "@ + base58(a@) + " references "@ + base58(b@)
            + ", substituted referenced account with same-class account "@ + base58(r@) + " ("@ + class_text(scope_of(p), r)
            + "), instr "@ + call_text(p) + " still succeeded (missing referenced account binding check)"@
    }
}

proof fn lemma_broken_reference(p: Probe, e: FieldRefEdge, first: bool, r: Pubkey, f: FindingView)
    ensures
        ref_edges(p.svm, p.ixs).contains(e) && from_edge(p, e, first, r, f) <==> e.source != e.target && breaks_reference(
            p,
            e.source,
            e.target,
            if first { e.source } else { e.target },
            r,
            f,
        ),
{
    let gone = if first { e.source } else { e.target };
    lemma_ref_edges(p.svm, p.ixs);
    lemma_uses(p.ixs, e.source);
    lemma_uses(p.ixs, e.target);
    lemma_uses(p.ixs, r);
    lemma_refers(p.svm, e.source, e.target);
    lemma_replacements(scope_of(p), gone);
    lemma_reads(p, e.source);
    lemma_reads(p, e.target);
    lemma_instead(p, gone, r);
}

/// The findings on references: one for just each account that the transaction reads, each that it names, each of the
/// two, and each account of the same class, where that breaks the reference and the transaction does not care.
pub proof fn lemma_reference_findings(found: Findings, p: Probe, config: ConfigView, f: FindingView)
    requires
        found.found_by(p, config),
    ensures
        found.references.contains(f) <==> exists|a: Pubkey, b: Pubkey, gone: Pubkey, r: Pubkey| #[trigger]
            breaks_reference(p, a, b, gone, r, f),
{
    let edges = ref_edges(p.svm, p.ixs);
    lemma_reference_members(p, edges);
    if found.references.contains(f) {
        let e = choose|e: FieldRefEdge| #[trigger] edges.contains(e) && edge_findings(p, e).contains(f);
        lemma_edge_members(p, e, f);
        let (first, r) = choose|first: bool, r: Pubkey| #[trigger] from_edge(p, e, first, r, f);
        lemma_broken_reference(p, e, first, r, f);
        assert(breaks_reference(p, e.source, e.target, if first { e.source } else { e.target }, r, f));
    }
    if exists|a: Pubkey, b: Pubkey, gone: Pubkey, r: Pubkey| #[trigger] breaks_reference(p, a, b, gone, r, f) {
        let (a, b, gone, r) = choose|a: Pubkey, b: Pubkey, gone: Pubkey, r: Pubkey| #[trigger]
            breaks_reference(p, a, b, gone, r, f);
        let e = FieldRefEdge { source: a, target: b };
        lemma_broken_reference(p, e, gone == a, r, f);
        lemma_edge_members(p, e, f);
        assert(from_edge(p, e, gone == a, r, f));
        assert(edges.contains(e));
    }
}

} // verus!
