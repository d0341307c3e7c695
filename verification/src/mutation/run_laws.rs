//! What a probe of a transaction says of the run it is made from, and what it leaves behind.
use vstd::prelude::*;
#[allow(unused_imports)]
use litesvm::LiteSVM;
#[allow(unused_imports)]
use vstd::bytes::spec_u64_to_le_bytes;
#[allow(unused_imports)]
use crate::ids::known_sysvar;
#[allow(unused_imports)]
use crate::mutation::cache::{
    account_writes, base_of, edge_writes, mark_count, state_signature, state_writes, BaseView, ProbeBaseKey, ProbeCache,
    ProbeMark,
};
#[allow(unused_imports)]
use crate::mutation::findings::{is_expected, lemma_first_expected, lemma_soonest, priority, selected, soonest, FindingView};
#[allow(unused_imports)]
use crate::mutation::probe::{
    all_calls, called_programs, counts_as_forwarded, demotions, forwarded, index_space, is_baseline, key_at_index,
    probe_due, probe_of, probe_outcome, probe_ran, probed, run_signature, with_call, with_calls, Baseline, RequestView,
};
#[allow(unused_imports)]
use crate::outcome::{metadata_value, InnerView};
#[allow(unused_imports)]
use crate::session::SessionView;
#[allow(unused_imports)]
use crate::svm::{account_at, run_result, run_succeeds};
#[allow(unused_imports)]
use crate::text::{begins_with, parts_between};
#[allow(unused_imports)]
use crate::types::{lemma_with_key, InstructionView, Pubkey, Slot};

verus! {

/// Some call names the account with one of its indexes.
pub open spec fn is_passed(keys: Seq<Pubkey>, calls: Seq<InnerView>, k: Pubkey) -> bool {
    exists|i: int, j: int|
        0 <= i < calls.len() && 0 <= j < calls[i].accounts.len() && (#[trigger] calls[i].accounts[j]) < keys.len()
            && keys[calls[i].accounts[j] as int] == k
}

/// Some call is to the program.
pub open spec fn is_called(keys: Seq<Pubkey>, calls: Seq<InnerView>, k: Pubkey) -> bool {
    exists|i: int|
        0 <= i < calls.len() && (#[trigger] calls[i]).program_id_index < keys.len() && keys[calls[i].program_id_index as int] == k
}

proof fn lemma_called(keys: Seq<Pubkey>, calls: Seq<InnerView>, k: Pubkey)
    ensures
        called_programs(keys, calls).contains(k) == is_called(keys, calls, k),
    decreases calls.len(),
{
    if calls.len() > 0 {
        let d = calls.drop_last();
        lemma_called(keys, d, k);
        let n = calls.len() - 1;
        assert(calls[n] == calls.last());
        assert forall|i: int| 0 <= i < d.len() implies d[i] == calls[i] by {}
        if key_at_index(keys, calls.last().program_id_index) is Some {
            lemma_with_key(called_programs(keys, d), key_at_index(keys, calls.last().program_id_index)->0);
        }
        if is_called(keys, d, k) {
            let i = choose|i: int|
                0 <= i < d.len() && (#[trigger] d[i]).program_id_index < keys.len() && keys[d[i].program_id_index as int] == k;
            assert(calls[i] == d[i]);
        }
        if is_called(keys, calls, k) {
            let i = choose|i: int|
                0 <= i < calls.len() && (#[trigger] calls[i]).program_id_index < keys.len() && keys[calls[i].program_id_index as int]
                    == k;
            if i < d.len() {
                assert(d[i] == calls[i]);
            }
        }
    }
}

proof fn lemma_with_call(before: Seq<Pubkey>, keys: Seq<Pubkey>, programs: Seq<Pubkey>, indexes: Seq<u8>)
    ensures
        forall|k: Pubkey| #[trigger]
            with_call(before, keys, programs, indexes).contains(k) <==> before.contains(k) || (counts_as_forwarded(programs, k)
                && exists|j: int| 0 <= j < indexes.len() && (#[trigger] indexes[j]) < keys.len() && keys[indexes[j] as int] == k),
        before.no_duplicates() ==> with_call(before, keys, programs, indexes).no_duplicates(),
    decreases indexes.len(),
{
    if indexes.len() > 0 {
        let d = indexes.drop_last();
        let l = indexes.last();
        lemma_with_call(before, keys, programs, d);
        let r = with_call(before, keys, programs, d);
        let now = with_call(before, keys, programs, indexes);
        assert(indexes[indexes.len() - 1] == l);
        assert forall|j: int| 0 <= j < d.len() implies d[j] == indexes[j] by {}
        if key_at_index(keys, l) is Some {
            lemma_with_key(r, key_at_index(keys, l)->0);
        }
        assert forall|k: Pubkey| #[trigger] now.contains(k) <==> before.contains(k) || (counts_as_forwarded(programs, k)
            && exists|j: int| 0 <= j < indexes.len() && (#[trigger] indexes[j]) < keys.len() && keys[indexes[j] as int] == k) by {
            assert(r.contains(k) <==> before.contains(k) || (counts_as_forwarded(programs, k) && exists|j: int|
                0 <= j < d.len() && (#[trigger] d[j]) < keys.len() && keys[d[j] as int] == k));
            if exists|j: int| 0 <= j < d.len() && (#[trigger] d[j]) < keys.len() && keys[d[j] as int] == k {
                let j = choose|j: int| 0 <= j < d.len() && (#[trigger] d[j]) < keys.len() && keys[d[j] as int] == k;
                assert(indexes[j] == d[j]);
            }
            if exists|j: int| 0 <= j < indexes.len() && (#[trigger] indexes[j]) < keys.len() && keys[indexes[j] as int] == k {
                let j = choose|j: int|
                    0 <= j < indexes.len() && (#[trigger] indexes[j]) < keys.len() && keys[indexes[j] as int] == k;
                if j < d.len() {
                    assert(d[j] == indexes[j]);
                }
            }
        }
    }
}

proof fn lemma_with_calls(keys: Seq<Pubkey>, programs: Seq<Pubkey>, calls: Seq<InnerView>)
    ensures
        forall|k: Pubkey| #[trigger]
            with_calls(keys, programs, calls).contains(k) <==> counts_as_forwarded(programs, k) && is_passed(keys, calls, k),
        with_calls(keys, programs, calls).no_duplicates(),
    decreases calls.len(),
{
    if calls.len() > 0 {
        let d = calls.drop_last();
        let l = calls.last();
        lemma_with_calls(keys, programs, d);
        lemma_with_call(with_calls(keys, programs, d), keys, programs, l.accounts);
        assert(calls[calls.len() - 1] == l);
        assert forall|i: int| 0 <= i < d.len() implies d[i] == calls[i] by {}
        assert forall|k: Pubkey| #[trigger] with_calls(keys, programs, calls).contains(k) <==> counts_as_forwarded(programs, k)
            && is_passed(keys, calls, k) by {
            if is_passed(keys, d, k) {
                let (i, j) = choose|i: int, j: int|
                    0 <= i < d.len() && 0 <= j < d[i].accounts.len() && (#[trigger] d[i].accounts[j]) < keys.len()
                        && keys[d[i].accounts[j] as int] == k;
                assert(calls[i].accounts[j] == d[i].accounts[j]);
            }
            if exists|j: int| 0 <= j < l.accounts.len() && (#[trigger] l.accounts[j]) < keys.len() && keys[l.accounts[j] as int] == k {
                let j = choose|j: int|
                    0 <= j < l.accounts.len() && (#[trigger] l.accounts[j]) < keys.len() && keys[l.accounts[j] as int] == k;
                assert(calls[calls.len() - 1].accounts[j] == l.accounts[j]);
            }
            if is_passed(keys, calls, k) {
                let (i, j) = choose|i: int, j: int|
                    0 <= i < calls.len() && 0 <= j < calls[i].accounts.len() && (#[trigger] calls[i].accounts[j]) < keys.len()
                        && keys[calls[i].accounts[j] as int] == k;
                if i < d.len() {
                    assert(d[i].accounts[j] == calls[i].accounts[j]);
                } else {
                    assert(l.accounts[j] == calls[i].accounts[j]);
                }
            }
        }
    }
}

proof fn lemma_calls_flat(groups: Seq<Seq<InnerView>>)
    ensures
        all_calls(groups) == groups.flatten_alt(),
    decreases groups.len(),
{
    if groups.len() > 0 {
        lemma_calls_flat(groups.drop_last());
    }
}

/// The accounts that are passed on to other programs: those that some call names, but for the programs that are called,
/// the sysvars and the address of all zeros, none twice.
pub proof fn lemma_passed_on(keys: Seq<Pubkey>, groups: Seq<Seq<InnerView>>, k: Pubkey)
    ensures
        forwarded(keys, groups).contains(k) <==> {
            let calls = groups.flatten_alt();
            is_passed(keys, calls, k) && !is_called(keys, calls, k) && !known_sysvar(k) && k@ != Seq::new(32, |i: int| 0u8)
        },
        forwarded(keys, groups).no_duplicates(),
{
    let calls = groups.flatten_alt();
    lemma_calls_flat(groups);
    lemma_called(keys, calls, k);
    lemma_with_calls(keys, called_programs(keys, calls), calls);
    assert(crate::types::zero_key() =~= Seq::new(32, |i: int| 0u8));
}

/// A transaction is probed just where probing is switched on, it has an instruction, and it is to be replayed or its first
/// instruction has been probed less often than it may be.
pub proof fn lemma_due(q: RequestView, cache: ProbeCache, replay: bool)
    ensures
        probe_due(q, cache, replay) <==> q.config.enabled && q.ixs.len() > 0 && (replay || cache.marks@.filter(
            |m: ProbeMark| m.base@ == base_of(q.disc_len, q.ixs[0]),
        ).len() < cache.cap),
{
    lemma_marks_counted(cache.marks@, base_of(q.disc_len, q.ixs[0]));
}

/// The marks of an instruction are counted one by one.
pub proof fn lemma_marks_counted(marks: Seq<ProbeMark>, base: BaseView)
    ensures
        mark_count(marks, base) == marks.filter(|m: ProbeMark| m.base@ == base).len(),
    decreases marks.len(),
{
    reveal(Seq::filter);
    if marks.len() > 0 {
        lemma_marks_counted(marks.drop_last(), base);
    }
}

/// What a probe sees: the machine as it was and as the transaction left it, what was asked for, and what the run passed
/// on.
pub proof fn lemma_probe_sees(q: RequestView, svm: LiteSVM, after: LiteSVM, passed_on: Seq<Pubkey>)
    ensures
        ({
            let p = probe_of(q, svm, after, passed_on);
            &&& p.svm == svm && p.after == after && p.forwarded == passed_on && p.observed == q.observed
            &&& p.ixs == q.ixs && p.signers == q.signers && p.payer == q.payer && p.sigverify == q.sigverify
            &&& p.enabled == q.config.enabled && p.skip_pdas == q.config.skip_pda_candidates
            &&& p.unverified == q.config.unverified && p.tags == q.tags && p.disc_len == q.disc_len
        }),
{
}

/// What the probes are held against is the run of the transaction itself, which succeeds: the machine that it leaves, and
/// what it passes on.
pub proof fn lemma_baseline(q: RequestView, svm: LiteSVM, b: Baseline)
    requires
        is_baseline(q, svm, b),
    ensures
        run_succeeds(svm, q.ixs, q.signers, q.payer, q.sigverify),
        b.svm == run_result(svm, q.ixs, q.signers, q.payer, q.sigverify).0,
        b.forwarded@ == forwarded(
            index_space(q.ixs, q.payer.key),
            metadata_value((run_result(svm, q.ixs, q.signers, q.payer, q.sigverify).1->0).0).inner,
        ),
{
}

/// The finding that is reported: where one is expected, the first that is the expected one; else, the first on a reference
/// by value where there is one, and the first of all where there is none.
pub proof fn lemma_reported_finding(found: Seq<FindingView>, expected: Option<Seq<char>>)
    ensures
        match selected(found, expected) {
            Some(i) => {
                &&& 0 <= i < found.len()
                &&& expected is Some ==> is_expected(found[i].id, expected->0) && forall|j: int|
                    0 <= j < i ==> !is_expected((#[trigger] found[j]).id, expected->0)
                &&& expected is None && begins_with(found[i].id, "CC-7 value-ref:"@) ==> forall|j: int|
                    0 <= j < i ==> !begins_with((#[trigger] found[j]).id, "CC-7 value-ref:"@)
                &&& expected is None && !begins_with(found[i].id, "CC-7 value-ref:"@) ==> i == 0 && forall|j: int|
                    0 <= j < found.len() ==> !begins_with((#[trigger] found[j]).id, "CC-7 value-ref:"@)
            },
            None => {
                &&& expected is None ==> found.len() == 0
                &&& expected is Some ==> forall|j: int| 0 <= j < found.len() ==> !is_expected((#[trigger] found[j]).id, expected->0)
            },
        },
{
    if expected is Some {
        lemma_first_expected(found, expected->0);
    } else if found.len() > 0 {
        lemma_soonest(found);
        let i = soonest(found);
        if !begins_with(found[i].id, "CC-7 value-ref:"@) {
            assert forall|j: int| 0 <= j < found.len() implies !begins_with((#[trigger] found[j]).id, "CC-7 value-ref:"@) by {
                assert(priority(found[i]) <= priority(found[j]));
            }
            if i > 0 {
                assert(priority(found[i]) < priority(found[0]));
            }
        } else {
            assert forall|j: int| 0 <= j < i implies !begins_with((#[trigger] found[j]).id, "CC-7 value-ref:"@) by {
                assert(priority(found[i]) < priority(found[j]));
            }
        }
    }
}

/// An id is the expected one where it is that one, or where the expected one is of an instruction and names the program
/// and the tag that stand second and third in it, between colons.
pub proof fn lemma_expected_id(id: Seq<char>, expected: Seq<char>)
    ensures
        is_expected(id, expected) <==> id == expected || (begins_with(expected, "account-mutation:"@) && !begins_with(
            id,
            "account-mutation:"@,
        ) && parts_between(id, ":"@).len() >= 3 && expected == "account-mutation:"@ + parts_between(id, ":"@)[1] + ":"@
            + parts_between(id, ":"@)[2]),
{
}

/// What a probe leaves behind. An instruction that was probed often enough, or in the same state before, is not probed
/// again: nothing changes. Else the findings are those of all probes. What is reported of them is the
/// violation, unless there was one before, and nothing else of the session changes. The cache notes the
/// instruction and its state, except in a replay.
pub proof fn lemma_probe_leaves(
    q: RequestView,
    svm: LiteSVM,
    before: (SessionView, ProbeCache),
    after: (SessionView, ProbeCache),
    noted: Seq<FindingView>,
    found: Seq<FindingView>,
)
    requires
        probe_ran(q, svm, before, after, noted, found),
    ensures
        ({
            let base = base_of(q.disc_len, q.ixs[0]);
            let sig = state_signature(svm, q.ixs);
            let replay = before.0.expected_finding_id is Some;
            let seen = exists|i: int|
                0 <= i < before.1.marks@.len() && (#[trigger] before.1.marks@[i]).base@ == base && before.1.marks@[i].sig == sig;
            let often = before.1.marks@.filter(|m: ProbeMark| m.base@ == base).len() >= before.1.cap;
            let at = selected(found, before.0.expected_finding_id);
            &&& !replay && (seen || often) ==> after == before && noted.len() == 0 && found.len() == 0
            &&& replay || !(seen || often) ==> {
                let b = run_result(svm, q.ixs, q.signers, q.payer, q.sigverify);
                let p = probe_of(
                    q,
                    svm,
                    b.0,
                    forwarded(index_space(q.ixs, q.payer.key), metadata_value((b.1->0).0).inner),
                );
                &&& probed(p, q.config, found) && noted == demotions(p, q.config)
                &&& after.1.cap == before.1.cap
                &&& replay ==> after.1.marks@ == before.1.marks@
                &&& !replay ==> after.1.marks@.len() == before.1.marks@.len() + 1 && before.1.marks@.is_prefix_of(after.1.marks@)
                    && after.1.marks@.last().base@ == base && after.1.marks@.last().sig == sig
                &&& before.0.violation is Some || at is None ==> after.0 == before.0
                &&& before.0.violation is None && at is Some ==> after.0 == (SessionView {
                    violation: Some(found[at->0].message),
                    from_mutation: true,
                    finding_id: Some(found[at->0].id),
                    finding_message: Some(found[at->0].message),
                    ..before.0
                })
            }
        }),
{
    let (b, base) = choose|b: Baseline, base: ProbeBaseKey| #[trigger]
        is_baseline(q, svm, b) && base@ == base_of(q.disc_len, q.ixs[0]) && #[trigger] probe_outcome(
            q,
            svm,
            b,
            base,
            state_signature(svm, q.ixs),
            before,
            after,
            noted,
            found,
        );
    lemma_marks_counted(before.1.marks@, base@);
    if before.0.expected_finding_id is None && !(before.1.holds(base@, state_signature(svm, q.ixs)) || before.1.capped(base@)) {
        assert(after.1.marks@.subrange(0, before.1.marks@.len() as int) =~= before.1.marks@);
    }
}

/// What the state of a transaction is told apart by: for each use of an account in their order, that it is missing, or its
/// owner, how much data it holds, whether it has lamports, and its first 32 bytes.
pub proof fn lemma_state_told(svm: LiteSVM, slots: Seq<Slot>)
    ensures
        state_writes(svm, slots) == slots.map_values(
            |s: Slot|
                match account_at(svm, s.meta.pubkey) {
                    None => seq![seq![0u8]],
                    Some(a) => {
                        let head = if a.data.len() < 32 { a.data } else { a.data.subrange(0, 32) };
                        seq![
                            seq![1u8],
                            a.owner@,
                            spec_u64_to_le_bytes(a.data.len() as u64),
                            seq![if a.lamports > 0 { 1u8 } else { 0u8 }],
                            spec_u64_to_le_bytes(head.len() as u64),
                            head,
                        ]
                    },
                },
        ).flatten_alt(),
    decreases slots.len(),
{
    let told = |s: Slot|
        match account_at(svm, s.meta.pubkey) {
            None => seq![seq![0u8]],
            Some(a) => {
                let head = if a.data.len() < 32 { a.data } else { a.data.subrange(0, 32) };
                seq![
                    seq![1u8],
                    a.owner@,
                    spec_u64_to_le_bytes(a.data.len() as u64),
                    seq![if a.lamports > 0 { 1u8 } else { 0u8 }],
                    spec_u64_to_le_bytes(head.len() as u64),
                    head,
                ]
            },
        };
    let lists = slots.map_values(told);
    if slots.len() > 0 {
        lemma_state_told(svm, slots.drop_last());
        assert(lists.drop_last() =~= slots.drop_last().map_values(told));
        let a = account_at(svm, slots.last().meta.pubkey);
        if a is Some {
            let d = a->0.data;
            assert(crate::mutation::cache::window(d) =~= if d.len() < 32 { d } else { d.subrange(0, 32) });
        }
        assert(account_writes(a) == told(slots.last()));
    } else {
        assert(lists =~= Seq::<Seq<Seq<u8>>>::empty());
    }
}

/// What a run is told apart by: its edges where there are some, and else the state before it.
pub proof fn lemma_run_told(edges: Option<Seq<u64>>, svm: LiteSVM, ixs: Seq<InstructionView>)
    ensures
        edges is Some && edges->0.len() > 0 ==> run_signature(edges, svm, ixs) == crate::mutation::cache::edge_signature(edges->0),
        !(edges is Some && edges->0.len() > 0) ==> run_signature(edges, svm, ixs) == state_signature(svm, ixs),
        edges is Some ==> edge_writes(edges->0) == edges->0.map_values(|e: u64| spec_u64_to_le_bytes(e)),
{
    if edges is Some {
        lemma_edges_written(edges->0);
    }
}

proof fn lemma_edges_written(edges: Seq<u64>)
    ensures
        edge_writes(edges) == edges.map_values(|e: u64| spec_u64_to_le_bytes(e)),
    decreases edges.len(),
{
    if edges.len() > 0 {
        lemma_edges_written(edges.drop_last());
    }
    assert(edge_writes(edges) =~= edges.map_values(|e: u64| spec_u64_to_le_bytes(e)));
}

/// An instruction is told apart by its program and its tag, which is filled up with zeros to eight bytes.
pub proof fn lemma_base_told(disc_len: Option<usize>, ix: InstructionView, i: int)
    requires
        0 <= i < 8,
    ensures
        base_of(disc_len, ix).program_id == ix.program_id,
        base_of(disc_len, ix).disc.len() == 8,
        base_of(disc_len, ix).disc[i] == if i < ix.data.len() && (disc_len is None || i < disc_len->0) { ix.data[i] } else { 0u8 },
{
}

} // verus!
