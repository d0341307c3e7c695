//! What holds of the operations of a context as a whole.
use vstd::prelude::*;
#[allow(unused_imports)]
use litesvm::LiteSVM;
#[allow(unused_imports)]
use crate::actions::{line_text, numbered_lines, sequence_text, RecordView};
#[allow(unused_imports)]
use crate::account_builders::created;
#[allow(unused_imports)]
use crate::context::{bytes_written, latest, totals_at, with_totals, written, ContextView, ProgramTotals, ProgramView};
#[allow(unused_imports)]
use crate::debug::{debug_parts, entries_of, entry_leq, entry_parts, found_accounts, DebugEntry, HashPart};
#[allow(unused_imports)]
use crate::discriminators::{name_of, NamedView};
#[allow(unused_imports)]
use crate::errors::ContextError;
#[allow(unused_imports)]
use crate::keys::Keypair;
#[allow(unused_imports)]
use crate::outcome::{
    error_text, failure_of, log_lines, metadata_value, outcome_view, report_text, ErrorView, FailureView, MetaView,
    OutcomeView, TxOutcome,
};
#[allow(unused_imports)]
use crate::ready::{calls, loaders};
#[allow(unused_imports)]
use crate::send::{batch_sent, probe_step, request_of, sent_session, transaction_sent, unique_signers, HarnessView};
#[allow(unused_imports)]
use crate::session::{crash_view, first_there, SessionView};
#[allow(unused_imports)]
use crate::snapshot::lemma_with_transaction;
#[allow(unused_imports)]
use crate::svm::{
    account_at, all_keys, has_signer, legacy_message, message_fits, named_keys, run_result, run_succeeds, sent_result,
    signed_transaction, signing_keys, svm_blockhash, svm_expired, svm_runs, svm_sent, svm_takes, svm_with_account,
    unsigned_transaction, Sent,
};
#[allow(unused_imports)]
use crate::text::dec;
#[allow(unused_imports)]
use crate::types::{lemma_with_key, slots_of, AccountView, InstructionView, Pubkey, Slot};

verus! {

/// Writing an account puts it into the machine, notes it as seen and as changed, each once, and changes nothing else.
pub proof fn lemma_written(c: ContextView, k: Pubkey, a: AccountView, x: Pubkey)
    ensures
        ({
            let w = written(c, k, a);
            &&& w.svm == svm_with_account(c.svm, k, a).0
            &&& w.seen.contains(x) <==> c.seen.contains(x) || x == k
            &&& w.dirty.accounts.contains(x) <==> c.dirty.accounts.contains(x) || x == k
            &&& c.seen.no_duplicates() ==> w.seen.no_duplicates()
            &&& c.dirty.accounts.no_duplicates() ==> w.dirty.accounts.no_duplicates()
            &&& w.dirty.clock_target_slot == c.dirty.clock_target_slot
            &&& w.pending == c.pending && w.pending_signers == c.pending_signers && w.programs == c.programs
            &&& w.totals == c.totals && w.snapshot == c.snapshot && w.mutation == c.mutation && w.sigverify == c.sigverify
        }),
{
    lemma_with_key(c.seen, k);
    lemma_with_key(c.dirty.accounts, k);
}

/// Creating an account puts it into the machine, notes it as seen, once, and changes nothing else.
pub proof fn lemma_created(c: ContextView, k: Pubkey, a: AccountView, x: Pubkey)
    ensures
        ({
            let w = created(c, k, a);
            &&& w.svm == svm_with_account(c.svm, k, a).0
            &&& w.seen.contains(x) <==> c.seen.contains(x) || x == k
            &&& c.seen.no_duplicates() ==> w.seen.no_duplicates()
            &&& w.pending == c.pending && w.pending_signers == c.pending_signers && w.programs == c.programs
            &&& w.totals == c.totals && w.snapshot == c.snapshot && w.dirty == c.dirty && w.mutation == c.mutation
            &&& w.sigverify == c.sigverify
        }),
{
    lemma_with_key(c.seen, k);
}

/// Writing bytes behind the tag of an account fails where there is no account, or where it is too short, and then changes
/// nothing. Else the bytes stand behind the tag, and all other bytes and fields of the account are as before.
pub proof fn lemma_bytes_written(
    c: ContextView,
    k: Pubkey,
    bytes: Seq<u8>,
    tag: usize,
    r: Result<(), ContextError>,
    c2: ContextView,
)
    requires
        bytes_written(account_at(c.svm, k), c, k, bytes, tag, r, c2),
    ensures
        r is Ok <==> account_at(c.svm, k) is Some && tag + bytes.len() <= account_at(c.svm, k)->0.data.len(),
        r is Err ==> c2 == c,
        r is Err && account_at(c.svm, k) is None ==> r->Err_0 == ContextError::AccountNotFound(k),
        r is Err && account_at(c.svm, k) is Some ==> r->Err_0 == (ContextError::TooShortToWrite {
            got: account_at(c.svm, k)->0.data.len() as usize,
            need: (tag + bytes.len()) as usize,
        }),
        r is Ok ==> exists|b: AccountView|
            {
                &&& c2 == #[trigger] written(c, k, b)
                &&& b == (AccountView { data: b.data, ..account_at(c.svm, k)->0 })
                &&& b.data.len() == account_at(c.svm, k)->0.data.len()
                &&& b.data.subrange(tag as int, tag + bytes.len()) == bytes
                &&& b.data.take(tag as int) == account_at(c.svm, k)->0.data.take(tag as int)
                &&& b.data.skip(tag + bytes.len()) == account_at(c.svm, k)->0.data.skip(tag + bytes.len())
            },
{
    if r is Ok {
        let a = account_at(c.svm, k)->0;
        let data = crate::context::spliced(a.data, bytes, tag as int);
        assert(data.subrange(tag as int, tag + bytes.len()) =~= bytes);
        assert(data.take(tag as int) =~= a.data.take(tag as int));
        assert(data.skip(tag + bytes.len()) =~= a.data.skip(tag + bytes.len()));
        assert(c2 == written(c, k, AccountView { data, ..a }));
    }
}

proof fn lemma_totals_at(s: Seq<ProgramTotals>, k: Pubkey)
    ensures
        match totals_at(s, k) {
            Some(i) => 0 <= i < s.len() && s[i].program_id == k && forall|j: int|
                i < j < s.len() ==> (#[trigger] s[j]).program_id != k,
            None => forall|j: int| 0 <= j < s.len() ==> (#[trigger] s[j]).program_id != k,
        },
    decreases s.len(),
{
    if s.len() > 0 {
        let d = s.drop_last();
        lemma_totals_at(d, k);
        assert(s[s.len() - 1] == s.last());
        assert forall|j: int| 0 <= j < d.len() implies d[j] == s[j] by {}
        if s.last().program_id != k {
            match totals_at(d, k) {
                Some(i) => {
                    assert forall|j: int| i < j < s.len() implies (#[trigger] s[j]).program_id != k by {
                        if j < d.len() {
                            assert(d[j].program_id != k);
                        }
                    }
                },
                None => {
                    assert forall|j: int| 0 <= j < s.len() implies (#[trigger] s[j]).program_id != k by {
                        if j < d.len() {
                            assert(d[j].program_id != k);
                        }
                    }
                },
            }
        }
    }
}

/// Noting the totals of a program replaces those that were noted of it, in their place, or adds them at the end. Those of
/// other programs stay as they are.
pub proof fn lemma_totals_noted(s: Seq<ProgramTotals>, t: ProgramTotals)
    ensures
        ({
            let r = with_totals(s, t);
            &&& r.contains(t)
            &&& forall|i: int| 0 <= i < s.len() && (#[trigger] s[i]).program_id != t.program_id ==> r[i] == s[i]
            &&& (exists|i: int| 0 <= i < s.len() && (#[trigger] s[i]).program_id == t.program_id) ==> r.len() == s.len()
            &&& (forall|i: int| 0 <= i < s.len() ==> (#[trigger] s[i]).program_id != t.program_id) ==> r == s.push(t)
        }),
{
    lemma_totals_at(s, t.program_id);
    let r = with_totals(s, t);
    match totals_at(s, t.program_id) {
        Some(i) => {
            assert(r[i] == t);
        },
        None => {
            assert(r[s.len() as int] == t);
        },
    }
}

/// The programs that count are those that no later one with the same address replaces, in their order.
pub proof fn lemma_latest(s: Seq<ProgramView>, p: ProgramView)
    ensures
        latest(s, s.len()).contains(p) <==> exists|i: int|
            0 <= i < s.len() && #[trigger] s[i] == p && forall|j: int| i < j < s.len() ==> (#[trigger] s[j]).program_id != p.program_id,
{
    lemma_latest_upto(s, s.len(), p);
}

proof fn lemma_latest_upto(s: Seq<ProgramView>, n: nat, p: ProgramView)
    requires
        n <= s.len(),
    ensures
        latest(s, n).contains(p) <==> exists|i: int|
            0 <= i < n && #[trigger] s[i] == p && forall|j: int| i < j < s.len() ==> (#[trigger] s[j]).program_id != p.program_id,
    decreases n,
{
    if n > 0 {
        lemma_latest_upto(s, (n - 1) as nat, p);
        let before = latest(s, (n - 1) as nat);
        let now = latest(s, n);
        if before.contains(p) {
            let i = choose|i: int| 0 <= i < before.len() && before[i] == p;
            assert(now[i] == p);
        }
        if now.contains(p) {
            let i = choose|i: int| 0 <= i < now.len() && now[i] == p;
            if i < before.len() {
                assert(before[i] == p);
            } else {
                assert(s[n - 1] == p);
                assert forall|j: int| n - 1 < j < s.len() implies (#[trigger] s[j]).program_id != p.program_id by {
                    if s[j].program_id == p.program_id {
                        assert(crate::context::replaced_later(s, n - 1));
                    }
                }
            }
        }
        if s[n - 1] == p && forall|j: int| n - 1 < j < s.len() ==> (#[trigger] s[j]).program_id != p.program_id {
            if crate::context::replaced_later(s, n - 1) {
                let j = choose|j: int| n - 1 < j < s.len() && (#[trigger] s[j]).program_id == s[n - 1].program_id;
                assert(s[j].program_id != p.program_id);
            }
            assert(now[before.len() as int] == p);
        }
    }
}

/// The outcome of a transaction: what the machine told of it, and its failure where there is one, with the code of a
/// custom error and the place of the instruction where they are known. What it cost is kept of a success only.
pub proof fn lemma_outcome(m: MetaView, e: Option<FailureView>)
    ensures
        ({
            let o = outcome_view(m, e);
            &&& o.logs == m.logs && o.signature == m.signature && o.inner == m.inner
            &&& o.return_data == m.return_data && o.fee == m.fee
            &&& o.failure is Some <==> e is Some
            &&& e is None ==> o.compute_units == Some(m.compute_units)
            &&& e is Some ==> o.compute_units is None && o.failure->0.error == e->0
            &&& e matches Some(FailureView::Custom(at, code)) ==> o.failure->0.error_code == Some(code)
                && o.failure->0.instruction_index == Some(at)
            &&& e matches Some(FailureView::Instruction(at, _)) ==> o.failure->0.error_code is None
                && o.failure->0.instruction_index == Some(at)
            &&& e matches Some(FailureView::Other(_)) ==> o.failure->0.error_code is None && o.failure->0.instruction_index is None
        }),
{
}

/// The text of a failure tells its code and its place where they are known.
pub proof fn lemma_failure_told(e: ErrorView)
    ensures
        error_text(e) == "Transaction failed"@ + (if e.error_code is Some {
            " (error code: "@ + dec(e.error_code->0 as nat) + ")"@
        } else {
            Seq::empty()
        }) + (if e.instruction_index is Some {
            " at instruction "@ + dec(e.instruction_index->0 as nat)
        } else {
            Seq::empty()
        }),
{
}

/// A report tells the code where it is asked for and known, and then every log, each on a line of its own.
pub proof fn lemma_report_told(head: Seq<char>, with_code: bool, o: OutcomeView)
    ensures
        report_text(head, with_code, o) == head + (if with_code && o.failure->0.error_code is Some {
            " (code: "@ + dec(o.failure->0.error_code->0 as nat) + ")"@
        } else {
            Seq::empty()
        }) + "\nLogs:\n"@ + o.logs.map_values(|l: Seq<char>| "  "@ + l + "\n"@).flatten_alt(),
{
    lemma_logs_listed(o.logs);
}

proof fn lemma_logs_listed(logs: Seq<Seq<char>>)
    ensures
        log_lines(logs) == logs.map_values(|l: Seq<char>| "  "@ + l + "\n"@).flatten_alt(),
    decreases logs.len(),
{
    let line = |l: Seq<char>| "  "@ + l + "\n"@;
    if logs.len() > 0 {
        lemma_logs_listed(logs.drop_last());
        assert(logs.map_values(line).drop_last() =~= logs.drop_last().map_values(line));
    } else {
        assert(logs.map_values(line) =~= Seq::<Seq<char>>::empty());
    }
}

/// Sending a transaction leaves the machine that the run left, notes what the transaction may change, and nothing else of
/// the context. It gives what the machine told of the run, or the reason why there was none. The session notes
/// the code of the failure, and counts the transaction, and that it succeeded where it did; what else it
/// notes comes from the probe, which is made before.
pub proof fn lemma_transaction_sent(
    c: ContextView,
    h: HarnessView,
    ixs: Seq<InstructionView>,
    signers: Seq<Keypair>,
    payer: Keypair,
    noted: Pubkey,
    r: Result<TxOutcome, ContextError>,
    c2: ContextView,
    h2: HarnessView,
    x: Pubkey,
) -> (mid: HarnessView)
    requires
        transaction_sent(c, h, ixs, signers, payer, noted, r, c2, h2),
        h.session.dispatch_count < u64::MAX,
    ensures
        ({
            let s = sent_result(c.svm, ixs, signers, payer, c.sigverify);
            let q = request_of(c, h, ixs, signers, payer);
            &&& c2.svm == s.0 && c2.pending == c.pending && c2.pending_signers == c.pending_signers
            &&& c2.programs == c.programs && c2.seen == c.seen && c2.totals == c.totals && c2.snapshot == c.snapshot
            &&& c2.mutation == c.mutation && c2.sigverify == c.sigverify
            &&& c2.dirty.clock_target_slot == c.dirty.clock_target_slot
            &&& c2.dirty.accounts.contains(x) <==> c.dirty.accounts.contains(x) || x == noted || exists|i: int|
                0 <= i < slots_of(ixs).len() && (#[trigger] slots_of(ixs)[i]).meta.is_writable && slots_of(ixs)[i].meta.pubkey == x
            &&& r is Ok <==> s.1 is Ok
            &&& r is Ok ==> r->Ok_0@ == outcome_view(metadata_value(s.1->Ok_0.0), failure_of(s.1->Ok_0.1))
            &&& r is Err ==> r->Err_0 is Signing && r->Err_0->Signing_0@ == s.1->Err_0
            &&& q.ixs == ixs && q.signers == signers && q.payer == payer && q.sigverify == c.sigverify
            &&& q.config == c.mutation && q.observed == c.seen && q.tags == h.tags
            &&& probe_step(q, c.svm, h, mid)
            &&& h2.cache == mid.cache && h2.tags == mid.tags && h2.instructions == mid.instructions && h2.demoted == mid.demoted
            &&& r is Err ==> h2.session == (SessionView { timers: h2.session.timers, ..mid.session })
            &&& r is Ok ==> {
                let failed = s.1->Ok_0.1 is Some;
                h2.session == (SessionView {
                    timers: h2.session.timers,
                    last_error_code: if failed { r->Ok_0@.failure->0.error_code } else { None },
                    total_dispatched: h2.session.total_dispatched,
                    dispatch_count: (mid.session.dispatch_count + 1) as u64,
                    total_succeeded: h2.session.total_succeeded,
                    ..mid.session
                }) && (mid.session.total_dispatched < u64::MAX ==> h2.session.total_dispatched == mid.session.total_dispatched + 1)
                    && (mid.session.total_succeeded < u64::MAX ==> h2.session.total_succeeded == mid.session.total_succeeded
                    + if failed { 0int } else { 1int })
            }
        }),
{
    lemma_with_transaction(c.dirty.accounts, ixs, noted);
    let s = sent_result(c.svm, ixs, signers, payer, c.sigverify);
    let mid = choose|mid: HarnessView| #[trigger]
        probe_step(request_of(c, h, ixs, signers, payer), c.svm, h, mid) && h2 == (HarnessView { session: h2.session, ..mid })
            && crate::send::same_but_time(
            h2.session,
            match s.1 {
                Ok((meta, err)) => sent_session(mid.session, outcome_view(metadata_value(meta), failure_of(err))),
                Err(_) => mid.session,
            },
        );
    mid
}

/// Where the transaction is not probed, because that is switched off, it is empty, or it fails by itself, the probe
/// changes nothing. Else it changes the session, the cache and what is noted of what was left out, and nothing
/// else.
pub proof fn lemma_probe_step(q: crate::mutation::probe::RequestView, svm: LiteSVM, before: HarnessView, after: HarnessView)
    requires
        probe_step(q, svm, before, after),
    ensures
        !q.config.enabled || q.ixs.len() == 0 || !run_succeeds(svm, q.ixs, q.signers, q.payer, q.sigverify) ==> after == before,
        after.tags == before.tags && after.instructions == before.instructions,
        before.demoted.is_prefix_of(after.demoted),
{
    if after != before {
        let (noted, found) = choose|
            noted: Seq<crate::mutation::findings::FindingView>,
            found: Seq<crate::mutation::findings::FindingView>,
        | #[trigger]
            crate::mutation::probe::probe_ran(
                q,
                svm,
                (before.session, before.cache),
                (after.session, after.cache),
                noted,
                found,
            ) && after == (HarnessView { session: after.session, cache: after.cache, demoted: before.demoted + noted, ..before });
        assert(after.demoted.subrange(0, before.demoted.len() as int) =~= before.demoted);
    } else {
        assert(after.demoted.subrange(0, before.demoted.len() as int) =~= before.demoted);
    }
}

proof fn lemma_unique(s: Seq<Keypair>, k: Pubkey)
    ensures
        has_signer(unique_signers(s), k) <==> has_signer(s, k),
    decreases s.len(),
{
    if s.len() > 0 {
        let d = s.drop_last();
        lemma_unique(d, k);
        lemma_unique(d, s.last().key);
        let before = unique_signers(d);
        let now = unique_signers(s);
        assert(s[s.len() - 1] == s.last());
        if has_signer(before, k) {
            let i = choose|i: int| 0 <= i < before.len() && (#[trigger] before[i]).key == k;
            assert(now[i].key == k);
        }
        if has_signer(d, k) {
            let i = choose|i: int| 0 <= i < d.len() && (#[trigger] d[i]).key == k;
            assert(s[i].key == k);
        }
        if has_signer(s, k) {
            let i = choose|i: int| 0 <= i < s.len() && (#[trigger] s[i]).key == k;
            if i < d.len() {
                assert(d[i].key == k);
            } else if !has_signer(before, k) {
                assert(now[before.len() as int].key == k);
            }
        }
        if has_signer(now, k) {
            let i = choose|i: int| 0 <= i < now.len() && (#[trigger] now[i]).key == k;
            if i < before.len() {
                assert(before[i].key == k);
            }
        }
    }
}

/// Sending a batch does nothing where nothing is pending, and fails where there is something to send and nobody to sign
/// it. Else all that is pending is sent in one transaction, which the first signer pays for, and is no longer
/// pending.
pub proof fn lemma_batch_sent(
    c: ContextView,
    h: HarnessView,
    r: Result<Option<TxOutcome>, ContextError>,
    c2: ContextView,
    h2: HarnessView,
)
    requires
        batch_sent(c, h, r, c2, h2),
    ensures
        c.pending.len() == 0 ==> r == Ok::<Option<TxOutcome>, ContextError>(None) && c2 == c && h2 == h,
        c.pending.len() > 0 && c.pending_signers.len() == 0 ==> r is Err && r->Err_0 is NoBatchSigner && c2 == c && h2 == h,
        c.pending.len() > 0 && c.pending_signers.len() > 0 ==> {
            let s = sent_result(
                c.svm,
                c.pending,
                unique_signers(c.pending_signers),
                c.pending_signers[0],
                c.sigverify,
            );
            &&& c2.svm == s.0 && c2.pending.len() == 0
            &&& r is Ok <==> s.1 is Ok
            &&& r is Ok ==> c2.pending_signers.len() == 0 && r->Ok_0 is Some && r->Ok_0->0@ == outcome_view(
                metadata_value(s.1->Ok_0.0),
                failure_of(s.1->Ok_0.1),
            )
            &&& r is Err ==> c2.pending_signers == c.pending_signers
        },
        forall|k: Pubkey| #[trigger] has_signer(unique_signers(c.pending_signers), k) <==> has_signer(c.pending_signers, k),
{
    assert forall|k: Pubkey| #[trigger] has_signer(unique_signers(c.pending_signers), k) <==> has_signer(c.pending_signers, k) by {
        lemma_unique(c.pending_signers, k);
    }
    lemma_first_signer(c.pending_signers);
}

proof fn lemma_first_signer(s: Seq<Keypair>)
    ensures
        s.len() == 0 <==> unique_signers(s).len() == 0,
        s.len() > 0 ==> unique_signers(s)[0] == s[0],
    decreases s.len(),
{
    if s.len() > 0 {
        lemma_first_signer(s.drop_last());
        if s.len() > 1 {
            assert(s.drop_last()[0] == s[0]);
        }
    }
}

proof fn lemma_named(slots: Seq<Slot>, payer: Pubkey)
    ensures
        forall|k: Pubkey| #[trigger]
            named_keys(slots, payer).contains(k) <==> k == payer || exists|i: int|
                0 <= i < slots.len() && (#[trigger] slots[i]).meta.pubkey == k,
        named_keys(slots, payer).no_duplicates(),
    decreases slots.len(),
{
    if slots.len() == 0 {
        assert(seq![payer][0] == payer);
    } else {
        let d = slots.drop_last();
        lemma_named(d, payer);
        lemma_with_key(named_keys(d, payer), slots.last().meta.pubkey);
        assert(slots[slots.len() - 1] == slots.last());
        assert forall|i: int| 0 <= i < d.len() implies d[i] == slots[i] by {}
        assert forall|k: Pubkey| #[trigger] named_keys(slots, payer).contains(k) <==> k == payer || exists|i: int|
            0 <= i < slots.len() && (#[trigger] slots[i]).meta.pubkey == k by {
            if exists|i: int| 0 <= i < d.len() && (#[trigger] d[i]).meta.pubkey == k {
                let i = choose|i: int| 0 <= i < d.len() && (#[trigger] d[i]).meta.pubkey == k;
                assert(slots[i].meta.pubkey == k);
            }
            if exists|i: int| 0 <= i < slots.len() && (#[trigger] slots[i]).meta.pubkey == k {
                let i = choose|i: int| 0 <= i < slots.len() && (#[trigger] slots[i]).meta.pubkey == k;
                if i < d.len() {
                    assert(d[i].meta.pubkey == k);
                }
            }
        }
    }
}

/// The accounts of a message: the payer, all that the instructions use, and the programs that they call, each once.
pub proof fn lemma_message_accounts(ixs: Seq<InstructionView>, slots: Seq<Slot>, payer: Pubkey)
    ensures
        forall|k: Pubkey| #[trigger]
            all_keys(ixs, slots, payer).contains(k) <==> k == payer || (exists|i: int|
                0 <= i < slots.len() && (#[trigger] slots[i]).meta.pubkey == k) || exists|i: int|
                0 <= i < ixs.len() && (#[trigger] ixs[i]).program_id == k,
        all_keys(ixs, slots, payer).no_duplicates(),
    decreases ixs.len(),
{
    lemma_named(slots, payer);
    if ixs.len() > 0 {
        let d = ixs.drop_last();
        lemma_message_accounts(d, slots, payer);
        lemma_with_key(all_keys(d, slots, payer), ixs.last().program_id);
        assert(ixs[ixs.len() - 1] == ixs.last());
        assert forall|i: int| 0 <= i < d.len() implies d[i] == ixs[i] by {}
        assert forall|k: Pubkey| #[trigger] all_keys(ixs, slots, payer).contains(k) <==> k == payer || (exists|i: int|
            0 <= i < slots.len() && (#[trigger] slots[i]).meta.pubkey == k) || exists|i: int|
            0 <= i < ixs.len() && (#[trigger] ixs[i]).program_id == k by {
            assert(all_keys(d, slots, payer).contains(k) <==> k == payer || (exists|i: int|
                0 <= i < slots.len() && (#[trigger] slots[i]).meta.pubkey == k) || exists|i: int|
                0 <= i < d.len() && (#[trigger] d[i]).program_id == k);
            if exists|i: int| 0 <= i < d.len() && (#[trigger] d[i]).program_id == k {
                let i = choose|i: int| 0 <= i < d.len() && (#[trigger] d[i]).program_id == k;
                assert(ixs[i].program_id == k);
            }
            if exists|i: int| 0 <= i < ixs.len() && (#[trigger] ixs[i]).program_id == k {
                let i = choose|i: int| 0 <= i < ixs.len() && (#[trigger] ixs[i]).program_id == k;
                if i < d.len() {
                    assert(d[i].program_id == k);
                }
            }
        }
    }
}

/// Those who sign a message: the payer, and all that some instruction asks to sign, each once.
pub proof fn lemma_message_signers(slots: Seq<Slot>, payer: Pubkey)
    ensures
        forall|k: Pubkey| #[trigger]
            signing_keys(slots, payer).contains(k) <==> k == payer || exists|i: int|
                0 <= i < slots.len() && (#[trigger] slots[i]).meta.pubkey == k && slots[i].meta.is_signer,
        signing_keys(slots, payer).no_duplicates(),
    decreases slots.len(),
{
    if slots.len() == 0 {
        assert(seq![payer][0] == payer);
    } else {
        let d = slots.drop_last();
        lemma_message_signers(d, payer);
        lemma_with_key(signing_keys(d, payer), slots.last().meta.pubkey);
        assert(slots[slots.len() - 1] == slots.last());
        assert forall|i: int| 0 <= i < d.len() implies d[i] == slots[i] by {}
        assert forall|k: Pubkey| #[trigger] signing_keys(slots, payer).contains(k) <==> k == payer || exists|i: int|
            0 <= i < slots.len() && (#[trigger] slots[i]).meta.pubkey == k && slots[i].meta.is_signer by {
            if exists|i: int| 0 <= i < d.len() && (#[trigger] d[i]).meta.pubkey == k && d[i].meta.is_signer {
                let i = choose|i: int| 0 <= i < d.len() && (#[trigger] d[i]).meta.pubkey == k && d[i].meta.is_signer;
                assert(slots[i].meta.pubkey == k);
            }
            if exists|i: int| 0 <= i < slots.len() && (#[trigger] slots[i]).meta.pubkey == k && slots[i].meta.is_signer {
                let i = choose|i: int| 0 <= i < slots.len() && (#[trigger] slots[i]).meta.pubkey == k && slots[i].meta.is_signer;
                if i < d.len() {
                    assert(d[i].meta.pubkey == k);
                }
            }
        }
    }
}

proof fn lemma_read_keys(slots: Seq<Slot>, all: Seq<Slot>, payer: Pubkey)
    ensures
        forall|k: Pubkey| #[trigger]
            crate::svm::read_keys(slots, all, payer).contains(k) <==> !crate::svm::privileged(all, payer, k) && exists|i: int|
                0 <= i < slots.len() && (#[trigger] slots[i]).meta.pubkey == k,
        crate::svm::read_keys(slots, all, payer).no_duplicates(),
    decreases slots.len(),
{
    if slots.len() > 0 {
        let d = slots.drop_last();
        let before = crate::svm::read_keys(d, all, payer);
        lemma_read_keys(d, all, payer);
        lemma_with_key(before, slots.last().meta.pubkey);
        assert(slots[slots.len() - 1] == slots.last());
        assert forall|k: Pubkey| #[trigger] crate::svm::read_keys(slots, all, payer).contains(k) <==> !crate::svm::privileged(
            all,
            payer,
            k,
        ) && exists|i: int| 0 <= i < slots.len() && (#[trigger] slots[i]).meta.pubkey == k by {
            assert(before.contains(k) <==> !crate::svm::privileged(all, payer, k) && exists|i: int|
                0 <= i < d.len() && (#[trigger] d[i]).meta.pubkey == k);
            if exists|i: int| 0 <= i < d.len() && (#[trigger] d[i]).meta.pubkey == k {
                let i = choose|i: int| 0 <= i < d.len() && (#[trigger] d[i]).meta.pubkey == k;
                assert(slots[i].meta.pubkey == k);
            }
            if exists|i: int| 0 <= i < slots.len() && (#[trigger] slots[i]).meta.pubkey == k {
                let i = choose|i: int| 0 <= i < slots.len() && (#[trigger] slots[i]).meta.pubkey == k;
                if i < d.len() {
                    assert(d[i].meta.pubkey == k);
                }
            }
        }
    }
}

/// The accounts of a message that neither sign nor can be written: those that the instructions use or call, but for the
/// payer and for all that some instruction asks to sign or may write, each once.
pub proof fn lemma_message_readers(ixs: Seq<InstructionView>, all: Seq<Slot>, payer: Pubkey)
    ensures
        forall|k: Pubkey| #[trigger]
            crate::svm::read_only_keys(ixs, all, payer).contains(k) <==> k != payer && !(exists|i: int|
                0 <= i < all.len() && (#[trigger] all[i]).meta.pubkey == k && (all[i].meta.is_signer || all[i].meta.is_writable))
                && ((exists|i: int| 0 <= i < all.len() && (#[trigger] all[i]).meta.pubkey == k) || exists|i: int|
                0 <= i < ixs.len() && (#[trigger] ixs[i]).program_id == k),
        crate::svm::read_only_keys(ixs, all, payer).no_duplicates(),
    decreases ixs.len(),
{
    lemma_read_keys(all, all, payer);
    if ixs.len() > 0 {
        let d = ixs.drop_last();
        let before = crate::svm::read_only_keys(d, all, payer);
        lemma_message_readers(d, all, payer);
        lemma_with_key(before, ixs.last().program_id);
        assert(ixs[ixs.len() - 1] == ixs.last());
        assert forall|k: Pubkey| #[trigger] crate::svm::read_only_keys(ixs, all, payer).contains(k) <==> k != payer && !(exists|i: int|
            0 <= i < all.len() && (#[trigger] all[i]).meta.pubkey == k && (all[i].meta.is_signer || all[i].meta.is_writable)) && ((
        exists|i: int| 0 <= i < all.len() && (#[trigger] all[i]).meta.pubkey == k) || exists|i: int|
            0 <= i < ixs.len() && (#[trigger] ixs[i]).program_id == k) by {
            if exists|i: int| 0 <= i < d.len() && (#[trigger] d[i]).program_id == k {
                let i = choose|i: int| 0 <= i < d.len() && (#[trigger] d[i]).program_id == k;
                assert(ixs[i].program_id == k);
            }
            if exists|i: int| 0 <= i < ixs.len() && (#[trigger] ixs[i]).program_id == k {
                let i = choose|i: int| 0 <= i < ixs.len() && (#[trigger] ixs[i]).program_id == k;
                if i < d.len() {
                    assert(d[i].program_id == k);
                }
            }
            assert(before.contains(k) || !before.contains(k));
        }
    }
}

/// A run of a transaction: the message is made of its instructions, for the payer and with the latest blockhash. Where
/// signatures are checked, the machine gets a new blockhash first, and all signers and the payer sign. A machine
/// that does not take it is left as it is otherwise.
pub proof fn lemma_sent_as(svm: LiteSVM, ixs: Seq<InstructionView>, signers: Seq<Keypair>, payer: Keypair, sigverify: bool)
    ensures
        ({
            let m = if sigverify { svm_expired(svm) } else { svm };
            let message = legacy_message(ixs, payer.key, svm_blockhash(m));
            let tx = if sigverify {
                signed_transaction(
                    message,
                    crate::keys::secrets(if has_signer(signers, payer.key) { signers } else { signers.push(payer) }),
                )
            } else {
                Ok(unsigned_transaction(message))
            };
            let r = sent_result(svm, ixs, signers, payer, sigverify);
            &&& tx is Err ==> r == (m, Err::<Sent, Seq<char>>(tx->Err_0))
            &&& tx is Ok && svm_runs(m) && svm_takes(m, tx->Ok_0, message, ixs, payer.key) ==> {
                let s = svm_sent(m, tx->Ok_0);
                r == (s.0, Ok::<Sent, Seq<char>>((s.1, s.2)))
            }
            &&& tx is Ok && !(svm_runs(m) && svm_takes(m, tx->Ok_0, message, ixs, payer.key)) ==> r.0 == m && r.1 is Err
            &&& run_succeeds(svm, ixs, signers, payer, sigverify) <==> message_fits(ixs, payer.key) && r.1 is Ok
                && r.1->Ok_0.1 is None
            &&& message_fits(ixs, payer.key) ==> run_result(svm, ixs, signers, payer, sigverify).0 == r.0
            &&& !message_fits(ixs, payer.key) ==> run_result(svm, ixs, signers, payer, sigverify) == (svm, None::<Sent>)
        }),
{
}

/// The metadata of a crash: the name of the test, when it was and at which iteration, the seed, the actions, and the
/// finding where the violation comes from one.
pub proof fn lemma_crash_told(s: SessionView, timestamp: Seq<char>, seed: Option<u64>)
    ensures
        ({
            let c = crash_view(s, timestamp, seed);
            &&& s.test_name is Some ==> c.test_name == s.test_name->0
            &&& s.test_name is None ==> c.test_name == "unknown"@
            &&& c.timestamp == timestamp && c.iteration == s.iteration && c.seed == seed && c.actions == s.history
            &&& c.mutation_finding == s.from_mutation
            &&& s.from_mutation ==> c.mutation_finding_id == s.finding_id && c.mutation_finding_message == s.finding_message
            &&& !s.from_mutation ==> c.mutation_finding_id is None && c.mutation_finding_message is None
        }),
{
}

/// The first that is there of a list.
pub proof fn lemma_first_there(s: Seq<Option<Seq<char>>>)
    ensures
        (forall|i: int| 0 <= i < s.len() ==> (#[trigger] s[i]) is None) ==> first_there(s) is None,
        forall|i: int|
            0 <= i < s.len() && (#[trigger] s[i]) is Some && (forall|j: int| 0 <= j < i ==> (#[trigger] s[j]) is None)
                ==> first_there(s) == s[i],
    decreases s.len(),
{
    if s.len() > 0 {
        let d = s.drop_last();
        lemma_first_there(d);
        assert(s[s.len() - 1] == s.last());
        assert forall|j: int| 0 <= j < d.len() implies d[j] == s[j] by {}
        if forall|i: int| 0 <= i < s.len() ==> (#[trigger] s[i]) is None {
            assert forall|i: int| 0 <= i < d.len() implies (#[trigger] d[i]) is None by {
                assert(d[i] == s[i]);
            }
        }
        assert forall|i: int|
            0 <= i < s.len() && (#[trigger] s[i]) is Some && (forall|j: int| 0 <= j < i ==> (#[trigger] s[j]) is None)
            implies first_there(s) == s[i] by {
            assert forall|j: int| 0 <= j < i && j < d.len() implies (#[trigger] d[j]) is None by {
                assert(d[j] == s[j]);
            }
            if i < d.len() {
                assert(d[i] == s[i]);
            }
        }
    }
}

/// The lines of a sequence: each action with its number, from one on, and a mark at the one that broke an invariant.
pub proof fn lemma_lines_numbered(s: Seq<RecordView>, violation: Option<usize>)
    ensures
        numbered_lines(s, violation) == Seq::new(
            s.len(),
            |i: int|
                "  "@ + dec((i + 1) as nat) + ". "@ + line_text(s[i]) + (if violation is Some && violation->0 == i {
                    " [VIOLATION]"@
                } else {
                    ""@
                }) + "\n"@,
        ).flatten_alt(),
    decreases s.len(),
{
    let lines = Seq::new(
        s.len(),
        |i: int|
            "  "@ + dec((i + 1) as nat) + ". "@ + line_text(s[i]) + (if violation is Some && violation->0 == i {
                " [VIOLATION]"@
            } else {
                ""@
            }) + "\n"@,
    );
    if s.len() > 0 {
        let d = s.drop_last();
        lemma_lines_numbered(d, violation);
        assert(lines.drop_last() =~= Seq::new(
            d.len(),
            |i: int|
                "  "@ + dec((i + 1) as nat) + ". "@ + line_text(d[i]) + (if violation is Some && violation->0 == i {
                    " [VIOLATION]"@
                } else {
                    ""@
                }) + "\n"@,
        ));
    } else {
        assert(lines =~= Seq::<Seq<char>>::empty());
    }
}

/// The text of a sequence tells how many actions were executed and how many were not, and lists those that were.
pub proof fn lemma_sequence_told(s: Seq<RecordView>, total: usize, violation: Option<usize>)
    ensures
        s.len() == 0 && total == 0 ==> sequence_text(s, total, violation).len() == 0,
        s.len() > 0 || total > 0 ==> ({
            let left = if total > s.len() { (total - s.len()) as nat } else { 0 };
            sequence_text(s, total, violation) == "\n=== FUZZ SEQUENCE ("@ + dec(s.len()) + " executed, "@ + dec(left)
                + " skipped) ===\n"@ + numbered_lines(s, violation) + (if left > 0 {
                "  ... "@ + dec(left) + " action(s) not executed (stopped on violation)\n"@
            } else {
                ""@
            }) + "================================\n"@
        }),
{
}

/// The accounts that are hashed are those that there are, in the order in which they are asked for.
pub proof fn lemma_accounts_found(svm: LiteSVM, keys: Seq<Pubkey>)
    ensures
        found_accounts(svm, keys) == keys.filter(|k: Pubkey| account_at(svm, k) is Some).map_values(
            |k: Pubkey| account_at(svm, k)->0,
        ),
    decreases keys.len(),
{
    reveal(Seq::filter);
    let keep = |k: Pubkey| account_at(svm, k) is Some;
    let item = |k: Pubkey| account_at(svm, k)->0;
    if keys.len() > 0 {
        lemma_accounts_found(svm, keys.drop_last());
        let sub = keys.drop_last().filter(keep);
        assert(keys.filter(keep) == if keep(keys.last()) { sub.push(keys.last()) } else { sub });
    }
    assert(found_accounts(svm, keys) =~= keys.filter(keep).map_values(item));
}

/// What a machine is hashed by: its slot and its epoch, and of each account its lamports, how much data it holds and the
/// hash of that, in the order of these.
pub proof fn lemma_parts_told(slot: u64, epoch: u64, accounts: Seq<AccountView>, hashes: Seq<u64>)
    ensures
        debug_parts(slot, epoch, accounts, hashes) == seq![HashPart::Word(slot), HashPart::Word(epoch)]
            + crate::sorting::stable_sorted(
            Seq::new(
                accounts.len(),
                |i: int|
                    DebugEntry {
                        lamports: accounts[i].lamports,
                        data_len: accounts[i].data.len() as usize,
                        data_hash: hashes[i],
                    },
            ),
            entry_leq(),
        ).map_values(
            |e: DebugEntry| seq![HashPart::Word(e.lamports), HashPart::Size(e.data_len), HashPart::Word(e.data_hash)],
        ).flatten_alt(),
{
    let entries = Seq::new(
        accounts.len(),
        |i: int|
            DebugEntry {
                lamports: accounts[i].lamports,
                data_len: accounts[i].data.len() as usize,
                data_hash: hashes[i],
            },
    );
    assert(entries =~= entries_of(accounts, hashes));
    lemma_parts_flat(crate::sorting::stable_sorted(entries, entry_leq()));
}

proof fn lemma_parts_flat(entries: Seq<DebugEntry>)
    ensures
        entry_parts(entries) == entries.map_values(
            |e: DebugEntry| seq![HashPart::Word(e.lamports), HashPart::Size(e.data_len), HashPart::Word(e.data_hash)],
        ).flatten_alt(),
    decreases entries.len(),
{
    let parts = |e: DebugEntry| seq![HashPart::Word(e.lamports), HashPart::Size(e.data_len), HashPart::Word(e.data_hash)];
    if entries.len() > 0 {
        lemma_parts_flat(entries.drop_last());
        assert(entries.map_values(parts).drop_last() =~= entries.drop_last().map_values(parts));
    } else {
        assert(entries.map_values(parts) =~= Seq::<Seq<HashPart>>::empty());
    }
}

/// The name of a tag is that of the last instruction that has it.
pub proof fn lemma_name_found(s: Seq<NamedView>, tag: Seq<u8>)
    ensures
        (forall|i: int| 0 <= i < s.len() ==> (#[trigger] s[i]).discriminator != tag) ==> name_of(s, tag) is None,
        forall|i: int|
            0 <= i < s.len() && (#[trigger] s[i]).discriminator == tag && (forall|j: int|
                i < j < s.len() ==> (#[trigger] s[j]).discriminator != tag) ==> name_of(s, tag) == Some(s[i].name),
    decreases s.len(),
{
    if s.len() > 0 {
        let d = s.drop_last();
        lemma_name_found(d, tag);
        assert(s[s.len() - 1] == s.last());
        if forall|i: int| 0 <= i < s.len() ==> (#[trigger] s[i]).discriminator != tag {
            assert forall|i: int| 0 <= i < d.len() implies (#[trigger] d[i]).discriminator != tag by {
                assert(d[i] == s[i]);
            }
        }
        assert forall|i: int|
            0 <= i < s.len() && (#[trigger] s[i]).discriminator == tag && (forall|j: int|
                i < j < s.len() ==> (#[trigger] s[j]).discriminator != tag) implies name_of(s, tag) == Some(s[i].name) by {
            if i < d.len() {
                assert(d[i] == s[i]);
                assert(s[s.len() - 1].discriminator != tag);
                assert forall|j: int| i < j < d.len() implies (#[trigger] d[j]).discriminator != tag by {
                    assert(d[j] == s[j]);
                }
            }
        }
    }
}

/// The programs that load those of a transaction, each once: the owners of the programs that it calls, where these are
/// executable and not built in.
pub proof fn lemma_loaders(svm: LiteSVM, ixs: Seq<InstructionView>)
    ensures
        forall|k: Pubkey| #[trigger]
            loaders(svm, ixs).contains(k) <==> exists|i: int|
                {
                    &&& 0 <= i < ixs.len() && account_at(svm, (#[trigger] ixs[i]).program_id) is Some
                    &&& account_at(svm, ixs[i].program_id)->0.executable && account_at(svm, ixs[i].program_id)->0.owner == k
                    &&& ixs[i].program_id@ != crate::ids::native_loader_address() && k@ != crate::ids::native_loader_address()
                },
        loaders(svm, ixs).no_duplicates(),
    decreases ixs.len(),
{
    if ixs.len() > 0 {
        let d = ixs.drop_last();
        let l = ixs.last();
        lemma_loaders(svm, d);
        assert(ixs[ixs.len() - 1] == l);
        assert forall|i: int| 0 <= i < d.len() implies d[i] == ixs[i] by {}
        if account_at(svm, l.program_id) is Some {
            lemma_with_key(loaders(svm, d), account_at(svm, l.program_id)->0.owner);
        }
        assert forall|k: Pubkey| #[trigger] loaders(svm, ixs).contains(k) <==> exists|i: int|
            {
                &&& 0 <= i < ixs.len() && account_at(svm, (#[trigger] ixs[i]).program_id) is Some
                &&& account_at(svm, ixs[i].program_id)->0.executable && account_at(svm, ixs[i].program_id)->0.owner == k
                &&& ixs[i].program_id@ != crate::ids::native_loader_address() && k@ != crate::ids::native_loader_address()
            } by {
            if loaders(svm, d).contains(k) {
                let i = choose|i: int|
                    {
                        &&& 0 <= i < d.len() && account_at(svm, (#[trigger] d[i]).program_id) is Some
                        &&& account_at(svm, d[i].program_id)->0.executable && account_at(svm, d[i].program_id)->0.owner == k
                        &&& d[i].program_id@ != crate::ids::native_loader_address() && k@ != crate::ids::native_loader_address()
                    };
                assert(ixs[i] == d[i]);
            }
            if exists|i: int|
                {
                    &&& 0 <= i < ixs.len() && account_at(svm, (#[trigger] ixs[i]).program_id) is Some
                    &&& account_at(svm, ixs[i].program_id)->0.executable && account_at(svm, ixs[i].program_id)->0.owner == k
                    &&& ixs[i].program_id@ != crate::ids::native_loader_address() && k@ != crate::ids::native_loader_address()
                } {
                let i = choose|i: int|
                    {
                        &&& 0 <= i < ixs.len() && account_at(svm, (#[trigger] ixs[i]).program_id) is Some
                        &&& account_at(svm, ixs[i].program_id)->0.executable && account_at(svm, ixs[i].program_id)->0.owner == k
                        &&& ixs[i].program_id@ != crate::ids::native_loader_address() && k@ != crate::ids::native_loader_address()
                    };
                if i < d.len() {
                    assert(d[i] == ixs[i]);
                    assert(loaders(svm, d).contains(k));
                }
            }
        }
    }
}

/// Another value of a sysvar: the clock is one slot and one second ahead, the rewards of the epoch start one block later
/// and are as active as they were not, a fee, the slot of the last restart and the rent of a byte are one higher, the slot
/// history goes one slot further, and the epochs have no warmup. Of other accounts there is none, nor of a sysvar that
/// does not hold its value.
pub proof fn lemma_sysvar_changed(svm: LiteSVM, k: Pubkey)
    ensures
        ({
            let held = account_at(svm, k) is Some;
            let data = account_at(svm, k)->0.data;
            let now = crate::sysvars::poisoned(svm, k);
            &&& k@ == crate::ids::epoch_schedule_address() ==> now == Some(crate::sysvars::svm_without_warmup(svm))
            &&& k@ != crate::ids::epoch_schedule_address() && !held ==> now is None
            &&& held && k@ == crate::ids::clock_address() && k@ != crate::ids::epoch_schedule_address() ==> {
                &&& crate::sysvars::clock_value(data) is None ==> now is None
                &&& crate::sysvars::clock_value(data) matches Some(c) ==> exists|d: crate::sysvars::Clock|
                    {
                        &&& now == Some(#[trigger] crate::sysvars::svm_with_clock(svm, d))
                        &&& c.slot < u64::MAX ==> d.slot == c.slot + 1
                        &&& c.unix_timestamp < i64::MAX ==> d.unix_timestamp == c.unix_timestamp + 1
                        &&& d == (crate::sysvars::Clock { slot: d.slot, unix_timestamp: d.unix_timestamp, ..c })
                    }
            }
            &&& held && other_sysvar(k, 1) ==> now == match crate::sysvars::epoch_rewards_value(data) {
                Some(v) => Some(crate::sysvars::svm_with_epoch_rewards(svm, data, next_number(v.0), !v.1)),
                None => None,
            }
            &&& held && other_sysvar(k, 2) ==> now == match crate::sysvars::fee_value(data) {
                Some(v) => Some(crate::sysvars::svm_with_fee(svm, data, next_number(v))),
                None => None,
            }
            &&& held && other_sysvar(k, 3) ==> now == match crate::sysvars::restart_value(data) {
                Some(v) => Some(crate::sysvars::svm_with_restart(svm, next_number(v))),
                None => None,
            }
            &&& held && other_sysvar(k, 4) ==> now == match crate::sysvars::rent_value(data) {
                Some(v) => Some(crate::sysvars::svm_with_rent(svm, data, next_number(v))),
                None => None,
            }
            &&& held && other_sysvar(k, 5) ==> match crate::sysvars::slot_history_value(data) {
                Some(h) => {
                    let z = crate::sysvars::history_size(h);
                    &&& now is Some <==> next_number(z.0) < u64::MAX && z.1 == crate::sysvars::SLOT_HISTORY_ENTRIES && z.2
                        == crate::sysvars::SLOT_HISTORY_ENTRIES
                    &&& now is Some ==> now == Some(crate::sysvars::svm_with_slot(svm, h, next_number(z.0)))
                },
                None => now is None,
            }
            &&& !(k@ == crate::ids::epoch_schedule_address() || k@ == crate::ids::clock_address() || k@
                == crate::ids::epoch_rewards_address() || k@ == crate::ids::fees_address() || k@
                == crate::ids::last_restart_slot_address() || k@ == crate::ids::rent_address() || k@
                == crate::ids::slot_history_address()) ==> now is None
        }),
{
    let all = seq![
        crate::ids::epoch_schedule_address(),
        crate::ids::clock_address(),
        crate::ids::epoch_rewards_address(),
        crate::ids::fees_address(),
        crate::ids::last_restart_slot_address(),
        crate::ids::rent_address(),
        crate::ids::slot_history_address(),
    ];
    assert(all[0] == crate::ids::epoch_schedule_address() && all[1] == crate::ids::clock_address());
    assert(all[2] == crate::ids::epoch_rewards_address() && all[3] == crate::ids::fees_address());
    assert(all[4] == crate::ids::last_restart_slot_address() && all[5] == crate::ids::rent_address());
    assert(all[6] == crate::ids::slot_history_address());
    if account_at(svm, k) is Some && k@ == crate::ids::clock_address() && k@ != crate::ids::epoch_schedule_address() {
        let data = account_at(svm, k)->0.data;
        if crate::sysvars::clock_value(data) is Some {
            let d = crate::sysvars::shifted(crate::sysvars::clock_value(data)->0);
            assert(crate::sysvars::poisoned(svm, k) == Some(crate::sysvars::svm_with_clock(svm, d)));
        }
    }
}

/// The number behind another, zero behind the last.
pub open spec fn next_number(n: u64) -> u64 {
    if n == u64::MAX { 0 } else { (n + 1) as u64 }
}

/// The sysvars whose value is a number: the rewards of the epoch, the fees, the last restart, the rent and the slot
/// history.
pub open spec fn other_sysvar(k: Pubkey, n: int) -> bool {
    let all = seq![
        crate::ids::epoch_schedule_address(),
        crate::ids::clock_address(),
        crate::ids::epoch_rewards_address(),
        crate::ids::fees_address(),
        crate::ids::last_restart_slot_address(),
        crate::ids::rent_address(),
        crate::ids::slot_history_address(),
    ];
    k@ == all[n + 1] && forall|i: int| 0 <= i <= n ==> #[trigger] all[i] != k@
}

/// The schema of an account is the first whose tag its data begin with.
pub proof fn lemma_schema_found<D>(schemas: Seq<crate::schema::AccountSchema<D>>, data: Seq<u8>)
    ensures
        match crate::schema::first_match(schemas, data) {
            Some(i) => 0 <= i < schemas.len() && crate::schema::tagged(data, schemas[i].discriminator@) && forall|j: int|
                0 <= j < i ==> !crate::schema::tagged(data, (#[trigger] schemas[j]).discriminator@),
            None => forall|j: int| 0 <= j < schemas.len() ==> !crate::schema::tagged(data, (#[trigger] schemas[j]).discriminator@),
        },
    decreases schemas.len(),
{
    if schemas.len() > 0 {
        let d = schemas.drop_last();
        lemma_schema_found(d, data);
        assert(schemas[schemas.len() - 1] == schemas.last());
        assert forall|j: int| 0 <= j < d.len() implies d[j] == schemas[j] by {}
        assert forall|j: int|
            0 <= j < d.len() && !crate::schema::tagged(data, d[j].discriminator@) implies !crate::schema::tagged(
            data,
            (#[trigger] schemas[j]).discriminator@,
        ) by {
            assert(d[j] == schemas[j]);
        }
    }
}

} // verus!
