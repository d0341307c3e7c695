//! What an iteration changes is noted, and so can be taken back.
use vstd::prelude::*;
#[allow(unused_imports)]
use litesvm::LiteSVM;
#[allow(unused_imports)]
use crate::context::{restored, written, ContextView};
#[allow(unused_imports)]
use crate::errors::ContextError;
#[allow(unused_imports)]
use crate::ids::{clock_address, recent_blockhashes_address};
#[allow(unused_imports)]
use crate::keys::Keypair;
#[allow(unused_imports)]
use crate::outcome::TxOutcome;
#[allow(unused_imports)]
use crate::send::{batch_sent, transaction_sent, unique_signers, HarnessView};
#[allow(unused_imports)]
use crate::snapshot::{
    accepted_back, can_be_put_back, clean, held, kept_sysvar, left_out, lemma_accepted_back, lemma_accepted_written,
    lemma_with_transaction, listed, put_back, rewritten, DirtyView, SvmSnapshot,
};
#[allow(unused_imports)]
use crate::svm::{account_at, may_write, payer_pays};
#[allow(unused_imports)]
use crate::types::{lemma_with_key, slots_of, with_key, AccountView, InstructionView, Pubkey};

verus! {

/// What a change of the context notes: nothing that was noted is forgotten, the snapshot stays, and
/// every account that changed is noted, but for a sysvar where the clock is noted as set, and for the
/// sysvar of recent blockhashes.
pub open spec fn noted_step(c: ContextView, c2: ContextView) -> bool {
    &&& c2.snapshot == c.snapshot
    &&& c.dirty.clock_target_slot is Some ==> c2.dirty.clock_target_slot is Some
    &&& forall|k: Pubkey| c.dirty.accounts.contains(k) ==> #[trigger] c2.dirty.accounts.contains(k)
    &&& c.dirty.accounts.no_duplicates() ==> c2.dirty.accounts.no_duplicates()
    &&& forall|k: Pubkey|
        #![trigger account_at(c2.svm, k)]
        account_at(c2.svm, k) != account_at(c.svm, k) ==> c2.dirty.accounts.contains(k) || may_go_unnoted(c2.dirty, k)
}

/// The account may change without being noted: the sysvar of recent blockhashes, and where the clock is
/// noted as set, the clock.
pub open spec fn may_go_unnoted(dirty: DirtyView, k: Pubkey) -> bool {
    k@ == recent_blockhashes_address() || (dirty.clock_target_slot is Some && k@ == clock_address())
}

/// One account was written, whether or not the machine accepted it.
pub open spec fn account_written(c: ContextView, k: Pubkey, c2: ContextView) -> bool {
    &&& c2.snapshot == c.snapshot
    &&& c2.dirty == (DirtyView { accounts: with_key(c.dirty.accounts, k), ..c.dirty })
    &&& forall|q: Pubkey| q != k ==> #[trigger] account_at(c2.svm, q) == account_at(c.svm, q)
}

/// Writing an account notes what it changes.
pub proof fn lemma_write_is_noted(c: ContextView, k: Pubkey, c2: ContextView)
    requires
        account_written(c, k, c2),
    ensures
        noted_step(c, c2),
{
    lemma_with_key(c.dirty.accounts, k);
}

/// Setting the clock notes what it changes.
pub proof fn lemma_clock_is_noted(c: ContextView, c2: ContextView)
    requires
        c2.snapshot == c.snapshot,
        c2.dirty.accounts == c.dirty.accounts,
        c2.dirty.clock_target_slot is Some,
        forall|k: Pubkey| k@ != clock_address() ==> #[trigger] account_at(c2.svm, k) == account_at(c.svm, k),
    ensures
        noted_step(c, c2),
{
}

/// Sending a transaction notes what it changes, wherever the fee is taken from the payer and the payer
/// is noted.
pub proof fn lemma_send_is_noted(
    c: ContextView,
    h: HarnessView,
    ixs: Seq<InstructionView>,
    signers: Seq<Keypair>,
    payer: Keypair,
    noted: Pubkey,
    r: Result<TxOutcome, ContextError>,
    c2: ContextView,
    h2: HarnessView,
)
    requires
        transaction_sent(c, h, ixs, signers, payer, noted, r, c2, h2),
        payer_pays(ixs, payer.key),
        noted == payer.key || may_write(slots_of(ixs), payer.key),
    ensures
        noted_step(c, c2),
{
    lemma_with_transaction(c.dirty.accounts, ixs, noted);
}

/// Sending what waits notes what it changes, wherever the fee is taken from the first signer.
pub proof fn lemma_batch_is_noted(
    c: ContextView,
    h: HarnessView,
    r: Result<Option<TxOutcome>, ContextError>,
    c2: ContextView,
    h2: HarnessView,
)
    requires
        batch_sent(c, h, r, c2, h2),
        c.pending.len() > 0 && unique_signers(c.pending_signers).len() > 0 ==> payer_pays(
            c.pending,
            unique_signers(c.pending_signers)[0].key,
        ),
    ensures
        noted_step(c, c2),
{
    let signers = unique_signers(c.pending_signers);
    if c.pending.len() > 0 && signers.len() > 0 {
        let (sent, mid) = choose|sent: Result<TxOutcome, ContextError>, mid: ContextView|
            #![trigger transaction_sent(c, h, c.pending, signers, signers[0], signers[0].key, sent, mid, h2)]
            transaction_sent(c, h, c.pending, signers, signers[0], signers[0].key, sent, mid, h2) && match sent {
                Ok(o) => r is Ok && r->Ok_0 == Some(o) && c2 == (ContextView {
                    pending: Seq::empty(),
                    pending_signers: Seq::empty(),
                    ..mid
                }),
                Err(e) => r is Err && r->Err_0 == e && c2 == (ContextView { pending: Seq::empty(), ..mid }),
            };
        lemma_send_is_noted(c, h, c.pending, signers, signers[0], signers[0].key, sent, mid, h2);
    }
}

/// A context goes through these states: a snapshot was just taken of the first, and each step from one to
/// the next notes what it changes.
pub open spec fn noted_run(states: Seq<ContextView>) -> bool {
    &&& states.len() > 0
    &&& states[0].snapshot is Some
    &&& states[0].snapshot->0.of(states[0].svm)
    &&& states[0].dirty == clean()
    &&& forall|i: int, j: int|
        #![trigger states[i], states[j]]
        0 <= i && j == i + 1 && j < states.len() ==> noted_step(states[i], states[j])
}

proof fn lemma_run_is_noted(states: Seq<ContextView>)
    requires
        noted_run(states),
    ensures
        states.last().snapshot == states[0].snapshot,
        states.last().dirty.accounts.no_duplicates(),
        forall|k: Pubkey|
            #![trigger account_at(states.last().svm, k)]
            account_at(states.last().svm, k) != account_at(states[0].svm, k) ==> states.last().dirty.accounts.contains(k)
                || may_go_unnoted(states.last().dirty, k),
    decreases states.len(),
{
    if states.len() > 1 {
        let before = states.drop_last();
        assert(noted_run(before)) by {
            assert forall|i: int, j: int|
                #![trigger before[i], before[j]]
                0 <= i && j == i + 1 && j < before.len() implies noted_step(before[i], before[j]) by {
                assert(before[i] == states[i] && before[j] == states[j]);
            }
        }
        lemma_run_is_noted(before);
        assert(before.last() == states[states.len() - 2]);
        assert(noted_step(states[states.len() - 2], states[states.len() - 1]));
        assert forall|k: Pubkey|
            #![trigger account_at(states.last().svm, k)]
            account_at(states.last().svm, k) != account_at(states[0].svm, k) implies states.last().dirty.accounts.contains(k)
                || may_go_unnoted(states.last().dirty, k) by {
            if account_at(states.last().svm, k) == account_at(before.last().svm, k) {
                assert(account_at(before.last().svm, k) != account_at(states[0].svm, k));
            }
        }
    }
}

/// The account is what it was, once a machine is taken back: the machine surely accepts it; or it was
/// neither noted nor may have changed without; or the machine accepted it.
pub open spec fn comes_back(start: LiteSVM, before: LiteSVM, snap: SvmSnapshot, dirty: DirtyView, k: Pubkey) -> bool {
    ||| can_be_put_back(k, account_at(start, k))
    ||| !dirty.accounts.contains(k) && !may_go_unnoted(dirty, k) && (dirty.clock_target_slot is None || !kept_sysvar(k))
    ||| !(account_at(start, k) is Some && account_at(start, k)->0.lamports == 0) && (accepted_back(
        before,
        snap.accounts@,
        dirty.accounts,
        k,
    ) || rewritten(before, snap, dirty, k))
}

/// Whatever an iteration wrote and sent, restoring the snapshot gives back what it was taken of: every
/// account that is no program, a sysvar where its bytes hold what it should; every account that nothing
/// touched; and every other sysvar and program that the machine accepts.
pub proof fn lemma_restored(states: Seq<ContextView>, after: LiteSVM)
    requires
        noted_run(states),
        states[0].snapshot->0.well_formed(),
        put_back(states.last().svm, after, states.last().snapshot->0, states.last().dirty),
    ensures
        forall|k: Pubkey|
            #![trigger account_at(after, k)]
            comes_back(states[0].svm, states.last().svm, states[0].snapshot->0, states.last().dirty, k) ==> account_at(after, k)
                == account_at(states[0].svm, k),
{
    lemma_run_is_noted(states);
    let start = states[0].svm;
    let c = states.last();
    let snap = c.snapshot->0;
    crate::sysvars::lemma_clock_key();
    assert forall|k: Pubkey| #![trigger account_at(after, k)] comes_back(start, c.svm, snap, c.dirty, k) implies account_at(
        after,
        k,
    ) == account_at(start, k) by {
        assert(account_at(c.svm, k) != account_at(start, k) ==> c.dirty.accounts.contains(k) || may_go_unnoted(c.dirty, k));
        if rewritten(c.svm, snap, c.dirty, k) {
            lemma_accepted_written(
                crate::snapshot::taken_back(c.svm, snap.accounts@, c.dirty.accounts),
                snap.sysvars@,
                k,
            );
            let i = choose|i: int| 0 <= i < snap.sysvars@.len() && (#[trigger] snap.sysvars@[i]).0 == k;
            assert(kept_sysvar(snap.sysvars@[i].0));
            assert(listed(snap.sysvars@, k) == account_at(start, k));
        } else if accepted_back(c.svm, snap.accounts@, c.dirty.accounts, k) {
            lemma_accepted_back(c.svm, snap.accounts@, c.dirty.accounts, k);
            assert(listed(snap.accounts@, k) == account_at(start, k));
        } else if can_be_put_back(k, account_at(start, k)) {
            crate::snapshot::lemma_put_back(start, c.svm, after, snap, c.dirty);
            crate::snapshot::lemma_clock_is_kept();
        }
    }
}

/// The addresses that some accounts were written to.
pub open spec fn addresses(writes: Seq<(Pubkey, AccountView)>) -> Seq<Pubkey> {
    Seq::new(writes.len(), |i: int| writes[i].0)
}

/// Accounts are written one after the other, from the state that a snapshot was just taken of.
pub open spec fn write_run(states: Seq<ContextView>, writes: Seq<(Pubkey, AccountView)>) -> bool {
    &&& states.len() == writes.len() + 1
    &&& states[0].snapshot is Some
    &&& states[0].snapshot->0.of(states[0].svm)
    &&& states[0].dirty == clean()
    &&& forall|i: int, j: int|
        #![trigger states[i], states[j]]
        0 <= i && j == i + 1 && j < states.len() ==> states[j] == written(states[i], writes[i].0, writes[i].1)
            && account_written(states[i], writes[i].0, states[j])
}

proof fn lemma_written_keys(states: Seq<ContextView>, writes: Seq<(Pubkey, AccountView)>)
    requires
        write_run(states, writes),
    ensures
        noted_run(states),
        states.last().dirty.clock_target_slot is None,
        forall|k: Pubkey|
            #![trigger states.last().dirty.accounts.contains(k)]
            states.last().dirty.accounts.contains(k) <==> addresses(writes).contains(k),
        forall|k: Pubkey|
            #![trigger account_at(states.last().svm, k)]
            !addresses(writes).contains(k) ==> account_at(states.last().svm, k) == account_at(states[0].svm, k),
    decreases writes.len(),
{
    assert forall|i: int, j: int|
        #![trigger states[i], states[j]]
        0 <= i && j == i + 1 && j < states.len() implies noted_step(states[i], states[j]) by {
        lemma_write_is_noted(states[i], writes[i].0, states[j]);
    }
    if writes.len() > 0 {
        let before = states.drop_last();
        let d = writes.drop_last();
        assert forall|i: int, j: int|
            #![trigger before[i], before[j]]
            0 <= i && j == i + 1 && j < before.len() implies before[j] == written(before[i], d[i].0, d[i].1)
                && account_written(before[i], d[i].0, before[j]) by {
            assert(before[i] == states[i] && before[j] == states[j] && d[i] == writes[i]);
        }
        lemma_written_keys(before, d);
        let n = writes.len() as int;
        let last = writes[n - 1].0;
        assert(before.last() == states[n - 1]);
        assert(account_written(states[n - 1], last, states[n]));
        lemma_with_key(states[n - 1].dirty.accounts, last);
        assert forall|k: Pubkey| #[trigger] addresses(writes).contains(k) <==> addresses(d).contains(k) || k == last by {
            if addresses(writes).contains(k) {
                let i = choose|i: int| 0 <= i < n && addresses(writes)[i] == k;
                if i < n - 1 {
                    assert(addresses(d)[i] == k);
                }
            }
            if addresses(d).contains(k) {
                let i = choose|i: int| 0 <= i < n - 1 && addresses(d)[i] == k;
                assert(addresses(writes)[i] == k);
            }
            assert(addresses(writes)[n - 1] == last);
        }
    }
}

/// Accounts are written, several times to one address or not, and the snapshot is restored: every account
/// that was not written is what it was, so is every one that was and is no program, a sysvar where its bytes
/// hold what it should, and as many accounts are counted as addresses were written to.
pub proof fn lemma_writes_restored(states: Seq<ContextView>, writes: Seq<(Pubkey, AccountView)>, after: LiteSVM)
    requires
        write_run(states, writes),
        states[0].snapshot->0.well_formed(),
        put_back(states.last().svm, after, states.last().snapshot->0, states.last().dirty),
    ensures
        states.last().dirty.accounts.len() == addresses(writes).to_set().len(),
        forall|k: Pubkey|
            #![trigger account_at(after, k)]
            !addresses(writes).contains(k) ==> account_at(after, k) == account_at(states[0].svm, k),
        forall|k: Pubkey|
            #![trigger account_at(after, k)]
            can_be_put_back(k, account_at(states[0].svm, k)) ==> account_at(after, k) == account_at(states[0].svm, k),
        forall|k: Pubkey|
            #![trigger account_at(after, k)]
            accepted_back(states.last().svm, states[0].snapshot->0.accounts@, states.last().dirty.accounts, k) ==> account_at(
                after,
                k,
            ) == held(account_at(states[0].svm, k)),
{
    lemma_written_keys(states, writes);
    lemma_run_is_noted(states);
    lemma_restored(states, after);
    let dirty = states.last().dirty.accounts;
    assert(dirty.to_set() =~= addresses(writes).to_set()) by {
        assert forall|k: Pubkey| dirty.to_set().contains(k) == addresses(writes).to_set().contains(k) by {
            assert(dirty.contains(k) <==> addresses(writes).contains(k));
        }
    }
    dirty.unique_seq_to_set();
    assert forall|k: Pubkey|
        #![trigger account_at(after, k)]
        accepted_back(states.last().svm, states[0].snapshot->0.accounts@, dirty, k) implies account_at(after, k) == held(
        account_at(states[0].svm, k),
    ) by {
        lemma_accepted_back(states.last().svm, states[0].snapshot->0.accounts@, dirty, k);
        assert(listed(states[0].snapshot->0.accounts@, k) == account_at(states[0].svm, k));
    }
    assert forall|k: Pubkey|
        #![trigger account_at(after, k)]
        !addresses(writes).contains(k) implies account_at(after, k) == account_at(states[0].svm, k) by {
        assert(!dirty.contains(k));
        assert(account_at(states.last().svm, k) == account_at(states[0].svm, k));
    }
}

} // verus!
