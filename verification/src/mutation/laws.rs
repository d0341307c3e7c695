//! What the findings say of the runs they are made from.
use vstd::prelude::*;
#[allow(unused_imports)]
use litesvm::LiteSVM;
#[allow(unused_imports)]
use crate::ids::known_sysvar;
#[allow(unused_imports)]
use crate::keys::{base58, off_curve, Keypair};
#[allow(unused_imports)]
use crate::mutation::accounts::{
    account_keys, first_slots, lemma_slot_keys, rewritten, signer_slots, signs, slot_keys, unsigned_by,
};
#[allow(unused_imports)]
use crate::mutation::effects::{
    corrupted, corruption_noticed, corruptions, data_matters, effects_match, lamport_bearing, load_bearing,
    mutation_survives, paired, substitution_survives, survives, swap_survives, watched, ConfigView, Probe,
};
#[allow(unused_imports)]
use crate::mutation::findings::{call_text, found_id, with_finding, FindingView};
#[allow(unused_imports)]
use crate::svm::{account_at, run_result, run_succeeds, svm_with_account};
#[allow(unused_imports)]
use crate::mutation::probe::Findings;
#[allow(unused_imports)]
use crate::types::{
    filled_key, in_instruction, lemma_slots_of, lemma_with_key, slots_of, AccountView, InstructionView, Pubkey, Slot,
};

verus! {

/// Some instruction uses the account.
pub open spec fn uses(ixs: Seq<InstructionView>, k: Pubkey) -> bool {
    exists|i: int, j: int| 0 <= i < ixs.len() && 0 <= j < ixs[i].accounts.len() && (#[trigger] ixs[i].accounts[j]).pubkey == k
}

/// Some instruction asks the account to sign.
pub open spec fn asks(ixs: Seq<InstructionView>, k: Pubkey) -> bool {
    exists|i: int, j: int|
        0 <= i < ixs.len() && 0 <= j < ixs[i].accounts.len() && (#[trigger] ixs[i].accounts[j]).pubkey == k
            && ixs[i].accounts[j].is_signer
}

/// `out` is `ixs`, with the account `k` nowhere asked to sign, and all else as it is.
pub open spec fn cleared(ixs: Seq<InstructionView>, k: Pubkey, out: Seq<InstructionView>) -> bool {
    &&& out.len() == ixs.len()
    &&& forall|i: int|
        0 <= i < ixs.len() ==> (#[trigger] out[i]).program_id == ixs[i].program_id && out[i].data == ixs[i].data
            && out[i].accounts.len() == ixs[i].accounts.len()
    &&& forall|i: int, j: int|
        0 <= i < ixs.len() && 0 <= j < ixs[i].accounts.len() ==> {
            let a = ixs[i].accounts[j];
            let b = #[trigger] out[i].accounts[j];
            b.pubkey == a.pubkey && b.is_writable == a.is_writable && b.is_signer == (a.is_signer && a.pubkey != k)
        }
}

/// `out` is `ixs`, with the account `by` wherever `target` stood, and all else as it is.
pub open spec fn swapped(ixs: Seq<InstructionView>, target: Pubkey, by: Pubkey, out: Seq<InstructionView>) -> bool {
    &&& out.len() == ixs.len()
    &&& forall|i: int|
        0 <= i < ixs.len() ==> (#[trigger] out[i]).program_id == ixs[i].program_id && out[i].data == ixs[i].data
            && out[i].accounts.len() == ixs[i].accounts.len()
    &&& forall|i: int, j: int|
        0 <= i < ixs.len() && 0 <= j < ixs[i].accounts.len() ==> {
            let a = ixs[i].accounts[j];
            let b = #[trigger] out[i].accounts[j];
            b.is_signer == a.is_signer && b.is_writable == a.is_writable && b.pubkey == if a.pubkey == target { by } else {
                a.pubkey
            }
        }
}

/// The run of `ixs` on `svm` succeeds and leaves every account that either transaction uses, and the payer, as
/// the unmutated transaction left it, but for the accounts that are left out.
pub open spec fn repeats(
    p: Probe,
    svm: LiteSVM,
    ixs: Seq<InstructionView>,
    signers: Seq<Keypair>,
    left_out: Seq<Pubkey>,
) -> bool {
    &&& run_succeeds(svm, ixs, signers, p.payer, p.sigverify)
    &&& forall|k: Pubkey|
        #![trigger account_at(p.after, k)]
        (uses(p.ixs, k) || uses(ixs, k) || k == p.payer.key) && !left_out.contains(k) ==> account_at(
            run_result(svm, ixs, signers, p.payer, p.sigverify).0,
            k,
        ) == account_at(p.after, k)
}

pub(crate) proof fn lemma_uses(ixs: Seq<InstructionView>, k: Pubkey)
    ensures
        account_keys(ixs).contains(k) <==> uses(ixs, k),
        signs(slots_of(ixs), k) <==> asks(ixs, k),
{
    let s = slots_of(ixs);
    lemma_slot_keys(s);
    lemma_slots_of(ixs);
    if account_keys(ixs).contains(k) {
        let i = choose|i: int| 0 <= i < s.len() && (#[trigger] s[i]).meta.pubkey == k;
        assert(in_instruction(ixs, s[i]));
        let (a, b) = choose|a: int, b: int|
            0 <= a < ixs.len() && 0 <= b < (#[trigger] ixs[a]).accounts.len() && s[i].meta == #[trigger] ixs[a].accounts[b]
                && s[i].program_id == ixs[a].program_id;
        assert(ixs[a].accounts[b].pubkey == k);
    }
    if uses(ixs, k) {
        let (a, b) = choose|a: int, b: int|
            0 <= a < ixs.len() && 0 <= b < ixs[a].accounts.len() && (#[trigger] ixs[a].accounts[b]).pubkey == k;
        let x = Slot { meta: ixs[a].accounts[b], program_id: ixs[a].program_id };
        assert(in_instruction(ixs, x));
        assert(s.contains(x));
        let i = choose|i: int| 0 <= i < s.len() && s[i] == x;
        assert(s[i].meta.pubkey == k);
    }
    if signs(s, k) {
        let i = choose|i: int| 0 <= i < s.len() && (#[trigger] s[i]).meta.pubkey == k && s[i].meta.is_signer;
        assert(in_instruction(ixs, s[i]));
        let (a, b) = choose|a: int, b: int|
            0 <= a < ixs.len() && 0 <= b < (#[trigger] ixs[a]).accounts.len() && s[i].meta == #[trigger] ixs[a].accounts[b]
                && s[i].program_id == ixs[a].program_id;
        assert(ixs[a].accounts[b].pubkey == k);
    }
    if asks(ixs, k) {
        let (a, b) = choose|a: int, b: int|
            0 <= a < ixs.len() && 0 <= b < ixs[a].accounts.len() && (#[trigger] ixs[a].accounts[b]).pubkey == k
                && ixs[a].accounts[b].is_signer;
        let x = Slot { meta: ixs[a].accounts[b], program_id: ixs[a].program_id };
        assert(in_instruction(ixs, x));
        assert(s.contains(x));
        let i = choose|i: int| 0 <= i < s.len() && s[i] == x;
        assert(s[i].meta.pubkey == k && s[i].meta.is_signer);
    }
}

/// There is one way to ask an account nowhere to sign, and one to put an account in the place of another.
pub(crate) proof fn lemma_changed(ixs: Seq<InstructionView>, a: Pubkey, b: Pubkey, out: Seq<InstructionView>)
    ensures
        cleared(ixs, a, out) <==> out == unsigned_by(ixs, a),
        swapped(ixs, a, b, out) <==> out == rewritten(ixs, a, b),
{
    let u = unsigned_by(ixs, a);
    let r = rewritten(ixs, a, b);
    if cleared(ixs, a, out) {
        assert forall|i: int| 0 <= i < ixs.len() implies out[i] == u[i] by {
            assert forall|j: int| 0 <= j < ixs[i].accounts.len() implies #[trigger] out[i].accounts[j] == u[i].accounts[j] by {}
            assert(out[i].accounts =~= u[i].accounts);
        }
        assert(out =~= u);
    }
    if swapped(ixs, a, b, out) {
        assert forall|i: int| 0 <= i < ixs.len() implies out[i] == r[i] by {
            assert forall|j: int| 0 <= j < ixs[i].accounts.len() implies #[trigger] out[i].accounts[j] == r[i].accounts[j] by {}
            assert(out[i].accounts =~= r[i].accounts);
        }
        assert(out =~= r);
    }
}

/// A mutated run counts as doing what the unmutated one did just where it succeeds and leaves the accounts in
/// question alike.
pub proof fn lemma_survives(p: Probe, svm: LiteSVM, ixs: Seq<InstructionView>, signers: Seq<Keypair>, left_out: Seq<Pubkey>)
    ensures
        survives(p, svm, ixs, signers, Seq::empty(), left_out) == repeats(p, svm, ixs, signers, left_out),
{
    let none = Seq::<(Pubkey, Pubkey)>::empty();
    let after = run_result(svm, ixs, signers, p.payer, p.sigverify).0;
    assert forall|k: Pubkey| #[trigger] watched(p.ixs, ixs, p.payer.key, k) <==> (uses(p.ixs, k) || uses(ixs, k) || k == p.payer.key) by {
        lemma_uses(p.ixs, k);
        lemma_uses(ixs, k);
    }
    assert forall|k: Pubkey| !paired(none, k) by {}
    if survives(p, svm, ixs, signers, none, left_out) {
        assert forall|k: Pubkey|
            #![trigger account_at(p.after, k)]
            (uses(p.ixs, k) || uses(ixs, k) || k == p.payer.key) && !left_out.contains(k) implies account_at(after, k)
            == account_at(p.after, k) by {
            lemma_uses(p.ixs, k);
            lemma_uses(ixs, k);
            assert(watched(p.ixs, ixs, p.payer.key, k));
        }
    }
    if repeats(p, svm, ixs, signers, left_out) {
        assert forall|k: Pubkey| #[trigger]
            watched(p.ixs, ixs, p.payer.key, k) && !left_out.contains(k) && !paired(none, k) implies account_at(p.after, k)
            == account_at(after, k) by {
            assert(account_at(p.after, k) == account_at(p.after, k));
        }
    }
}

/// A run succeeds just where the instructions fit a message, the transaction can be made, the machine takes it,
/// and what the machine records holds no error.
pub proof fn lemma_run_succeeds(
    svm: LiteSVM,
    ixs: Seq<InstructionView>,
    signers: Seq<Keypair>,
    payer: Keypair,
    sigverify: bool,
)
    ensures
        ({
            let m = if sigverify { crate::svm::svm_expired(svm) } else { svm };
            let message = crate::svm::legacy_message(ixs, payer.key, crate::svm::svm_blockhash(m));
            let tx = if sigverify {
                crate::svm::signed_transaction(message, crate::keys::secrets(crate::svm::with_payer(signers, payer)))
            } else {
                Ok(crate::svm::unsigned_transaction(message))
            };
            run_succeeds(svm, ixs, signers, payer, sigverify) <==> crate::svm::message_fits(ixs, payer.key) && tx is Ok
                && crate::svm::svm_runs(m) && crate::svm::svm_takes(m, tx->Ok_0, message, ixs, payer.key)
                && crate::svm::svm_sent(m, tx->Ok_0).2 is None && run_result(svm, ixs, signers, payer, sigverify).0
                == crate::svm::svm_sent(m, tx->Ok_0).0
        }),
{
}

/// `v` is the data with some of its bytes turned to all ones, or to zero where they are all ones: all behind the
/// first eight, the first eight, or all.
pub open spec fn spoils(data: Seq<u8>, v: Seq<u8>) -> bool {
    &&& data.len() > 0 && v.len() == data.len()
    &&& {
        ||| (data.len() > 8 && forall|i: int|
            0 <= i < data.len() ==> #[trigger] v[i] == if i < 8 { data[i] } else if data[i] == 0xFF { 0u8 } else { 0xFFu8 })
        ||| (forall|i: int|
            0 <= i < data.len() ==> #[trigger] v[i] == if i >= 8 { data[i] } else if data[i] == 0xFF { 0u8 } else { 0xFFu8 })
        ||| (forall|i: int| 0 <= i < data.len() ==> #[trigger] v[i] == if data[i] == 0xFF { 0u8 } else { 0xFFu8 })
    }
}

/// The data is corrupted in just these ways.
pub proof fn lemma_corrupted_ways(data: Seq<u8>, v: Seq<u8>)
    ensures
        corruptions(data).contains(v) <==> spoils(data, v),
{
    let n = data.len() as int;
    let m = if n < 8 { n } else { 8 };
    let a = corrupted(data, 8, n);
    let b = corrupted(data, 0, m);
    let c = corrupted(data, 0, n);
    let cs = corruptions(data);
    if n > 0 {
        assert(b[0] != data[0] && c[0] != data[0]);
        if n > 8 {
            assert(a[8] != data[8]);
        }
        let body = if n > 8 { Seq::<Seq<u8>>::empty().push(a) } else { Seq::empty() };
        let head = if body.contains(b) { body } else { body.push(b) };
        let all = if head.contains(c) { head } else { head.push(c) };
        assert(!Seq::<Seq<u8>>::empty().contains(a));
        assert(cs == all);
        if n > 8 {
            assert(body[0] == a);
            assert(head[0] == a);
            assert(all[0] == a);
        }
        assert(head.contains(b)) by {
            if !body.contains(b) {
                assert(head[body.len() as int] == b);
            }
        }
        assert(all.contains(b)) by {
            let i = choose|i: int| 0 <= i < head.len() && head[i] == b;
            assert(all[i] == b);
        }
        assert(all.contains(c)) by {
            if !head.contains(c) {
                assert(all[head.len() as int] == c);
            }
        }
        if cs.contains(v) {
            let i = choose|i: int| 0 <= i < all.len() && all[i] == v;
            assert(v == a && n > 8 || v == b || v == c);
            assert(spoils(data, v));
        }
        if spoils(data, v) {
            if n > 8 && forall|i: int|
                0 <= i < n ==> #[trigger] v[i] == if i < 8 { data[i] } else if data[i] == 0xFF { 0u8 } else { 0xFFu8 } {
                assert(v =~= a);
            } else if forall|i: int|
                0 <= i < n ==> #[trigger] v[i] == if i >= 8 { data[i] } else if data[i] == 0xFF { 0u8 } else { 0xFFu8 } {
                assert(v =~= b);
            } else {
                assert(v =~= c);
            }
        }
    }
}

/// The transaction notices what the account `k` holds: with its data corrupted in some way, and the accounts `ixs`
/// name, it no longer does what it did.
pub open spec fn notices(p: Probe, k: Pubkey, ixs: Seq<InstructionView>, left_out: Seq<Pubkey>) -> bool {
    account_at(p.svm, k) matches Some(a) && exists|v: Seq<u8>| #[trigger]
        spoils(a.data, v) && svm_with_account(p.svm, k, AccountView { data: v, ..a }).1 && !repeats(
            p,
            svm_with_account(p.svm, k, AccountView { data: v, ..a }).0,
            ixs,
            p.signers,
            left_out,
        )
}

pub(crate) proof fn lemma_notices(p: Probe, k: Pubkey, ixs: Seq<InstructionView>, left_out: Seq<Pubkey>)
    ensures
        data_matters(p, k, ixs, left_out) == notices(p, k, ixs, left_out),
{
    if account_at(p.svm, k) is Some {
        let a = account_at(p.svm, k)->0;
        let cs = corruptions(a.data);
        if data_matters(p, k, ixs, left_out) {
            let i = choose|i: int| #[trigger] corruption_noticed(p, k, a, ixs, left_out, i);
            let v = cs[i];
            assert(cs.contains(v));
            lemma_corrupted_ways(a.data, v);
            lemma_survives(p, svm_with_account(p.svm, k, AccountView { data: v, ..a }).0, ixs, p.signers, left_out);
            assert(spoils(a.data, v));
        }
        if notices(p, k, ixs, left_out) {
            let v = choose|v: Seq<u8>| #[trigger]
                spoils(a.data, v) && svm_with_account(p.svm, k, AccountView { data: v, ..a }).1 && !repeats(
                    p,
                    svm_with_account(p.svm, k, AccountView { data: v, ..a }).0,
                    ixs,
                    p.signers,
                    left_out,
                );
            lemma_corrupted_ways(a.data, v);
            lemma_survives(p, svm_with_account(p.svm, k, AccountView { data: v, ..a }).0, ixs, p.signers, left_out);
            let i = choose|i: int| 0 <= i < cs.len() && cs[i] == v;
            assert(corruption_noticed(p, k, a, ixs, left_out, i));
        }
    }
}

/// The transaction reads the account: it notices when its data changes.
pub open spec fn reads(p: Probe, k: Pubkey) -> bool {
    notices(p, k, p.ixs, seq![k])
}

/// An account bears load just where the transaction notices some corruption of its data.
pub proof fn lemma_reads(p: Probe, k: Pubkey)
    ensures
        load_bearing(p, k) == reads(p, k),
{
    lemma_notices(p, k, p.ixs, seq![k]);
}

/// The transaction fails where the account has no lamports, and it has some.
pub open spec fn needs_lamports(p: Probe, k: Pubkey) -> bool {
    account_at(p.svm, k) matches Some(a) && a.lamports > 0 && svm_with_account(p.svm, k, AccountView { lamports: 0, ..a }).1
        && !run_succeeds(
        svm_with_account(p.svm, k, AccountView { lamports: 0, ..a }).0,
        p.ixs,
        p.signers,
        p.payer,
        p.sigverify,
    )
}

/// An account is looked at for its lamports just where the transaction fails without them.
pub proof fn lemma_needs_lamports(p: Probe, k: Pubkey)
    ensures
        lamport_bearing(p, k) == needs_lamports(p, k),
{
}

/// What identifies a finding: its class, the program that is called, the tag of the instruction in hexadecimal, and
/// the place of the account among the accounts that the instructions use, each counted once.
pub proof fn lemma_finding_is_named(p: Probe, class: Seq<char>, k: Pubkey)
    ensures
        ({
            let data = p.ixs[0].data;
            let want = if p.disc_len is Some { p.disc_len->0 as int } else { 8 };
            let tag = data.take(if want < data.len() { want } else { data.len() as int });
            let keys = account_keys(p.ixs);
            &&& call_text(p) == base58(p.ixs[0].program_id@) + ":"@ + crate::text::hex_bytes(tag)
            &&& keys.contains(k) ==> found_id(p, class, k) == class + ":"@ + base58(p.ixs[0].program_id@) + ":"@
                + crate::text::hex_bytes(tag) + ":"@ + ("a"@ + crate::text::dec(keys.index_of(k) as nat))
            &&& !keys.contains(k) ==> found_id(p, class, k) == class + ":"@ + base58(p.ixs[0].program_id@) + ":"@
                + crate::text::hex_bytes(tag) + ":"@ + "a?"@
        }),
{
}

pub(crate) proof fn lemma_with_finding(before: Seq<FindingView>, o: Option<FindingView>)
    ensures
        forall|f: FindingView| #[trigger] with_finding(before, o).contains(f) <==> before.contains(f) || o == Some(f),
{
    let r = with_finding(before, o);
    assert forall|f: FindingView| #[trigger] r.contains(f) <==> before.contains(f) || o == Some(f) by {
        if before.contains(f) {
            let i = choose|i: int| 0 <= i < before.len() && before[i] == f;
            assert(r[i] == f);
        }
        if o == Some(f) {
            assert(r[before.len() as int] == f);
        }
        if r.contains(f) {
            let i = choose|i: int| 0 <= i < r.len() && r[i] == f;
            if i < before.len() {
                assert(before[i] == f);
            }
        }
    }
}

pub(crate) proof fn lemma_added(a: Seq<FindingView>, b: Seq<FindingView>)
    ensures
        forall|f: FindingView| #[trigger] (a + b).contains(f) <==> a.contains(f) || b.contains(f),
{
    assert forall|f: FindingView| #[trigger] (a + b).contains(f) <==> a.contains(f) || b.contains(f) by {
        if a.contains(f) {
            let i = choose|i: int| 0 <= i < a.len() && a[i] == f;
            assert((a + b)[i] == f);
        }
        if b.contains(f) {
            let i = choose|i: int| 0 <= i < b.len() && b[i] == f;
            assert((a + b)[a.len() + i] == f);
        }
    }
}

proof fn lemma_signer_members(p: Probe, cs: Seq<crate::mutation::signers::SignerCandidate>)
    ensures
        forall|f: FindingView| #[trigger]
            crate::mutation::signers::signer_findings(p, cs).contains(f) <==> exists|i: int|
                0 <= i < cs.len() && crate::mutation::signers::signer_finding(p, #[trigger] cs[i]) == Some(f),
    decreases cs.len(),
{
    let r = crate::mutation::signers::signer_findings(p, cs);
    if cs.len() > 0 {
        let d = cs.drop_last();
        let before = crate::mutation::signers::signer_findings(p, d);
        let o = crate::mutation::signers::signer_finding(p, cs.last());
        lemma_signer_members(p, d);
        lemma_with_finding(before, o);
        assert forall|f: FindingView| #[trigger] r.contains(f) <==> exists|i: int|
            0 <= i < cs.len() && crate::mutation::signers::signer_finding(p, #[trigger] cs[i]) == Some(f) by {
            if before.contains(f) {
                let i = choose|i: int| 0 <= i < d.len() && crate::mutation::signers::signer_finding(p, #[trigger] d[i]) == Some(f);
                assert(cs[i] == d[i]);
            }
            if o == Some(f) {
                assert(cs[cs.len() - 1] == cs.last());
            }
            if exists|i: int| 0 <= i < cs.len() && crate::mutation::signers::signer_finding(p, #[trigger] cs[i]) == Some(f) {
                let i = choose|i: int| 0 <= i < cs.len() && crate::mutation::signers::signer_finding(p, #[trigger] cs[i]) == Some(f);
                if i < d.len() {
                    assert(d[i] == cs[i]);
                    assert(before.contains(f));
                }
            }
        }
    }
}

proof fn lemma_with_candidate(cs: Seq<crate::mutation::signers::SignerCandidate>, k: Pubkey, kind: crate::mutation::signers::SignerCandidateKind)
    ensures
        forall|c: crate::mutation::signers::SignerCandidate| #[trigger]
            crate::mutation::signers::with_candidate(cs, k, kind).contains(c) <==> cs.contains(c) || (
            !crate::mutation::signers::is_candidate(cs, k) && c.pubkey == k && c.kind == kind),
        forall|x: Pubkey| #[trigger]
            crate::mutation::signers::is_candidate(crate::mutation::signers::with_candidate(cs, k, kind), x)
                <==> crate::mutation::signers::is_candidate(cs, x) || x == k,
{
    let r = crate::mutation::signers::with_candidate(cs, k, kind);
    let n = crate::mutation::signers::SignerCandidate { pubkey: k, kind };
    assert forall|c: crate::mutation::signers::SignerCandidate| #[trigger] r.contains(c) <==> cs.contains(c) || (
    !crate::mutation::signers::is_candidate(cs, k) && c.pubkey == k && c.kind == kind) by {
        if cs.contains(c) {
            let i = choose|i: int| 0 <= i < cs.len() && cs[i] == c;
            assert(r[i] == c);
        }
        if !crate::mutation::signers::is_candidate(cs, k) && c.pubkey == k && c.kind == kind {
            assert(r[cs.len() as int] == c);
        }
        if r.contains(c) {
            let i = choose|i: int| 0 <= i < r.len() && r[i] == c;
            if i < cs.len() {
                assert(cs[i] == c);
            }
        }
    }
    assert forall|x: Pubkey| #[trigger] crate::mutation::signers::is_candidate(r, x)
        <==> crate::mutation::signers::is_candidate(cs, x) || x == k by {
        if crate::mutation::signers::is_candidate(r, x) {
            let i = choose|i: int| 0 <= i < r.len() && (#[trigger] r[i]).pubkey == x;
            if i < cs.len() {
                assert(cs[i].pubkey == x);
            }
        }
        if crate::mutation::signers::is_candidate(cs, x) {
            let i = choose|i: int| 0 <= i < cs.len() && (#[trigger] cs[i]).pubkey == x;
            assert(r[i].pubkey == x);
        }
        if x == k && !crate::mutation::signers::is_candidate(cs, k) {
            assert(r[cs.len() as int].pubkey == x);
        }
    }
}

proof fn lemma_meta_signers(slots: Seq<Slot>)
    ensures
        forall|c: crate::mutation::signers::SignerCandidate| #[trigger]
            crate::mutation::signers::meta_signers(slots).contains(c) <==> signs(slots, c.pubkey)
                && c.kind is MetaSigner,
        forall|k: Pubkey| #[trigger]
            crate::mutation::signers::is_candidate(crate::mutation::signers::meta_signers(slots), k) <==> signs(slots, k),
    decreases slots.len(),
{
    let r = crate::mutation::signers::meta_signers(slots);
    if slots.len() > 0 {
        let d = slots.drop_last();
        let last = slots.last();
        lemma_meta_signers(d);
        let before = crate::mutation::signers::meta_signers(d);
        lemma_with_candidate(before, last.meta.pubkey, crate::mutation::signers::SignerCandidateKind::MetaSigner);
        assert forall|k: Pubkey| signs(slots, k) <==> (signs(d, k) || (last.meta.is_signer && last.meta.pubkey == k)) by {
            if signs(slots, k) {
                let i = choose|i: int| 0 <= i < slots.len() && (#[trigger] slots[i]).meta.pubkey == k && slots[i].meta.is_signer;
                if i < d.len() {
                    assert(d[i].meta.pubkey == k);
                }
            }
            if signs(d, k) {
                let i = choose|i: int| 0 <= i < d.len() && (#[trigger] d[i]).meta.pubkey == k && d[i].meta.is_signer;
                assert(slots[i].meta.pubkey == k);
            }
            if last.meta.is_signer && last.meta.pubkey == k {
                assert(slots[slots.len() - 1].meta.pubkey == k);
            }
        }
    }
}

proof fn lemma_supplied(
    cs: Seq<crate::mutation::signers::SignerCandidate>,
    keys: Seq<Pubkey>,
    signers: Seq<Keypair>,
)
    ensures
        forall|c: crate::mutation::signers::SignerCandidate| #[trigger]
            crate::mutation::signers::with_supplied(cs, keys, signers).contains(c) <==> cs.contains(c) || (
            !crate::mutation::signers::is_candidate(cs, c.pubkey) && c.kind is SuppliedSigner && keys.contains(c.pubkey)
                && crate::svm::has_signer(signers, c.pubkey)),
        forall|k: Pubkey| #[trigger]
            crate::mutation::signers::is_candidate(crate::mutation::signers::with_supplied(cs, keys, signers), k) <==> (
            crate::mutation::signers::is_candidate(cs, k) || (keys.contains(k) && crate::svm::has_signer(signers, k))),
    decreases signers.len(),
{
    if signers.len() > 0 {
        let d = signers.drop_last();
        let last = signers.last().key;
        lemma_supplied(cs, keys, d);
        let before = crate::mutation::signers::with_supplied(cs, keys, d);
        lemma_with_candidate(before, last, crate::mutation::signers::SignerCandidateKind::SuppliedSigner);
        assert forall|k: Pubkey| #[trigger] crate::svm::has_signer(signers, k) <==> (crate::svm::has_signer(d, k) || last == k) by {
            if crate::svm::has_signer(signers, k) {
                let i = choose|i: int| 0 <= i < signers.len() && (#[trigger] signers[i]).key == k;
                if i < d.len() {
                    assert(d[i].key == k);
                }
            }
            if crate::svm::has_signer(d, k) {
                let i = choose|i: int| 0 <= i < d.len() && (#[trigger] d[i]).key == k;
                assert(signers[i].key == k);
            }
            if last == k {
                assert(signers[signers.len() - 1].key == k);
            }
        }
    }
}

/// Without the signature of `k`, the transaction succeeds and does what it did. What the payer holds counts only
/// where the instructions use it, since the fee changes with the number of signatures.
pub open spec fn needs_no_signature(p: Probe, k: Pubkey) -> bool {
    exists|ixs: Seq<InstructionView>|
        {
            &&& #[trigger] cleared(p.ixs, k, ixs)
            &&& run_succeeds(p.svm, ixs, p.signers, p.payer, p.sigverify)
            &&& forall|x: Pubkey|
                #![trigger account_at(p.after, x)]
                uses(p.ixs, x) || uses(ixs, x) ==> account_at(
                    run_result(p.svm, ixs, p.signers, p.payer, p.sigverify).0,
                    x,
                ) == account_at(p.after, x)
        }
}

pub(crate) proof fn lemma_unsigned(p: Probe, k: Pubkey)
    ensures
        crate::mutation::signers::unsigned_survives(p, k) == needs_no_signature(p, k),
{
    let ixs = unsigned_by(p.ixs, k);
    let left_out = crate::mutation::signers::payer_ignored(p.ixs, ixs, p.payer.key);
    lemma_changed(p.ixs, k, k, ixs);
    lemma_survives(p, p.svm, ixs, p.signers, left_out);
    lemma_uses(p.ixs, p.payer.key);
    lemma_uses(ixs, p.payer.key);
    assert(cleared(p.ixs, k, ixs));
    if crate::mutation::signers::unsigned_survives(p, k) {
        assert forall|x: Pubkey|
            #![trigger account_at(p.after, x)]
            uses(p.ixs, x) || uses(ixs, x) implies account_at(run_result(p.svm, ixs, p.signers, p.payer, p.sigverify).0, x)
            == account_at(p.after, x) by {
            if left_out.contains(x) {
                assert(left_out =~= seq![p.payer.key]);
                assert(x == p.payer.key);
            }
        }
    }
    if needs_no_signature(p, k) {
        let out = choose|out: Seq<InstructionView>|
            {
                &&& #[trigger] cleared(p.ixs, k, out)
                &&& run_succeeds(p.svm, out, p.signers, p.payer, p.sigverify)
                &&& forall|x: Pubkey|
                    #![trigger account_at(p.after, x)]
                    uses(p.ixs, x) || uses(out, x) ==> account_at(
                        run_result(p.svm, out, p.signers, p.payer, p.sigverify).0,
                        x,
                    ) == account_at(p.after, x)
            };
        lemma_changed(p.ixs, k, k, out);
        assert forall|x: Pubkey|
            #![trigger account_at(p.after, x)]
            (uses(p.ixs, x) || uses(ixs, x) || x == p.payer.key) && !left_out.contains(x) implies account_at(
            run_result(p.svm, ixs, p.signers, p.payer, p.sigverify).0,
            x,
        ) == account_at(p.after, x) by {
            if x == p.payer.key && !uses(p.ixs, x) && !uses(ixs, x) {
                assert(left_out[0] == x);
            }
        }
    }
}

/// The findings on signers: one for just those accounts but the payer that an instruction asks to sign, or that a
/// key pair was supplied for and an instruction uses, for which the run with their flag cleared succeeds and
/// leaves the accounts that the instructions use as the unmutated run left them.
pub(crate) proof fn lemma_signer_list_findings(p: Probe, f: FindingView)
    ensures
        crate::mutation::signers::signer_findings(p, crate::mutation::signers::signer_list(p.ixs, p.signers)).contains(f)
            <==> exists|k: Pubkey|
            {
                &&& k != p.payer.key
                &&& asks(p.ixs, k) || (uses(p.ixs, k) && exists|i: int| 0 <= i < p.signers.len() && (#[trigger] p.signers[i]).key == k)
                &&& #[trigger] needs_no_signature(p, k)
                &&& f.id == found_id(p, "CC-4 signer"@, k)
                &&& f.message == "[CC-4 signer] account "@ + base58(k@) + " "@ + (if asks(p.ixs, k) {
                    "is_signer cleared"@
                } else {
                    "signer keypair supplied but account meta was not signer"@
                }) + ", instr "@ + call_text(p) + " still succeeded (missing signer check)"@
            },
{
    let slots = slots_of(p.ixs);
    let keys = account_keys(p.ixs);
    let metas = crate::mutation::signers::meta_signers(slots);
    let cs = crate::mutation::signers::signer_list(p.ixs, p.signers);
    lemma_meta_signers(slots);
    lemma_supplied(metas, keys, p.signers);
    lemma_signer_members(p, cs);
    if crate::mutation::signers::signer_findings(p, cs).contains(f) {
        let i = choose|i: int| 0 <= i < cs.len() && crate::mutation::signers::signer_finding(p, #[trigger] cs[i]) == Some(f);
        let k = cs[i].pubkey;
        assert(cs.contains(cs[i]));
        lemma_uses(p.ixs, k);
        lemma_unsigned(p, k);
        assert(needs_no_signature(p, k));
        if asks(p.ixs, k) {
            assert(metas.contains(cs[i]));
        }
    }
    if exists|k: Pubkey|
        {
            &&& k != p.payer.key
            &&& asks(p.ixs, k) || (uses(p.ixs, k) && exists|i: int| 0 <= i < p.signers.len() && (#[trigger] p.signers[i]).key == k)
            &&& #[trigger] needs_no_signature(p, k)
            &&& f.id == found_id(p, "CC-4 signer"@, k)
            &&& f.message == "[CC-4 signer] account "@ + base58(k@) + " "@ + (if asks(p.ixs, k) {
                "is_signer cleared"@
            } else {
                "signer keypair supplied but account meta was not signer"@
            }) + ", instr "@ + call_text(p) + " still succeeded (missing signer check)"@
        } {
        let k = choose|k: Pubkey|
            {
                &&& k != p.payer.key
                &&& asks(p.ixs, k) || (uses(p.ixs, k) && exists|i: int| 0 <= i < p.signers.len() && (#[trigger] p.signers[i]).key == k)
                &&& #[trigger] needs_no_signature(p, k)
                &&& f.id == found_id(p, "CC-4 signer"@, k)
                &&& f.message == "[CC-4 signer] account "@ + base58(k@) + " "@ + (if asks(p.ixs, k) {
                    "is_signer cleared"@
                } else {
                    "signer keypair supplied but account meta was not signer"@
                }) + ", instr "@ + call_text(p) + " still succeeded (missing signer check)"@
            };
        lemma_uses(p.ixs, k);
        lemma_unsigned(p, k);
        let c = crate::mutation::signers::SignerCandidate {
            pubkey: k,
            kind: if asks(p.ixs, k) {
                crate::mutation::signers::SignerCandidateKind::MetaSigner
            } else {
                crate::mutation::signers::SignerCandidateKind::SuppliedSigner
            },
        };
        assert(metas.contains(c) || !crate::mutation::signers::is_candidate(metas, k));
        assert(cs.contains(c));
        let i = choose|i: int| 0 <= i < cs.len() && cs[i] == c;
        assert(crate::mutation::signers::signer_finding(p, cs[i]) == Some(f));
    }
}

/// The first use of an account by the instructions.
pub open spec fn first_use(ixs: Seq<InstructionView>, s: Slot) -> bool {
    exists|i: int|
        0 <= i < slots_of(ixs).len() && #[trigger] slots_of(ixs)[i] == s && forall|j: int|
            0 <= j < i ==> (#[trigger] slots_of(ixs)[j]).meta.pubkey != s.meta.pubkey
}

pub(crate) proof fn lemma_first_slots(slots: Seq<Slot>, s: Slot)
    ensures
        first_slots(slots).contains(s) <==> exists|i: int|
            0 <= i < slots.len() && #[trigger] slots[i] == s && forall|j: int|
                0 <= j < i ==> (#[trigger] slots[j]).meta.pubkey != s.meta.pubkey,
    decreases slots.len(),
{
    let r = first_slots(slots);
    if slots.len() > 0 {
        let d = slots.drop_last();
        let before = first_slots(d);
        let last = slots.last();
        lemma_first_slots(d, s);
        lemma_slot_keys(d);
        if r.contains(s) {
            let m = choose|m: int| 0 <= m < r.len() && r[m] == s;
            if m < before.len() {
                assert(before[m] == s);
                let i = choose|i: int|
                    0 <= i < d.len() && #[trigger] d[i] == s && forall|j: int|
                        0 <= j < i ==> (#[trigger] d[j]).meta.pubkey != s.meta.pubkey;
                assert(slots[i] == s);
                assert forall|j: int| 0 <= j < i implies (#[trigger] slots[j]).meta.pubkey != s.meta.pubkey by {
                    assert(d[j] == slots[j]);
                }
            } else {
                assert(slots[slots.len() - 1] == s);
                assert forall|j: int| 0 <= j < slots.len() - 1 implies (#[trigger] slots[j]).meta.pubkey != s.meta.pubkey by {
                    assert(d[j] == slots[j]);
                }
            }
        }
        if exists|i: int|
            0 <= i < slots.len() && #[trigger] slots[i] == s && forall|j: int|
                0 <= j < i ==> (#[trigger] slots[j]).meta.pubkey != s.meta.pubkey {
            let i = choose|i: int|
                0 <= i < slots.len() && #[trigger] slots[i] == s && forall|j: int|
                    0 <= j < i ==> (#[trigger] slots[j]).meta.pubkey != s.meta.pubkey;
            if i < d.len() {
                assert(d[i] == s);
                assert forall|j: int| 0 <= j < i implies (#[trigger] d[j]).meta.pubkey != s.meta.pubkey by {
                    assert(d[j] == slots[j]);
                }
                assert(before.contains(s));
                let m = choose|m: int| 0 <= m < before.len() && before[m] == s;
                assert(r[m] == s);
            } else {
                if slot_keys(d).contains(last.meta.pubkey) {
                    let j = choose|j: int| 0 <= j < d.len() && (#[trigger] d[j]).meta.pubkey == last.meta.pubkey;
                    assert(slots[j].meta.pubkey == last.meta.pubkey);
                }
                assert(r[before.len() as int] == s);
            }
        }
    }
}

/// With `account` at `k`, the transaction succeeds and leaves everything but `k` as it did.
pub open spec fn goes_on_with(p: Probe, k: Pubkey, account: AccountView) -> bool {
    svm_with_account(p.svm, k, account).1 && repeats(p, svm_with_account(p.svm, k, account).0, p.ixs, p.signers, seq![k])
}

proof fn lemma_goes_on_with(p: Probe, k: Pubkey, account: AccountView)
    ensures
        mutation_survives(p, k, account) == goes_on_with(p, k, account),
{
    lemma_survives(p, svm_with_account(p.svm, k, account).0, p.ixs, p.signers, seq![k]);
}

/// With `account` at `decoy`, and `decoy` wherever `k` stood, the transaction succeeds and leaves everything but the
/// two as it did.
pub open spec fn goes_on_without(p: Probe, k: Pubkey, decoy: Pubkey, account: AccountView) -> bool {
    svm_with_account(p.svm, decoy, account).1 && exists|ixs: Seq<InstructionView>| #[trigger]
        swapped(p.ixs, k, decoy, ixs) && repeats(
            p,
            svm_with_account(p.svm, decoy, account).0,
            ixs,
            p.signers,
            seq![k, decoy],
        )
}

pub(crate) proof fn lemma_goes_on_without(p: Probe, k: Pubkey, decoy: Pubkey, account: AccountView)
    ensures
        substitution_survives(p, k, decoy, account) == goes_on_without(p, k, decoy, account),
{
    let ixs = rewritten(p.ixs, k, decoy);
    lemma_changed(p.ixs, k, decoy, ixs);
    lemma_survives(p, svm_with_account(p.svm, decoy, account).0, ixs, p.signers, seq![k, decoy]);
    assert(swapped(p.ixs, k, decoy, ixs));
    if goes_on_without(p, k, decoy, account) {
        let out = choose|out: Seq<InstructionView>| #[trigger]
            swapped(p.ixs, k, decoy, out) && repeats(
                p,
                svm_with_account(p.svm, decoy, account).0,
                out,
                p.signers,
                seq![k, decoy],
            );
        lemma_changed(p.ixs, k, decoy, out);
    }
}

/// With the account `r` that the machine holds wherever `k` stood, the transaction succeeds and leaves everything but
/// the two as it did.
pub open spec fn takes_instead(p: Probe, k: Pubkey, r: Pubkey) -> bool {
    exists|ixs: Seq<InstructionView>| #[trigger]
        swapped(p.ixs, k, r, ixs) && repeats(p, p.svm, ixs, p.signers, seq![k, r])
}

/// With the account `r` wherever `k` stood, the transaction notices when the data of `r` changes.
pub open spec fn reads_instead(p: Probe, k: Pubkey, r: Pubkey) -> bool {
    exists|ixs: Seq<InstructionView>| #[trigger] swapped(p.ixs, k, r, ixs) && notices(p, r, ixs, seq![k, r])
}

pub(crate) proof fn lemma_instead(p: Probe, k: Pubkey, r: Pubkey)
    ensures
        swap_survives(p, k, r) == takes_instead(p, k, r),
        crate::mutation::effects::replacement_load_bearing(p, k, r) == reads_instead(p, k, r),
{
    let ixs = rewritten(p.ixs, k, r);
    lemma_changed(p.ixs, k, r, ixs);
    lemma_survives(p, p.svm, ixs, p.signers, seq![k, r]);
    lemma_notices(p, r, ixs, seq![k, r]);
    assert(swapped(p.ixs, k, r, ixs));
    if takes_instead(p, k, r) {
        let out = choose|out: Seq<InstructionView>| #[trigger]
            swapped(p.ixs, k, r, out) && repeats(p, p.svm, out, p.signers, seq![k, r]);
        lemma_changed(p.ixs, k, r, out);
    }
    if reads_instead(p, k, r) {
        let out = choose|out: Seq<InstructionView>| #[trigger]
            swapped(p.ixs, k, r, out) && notices(p, r, out, seq![k, r]);
        lemma_changed(p.ixs, k, r, out);
    }
}

/// An owner that is not the true one: one of all `0xCC`, or of all `0xCD` where that is the true one.
pub open spec fn stranger(owner: Pubkey) -> Pubkey {
    if owner == filled_key(0xCC) { filled_key(0xCD) } else { filled_key(0xCC) }
}

/// An address that is not the true one: one of all `0xDD`, or of all `0xDE` where that is the true one.
pub open spec fn stand_in(k: Pubkey) -> Pubkey {
    if k == filled_key(0xDD) { filled_key(0xDE) } else { filled_key(0xDD) }
}

proof fn lemma_owner_members(p: Probe, cs: Seq<crate::mutation::identity::OwnerCandidate>)
    ensures
        forall|f: FindingView| #[trigger]
            crate::mutation::identity::owner_findings(p, cs).contains(f) <==> exists|i: int|
                0 <= i < cs.len() && crate::mutation::identity::owner_finding(p, #[trigger] cs[i]) == Some(f),
    decreases cs.len(),
{
    let r = crate::mutation::identity::owner_findings(p, cs);
    if cs.len() > 0 {
        let d = cs.drop_last();
        let before = crate::mutation::identity::owner_findings(p, d);
        let o = crate::mutation::identity::owner_finding(p, cs.last());
        lemma_owner_members(p, d);
        lemma_with_finding(before, o);
        assert forall|f: FindingView| #[trigger] r.contains(f) <==> exists|i: int|
            0 <= i < cs.len() && crate::mutation::identity::owner_finding(p, #[trigger] cs[i]) == Some(f) by {
            if before.contains(f) {
                let i = choose|i: int| 0 <= i < d.len() && crate::mutation::identity::owner_finding(p, #[trigger] d[i]) == Some(f);
                assert(cs[i] == d[i]);
            }
            if o == Some(f) {
                assert(cs[cs.len() - 1] == cs.last());
            }
            if exists|i: int| 0 <= i < cs.len() && crate::mutation::identity::owner_finding(p, #[trigger] cs[i]) == Some(f) {
                let i = choose|i: int| 0 <= i < cs.len() && crate::mutation::identity::owner_finding(p, #[trigger] cs[i]) == Some(f);
                if i < d.len() {
                    assert(d[i] == cs[i]);
                    assert(before.contains(f));
                }
            }
        }
    }
}

/// The owner of the account may be probed.
pub open spec fn owner_open(svm: LiteSVM, config: ConfigView, s: Slot) -> bool {
    let k = s.meta.pubkey;
    &&& k != s.program_id && !config.unverified.contains(k) && !known_sysvar(k)
    &&& config.skip_pda_candidates ==> !off_curve(k)
    &&& account_at(svm, k) matches Some(a) && !a.executable && a.data.len() > 0 && !crate::ids::loader_owned(a.owner)
}

/// The account is a program of a loader, and would be probed for its owner if it were none.
pub open spec fn owner_shut(svm: LiteSVM, config: ConfigView, s: Slot) -> bool {
    let k = s.meta.pubkey;
    &&& k != s.program_id && !config.unverified.contains(k) && !known_sysvar(k)
    &&& config.skip_pda_candidates ==> !off_curve(k)
    &&& account_at(svm, k) matches Some(a) && !a.executable && a.data.len() > 0 && crate::ids::loader_owned(a.owner)
}

proof fn lemma_owner_list(svm: LiteSVM, config: ConfigView, slots: Seq<Slot>)
    ensures
        forall|c: crate::mutation::identity::OwnerCandidate| #[trigger]
            crate::mutation::identity::owner_candidates(svm, config, slots).contains(c) <==> exists|i: int|
                0 <= i < slots.len() && #[trigger] owner_open(svm, config, slots[i]) && c == (crate::mutation::identity::OwnerCandidate { pubkey: slots[i].meta.pubkey, original_owner: account_at(svm, slots[i].meta.pubkey)->0.owner }),
    decreases slots.len(),
{
    let r = crate::mutation::identity::owner_candidates(svm, config, slots);
    if slots.len() > 0 {
        let d = slots.drop_last();
        lemma_owner_list(svm, config, d);
        let before = crate::mutation::identity::owner_candidates(svm, config, d);
        assert forall|c: crate::mutation::identity::OwnerCandidate| #[trigger] r.contains(c) <==> exists|i: int|
            0 <= i < slots.len() && #[trigger] owner_open(svm, config, slots[i]) && c == (crate::mutation::identity::OwnerCandidate { pubkey: slots[i].meta.pubkey, original_owner: account_at(svm, slots[i].meta.pubkey)->0.owner }) by {
            if r.contains(c) {
                let m = choose|m: int| 0 <= m < r.len() && r[m] == c;
                if m < before.len() {
                    assert(before[m] == c);
                    assert(before.contains(c));
                    let i = choose|i: int| 0 <= i < d.len() && #[trigger] owner_open(svm, config, d[i]) && c == (crate::mutation::identity::OwnerCandidate { pubkey: d[i].meta.pubkey, original_owner: account_at(svm, d[i].meta.pubkey)->0.owner });
                    assert(slots[i] == d[i]);
                    assert(owner_open(svm, config, slots[i]));
                } else {
                    assert(owner_open(svm, config, slots[slots.len() - 1]));
                }
            }
            if exists|i: int| 0 <= i < slots.len() && #[trigger] owner_open(svm, config, slots[i]) && c == (crate::mutation::identity::OwnerCandidate { pubkey: slots[i].meta.pubkey, original_owner: account_at(svm, slots[i].meta.pubkey)->0.owner }) {
                let i = choose|i: int| 0 <= i < slots.len() && #[trigger] owner_open(svm, config, slots[i]) && c == (crate::mutation::identity::OwnerCandidate { pubkey: slots[i].meta.pubkey, original_owner: account_at(svm, slots[i].meta.pubkey)->0.owner });
                if i < d.len() {
                    assert(slots[i] == d[i]);
                    assert(owner_open(svm, config, d[i]));
                    assert(before.contains(c));
                    let m = choose|m: int| 0 <= m < before.len() && before[m] == c;
                    assert(r[m] == c);
                } else {
                    assert(slots[i] == slots.last());
                    assert(r[before.len() as int] == c);
                }
            }
        }
    }
}

proof fn lemma_demotion_list(svm: LiteSVM, config: ConfigView, slots: Seq<Slot>)
    ensures
        forall|c: FindingView| #[trigger]
            crate::mutation::identity::owner_demotions(svm, config, slots).contains(c) <==> exists|i: int|
                0 <= i < slots.len() && #[trigger] owner_shut(svm, config, slots[i]) && c == crate::mutation::identity::loader_demotion(slots[i].meta.pubkey),
    decreases slots.len(),
{
    let r = crate::mutation::identity::owner_demotions(svm, config, slots);
    if slots.len() > 0 {
        let d = slots.drop_last();
        lemma_demotion_list(svm, config, d);
        let before = crate::mutation::identity::owner_demotions(svm, config, d);
        assert forall|c: FindingView| #[trigger] r.contains(c) <==> exists|i: int|
            0 <= i < slots.len() && #[trigger] owner_shut(svm, config, slots[i]) && c == crate::mutation::identity::loader_demotion(slots[i].meta.pubkey) by {
            if r.contains(c) {
                let m = choose|m: int| 0 <= m < r.len() && r[m] == c;
                if m < before.len() {
                    assert(before[m] == c);
                    assert(before.contains(c));
                    let i = choose|i: int| 0 <= i < d.len() && #[trigger] owner_shut(svm, config, d[i]) && c == crate::mutation::identity::loader_demotion(d[i].meta.pubkey);
                    assert(slots[i] == d[i]);
                    assert(owner_shut(svm, config, slots[i]));
                } else {
                    assert(owner_shut(svm, config, slots[slots.len() - 1]));
                }
            }
            if exists|i: int| 0 <= i < slots.len() && #[trigger] owner_shut(svm, config, slots[i]) && c == crate::mutation::identity::loader_demotion(slots[i].meta.pubkey) {
                let i = choose|i: int| 0 <= i < slots.len() && #[trigger] owner_shut(svm, config, slots[i]) && c == crate::mutation::identity::loader_demotion(slots[i].meta.pubkey);
                if i < d.len() {
                    assert(slots[i] == d[i]);
                    assert(owner_shut(svm, config, d[i]));
                    assert(before.contains(c));
                    let m = choose|m: int| 0 <= m < before.len() && before[m] == c;
                    assert(r[m] == c);
                } else {
                    assert(slots[i] == slots.last());
                    assert(r[before.len() as int] == c);
                }
            }
        }
    }
}

proof fn lemma_typed_list(svm: LiteSVM, tags: crate::schema::TagsView, slots: Seq<Slot>)
    ensures
        forall|c: Pubkey| #[trigger]
            crate::mutation::identity::typed_candidates(svm, tags, slots).contains(c) <==> exists|i: int|
                0 <= i < slots.len() && #[trigger] has_type(svm, tags, slots[i]) && c == slots[i].meta.pubkey,
    decreases slots.len(),
{
    let r = crate::mutation::identity::typed_candidates(svm, tags, slots);
    if slots.len() > 0 {
        let d = slots.drop_last();
        lemma_typed_list(svm, tags, d);
        let before = crate::mutation::identity::typed_candidates(svm, tags, d);
        assert forall|c: Pubkey| #[trigger] r.contains(c) <==> exists|i: int|
            0 <= i < slots.len() && #[trigger] has_type(svm, tags, slots[i]) && c == slots[i].meta.pubkey by {
            if r.contains(c) {
                let m = choose|m: int| 0 <= m < r.len() && r[m] == c;
                if m < before.len() {
                    assert(before[m] == c);
                    assert(before.contains(c));
                    let i = choose|i: int| 0 <= i < d.len() && #[trigger] has_type(svm, tags, d[i]) && c == d[i].meta.pubkey;
                    assert(slots[i] == d[i]);
                    assert(has_type(svm, tags, slots[i]));
                } else {
                    assert(has_type(svm, tags, slots[slots.len() - 1]));
                }
            }
            if exists|i: int| 0 <= i < slots.len() && #[trigger] has_type(svm, tags, slots[i]) && c == slots[i].meta.pubkey {
                let i = choose|i: int| 0 <= i < slots.len() && #[trigger] has_type(svm, tags, slots[i]) && c == slots[i].meta.pubkey;
                if i < d.len() {
                    assert(slots[i] == d[i]);
                    assert(has_type(svm, tags, d[i]));
                    assert(before.contains(c));
                    let m = choose|m: int| 0 <= m < before.len() && before[m] == c;
                    assert(r[m] == c);
                } else {
                    assert(slots[i] == slots.last());
                    assert(r[before.len() as int] == c);
                }
            }
        }
    }
}

proof fn lemma_pda_list(svm: LiteSVM, config: ConfigView, slots: Seq<Slot>)
    ensures
        forall|c: Pubkey| #[trigger]
            crate::mutation::identity::pda_candidates(svm, config, slots).contains(c) <==> exists|i: int|
                0 <= i < slots.len() && #[trigger] is_derived_one(svm, config, slots[i]) && c == slots[i].meta.pubkey,
    decreases slots.len(),
{
    let r = crate::mutation::identity::pda_candidates(svm, config, slots);
    if slots.len() > 0 {
        let d = slots.drop_last();
        lemma_pda_list(svm, config, d);
        let before = crate::mutation::identity::pda_candidates(svm, config, d);
        assert forall|c: Pubkey| #[trigger] r.contains(c) <==> exists|i: int|
            0 <= i < slots.len() && #[trigger] is_derived_one(svm, config, slots[i]) && c == slots[i].meta.pubkey by {
            if r.contains(c) {
                let m = choose|m: int| 0 <= m < r.len() && r[m] == c;
                if m < before.len() {
                    assert(before[m] == c);
                    assert(before.contains(c));
                    let i = choose|i: int| 0 <= i < d.len() && #[trigger] is_derived_one(svm, config, d[i]) && c == d[i].meta.pubkey;
                    assert(slots[i] == d[i]);
                    assert(is_derived_one(svm, config, slots[i]));
                } else {
                    assert(is_derived_one(svm, config, slots[slots.len() - 1]));
                }
            }
            if exists|i: int| 0 <= i < slots.len() && #[trigger] is_derived_one(svm, config, slots[i]) && c == slots[i].meta.pubkey {
                let i = choose|i: int| 0 <= i < slots.len() && #[trigger] is_derived_one(svm, config, slots[i]) && c == slots[i].meta.pubkey;
                if i < d.len() {
                    assert(slots[i] == d[i]);
                    assert(is_derived_one(svm, config, d[i]));
                    assert(before.contains(c));
                    let m = choose|m: int| 0 <= m < before.len() && before[m] == c;
                    assert(r[m] == c);
                } else {
                    assert(slots[i] == slots.last());
                    assert(r[before.len() as int] == c);
                }
            }
        }
    }
}

/// The account has a type: it is neither the program itself nor a sysvar nor a program, and its data begins with a
/// tag.
pub open spec fn has_type(svm: LiteSVM, tags: crate::schema::TagsView, s: Slot) -> bool {
    &&& s.meta.pubkey != s.program_id && !known_sysvar(s.meta.pubkey)
    &&& account_at(svm, s.meta.pubkey) matches Some(a) && !a.executable && a.data.len() > 0 && crate::schema::tag_len(
        tags,
        a.data,
    ) is Some
}

/// The account is a derived one: it exists off the curve, and is neither the program itself nor known to be
/// unverified nor a sysvar nor a program.
pub open spec fn is_derived_one(svm: LiteSVM, config: ConfigView, s: Slot) -> bool {
    let k = s.meta.pubkey;
    &&& k != s.program_id && !config.unverified.contains(k) && !known_sysvar(k) && off_curve(k)
    &&& account_at(svm, k) matches Some(a) && !a.executable
}

/// The findings on owners: one for just those accounts whose owner may be probed, that the transaction reads, and for
/// which it succeeds and does what it did with another owner in the place of the true one.
pub proof fn lemma_owner_findings(found: Findings, p: Probe, config: ConfigView, f: FindingView)
    requires
        found.found_by(p, config),
    ensures
        found.owners.contains(f) <==> exists|s: Slot|
            {
                &&& #[trigger] first_use(p.ixs, s) && owner_open(p.svm, config, s)
                &&& reads(p, s.meta.pubkey)
                &&& goes_on_with(p, s.meta.pubkey, AccountView {
                    owner: stranger(account_at(p.svm, s.meta.pubkey)->0.owner),
                    ..account_at(p.svm, s.meta.pubkey)->0
                })
                &&& f.id == found_id(p, "CC-1 owner"@, s.meta.pubkey)
                &&& f.message == "[CC-1 owner] account "@ + base58(s.meta.pubkey@) + " owner "@ + base58(
                    account_at(p.svm, s.meta.pubkey)->0.owner@,
                ) + "->"@ + base58(stranger(account_at(p.svm, s.meta.pubkey)->0.owner)@) + " instr "@ + call_text(p)
                    + " still succeeded after owner mutation"@
            },
{
    let slots = slots_of(p.ixs);
    let first = first_slots(slots);
    let cs = crate::mutation::identity::owner_candidates(p.svm, config, first);
    lemma_owner_list(p.svm, config, first);
    lemma_owner_members(p, cs);
    if found.owners.contains(f) {
        let i = choose|i: int| 0 <= i < cs.len() && crate::mutation::identity::owner_finding(p, #[trigger] cs[i]) == Some(f);
        assert(cs.contains(cs[i]));
        let m = choose|m: int|
            0 <= m < first.len() && #[trigger] owner_open(p.svm, config, first[m]) && cs[i]
                == (crate::mutation::identity::OwnerCandidate {
                pubkey: first[m].meta.pubkey,
                original_owner: account_at(p.svm, first[m].meta.pubkey)->0.owner,
            });
        let s = first[m];
        let k = s.meta.pubkey;
        let a = account_at(p.svm, k)->0;
        assert(first.contains(s));
        lemma_first_slots(slots, s);
        lemma_reads(p, k);
        lemma_goes_on_with(p, k, AccountView { owner: stranger(a.owner), ..a });
        assert(first_use(p.ixs, s));
    }
    if exists|s: Slot|
            {
                &&& #[trigger] first_use(p.ixs, s) && owner_open(p.svm, config, s)
                &&& reads(p, s.meta.pubkey)
                &&& goes_on_with(p, s.meta.pubkey, AccountView {
                    owner: stranger(account_at(p.svm, s.meta.pubkey)->0.owner),
                    ..account_at(p.svm, s.meta.pubkey)->0
                })
                &&& f.id == found_id(p, "CC-1 owner"@, s.meta.pubkey)
                &&& f.message == "[CC-1 owner] account "@ + base58(s.meta.pubkey@) + " owner "@ + base58(
                    account_at(p.svm, s.meta.pubkey)->0.owner@,
                ) + "->"@ + base58(stranger(account_at(p.svm, s.meta.pubkey)->0.owner)@) + " instr "@ + call_text(p)
                    + " still succeeded after owner mutation"@
            } {
        let s = choose|s: Slot|
            {
                &&& #[trigger] first_use(p.ixs, s) && owner_open(p.svm, config, s)
                &&& reads(p, s.meta.pubkey)
                &&& goes_on_with(p, s.meta.pubkey, AccountView {
                    owner: stranger(account_at(p.svm, s.meta.pubkey)->0.owner),
                    ..account_at(p.svm, s.meta.pubkey)->0
                })
                &&& f.id == found_id(p, "CC-1 owner"@, s.meta.pubkey)
                &&& f.message == "[CC-1 owner] account "@ + base58(s.meta.pubkey@) + " owner "@ + base58(
                    account_at(p.svm, s.meta.pubkey)->0.owner@,
                ) + "->"@ + base58(stranger(account_at(p.svm, s.meta.pubkey)->0.owner)@) + " instr "@ + call_text(p)
                    + " still succeeded after owner mutation"@
            };
        let k = s.meta.pubkey;
        let a = account_at(p.svm, k)->0;
        lemma_first_slots(slots, s);
        assert(first.contains(s));
        let m = choose|m: int| 0 <= m < first.len() && first[m] == s;
        assert(owner_open(p.svm, config, first[m]));
        let c = crate::mutation::identity::OwnerCandidate { pubkey: k, original_owner: a.owner };
        assert(cs.contains(c));
        let i = choose|i: int| 0 <= i < cs.len() && cs[i] == c;
        lemma_reads(p, k);
        lemma_goes_on_with(p, k, AccountView { owner: stranger(a.owner), ..a });
        assert(crate::mutation::identity::owner_finding(p, cs[i]) == Some(f));
    }
}

proof fn lemma_type_members(p: Probe, cs: Seq<Pubkey>)
    ensures
        forall|f: FindingView| #[trigger]
            crate::mutation::identity::type_findings(p, cs).contains(f) <==> exists|i: int|
                0 <= i < cs.len() && crate::mutation::identity::type_finding(p, #[trigger] cs[i]) == Some(f),
    decreases cs.len(),
{
    let r = crate::mutation::identity::type_findings(p, cs);
    if cs.len() > 0 {
        let d = cs.drop_last();
        let before = crate::mutation::identity::type_findings(p, d);
        let o = crate::mutation::identity::type_finding(p, cs.last());
        lemma_type_members(p, d);
        lemma_with_finding(before, o);
        assert forall|f: FindingView| #[trigger] r.contains(f) <==> exists|i: int|
            0 <= i < cs.len() && crate::mutation::identity::type_finding(p, #[trigger] cs[i]) == Some(f) by {
            if before.contains(f) {
                let i = choose|i: int| 0 <= i < d.len() && crate::mutation::identity::type_finding(p, #[trigger] d[i]) == Some(f);
                assert(cs[i] == d[i]);
            }
            if o == Some(f) {
                assert(cs[cs.len() - 1] == cs.last());
            }
            if exists|i: int| 0 <= i < cs.len() && crate::mutation::identity::type_finding(p, #[trigger] cs[i]) == Some(f) {
                let i = choose|i: int| 0 <= i < cs.len() && crate::mutation::identity::type_finding(p, #[trigger] cs[i]) == Some(f);
                if i < d.len() {
                    assert(d[i] == cs[i]);
                    assert(before.contains(f));
                }
            }
        }
    }
}

/// The findings on types: one for just those accounts that have a type and that the transaction reads, for which it
/// succeeds and does what it did with every bit of the tag turned over.
pub proof fn lemma_type_findings(found: Findings, p: Probe, config: ConfigView, f: FindingView)
    requires
        found.found_by(p, config),
    ensures
        found.types.contains(f) <==> exists|s: Slot, data: Seq<u8>|
            {
                &&& #[trigger] first_use(p.ixs, s) && has_type(p.svm, p.tags, s)
                &&& reads(p, s.meta.pubkey)
                &&& #[trigger] flipped(account_at(p.svm, s.meta.pubkey)->0.data, crate::schema::tag_len(
                    p.tags,
                    account_at(p.svm, s.meta.pubkey)->0.data,
                )->0 as int, data)
                &&& goes_on_with(p, s.meta.pubkey, AccountView { data, ..account_at(p.svm, s.meta.pubkey)->0 })
                &&& f.id == found_id(p, "CC-5 type-tag"@, s.meta.pubkey)
                &&& f.message == "[CC-5 type-tag] account "@ + base58(s.meta.pubkey@)
                    + " discriminator bit-flipped, instr "@ + call_text(p)
                    + " still succeeded (missing discriminator check)"@
            },
{
    let slots = slots_of(p.ixs);
    let first = first_slots(slots);
    let cs = crate::mutation::identity::typed_candidates(p.svm, p.tags, first);
    lemma_typed_list(p.svm, p.tags, first);
    lemma_type_members(p, cs);
    if found.types.contains(f) {
        let i = choose|i: int| 0 <= i < cs.len() && crate::mutation::identity::type_finding(p, #[trigger] cs[i]) == Some(f);
        assert(cs.contains(cs[i]));
        let m = choose|m: int| 0 <= m < first.len() && #[trigger] has_type(p.svm, p.tags, first[m]) && cs[i] == first[m].meta.pubkey;
        let s = first[m];
        let k = s.meta.pubkey;
        let a = account_at(p.svm, k)->0;
        let n = crate::schema::tag_len(p.tags, a.data)->0 as int;
        let data = crate::mutation::identity::tag_flipped(a.data, n);
        assert(first.contains(s));
        lemma_first_slots(slots, s);
        lemma_reads(p, k);
        lemma_goes_on_with(p, k, AccountView { data, ..a });
        assert(first_use(p.ixs, s));
        assert(flipped(a.data, n, data));
    }
    if exists|s: Slot, data: Seq<u8>|
            {
                &&& #[trigger] first_use(p.ixs, s) && has_type(p.svm, p.tags, s)
                &&& reads(p, s.meta.pubkey)
                &&& #[trigger] flipped(account_at(p.svm, s.meta.pubkey)->0.data, crate::schema::tag_len(
                    p.tags,
                    account_at(p.svm, s.meta.pubkey)->0.data,
                )->0 as int, data)
                &&& goes_on_with(p, s.meta.pubkey, AccountView { data, ..account_at(p.svm, s.meta.pubkey)->0 })
                &&& f.id == found_id(p, "CC-5 type-tag"@, s.meta.pubkey)
                &&& f.message == "[CC-5 type-tag] account "@ + base58(s.meta.pubkey@)
                    + " discriminator bit-flipped, instr "@ + call_text(p)
                    + " still succeeded (missing discriminator check)"@
            } {
        let (s, data) = choose|s: Slot, data: Seq<u8>|
            {
                &&& #[trigger] first_use(p.ixs, s) && has_type(p.svm, p.tags, s)
                &&& reads(p, s.meta.pubkey)
                &&& #[trigger] flipped(account_at(p.svm, s.meta.pubkey)->0.data, crate::schema::tag_len(
                    p.tags,
                    account_at(p.svm, s.meta.pubkey)->0.data,
                )->0 as int, data)
                &&& goes_on_with(p, s.meta.pubkey, AccountView { data, ..account_at(p.svm, s.meta.pubkey)->0 })
                &&& f.id == found_id(p, "CC-5 type-tag"@, s.meta.pubkey)
                &&& f.message == "[CC-5 type-tag] account "@ + base58(s.meta.pubkey@)
                    + " discriminator bit-flipped, instr "@ + call_text(p)
                    + " still succeeded (missing discriminator check)"@
            };
        let k = s.meta.pubkey;
        let a = account_at(p.svm, k)->0;
        let n = crate::schema::tag_len(p.tags, a.data)->0 as int;
        assert(data =~= crate::mutation::identity::tag_flipped(a.data, n));
        lemma_first_slots(slots, s);
        assert(first.contains(s));
        let m = choose|m: int| 0 <= m < first.len() && first[m] == s;
        assert(has_type(p.svm, p.tags, first[m]));
        assert(cs.contains(k));
        let i = choose|i: int| 0 <= i < cs.len() && cs[i] == k;
        lemma_reads(p, k);
        lemma_goes_on_with(p, k, AccountView { data, ..a });
        assert(crate::mutation::identity::type_finding(p, cs[i]) == Some(f));
    }
}

/// `out` is the data with every bit of its first `n` bytes turned over.
pub open spec fn flipped(data: Seq<u8>, n: int, out: Seq<u8>) -> bool {
    out.len() == data.len() && forall|i: int| 0 <= i < data.len() ==> #[trigger] out[i] == if i < n { !data[i] } else { data[i] }
}

proof fn lemma_pda_members(p: Probe, cs: Seq<Pubkey>)
    ensures
        forall|f: FindingView| #[trigger]
            crate::mutation::identity::pda_findings(p, cs).contains(f) <==> exists|i: int|
                0 <= i < cs.len() && crate::mutation::identity::pda_finding(p, #[trigger] cs[i]) == Some(f),
    decreases cs.len(),
{
    let r = crate::mutation::identity::pda_findings(p, cs);
    if cs.len() > 0 {
        let d = cs.drop_last();
        let before = crate::mutation::identity::pda_findings(p, d);
        let o = crate::mutation::identity::pda_finding(p, cs.last());
        lemma_pda_members(p, d);
        lemma_with_finding(before, o);
        assert forall|f: FindingView| #[trigger] r.contains(f) <==> exists|i: int|
            0 <= i < cs.len() && crate::mutation::identity::pda_finding(p, #[trigger] cs[i]) == Some(f) by {
            if before.contains(f) {
                let i = choose|i: int| 0 <= i < d.len() && crate::mutation::identity::pda_finding(p, #[trigger] d[i]) == Some(f);
                assert(cs[i] == d[i]);
            }
            if o == Some(f) {
                assert(cs[cs.len() - 1] == cs.last());
            }
            if exists|i: int| 0 <= i < cs.len() && crate::mutation::identity::pda_finding(p, #[trigger] cs[i]) == Some(f) {
                let i = choose|i: int| 0 <= i < cs.len() && crate::mutation::identity::pda_finding(p, #[trigger] cs[i]) == Some(f);
                if i < d.len() {
                    assert(d[i] == cs[i]);
                    assert(before.contains(f));
                }
            }
        }
    }
}

/// The findings on derived addresses: one for just those derived accounts that the transaction reads or needs the
/// lamports of, for which it succeeds and does what it did with a copy of another owner at another address.
pub proof fn lemma_pda_findings(found: Findings, p: Probe, config: ConfigView, f: FindingView)
    requires
        found.found_by(p, config),
    ensures
        found.pdas.contains(f) <==> exists|s: Slot|
            {
                &&& #[trigger] first_use(p.ixs, s) && is_derived_one(p.svm, config, s)
                &&& reads(p, s.meta.pubkey) || needs_lamports(p, s.meta.pubkey)
                &&& goes_on_without(p, s.meta.pubkey, stand_in(s.meta.pubkey), AccountView {
                    owner: stranger(account_at(p.svm, s.meta.pubkey)->0.owner),
                    ..account_at(p.svm, s.meta.pubkey)->0
                })
                &&& f.id == found_id(p, "CC-3 pda-spoof"@, s.meta.pubkey)
                &&& f.message == "[CC-3 pda-spoof] account "@ + base58(s.meta.pubkey@) + " substituted with decoy "@ + base58(
                    stand_in(s.meta.pubkey)@,
                ) + " owner "@ + base58(account_at(p.svm, s.meta.pubkey)->0.owner@) + "->"@ + base58(
                    stranger(account_at(p.svm, s.meta.pubkey)->0.owner)@,
                ) + " instr "@ + call_text(p) + " still succeeded (missing PDA derivation/owner check)"@
            },
{
    let slots = slots_of(p.ixs);
    let first = first_slots(slots);
    let cs = crate::mutation::identity::pda_candidates(p.svm, config, first);
    lemma_pda_list(p.svm, config, first);
    lemma_pda_members(p, cs);
    if found.pdas.contains(f) {
        let i = choose|i: int| 0 <= i < cs.len() && crate::mutation::identity::pda_finding(p, #[trigger] cs[i]) == Some(f);
        assert(cs.contains(cs[i]));
        let m = choose|m: int| 0 <= m < first.len() && #[trigger] is_derived_one(p.svm, config, first[m]) && cs[i] == first[m].meta.pubkey;
        let s = first[m];
        let k = s.meta.pubkey;
        let a = account_at(p.svm, k)->0;
        assert(first.contains(s));
        lemma_first_slots(slots, s);
        lemma_reads(p, k);
        lemma_goes_on_without(p, k, stand_in(k), AccountView { owner: stranger(a.owner), ..a });
        assert(first_use(p.ixs, s));
    }
    if exists|s: Slot|
            {
                &&& #[trigger] first_use(p.ixs, s) && is_derived_one(p.svm, config, s)
                &&& reads(p, s.meta.pubkey) || needs_lamports(p, s.meta.pubkey)
                &&& goes_on_without(p, s.meta.pubkey, stand_in(s.meta.pubkey), AccountView {
                    owner: stranger(account_at(p.svm, s.meta.pubkey)->0.owner),
                    ..account_at(p.svm, s.meta.pubkey)->0
                })
                &&& f.id == found_id(p, "CC-3 pda-spoof"@, s.meta.pubkey)
                &&& f.message == "[CC-3 pda-spoof] account "@ + base58(s.meta.pubkey@) + " substituted with decoy "@ + base58(
                    stand_in(s.meta.pubkey)@,
                ) + " owner "@ + base58(account_at(p.svm, s.meta.pubkey)->0.owner@) + "->"@ + base58(
                    stranger(account_at(p.svm, s.meta.pubkey)->0.owner)@,
                ) + " instr "@ + call_text(p) + " still succeeded (missing PDA derivation/owner check)"@
            } {
        let s = choose|s: Slot|
            {
                &&& #[trigger] first_use(p.ixs, s) && is_derived_one(p.svm, config, s)
                &&& reads(p, s.meta.pubkey) || needs_lamports(p, s.meta.pubkey)
                &&& goes_on_without(p, s.meta.pubkey, stand_in(s.meta.pubkey), AccountView {
                    owner: stranger(account_at(p.svm, s.meta.pubkey)->0.owner),
                    ..account_at(p.svm, s.meta.pubkey)->0
                })
                &&& f.id == found_id(p, "CC-3 pda-spoof"@, s.meta.pubkey)
                &&& f.message == "[CC-3 pda-spoof] account "@ + base58(s.meta.pubkey@) + " substituted with decoy "@ + base58(
                    stand_in(s.meta.pubkey)@,
                ) + " owner "@ + base58(account_at(p.svm, s.meta.pubkey)->0.owner@) + "->"@ + base58(
                    stranger(account_at(p.svm, s.meta.pubkey)->0.owner)@,
                ) + " instr "@ + call_text(p) + " still succeeded (missing PDA derivation/owner check)"@
            };
        let k = s.meta.pubkey;
        let a = account_at(p.svm, k)->0;
        lemma_first_slots(slots, s);
        assert(first.contains(s));
        let m = choose|m: int| 0 <= m < first.len() && first[m] == s;
        assert(is_derived_one(p.svm, config, first[m]));
        assert(cs.contains(k));
        let i = choose|i: int| 0 <= i < cs.len() && cs[i] == k;
        lemma_reads(p, k);
        lemma_goes_on_without(p, k, stand_in(k), AccountView { owner: stranger(a.owner), ..a });
        assert(crate::mutation::identity::pda_finding(p, cs[i]) == Some(f));
    }
}

/// The findings on signers: one for just those accounts but the payer that an instruction asks to sign, or that a
/// key pair was supplied for and an instruction uses, for which the run with their flag cleared succeeds and
/// leaves the accounts that the instructions use as the unmutated run left them.
pub proof fn lemma_signer_findings(found: Findings, p: Probe, config: ConfigView, f: FindingView)
    requires
        found.found_by(p, config),
    ensures
        found.signers.contains(f) <==> exists|k: Pubkey|
            {
                &&& k != p.payer.key
                &&& asks(p.ixs, k) || (uses(p.ixs, k) && exists|i: int| 0 <= i < p.signers.len() && (#[trigger] p.signers[i]).key == k)
                &&& #[trigger] needs_no_signature(p, k)
                &&& f.id == found_id(p, "CC-4 signer"@, k)
                &&& f.message == "[CC-4 signer] account "@ + base58(k@) + " "@ + (if asks(p.ixs, k) {
                    "is_signer cleared"@
                } else {
                    "signer keypair supplied but account meta was not signer"@
                }) + ", instr "@ + call_text(p) + " still succeeded (missing signer check)"@
            },
{
    lemma_signer_list_findings(p, f);
}

proof fn lemma_sysvar_members(p: Probe, cs: Seq<Pubkey>)
    ensures
        forall|f: FindingView| #[trigger]
            crate::mutation::identity::sysvar_findings(p, cs).contains(f) <==> exists|i: int|
                0 <= i < cs.len() && crate::mutation::identity::sysvar_finding(p, #[trigger] cs[i]) == Some(f),
    decreases cs.len(),
{
    let r = crate::mutation::identity::sysvar_findings(p, cs);
    if cs.len() > 0 {
        let d = cs.drop_last();
        let before = crate::mutation::identity::sysvar_findings(p, d);
        let o = crate::mutation::identity::sysvar_finding(p, cs.last());
        lemma_sysvar_members(p, d);
        lemma_with_finding(before, o);
        assert forall|f: FindingView| #[trigger] r.contains(f) <==> exists|i: int|
            0 <= i < cs.len() && crate::mutation::identity::sysvar_finding(p, #[trigger] cs[i]) == Some(f) by {
            if before.contains(f) {
                let i = choose|i: int| 0 <= i < d.len() && crate::mutation::identity::sysvar_finding(p, #[trigger] d[i]) == Some(f);
                assert(cs[i] == d[i]);
            }
            if o == Some(f) {
                assert(cs[cs.len() - 1] == cs.last());
            }
            if exists|i: int| 0 <= i < cs.len() && crate::mutation::identity::sysvar_finding(p, #[trigger] cs[i]) == Some(f) {
                let i = choose|i: int| 0 <= i < cs.len() && crate::mutation::identity::sysvar_finding(p, #[trigger] cs[i]) == Some(f);
                if i < d.len() {
                    assert(d[i] == cs[i]);
                    assert(before.contains(f));
                }
            }
        }
    }
}

proof fn lemma_sysvar_list(slots: Seq<Slot>, k: Pubkey)
    ensures
        crate::mutation::identity::sysvar_candidates(slots).contains(k) <==> known_sysvar(k) && exists|i: int|
            0 <= i < slots.len() && (#[trigger] slots[i]).meta.pubkey == k && slots[i].program_id != k,
    decreases slots.len(),
{
    if slots.len() > 0 {
        let d = slots.drop_last();
        let last = slots.last();
        lemma_sysvar_list(d, k);
        lemma_with_key(crate::mutation::identity::sysvar_candidates(d), last.meta.pubkey);
        if exists|i: int| 0 <= i < d.len() && (#[trigger] d[i]).meta.pubkey == k && d[i].program_id != k {
            let i = choose|i: int| 0 <= i < d.len() && (#[trigger] d[i]).meta.pubkey == k && d[i].program_id != k;
            assert(slots[i] == d[i]);
        }
        if exists|i: int| 0 <= i < slots.len() && (#[trigger] slots[i]).meta.pubkey == k && slots[i].program_id != k {
            let i = choose|i: int| 0 <= i < slots.len() && (#[trigger] slots[i]).meta.pubkey == k && slots[i].program_id != k;
            if i < d.len() {
                assert(slots[i] == d[i]);
            }
        }
        if last.meta.pubkey == k {
            assert(slots[slots.len() - 1].meta.pubkey == k);
        }
    }
}

/// The transaction takes the value of the sysvar `k` from a copy at `decoy`: with another value in the sysvar itself,
/// and the copy wherever the sysvar stood, it succeeds, leaves in the copy what it left in the sysvar, and all
/// else that is used as it did.
pub open spec fn takes_copy(p: Probe, k: Pubkey, decoy: Pubkey) -> bool {
    let copied = svm_with_account(p.svm, decoy, account_at(p.svm, k)->0);
    let svm = crate::sysvars::poisoned(copied.0, k)->0;
    account_at(p.svm, k) is Some && copied.1 && crate::sysvars::poisoned(copied.0, k) is Some && exists|
        ixs: Seq<InstructionView>,
    |
        {
            &&& #[trigger] swapped(p.ixs, k, decoy, ixs)
            &&& run_succeeds(svm, ixs, p.signers, p.payer, p.sigverify)
            &&& account_at(run_result(svm, ixs, p.signers, p.payer, p.sigverify).0, decoy) == account_at(p.after, k)
            &&& forall|x: Pubkey|
                #![trigger account_at(p.after, x)]
                (uses(p.ixs, x) || uses(ixs, x) || x == p.payer.key) && x != k && x != decoy ==> account_at(
                    run_result(svm, ixs, p.signers, p.payer, p.sigverify).0,
                    x,
                ) == account_at(p.after, x)
        }
}

proof fn lemma_takes_copy(p: Probe, k: Pubkey, decoy: Pubkey)
    ensures
        crate::mutation::identity::sysvar_swap_survives(p, k, decoy) == takes_copy(p, k, decoy),
{
    if account_at(p.svm, k) is Some {
        let a = account_at(p.svm, k)->0;
        let w = svm_with_account(p.svm, decoy, a).0;
        if crate::sysvars::poisoned(w, k) is Some {
            let svm = crate::sysvars::poisoned(w, k)->0;
            let ixs = rewritten(p.ixs, k, decoy);
            let pair = seq![(k, decoy)];
            let none = Seq::<Pubkey>::empty();
            let after = run_result(svm, ixs, p.signers, p.payer, p.sigverify).0;
            lemma_changed(p.ixs, k, decoy, ixs);
            assert(swapped(p.ixs, k, decoy, ixs));
            assert(pair[0] == (k, decoy));
            if survives(p, svm, ixs, p.signers, pair, none) {
                assert forall|x: Pubkey|
                    #![trigger account_at(p.after, x)]
                    (uses(p.ixs, x) || uses(ixs, x) || x == p.payer.key) && x != k && x != decoy implies account_at(after, x)
                    == account_at(p.after, x) by {
                    lemma_uses(p.ixs, x);
                    lemma_uses(ixs, x);
                    assert(watched(p.ixs, ixs, p.payer.key, x));
                    assert(!paired(pair, x));
                }
            }
            if takes_copy(p, k, decoy) {
                let out = choose|out: Seq<InstructionView>|
                    {
                        &&& #[trigger] swapped(p.ixs, k, decoy, out)
                        &&& run_succeeds(svm, out, p.signers, p.payer, p.sigverify)
                        &&& account_at(run_result(svm, out, p.signers, p.payer, p.sigverify).0, decoy) == account_at(
                            p.after,
                            k,
                        )
                        &&& forall|x: Pubkey|
                            #![trigger account_at(p.after, x)]
                            (uses(p.ixs, x) || uses(out, x) || x == p.payer.key) && x != k && x != decoy ==> account_at(
                                run_result(svm, out, p.signers, p.payer, p.sigverify).0,
                                x,
                            ) == account_at(p.after, x)
                    };
                lemma_changed(p.ixs, k, decoy, out);
                assert forall|x: Pubkey| #[trigger]
                    watched(p.ixs, ixs, p.payer.key, x) && !none.contains(x) && !paired(pair, x) implies account_at(p.after, x)
                    == account_at(after, x) by {
                    lemma_uses(p.ixs, x);
                    lemma_uses(ixs, x);
                    if x == k || x == decoy {
                        assert(pair[0].0 == x || pair[0].1 == x);
                    }
                    assert(account_at(p.after, x) == account_at(p.after, x));
                }
                assert(survives(p, svm, ixs, p.signers, pair, none));
            }
        }
    }
}

/// The findings on sysvars: one for just those sysvars that an instruction of another program uses and that the
/// transaction reads, for which it takes the value from a copy at another address.
pub proof fn lemma_sysvar_findings(found: Findings, p: Probe, config: ConfigView, f: FindingView)
    requires
        found.found_by(p, config),
    ensures
        found.sysvars.contains(f) <==> exists|k: Pubkey|
            {
                &&& known_sysvar(k) && exists|i: int|
                    0 <= i < slots_of(p.ixs).len() && (#[trigger] slots_of(p.ixs)[i]).meta.pubkey == k && slots_of(p.ixs)[i].program_id
                        != k
                &&& reads(p, k)
                &&& #[trigger] takes_copy(p, k, stand_in(k))
                &&& f.id == found_id(p, "CC-2 sysvar"@, k)
                &&& f.message == "[CC-2 sysvar] account "@ + base58(k@) + " substituted with decoy "@ + base58(stand_in(k)@)
                    + " instr "@ + call_text(p) + " still succeeded (missing sysvar identity check)"@
            },
{
    let slots = slots_of(p.ixs);
    let cs = crate::mutation::identity::sysvar_candidates(slots);
    lemma_sysvar_members(p, cs);
    if found.sysvars.contains(f) {
        let i = choose|i: int| 0 <= i < cs.len() && crate::mutation::identity::sysvar_finding(p, #[trigger] cs[i]) == Some(f);
        let k = cs[i];
        assert(cs.contains(k));
        lemma_sysvar_list(slots, k);
        lemma_reads(p, k);
        lemma_takes_copy(p, k, stand_in(k));
        assert(takes_copy(p, k, stand_in(k)));
    }
    if exists|k: Pubkey|
            {
                &&& known_sysvar(k) && exists|i: int|
                    0 <= i < slots_of(p.ixs).len() && (#[trigger] slots_of(p.ixs)[i]).meta.pubkey == k && slots_of(p.ixs)[i].program_id
                        != k
                &&& reads(p, k)
                &&& #[trigger] takes_copy(p, k, stand_in(k))
                &&& f.id == found_id(p, "CC-2 sysvar"@, k)
                &&& f.message == "[CC-2 sysvar] account "@ + base58(k@) + " substituted with decoy "@ + base58(stand_in(k)@)
                    + " instr "@ + call_text(p) + " still succeeded (missing sysvar identity check)"@
            } {
        let k = choose|k: Pubkey|
            {
                &&& known_sysvar(k) && exists|i: int|
                    0 <= i < slots_of(p.ixs).len() && (#[trigger] slots_of(p.ixs)[i]).meta.pubkey == k && slots_of(p.ixs)[i].program_id
                        != k
                &&& reads(p, k)
                &&& #[trigger] takes_copy(p, k, stand_in(k))
                &&& f.id == found_id(p, "CC-2 sysvar"@, k)
                &&& f.message == "[CC-2 sysvar] account "@ + base58(k@) + " substituted with decoy "@ + base58(stand_in(k)@)
                    + " instr "@ + call_text(p) + " still succeeded (missing sysvar identity check)"@
            };
        lemma_sysvar_list(slots, k);
        assert(cs.contains(k));
        let i = choose|i: int| 0 <= i < cs.len() && cs[i] == k;
        lemma_reads(p, k);
        lemma_takes_copy(p, k, stand_in(k));
        assert(crate::mutation::identity::sysvar_finding(p, cs[i]) == Some(f));
    }
}

proof fn lemma_forwarded_members(p: Probe, cs: Seq<Pubkey>)
    ensures
        forall|f: FindingView| #[trigger]
            crate::mutation::alias::forwarded_findings(p, cs).contains(f) <==> exists|i: int|
                0 <= i < cs.len() && crate::mutation::alias::forwarded_finding(p, #[trigger] cs[i]) == Some(f),
    decreases cs.len(),
{
    let r = crate::mutation::alias::forwarded_findings(p, cs);
    if cs.len() > 0 {
        let d = cs.drop_last();
        let before = crate::mutation::alias::forwarded_findings(p, d);
        let o = crate::mutation::alias::forwarded_finding(p, cs.last());
        lemma_forwarded_members(p, d);
        lemma_with_finding(before, o);
        assert forall|f: FindingView| #[trigger] r.contains(f) <==> exists|i: int|
            0 <= i < cs.len() && crate::mutation::alias::forwarded_finding(p, #[trigger] cs[i]) == Some(f) by {
            if before.contains(f) {
                let i = choose|i: int| 0 <= i < d.len() && crate::mutation::alias::forwarded_finding(p, #[trigger] d[i]) == Some(f);
                assert(cs[i] == d[i]);
            }
            if o == Some(f) {
                assert(cs[cs.len() - 1] == cs.last());
            }
            if exists|i: int| 0 <= i < cs.len() && crate::mutation::alias::forwarded_finding(p, #[trigger] cs[i]) == Some(f) {
                let i = choose|i: int| 0 <= i < cs.len() && crate::mutation::alias::forwarded_finding(p, #[trigger] cs[i]) == Some(f);
                if i < d.len() {
                    assert(d[i] == cs[i]);
                    assert(before.contains(f));
                }
            }
        }
    }
}

/// With `account` at `k`, the transaction succeeds and changes some account that it uses, or the payer, apart from `k`.
pub open spec fn still_acts_with(p: Probe, k: Pubkey, account: AccountView) -> bool {
    let w = svm_with_account(p.svm, k, account);
    &&& w.1 && run_succeeds(w.0, p.ixs, p.signers, p.payer, p.sigverify)
    &&& exists|x: Pubkey|
        (uses(p.ixs, x) || x == p.payer.key) && x != k && account_at(
            run_result(w.0, p.ixs, p.signers, p.payer, p.sigverify).0,
            x,
        ) != #[trigger] account_at(p.svm, x)
}

proof fn lemma_still_acts(p: Probe, k: Pubkey, account: AccountView)
    ensures
        crate::mutation::alias::forgery_works(p, k, account) == still_acts_with(p, k, account),
{
    let w = svm_with_account(p.svm, k, account);
    let none = Seq::<(Pubkey, Pubkey)>::empty();
    let after = run_result(w.0, p.ixs, p.signers, p.payer, p.sigverify).0;
    let left_out = seq![k];
    assert forall|x: Pubkey| !paired(none, x) by {}
    if effects_match(p.svm, after, p.ixs, p.ixs, none, left_out, p.payer.key) {
        assert forall|x: Pubkey| (uses(p.ixs, x) || x == p.payer.key) && x != k implies account_at(after, x)
            == #[trigger] account_at(p.svm, x) by {
            lemma_uses(p.ixs, x);
            assert(watched(p.ixs, p.ixs, p.payer.key, x));
            assert(!left_out.contains(x));
        }
    } else {
        let x = choose|x: Pubkey| #[trigger]
            watched(p.ixs, p.ixs, p.payer.key, x) && !left_out.contains(x) && !paired(none, x) && account_at(p.svm, x)
                != account_at(after, x);
        lemma_uses(p.ixs, x);
        if x == k {
            assert(left_out[0] == x);
        }
        assert(account_at(after, x) != account_at(p.svm, x));
    }
}

/// `b` is a forgery of `a`: it has another owner, or its data is corrupted, and all else is the same.
pub open spec fn forges(a: AccountView, b: AccountView) -> bool {
    &&& b.lamports == a.lamports && b.executable == a.executable && b.rent_epoch == a.rent_epoch
    &&& (b.owner == stranger(a.owner) && b.data == a.data) || (b.owner == a.owner && spoils(a.data, b.data))
}

proof fn lemma_forges(a: AccountView, b: AccountView)
    ensures
        crate::mutation::alias::forgeries(a).contains(b) <==> forges(a, b),
{
    let fs = crate::mutation::alias::forgeries(a);
    let cs = corruptions(a.data);
    let first = AccountView { owner: stranger(a.owner), ..a };
    assert(fs[0] == first);
    lemma_corrupted_ways(a.data, b.data);
    if fs.contains(b) {
        let i = choose|i: int| 0 <= i < fs.len() && fs[i] == b;
        if i > 0 {
            assert(b == (AccountView { data: cs[i - 1], ..a }));
            assert(cs.contains(b.data));
        }
    }
    if forges(a, b) {
        if b.owner == stranger(a.owner) && b.data == a.data {
            assert(b == first);
        } else {
            let i = choose|i: int| 0 <= i < cs.len() && cs[i] == b.data;
            assert(fs[i + 1] == b);
        }
    }
}

/// The findings on accounts that are passed on: one for just those accounts of the instructions that the unmutated
/// transaction passed on to another program, of which some forgery is accepted while the transaction still
/// changes something else.
pub proof fn lemma_forwarded_findings(found: Findings, p: Probe, config: ConfigView, f: FindingView)
    requires
        found.found_by(p, config),
    ensures
        found.passed_on.contains(f) <==> exists|k: Pubkey, forged: AccountView|
            {
                &&& uses(p.ixs, k) && p.forwarded.contains(k) && account_at(p.svm, k) is Some
                &&& forges(account_at(p.svm, k)->0, forged)
                &&& #[trigger] still_acts_with(p, k, forged)
                &&& f.id == found_id(p, "CC-13 forwarded-account"@, k)
                &&& f.message == "[CC-13 forwarded-account] account "@ + base58(k@)
                    + " forwarded into a downstream CPI was replaced with a malformed account, instr "@ + call_text(p)
                    + " still succeeded and changed state (forwarded account not validated before the CPI)"@
            },
{
    let keys = account_keys(p.ixs);
    lemma_forwarded_members(p, keys);
    if found.passed_on.contains(f) {
        let i = choose|i: int| 0 <= i < keys.len() && crate::mutation::alias::forwarded_finding(p, #[trigger] keys[i]) == Some(f);
        let k = keys[i];
        assert(keys.contains(k));
        lemma_uses(p.ixs, k);
        let a = account_at(p.svm, k)->0;
        let fs = crate::mutation::alias::forgeries(a);
        let m = choose|m: int| 0 <= m < fs.len() && crate::mutation::alias::forgery_works(p, k, #[trigger] fs[m]);
        let forged = fs[m];
        assert(fs.contains(forged));
        lemma_forges(a, forged);
        lemma_still_acts(p, k, forged);
        assert(still_acts_with(p, k, forged));
    }
    if exists|k: Pubkey, forged: AccountView|
            {
                &&& uses(p.ixs, k) && p.forwarded.contains(k) && account_at(p.svm, k) is Some
                &&& forges(account_at(p.svm, k)->0, forged)
                &&& #[trigger] still_acts_with(p, k, forged)
                &&& f.id == found_id(p, "CC-13 forwarded-account"@, k)
                &&& f.message == "[CC-13 forwarded-account] account "@ + base58(k@)
                    + " forwarded into a downstream CPI was replaced with a malformed account, instr "@ + call_text(p)
                    + " still succeeded and changed state (forwarded account not validated before the CPI)"@
            } {
        let (k, forged) = choose|k: Pubkey, forged: AccountView|
            {
                &&& uses(p.ixs, k) && p.forwarded.contains(k) && account_at(p.svm, k) is Some
                &&& forges(account_at(p.svm, k)->0, forged)
                &&& #[trigger] still_acts_with(p, k, forged)
                &&& f.id == found_id(p, "CC-13 forwarded-account"@, k)
                &&& f.message == "[CC-13 forwarded-account] account "@ + base58(k@)
                    + " forwarded into a downstream CPI was replaced with a malformed account, instr "@ + call_text(p)
                    + " still succeeded and changed state (forwarded account not validated before the CPI)"@
            };
        lemma_uses(p.ixs, k);
        let i = choose|i: int| 0 <= i < keys.len() && keys[i] == k;
        let a = account_at(p.svm, k)->0;
        let fs = crate::mutation::alias::forgeries(a);
        lemma_forges(a, forged);
        lemma_still_acts(p, k, forged);
        let m = choose|m: int| 0 <= m < fs.len() && fs[m] == forged;
        assert(crate::mutation::alias::forgery_works(p, k, fs[m]));
        assert(crate::mutation::alias::forwarded_finding(p, keys[i]) == Some(f));
    }
}

proof fn lemma_pairs_to(s: Seq<Pubkey>, n: int)
    requires
        0 <= n <= s.len(),
    ensures
        forall|x: (Pubkey, Pubkey)| #[trigger]
            crate::mutation::accounts::pairs_upto(s, n).contains(x) <==> exists|i: int, j: int|
                0 <= i < n && i < j < s.len() && #[trigger] s[i] == x.0 && #[trigger] s[j] == x.1,
    decreases n,
{
    if n > 0 {
        lemma_pairs_to(s, n - 1);
        let before = crate::mutation::accounts::pairs_upto(s, n - 1);
        let own = crate::mutation::accounts::pairs_at(s, n - 1);
        let r = crate::mutation::accounts::pairs_upto(s, n);
        assert forall|x: (Pubkey, Pubkey)| #[trigger] r.contains(x) <==> exists|i: int, j: int|
            0 <= i < n && i < j < s.len() && #[trigger] s[i] == x.0 && #[trigger] s[j] == x.1 by {
            if r.contains(x) {
                let m = choose|m: int| 0 <= m < r.len() && r[m] == x;
                if m < before.len() {
                    assert(before[m] == x);
                    assert(before.contains(x));
                } else {
                    let q = m - before.len();
                    assert(own[q] == x);
                    assert(s[n - 1] == x.0 && s[n + q] == x.1);
                }
            }
            if exists|i: int, j: int| 0 <= i < n && i < j < s.len() && #[trigger] s[i] == x.0 && #[trigger] s[j] == x.1 {
                let (i, j) = choose|i: int, j: int|
                    0 <= i < n && i < j < s.len() && #[trigger] s[i] == x.0 && #[trigger] s[j] == x.1;
                if i < n - 1 {
                    assert(before.contains(x));
                    let m = choose|m: int| 0 <= m < before.len() && before[m] == x;
                    assert(r[m] == x);
                } else {
                    assert(own[j - n] == x);
                    assert(r[before.len() + (j - n)] == x);
                }
            }
        }
    }
}

/// The pairs of a list are those of any two members, the earlier one first.
pub proof fn lemma_pairs_of_list(s: Seq<Pubkey>, a: Pubkey, b: Pubkey)
    ensures
        crate::mutation::accounts::all_pairs(s).contains((a, b)) <==> exists|i: int, j: int|
            0 <= i < j < s.len() && #[trigger] s[i] == a && #[trigger] s[j] == b,
{
    lemma_pairs_to(s, s.len() as int);
    if exists|i: int, j: int| 0 <= i < j < s.len() && #[trigger] s[i] == a && #[trigger] s[j] == b {
        let (i, j) = choose|i: int, j: int| 0 <= i < j < s.len() && #[trigger] s[i] == a && #[trigger] s[j] == b;
        assert(s[i] == (a, b).0 && s[j] == (a, b).1);
    }
}

/// Of two accounts that the instructions use, the first is used before the second.
pub open spec fn comes_before(ixs: Seq<InstructionView>, a: Pubkey, b: Pubkey) -> bool {
    exists|i: int, j: int|
        0 <= i < j < account_keys(ixs).len() && #[trigger] account_keys(ixs)[i] == a && #[trigger] account_keys(ixs)[j] == b
}

proof fn lemma_duplicate_members(p: Probe, cs: Seq<(Pubkey, Pubkey)>)
    ensures
        forall|f: FindingView| #[trigger]
            crate::mutation::alias::duplicate_findings(p, cs).contains(f) <==> exists|i: int|
                0 <= i < cs.len() && crate::mutation::alias::duplicate_finding(p, (#[trigger] cs[i]).0, cs[i].1) == Some(f),
    decreases cs.len(),
{
    let r = crate::mutation::alias::duplicate_findings(p, cs);
    if cs.len() > 0 {
        let d = cs.drop_last();
        let before = crate::mutation::alias::duplicate_findings(p, d);
        let o = crate::mutation::alias::duplicate_finding(p, cs.last().0, cs.last().1);
        lemma_duplicate_members(p, d);
        lemma_with_finding(before, o);
        assert forall|f: FindingView| #[trigger] r.contains(f) <==> exists|i: int|
            0 <= i < cs.len() && crate::mutation::alias::duplicate_finding(p, (#[trigger] cs[i]).0, cs[i].1) == Some(f) by {
            if before.contains(f) {
                let i = choose|i: int| 0 <= i < d.len() && crate::mutation::alias::duplicate_finding(p, (#[trigger] d[i]).0, d[i].1) == Some(f);
                assert(cs[i] == d[i]);
            }
            if o == Some(f) {
                assert(cs[cs.len() - 1] == cs.last());
            }
            if exists|i: int| 0 <= i < cs.len() && crate::mutation::alias::duplicate_finding(p, (#[trigger] cs[i]).0, cs[i].1) == Some(f) {
                let i = choose|i: int| 0 <= i < cs.len() && crate::mutation::alias::duplicate_finding(p, (#[trigger] cs[i]).0, cs[i].1) == Some(f);
                if i < d.len() {
                    assert(d[i] == cs[i]);
                    assert(before.contains(f));
                }
            }
        }
    }
}

/// The two accounts can be confused: both were observed and have the same class, of which more is known than the length
/// of the data, no reference tells what they are there for, they are used alike, the transaction reads both, and
/// leaves them different.
pub open spec fn can_be_confused(p: Probe, left: Pubkey, right: Pubkey) -> bool {
    let s = crate::mutation::classes::scope_of(p);
    let slots = slots_of(p.ixs);
    &&& crate::mutation::classes::class_in(s, left) matches Some(c) && !(c.shape is DataLen)
    &&& crate::mutation::classes::class_in(s, right) == crate::mutation::classes::class_in(s, left)
    &&& reads(p, left) && reads(p, right)
    &&& !crate::mutation::refs::explained(p.svm, p.ixs, left) && !crate::mutation::refs::explained(p.svm, p.ixs, right)
    &&& crate::mutation::accounts::meta_flags(slots, left) == crate::mutation::accounts::meta_flags(slots, right)
    &&& account_at(p.after, left) != account_at(p.after, right)
}

/// With `left` wherever `right` stood, the transaction succeeds, but does not do what it did.
pub open spec fn goes_astray(p: Probe, left: Pubkey, right: Pubkey) -> bool {
    exists|ixs: Seq<InstructionView>| #[trigger]
        swapped(p.ixs, right, left, ixs) && run_succeeds(p.svm, ixs, p.signers, p.payer, p.sigverify) && !repeats(
            p,
            p.svm,
            ixs,
            p.signers,
            seq![left, right],
        )
}

proof fn lemma_goes_astray(p: Probe, left: Pubkey, right: Pubkey)
    ensures
        crate::mutation::alias::alias_diverges(p, left, right) == goes_astray(p, left, right),
        crate::mutation::alias::confusable(p, left, right) == can_be_confused(p, left, right),
{
    let ixs = rewritten(p.ixs, right, left);
    lemma_changed(p.ixs, right, left, ixs);
    lemma_survives(p, p.svm, ixs, p.signers, seq![left, right]);
    lemma_reads(p, left);
    lemma_reads(p, right);
    assert(swapped(p.ixs, right, left, ixs));
    if goes_astray(p, left, right) {
        let out = choose|out: Seq<InstructionView>| #[trigger]
            swapped(p.ixs, right, left, out) && run_succeeds(p.svm, out, p.signers, p.payer, p.sigverify) && !repeats(
                p,
                p.svm,
                out,
                p.signers,
                seq![left, right],
            );
        lemma_changed(p.ixs, right, left, out);
    }
}

/// The findings on duplicates: one for just those two accounts that can be confused, where the transaction succeeds with
/// the first in the place of the second too, and does something else.
pub proof fn lemma_duplicate_findings(found: Findings, p: Probe, config: ConfigView, f: FindingView)
    requires
        found.found_by(p, config),
    ensures
        found.duplicates.contains(f) <==> exists|left: Pubkey, right: Pubkey|
            {
                &&& comes_before(p.ixs, left, right)
                &&& can_be_confused(p, left, right)
                &&& #[trigger] goes_astray(p, left, right)
                &&& f.id == found_id(p, "CC-14 duplicate-account"@, right)
                &&& f.message == "[CC-14 duplicate-account] same-class accounts "@ + base58(left@) + " and "@ + base58(right@)
                    + " accepted when "@ + base58(right@) + " was aliased to "@ + base58(left@) + ", instr "@ + call_text(p)
                    + " succeeded with divergent outcome"@
            },
{
    let keys = account_keys(p.ixs);
    let cs = crate::mutation::accounts::all_pairs(keys);
    lemma_duplicate_members(p, cs);
    if found.duplicates.contains(f) {
        let i = choose|i: int| 0 <= i < cs.len() && crate::mutation::alias::duplicate_finding(p, (#[trigger] cs[i]).0, cs[i].1) == Some(f);
        let left = cs[i].0;
        let right = cs[i].1;
        assert(cs.contains((left, right)));
        lemma_pairs_of_list(keys, left, right);
        lemma_goes_astray(p, left, right);
        assert(goes_astray(p, left, right));
    }
    if exists|left: Pubkey, right: Pubkey|
            {
                &&& comes_before(p.ixs, left, right)
                &&& can_be_confused(p, left, right)
                &&& #[trigger] goes_astray(p, left, right)
                &&& f.id == found_id(p, "CC-14 duplicate-account"@, right)
                &&& f.message == "[CC-14 duplicate-account] same-class accounts "@ + base58(left@) + " and "@ + base58(right@)
                    + " accepted when "@ + base58(right@) + " was aliased to "@ + base58(left@) + ", instr "@ + call_text(p)
                    + " succeeded with divergent outcome"@
            } {
        let (left, right) = choose|left: Pubkey, right: Pubkey|
            {
                &&& comes_before(p.ixs, left, right)
                &&& can_be_confused(p, left, right)
                &&& #[trigger] goes_astray(p, left, right)
                &&& f.id == found_id(p, "CC-14 duplicate-account"@, right)
                &&& f.message == "[CC-14 duplicate-account] same-class accounts "@ + base58(left@) + " and "@ + base58(right@)
                    + " accepted when "@ + base58(right@) + " was aliased to "@ + base58(left@) + ", instr "@ + call_text(p)
                    + " succeeded with divergent outcome"@
            };
        lemma_pairs_of_list(keys, left, right);
        assert(cs.contains((left, right)));
        let i = choose|i: int| 0 <= i < cs.len() && cs[i] == (left, right);
        lemma_goes_astray(p, left, right);
        assert(crate::mutation::alias::duplicate_finding(p, cs[i].0, cs[i].1) == Some(f));
    }
}

proof fn lemma_cross_members(p: Probe, cs: Seq<(Pubkey, Pubkey)>)
    ensures
        forall|f: FindingView| #[trigger]
            crate::mutation::alias::cross_findings(p, cs).contains(f) <==> exists|i: int|
                0 <= i < cs.len() && crate::mutation::alias::cross_finding(p, (#[trigger] cs[i]).0, cs[i].1) == Some(f),
    decreases cs.len(),
{
    let r = crate::mutation::alias::cross_findings(p, cs);
    if cs.len() > 0 {
        let d = cs.drop_last();
        let before = crate::mutation::alias::cross_findings(p, d);
        let o = crate::mutation::alias::cross_finding(p, cs.last().0, cs.last().1);
        lemma_cross_members(p, d);
        lemma_with_finding(before, o);
        assert forall|f: FindingView| #[trigger] r.contains(f) <==> exists|i: int|
            0 <= i < cs.len() && crate::mutation::alias::cross_finding(p, (#[trigger] cs[i]).0, cs[i].1) == Some(f) by {
            if before.contains(f) {
                let i = choose|i: int| 0 <= i < d.len() && crate::mutation::alias::cross_finding(p, (#[trigger] d[i]).0, d[i].1) == Some(f);
                assert(cs[i] == d[i]);
            }
            if o == Some(f) {
                assert(cs[cs.len() - 1] == cs.last());
            }
            if exists|i: int| 0 <= i < cs.len() && crate::mutation::alias::cross_finding(p, (#[trigger] cs[i]).0, cs[i].1) == Some(f) {
                let i = choose|i: int| 0 <= i < cs.len() && crate::mutation::alias::cross_finding(p, (#[trigger] cs[i]).0, cs[i].1) == Some(f);
                if i < d.len() {
                    assert(d[i] == cs[i]);
                    assert(before.contains(f));
                }
            }
        }
    }
}

/// `out` is the data with the bytes of `k` at `at`, and all else as it is.
pub open spec fn overwritten(data: Seq<u8>, at: int, k: Pubkey, out: Seq<u8>) -> bool {
    out.len() == data.len() && forall|i: int|
        0 <= i < data.len() ==> #[trigger] out[i] == if at <= i < at + 32 { k@[i - at] } else { data[i] }
}

/// The accounts were both observed, have the same class, and the transaction reads both.
pub open spec fn alike_and_read(p: Probe, left: Pubkey, right: Pubkey) -> bool {
    let s = crate::mutation::classes::scope_of(p);
    &&& crate::mutation::classes::class_in(s, left) is Some
    &&& crate::mutation::classes::class_in(s, right) == crate::mutation::classes::class_in(s, left)
    &&& reads(p, left) && reads(p, right)
}

proof fn lemma_alike(p: Probe, left: Pubkey, right: Pubkey)
    ensures
        crate::mutation::alias::same_class_read(p, left, right) == alike_and_read(p, left, right),
{
    lemma_reads(p, left);
    lemma_reads(p, right);
}

/// The findings on shared authorities: one for just those two accounts of one class that the transaction reads and that
/// share an authority, for which it succeeds and does what it did with another address in the place of the
/// authority in the second.
pub proof fn lemma_cross_findings(found: Findings, p: Probe, config: ConfigView, f: FindingView)
    requires
        found.found_by(p, config),
    ensures
        found.cross.contains(f) <==> exists|left: Pubkey, right: Pubkey, data: Seq<u8>|
            {
                &&& comes_before(p.ixs, left, right)
                &&& alike_and_read(p, left, right)
                &&& crate::mutation::alias::shared_authority(p, left, right) is Some
                &&& overwritten(account_at(p.svm, right)->0.data, crate::mutation::alias::shared_authority(
                    p,
                    left,
                    right,
                )->0 as int, filled_key(0xCC), data)
                &&& goes_on_with(p, right, AccountView { data, ..account_at(p.svm, right)->0 })
                &&& #[trigger] cross_told(p, left, right, data, f)

            },
{
    let keys = account_keys(p.ixs);
    let cs = crate::mutation::accounts::all_pairs(keys);
    lemma_cross_members(p, cs);
    if found.cross.contains(f) {
        let i = choose|i: int| 0 <= i < cs.len() && crate::mutation::alias::cross_finding(p, (#[trigger] cs[i]).0, cs[i].1) == Some(f);
        let left = cs[i].0;
        let right = cs[i].1;
        assert(cs.contains((left, right)));
        lemma_pairs_of_list(keys, left, right);
        lemma_alike(p, left, right);
        let at = crate::mutation::alias::shared_authority(p, left, right)->0;
        let a = account_at(p.svm, right)->0;
        let data = crate::mutation::alias::with_key_at(a.data, at as int, filled_key(0xCC));
        lemma_goes_on_with(p, right, AccountView { data, ..a });
        assert(cross_told(p, left, right, data, f));
    }
    if exists|left: Pubkey, right: Pubkey, data: Seq<u8>|
            {
                &&& comes_before(p.ixs, left, right)
                &&& alike_and_read(p, left, right)
                &&& crate::mutation::alias::shared_authority(p, left, right) is Some
                &&& overwritten(account_at(p.svm, right)->0.data, crate::mutation::alias::shared_authority(
                    p,
                    left,
                    right,
                )->0 as int, filled_key(0xCC), data)
                &&& goes_on_with(p, right, AccountView { data, ..account_at(p.svm, right)->0 })
                &&& #[trigger] cross_told(p, left, right, data, f)

            } {
        let (left, right, data) = choose|left: Pubkey, right: Pubkey, data: Seq<u8>|
            {
                &&& comes_before(p.ixs, left, right)
                &&& alike_and_read(p, left, right)
                &&& crate::mutation::alias::shared_authority(p, left, right) is Some
                &&& overwritten(account_at(p.svm, right)->0.data, crate::mutation::alias::shared_authority(
                    p,
                    left,
                    right,
                )->0 as int, filled_key(0xCC), data)
                &&& goes_on_with(p, right, AccountView { data, ..account_at(p.svm, right)->0 })
                &&& #[trigger] cross_told(p, left, right, data, f)

            };
        lemma_pairs_of_list(keys, left, right);
        assert(cs.contains((left, right)));
        let i = choose|i: int| 0 <= i < cs.len() && cs[i] == (left, right);
        lemma_alike(p, left, right);
        let at = crate::mutation::alias::shared_authority(p, left, right)->0;
        let a = account_at(p.svm, right)->0;
        assert(data =~= crate::mutation::alias::with_key_at(a.data, at as int, filled_key(0xCC)));
        lemma_goes_on_with(p, right, AccountView { data, ..a });
        assert(crate::mutation::alias::cross_finding(p, cs[i].0, cs[i].1) == Some(f));
    }
}

/// What is told of a shared authority: which accounts, and where in the second one.
pub open spec fn cross_told(p: Probe, left: Pubkey, right: Pubkey, data: Seq<u8>, f: FindingView) -> bool {
    let at = crate::mutation::alias::shared_authority(p, left, right)->0;
    &&& f.id == crate::mutation::findings::id_text(
        "CC-9.5 cross-authority"@,
        p.disc_len,
        p.ixs[0],
        crate::mutation::findings::role(account_keys(p.ixs), right) + "@"@ + crate::text::dec(at as nat),
    )
    &&& f.message == "[CC-9.5 cross-authority] same-class accounts "@ + base58(left@) + " and "@ + base58(right@)
        + " share non-signer authority field, mutated "@ + base58(right@) + " offset "@ + crate::text::dec(at as nat) + " to "@
        + base58(filled_key(0xCC)@) + ", instr "@ + call_text(p) + " still succeeded"@
}

/// The place `at` of the second account is one where an authority may stand, and an address stands there that may also
/// be an authority of the first: it stands in the first at a place where an authority may, is neither the system
/// program nor a sysvar, and no instruction asks it to sign.
pub open spec fn shares_at(p: Probe, left: AccountView, right: AccountView, own: Seq<usize>, places: Seq<usize>, i: int) -> bool {
    &&& 0 <= i < places.len() && places[i] + 32 <= right.data.len()
    &&& exists|k: Pubkey, j: int|
        {
            &&& k@ == right.data.subrange(places[i] as int, places[i] + 32)
            &&& k@ != crate::types::zero_key() && !known_sysvar(k) && !asks(p.ixs, k)
            &&& 0 <= j < own.len() && #[trigger] crate::mutation::refs::key_at(left.data, k, own[j] as int)
        }
}

pub(crate) proof fn lemma_signer_keys(slots: Seq<Slot>, k: Pubkey)
    ensures
        signer_slots(slots).contains(k) <==> signs(slots, k),
    decreases slots.len(),
{
    if slots.len() > 0 {
        let d = slots.drop_last();
        lemma_signer_keys(d, k);
        lemma_with_key(signer_slots(d), slots.last().meta.pubkey);
        if signs(d, k) {
            let i = choose|i: int| 0 <= i < d.len() && (#[trigger] d[i]).meta.pubkey == k && d[i].meta.is_signer;
            assert(slots[i] == d[i]);
        }
        if signs(slots, k) {
            let i = choose|i: int| 0 <= i < slots.len() && (#[trigger] slots[i]).meta.pubkey == k && slots[i].meta.is_signer;
            if i < d.len() {
                assert(slots[i] == d[i]);
            }
        }
        if slots.last().meta.is_signer && slots.last().meta.pubkey == k {
            assert(slots[slots.len() - 1].meta.pubkey == k);
        }
    }
}

proof fn lemma_first_shared_is(data: Seq<u8>, offsets: Seq<usize>, values: spec_fn(Pubkey) -> bool)
    ensures
        match crate::mutation::alias::first_shared(data, offsets, values) {
            Some(at) => exists|i: int|
                0 <= i < offsets.len() && #[trigger] offsets[i] == at && at + 32 <= data.len() && values(
                    crate::types::key_of(data.subrange(at as int, at + 32)),
                ) && forall|j: int|
                    0 <= j < i ==> !(#[trigger] offsets[j] + 32 <= data.len() && values(
                        crate::types::key_of(data.subrange(offsets[j] as int, offsets[j] + 32)),
                    )),
            None => forall|j: int|
                0 <= j < offsets.len() ==> !(#[trigger] offsets[j] + 32 <= data.len() && values(
                    crate::types::key_of(data.subrange(offsets[j] as int, offsets[j] + 32)),
                )),
        },
    decreases offsets.len(),
{
    if offsets.len() > 0 {
        let d = offsets.drop_last();
        lemma_first_shared_is(data, d, values);
        assert forall|j: int| 0 <= j < d.len() implies d[j] == offsets[j] by {}
        match crate::mutation::alias::first_shared(data, d, values) {
            Some(at) => {
                let i = choose|i: int|
                    0 <= i < d.len() && #[trigger] d[i] == at && at + 32 <= data.len() && values(
                        crate::types::key_of(data.subrange(at as int, at + 32)),
                    ) && forall|j: int|
                        0 <= j < i ==> !(#[trigger] d[j] + 32 <= data.len() && values(
                            crate::types::key_of(data.subrange(d[j] as int, d[j] + 32)),
                        ));
                assert(offsets[i] == at);
                assert forall|j: int| 0 <= j < i implies !(#[trigger] offsets[j] + 32 <= data.len() && values(
                    crate::types::key_of(data.subrange(offsets[j] as int, offsets[j] + 32)),
                )) by {
                    assert(d[j] == offsets[j]);
                }
            },
            None => {
                assert forall|j: int| 0 <= j < d.len() implies !(#[trigger] offsets[j] + 32 <= data.len() && values(
                    crate::types::key_of(data.subrange(offsets[j] as int, offsets[j] + 32)),
                )) by {
                    assert(d[j] == offsets[j]);
                }
                assert(offsets[offsets.len() - 1] == offsets.last());
            },
        }
    }
}

/// Two accounts share an address at the first of the places of the second where one stands that also stands at one of
/// the places of the first.
pub proof fn lemma_shared_at(p: Probe, l: AccountView, r: AccountView, lo: Option<Seq<usize>>, ro: Option<Seq<usize>>)
    ensures
        ({
            let places = crate::mutation::alias::window_offsets(p.tags, r.data, ro);
            let own = crate::mutation::alias::window_offsets(p.tags, l.data, lo);
            match crate::mutation::alias::shared_offset(p, l, r, lo, ro) {
                Some(at) => exists|i: int| #[trigger]
                    shares_at(p, l, r, own, places, i) && places[i] == at && forall|j: int|
                        0 <= j < i ==> !#[trigger] shares_at(p, l, r, own, places, j),
                None => forall|j: int| !#[trigger] shares_at(p, l, r, own, places, j),
            }
        }),
{
    let places = crate::mutation::alias::window_offsets(p.tags, r.data, ro);
    let own = crate::mutation::alias::window_offsets(p.tags, l.data, lo);
    let values = crate::mutation::alias::authority_values(l.data, own, signer_slots(slots_of(p.ixs)));
    lemma_first_shared_is(r.data, places, values);
    assert forall|j: int| #[trigger] shares_at(p, l, r, own, places, j) <==> 0 <= j < places.len() && places[j] + 32 <= r.data.len()
        && values(crate::types::key_of(r.data.subrange(places[j] as int, places[j] + 32))) by {
        if 0 <= j < places.len() && places[j] + 32 <= r.data.len() {
            let bytes = r.data.subrange(places[j] as int, places[j] + 32);
            lemma_key_with(bytes);
            let k = crate::types::key_of(bytes);
            lemma_signer_keys(slots_of(p.ixs), k);
            lemma_uses(p.ixs, k);
            if values(k) {
                let m = choose|m: int| 0 <= m < own.len() && crate::mutation::refs::key_at(l.data, k, #[trigger] own[m] as int);
                assert(crate::mutation::refs::key_at(l.data, k, own[m] as int));
            }
            if shares_at(p, l, r, own, places, j) {
                let (q, m) = choose|q: Pubkey, m: int|
                    {
                        &&& q@ == bytes
                        &&& q@ != crate::types::zero_key() && !known_sysvar(q) && !asks(p.ixs, q)
                        &&& 0 <= m < own.len() && #[trigger] crate::mutation::refs::key_at(l.data, q, own[m] as int)
                    };
                crate::types::lemma_key_ext(q, k);
                assert(crate::mutation::refs::key_at(l.data, k, own[m] as int));
            }
        }
    }
    match crate::mutation::alias::shared_offset(p, l, r, lo, ro) {
        Some(at) => {
            let i = choose|i: int|
                0 <= i < places.len() && #[trigger] places[i] == at && at + 32 <= r.data.len() && values(
                    crate::types::key_of(r.data.subrange(at as int, at + 32)),
                ) && forall|j: int|
                    0 <= j < i ==> !(#[trigger] places[j] + 32 <= r.data.len() && values(
                        crate::types::key_of(r.data.subrange(places[j] as int, places[j] + 32)),
                    ));
            assert(shares_at(p, l, r, own, places, i));
            assert forall|j: int| 0 <= j < i implies !#[trigger] shares_at(p, l, r, own, places, j) by {
                assert(places[j] == places[j]);
            }
        },
        None => {
            assert forall|j: int| !#[trigger] shares_at(p, l, r, own, places, j) by {
                if 0 <= j < places.len() {
                    assert(places[j] == places[j]);
                }
            }
        },
    }
}

proof fn lemma_key_with(bytes: Seq<u8>)
    requires
        bytes.len() == 32,
    ensures
        crate::types::key_of(bytes)@ == bytes,
{
    let k = Pubkey { bytes: [
        bytes[0],
        bytes[1],
        bytes[2],
        bytes[3],
        bytes[4],
        bytes[5],
        bytes[6],
        bytes[7],
        bytes[8],
        bytes[9],
        bytes[10],
        bytes[11],
        bytes[12],
        bytes[13],
        bytes[14],
        bytes[15],
        bytes[16],
        bytes[17],
        bytes[18],
        bytes[19],
        bytes[20],
        bytes[21],
        bytes[22],
        bytes[23],
        bytes[24],
        bytes[25],
        bytes[26],
        bytes[27],
        bytes[28],
        bytes[29],
        bytes[30],
        bytes[31],
    ] };
    assert(k@ =~= bytes);
    crate::types::lemma_key_of(k);
}

/// Two accounts that both exist share an authority at the first place of the second where an authority may stand and
/// where one stands that may also be an authority of the first.
pub proof fn lemma_shared_authority(p: Probe, left: Pubkey, right: Pubkey)
    requires
        account_at(p.svm, left) is Some,
        account_at(p.svm, right) is Some,
    ensures
        ({
            let l = account_at(p.svm, left)->0;
            let r = account_at(p.svm, right)->0;
            let places = crate::mutation::alias::window_offsets(p.tags, r.data, crate::token::authority_offsets(r));
            let own = crate::mutation::alias::window_offsets(p.tags, l.data, crate::token::authority_offsets(l));
            match crate::mutation::alias::shared_authority(p, left, right) {
                Some(at) => exists|i: int| #[trigger]
                    shares_at(p, l, r, own, places, i) && places[i] == at && forall|j: int|
                        0 <= j < i ==> !#[trigger] shares_at(p, l, r, own, places, j),
                None => forall|j: int| !#[trigger] shares_at(p, l, r, own, places, j),
            }
        }),
{
    let l = account_at(p.svm, left)->0;
    let r = account_at(p.svm, right)->0;
    lemma_shared_at(p, l, r, crate::token::authority_offsets(l), crate::token::authority_offsets(r));
}

/// What the two accounts share is no authority: they share none, one of the two is of the token program, and yet some
/// address that could be one, looked for everywhere, stands at `at` in the second and also in the first.
pub open spec fn shares_by_chance(p: Probe, left: Pubkey, right: Pubkey, at: usize) -> bool {
    let l = account_at(p.svm, left)->0;
    let r = account_at(p.svm, right)->0;
    let places = crate::mutation::alias::window_offsets(p.tags, r.data, None);
    let own = crate::mutation::alias::window_offsets(p.tags, l.data, None);
    &&& account_at(p.svm, left) is Some && account_at(p.svm, right) is Some
    &&& crate::mutation::alias::shared_authority(p, left, right) is None
    &&& crate::token::spl_shape(l) || crate::token::spl_shape(r)
    &&& exists|i: int| #[trigger]
        shares_at(p, l, r, own, places, i) && places[i] == at && forall|j: int|
            0 <= j < i ==> !#[trigger] shares_at(p, l, r, own, places, j)
}

proof fn lemma_by_chance(p: Probe, left: Pubkey, right: Pubkey, at: usize)
    ensures
        crate::mutation::alias::demoted_offset(p, left, right) == Some(at) <==> shares_by_chance(p, left, right, at),
{
    if account_at(p.svm, left) is Some && account_at(p.svm, right) is Some {
        let l = account_at(p.svm, left)->0;
        let r = account_at(p.svm, right)->0;
        let places = crate::mutation::alias::window_offsets(p.tags, r.data, None);
        let own = crate::mutation::alias::window_offsets(p.tags, l.data, None);
        lemma_shared_at(p, l, r, None, None);
        if shares_by_chance(p, left, right, at) {
            let i = choose|i: int| #[trigger]
                shares_at(p, l, r, own, places, i) && places[i] == at && forall|j: int|
                    0 <= j < i ==> !#[trigger] shares_at(p, l, r, own, places, j);
            match crate::mutation::alias::shared_offset(p, l, r, None, None) {
                Some(o) => {
                    let n = choose|n: int| #[trigger]
                        shares_at(p, l, r, own, places, n) && places[n] == o && forall|j: int|
                            0 <= j < n ==> !#[trigger] shares_at(p, l, r, own, places, j);
                    assert(!(n < i)) by {
                        if n < i {
                            assert(!shares_at(p, l, r, own, places, n));
                        }
                    }
                    assert(!(i < n)) by {
                        if i < n {
                            assert(!shares_at(p, l, r, own, places, i));
                        }
                    }
                },
                None => {
                    assert(!shares_at(p, l, r, own, places, i));
                },
            }
        }
    }
}

proof fn lemma_cross_demotion_members(p: Probe, cs: Seq<(Pubkey, Pubkey)>)
    ensures
        forall|f: FindingView| #[trigger]
            crate::mutation::alias::cross_demotions(p, cs).contains(f) <==> exists|i: int|
                0 <= i < cs.len() && crate::mutation::alias::same_class_read(p, (#[trigger] cs[i]).0, cs[i].1)
                    && crate::mutation::alias::demotion(p, cs[i].0, cs[i].1) == Some(f),
    decreases cs.len(),
{
    if cs.len() > 0 {
        let d = cs.drop_last();
        let before = crate::mutation::alias::cross_demotions(p, d);
        let now = crate::mutation::alias::cross_demotions(p, cs);
        let n = cs.len() - 1;
        lemma_cross_demotion_members(p, d);
        lemma_with_finding(before, crate::mutation::alias::demotion(p, cs[n].0, cs[n].1));
        assert forall|f: FindingView| #[trigger] now.contains(f) <==> exists|i: int|
            0 <= i < cs.len() && crate::mutation::alias::same_class_read(p, (#[trigger] cs[i]).0, cs[i].1)
                && crate::mutation::alias::demotion(p, cs[i].0, cs[i].1) == Some(f) by {
            if before.contains(f) {
                let i = choose|i: int|
                    0 <= i < d.len() && crate::mutation::alias::same_class_read(p, (#[trigger] d[i]).0, d[i].1)
                        && crate::mutation::alias::demotion(p, d[i].0, d[i].1) == Some(f);
                assert(cs[i] == d[i]);
            }
            if exists|i: int|
                0 <= i < cs.len() && crate::mutation::alias::same_class_read(p, (#[trigger] cs[i]).0, cs[i].1)
                    && crate::mutation::alias::demotion(p, cs[i].0, cs[i].1) == Some(f) {
                let i = choose|i: int|
                    0 <= i < cs.len() && crate::mutation::alias::same_class_read(p, (#[trigger] cs[i]).0, cs[i].1)
                        && crate::mutation::alias::demotion(p, cs[i].0, cs[i].1) == Some(f);
                if i < d.len() {
                    assert(d[i] == cs[i]);
                    assert(before.contains(f));
                }
            }
        }
    }
}

/// What is noted of what was left out: each account whose owner cannot be set because a loader owns it, and each two
/// accounts of one class that the transaction reads and that share an address by chance.
pub proof fn lemma_left_out(p: Probe, config: ConfigView, f: FindingView)
    ensures
        crate::mutation::probe::demotions(p, config).contains(f) <==> {
            ||| exists|s: Slot|
                first_use(p.ixs, s) && #[trigger] owner_shut(p.svm, config, s) && f == (FindingView {
                    id: "CC-1 owner:"@ + base58(s.meta.pubkey@),
                    message: "CC-1: loader-owned program account — owner not attacker-settable"@,
                })
            ||| exists|left: Pubkey, right: Pubkey, at: usize|
                comes_before(p.ixs, left, right) && alike_and_read(p, left, right) && #[trigger] shares_by_chance(p, left, right, at)
                    && f == (FindingView {
                    id: crate::mutation::findings::id_text(
                        "CC-9.5 cross-authority"@,
                        p.disc_len,
                        p.ixs[0],
                        crate::mutation::findings::role(account_keys(p.ixs), right) + "@"@ + crate::text::dec(at as nat),
                    ),
                    message: "CC-9.5: SPL non-authority window (offset "@ + crate::text::dec(at as nat) + ") on "@ + base58(right@)
                        + ", not a canonical authority field"@,
                })
        },
{
    let slots = first_slots(slots_of(p.ixs));
    let keys = account_keys(p.ixs);
    let cs = crate::mutation::accounts::all_pairs(keys);
    let one = crate::mutation::identity::owner_demotions(p.svm, config, slots);
    let two = crate::mutation::alias::cross_demotions(p, cs);
    lemma_demotion_list(p.svm, config, slots);
    lemma_cross_demotion_members(p, cs);
    lemma_added(one, two);
    if one.contains(f) {
        let i = choose|i: int|
            0 <= i < slots.len() && #[trigger] owner_shut(p.svm, config, slots[i]) && f == crate::mutation::identity::loader_demotion(slots[i].meta.pubkey);
        assert(slots.contains(slots[i]));
        lemma_first_slots(slots_of(p.ixs), slots[i]);
        assert(first_use(p.ixs, slots[i]));
    }
    if two.contains(f) {
        let i = choose|i: int|
            0 <= i < cs.len() && crate::mutation::alias::same_class_read(p, (#[trigger] cs[i]).0, cs[i].1)
                && crate::mutation::alias::demotion(p, cs[i].0, cs[i].1) == Some(f);
        let left = cs[i].0;
        let right = cs[i].1;
        assert(cs.contains((left, right)));
        lemma_pairs_of_list(keys, left, right);
        lemma_alike(p, left, right);
        lemma_by_chance(p, left, right, crate::mutation::alias::demoted_offset(p, left, right)->0);
    }
    if exists|s: Slot|
        first_use(p.ixs, s) && #[trigger] owner_shut(p.svm, config, s) && f == (FindingView {
            id: "CC-1 owner:"@ + base58(s.meta.pubkey@),
            message: "CC-1: loader-owned program account — owner not attacker-settable"@,
        }) {
        let s = choose|s: Slot|
            first_use(p.ixs, s) && #[trigger] owner_shut(p.svm, config, s) && f == (FindingView {
                id: "CC-1 owner:"@ + base58(s.meta.pubkey@),
                message: "CC-1: loader-owned program account — owner not attacker-settable"@,
            });
        lemma_first_slots(slots_of(p.ixs), s);
        let i = choose|i: int| 0 <= i < slots.len() && slots[i] == s;
        assert(owner_shut(p.svm, config, slots[i]));
        assert(one.contains(f));
    }
    if exists|left: Pubkey, right: Pubkey, at: usize|
        comes_before(p.ixs, left, right) && alike_and_read(p, left, right) && #[trigger] shares_by_chance(p, left, right, at)
            && f == (FindingView {
            id: crate::mutation::findings::id_text(
                "CC-9.5 cross-authority"@,
                p.disc_len,
                p.ixs[0],
                crate::mutation::findings::role(account_keys(p.ixs), right) + "@"@ + crate::text::dec(at as nat),
            ),
            message: "CC-9.5: SPL non-authority window (offset "@ + crate::text::dec(at as nat) + ") on "@ + base58(right@)
                + ", not a canonical authority field"@,
        }) {
        let (left, right, at) = choose|left: Pubkey, right: Pubkey, at: usize|
            comes_before(p.ixs, left, right) && alike_and_read(p, left, right) && #[trigger] shares_by_chance(p, left, right, at)
                && f == (FindingView {
                id: crate::mutation::findings::id_text(
                    "CC-9.5 cross-authority"@,
                    p.disc_len,
                    p.ixs[0],
                    crate::mutation::findings::role(account_keys(p.ixs), right) + "@"@ + crate::text::dec(at as nat),
                ),
                message: "CC-9.5: SPL non-authority window (offset "@ + crate::text::dec(at as nat) + ") on "@ + base58(right@)
                    + ", not a canonical authority field"@,
            });
        lemma_pairs_of_list(keys, left, right);
        lemma_alike(p, left, right);
        lemma_by_chance(p, left, right, at);
        assert(cs.contains((left, right)));
        let i = choose|i: int| 0 <= i < cs.len() && cs[i] == (left, right);
        assert(crate::mutation::alias::same_class_read(p, cs[i].0, cs[i].1));
        assert(two.contains(f));
    }
}

/// How an account is used is told by its first use.
pub proof fn lemma_flags(slots: Seq<Slot>, k: Pubkey)
    ensures
        (forall|i: int| 0 <= i < slots.len() ==> (#[trigger] slots[i]).meta.pubkey != k)
            ==> crate::mutation::accounts::meta_flags(slots, k) is None,
        forall|i: int|
            0 <= i < slots.len() && (#[trigger] slots[i]).meta.pubkey == k && (forall|j: int|
                0 <= j < i ==> (#[trigger] slots[j]).meta.pubkey != k) ==> crate::mutation::accounts::meta_flags(slots, k) == Some(
                (slots[i].meta.is_writable, slots[i].meta.is_signer),
            ),
    decreases slots.len(),
{
    if slots.len() > 0 {
        let d = slots.drop_last();
        lemma_flags(d, k);
        assert(slots[slots.len() - 1] == slots.last());
        if forall|i: int| 0 <= i < slots.len() ==> (#[trigger] slots[i]).meta.pubkey != k {
            assert forall|i: int| 0 <= i < d.len() implies (#[trigger] d[i]).meta.pubkey != k by {
                assert(d[i] == slots[i]);
            }
        }
        assert forall|i: int|
            0 <= i < slots.len() && (#[trigger] slots[i]).meta.pubkey == k && (forall|j: int|
                0 <= j < i ==> (#[trigger] slots[j]).meta.pubkey != k) implies crate::mutation::accounts::meta_flags(slots, k) == Some(
            (slots[i].meta.is_writable, slots[i].meta.is_signer),
        ) by {
            assert forall|j: int| 0 <= j < i && j < d.len() implies (#[trigger] d[j]).meta.pubkey != k by {
                assert(d[j] == slots[j]);
            }
            if i < d.len() {
                assert(d[i] == slots[i]);
            }
        }
    }
}

/// The accounts of a list of uses stand in the order of their first uses: those of a part at the front stand at the
/// front.
pub proof fn lemma_keys_stand(slots: Seq<Slot>, n: int)
    requires
        0 <= n <= slots.len(),
    ensures
        slot_keys(slots.take(n)).is_prefix_of(slot_keys(slots)),
        forall|k: Pubkey| #[trigger]
            slot_keys(slots).contains(k) <==> exists|i: int| 0 <= i < slots.len() && (#[trigger] slots[i]).meta.pubkey == k,
        slot_keys(slots).no_duplicates(),
    decreases slots.len(),
{
    lemma_slot_keys(slots);
    if n == slots.len() {
        assert(slots.take(n) =~= slots);
        assert(slot_keys(slots).subrange(0, slot_keys(slots).len() as int) =~= slot_keys(slots));
    } else {
        let d = slots.drop_last();
        lemma_keys_stand(d, n);
        assert(d.take(n) =~= slots.take(n));
        let a = slot_keys(slots.take(n));
        assert(slot_keys(slots).subrange(0, a.len() as int) =~= slot_keys(d).subrange(0, a.len() as int));
    }
}

} // verus!
