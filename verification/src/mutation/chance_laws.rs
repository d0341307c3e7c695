//! What the findings that depend on addresses drawn at random say of the runs they are made from.
use vstd::prelude::*;
#[allow(unused_imports)]
use litesvm::LiteSVM;
#[allow(unused_imports)]
use crate::ids::{known_sysvar, token_owned};
#[allow(unused_imports)]
use crate::keys::{base58, Keypair};
#[allow(unused_imports)]
use crate::mutation::accounts::{account_keys, drawn_for, first_slots, rewritten, signer_slots};
#[allow(unused_imports)]
use crate::mutation::alias::window_offsets;
#[allow(unused_imports)]
use crate::mutation::effects::{load_bearing, non_fee_effect, ConfigView, Probe};
#[allow(unused_imports)]
use crate::mutation::findings::{call_text, found_id, FindingView};
#[allow(unused_imports)]
use crate::mutation::laws::{
    asks, first_use, goes_on_without, lemma_changed, lemma_first_slots, lemma_goes_on_without, lemma_reads,
    lemma_signer_keys, lemma_survives, lemma_unsigned, lemma_uses, lemma_with_finding, needs_no_signature, reads, repeats,
    stranger, swapped, uses,
};
#[allow(unused_imports)]
use crate::mutation::probe::Findings;
#[allow(unused_imports)]
use crate::mutation::refs::holds_address;
#[allow(unused_imports)]
use crate::mutation::signers::{
    attackers_for, authorities, authorities_of, authority_finding, authority_findings, authority_swap_survives,
    is_authority, names_authority, plain_signer,
};
#[allow(unused_imports)]
use crate::mutation::tokens::{
    candidate_keys, decoys_for, fake_owner_finding, fake_owner_findings, fakes_for, first_reference, forged_pair_finding,
    forged_pair_findings, forged_pair_survives, in_token_program, mint_accounts, mint_pairs, other_mint, pair_accounts,
    pair_mints, pairs_of, probed_pairs, refers_to_mint, shape_candidates, token_accounts, wrong_mint_finding,
    wrong_mint_findings, MintPair, TokenAccountCandidate, TokenShapeCandidate, TokenShapeKind,
};
#[allow(unused_imports)]
use crate::svm::{account_at, svm_with_account};
#[allow(unused_imports)]
use crate::token::{authority_offsets, mint_shape, spl_shape, spl_token_account, token_bytes, token_shape, TokenAccount};
#[allow(unused_imports)]
use crate::types::{filled_key, slots_of, AccountView, InstructionView, Pubkey, Slot};

verus! {

/// The account `source` names `signer` as an authority: the transaction uses and reads it, does not ask it to sign, and
/// asks the signer, which is not the payer, to sign. The account is no sysvar, not executable, no account of
/// the token program, and its data hold the address of the signer, whose signature is needed.
pub open spec fn is_guarded(p: Probe, source: Pubkey, signer: Pubkey) -> bool {
    &&& uses(p.ixs, source) && !asks(p.ixs, source) && !known_sysvar(source)
    &&& account_at(p.svm, source) is Some && !account_at(p.svm, source)->0.executable
    &&& account_at(p.svm, source)->0.data.len() > 0 && !spl_shape(account_at(p.svm, source)->0)
    &&& reads(p, source)
    &&& asks(p.ixs, signer) && signer != p.payer.key && signer != source
    &&& holds_address(account_at(p.svm, source)->0.data, signer)
    &&& !needs_no_signature(p, signer)
}

/// With another signer, who has an account of a million lamports and nothing else, in the place of `signer`, the
/// transaction succeeds and leaves everything but the two as it did.
pub open spec fn takes_signer(p: Probe, signer: Pubkey, other: Keypair) -> bool {
    let account = AccountView {
        lamports: 1_000_000,
        data: Seq::empty(),
        owner: crate::types::key_of(Seq::new(32, |i: int| 0u8)),
        executable: false,
        rent_epoch: 0,
    };
    svm_with_account(p.svm, other.key, account).1 && exists|ixs: Seq<InstructionView>| #[trigger]
        swapped(p.ixs, signer, other.key, ixs) && repeats(
            p,
            svm_with_account(p.svm, other.key, account).0,
            ixs,
            p.signers.push(other),
            seq![signer, other.key],
        )
}

proof fn lemma_takes_signer(p: Probe, signer: Pubkey, other: Keypair)
    ensures
        authority_swap_survives(p, signer, other) == takes_signer(p, signer, other),
{
    assert(crate::types::zero_key() =~= Seq::new(32, |i: int| 0u8));
    let account = plain_signer();
    let svm = svm_with_account(p.svm, other.key, account).0;
    let ixs = rewritten(p.ixs, signer, other.key);
    lemma_changed(p.ixs, signer, other.key, ixs);
    lemma_survives(p, svm, ixs, p.signers.push(other), seq![signer, other.key]);
    assert(swapped(p.ixs, signer, other.key, ixs));
    if takes_signer(p, signer, other) {
        let o = choose|o: Seq<InstructionView>| #[trigger]
            swapped(p.ixs, signer, other.key, o) && repeats(p, svm, o, p.signers.push(other), seq![signer, other.key]);
        lemma_changed(p.ixs, signer, other.key, o);
    }
}

/// What is told of an authority that another signer replaced.
pub open spec fn authority_told(p: Probe, source: Pubkey, signer: Pubkey, other: Keypair) -> FindingView {
    FindingView {
        id: found_id(p, "CC-9 authority"@, source),
        message: "[CC-9 authority] account "@ + base58(source@) + " contains authority "@ + base58(signer@) + ", but instr "@
            + call_text(p) + " still succeeded with replacement signer "@ + base58(other.key@),
    }
}

proof fn lemma_authorities_of_list(p: Probe, source: Pubkey, cs: Seq<Pubkey>)
    ensures
        forall|e: (Pubkey, Pubkey)| #[trigger] authorities_of(p, source, cs).contains(e) <==> exists|i: int| 0 <= i < cs.len() && is_authority(p, source, #[trigger] cs[i]) && (source, cs[i]) == e,
    decreases cs.len(),
{
    if cs.len() > 0 {
        let d = cs.drop_last();
        let before = authorities_of(p, source, d);
        let now = authorities_of(p, source, cs);
        lemma_authorities_of_list(p, source, d);
        assert forall|e: (Pubkey, Pubkey)| #[trigger] now.contains(e) <==> exists|i: int| 0 <= i < cs.len() && is_authority(p, source, #[trigger] cs[i]) && (source, cs[i]) == e by {
            if before.contains(e) {
                let i = choose|i: int| 0 <= i < d.len() && is_authority(p, source, #[trigger] d[i]) && (source, d[i]) == e;
                assert(cs[i] == d[i]);
            }
            if now.contains(e) {
                let m = choose|m: int| 0 <= m < now.len() && now[m] == e;
                if m < before.len() {
                    assert(before[m] == e);
                } else {
                    assert(cs[cs.len() - 1] == cs.last());
                }
            }
            if exists|i: int| 0 <= i < cs.len() && is_authority(p, source, #[trigger] cs[i]) && (source, cs[i]) == e {
                let i = choose|i: int| 0 <= i < cs.len() && is_authority(p, source, #[trigger] cs[i]) && (source, cs[i]) == e;
                if i < d.len() {
                    assert(d[i] == cs[i]);
                    assert(before.contains(e));
                    let m = choose|m: int| 0 <= m < before.len() && before[m] == e;
                    assert(now[m] == e);
                } else {
                    assert(now[before.len() as int] == e);
                }
            }
        }
    }
}

proof fn lemma_authorities(p: Probe, sources: Seq<Pubkey>)
    ensures
        forall|e: (Pubkey, Pubkey)| #[trigger]
            authorities(p, sources).contains(e) <==> sources.contains(e.0) && names_authority(p, e.0) && signer_slots(
                slots_of(p.ixs),
            ).contains(e.1) && is_authority(p, e.0, e.1),
    decreases sources.len(),
{
    if sources.len() > 0 {
        let d = sources.drop_last();
        let l = sources.last();
        let signers = signer_slots(slots_of(p.ixs));
        let before = authorities(p, d);
        let own = authorities_of(p, l, signers);
        let now = authorities(p, sources);
        lemma_authorities(p, d);
        lemma_authorities_of_list(p, l, signers);
        assert(sources[sources.len() - 1] == l);
        assert forall|e: (Pubkey, Pubkey)| #[trigger] now.contains(e) <==> sources.contains(e.0) && names_authority(p, e.0)
            && signers.contains(e.1) && is_authority(p, e.0, e.1) by {
            if now.contains(e) {
                let m = choose|m: int| 0 <= m < now.len() && now[m] == e;
                if m < before.len() {
                    assert(before[m] == e);
                    assert(before.contains(e));
                    let j = choose|j: int| 0 <= j < d.len() && d[j] == e.0;
                    assert(sources[j] == e.0);
                } else {
                    assert(own[m - before.len()] == e);
                    assert(own.contains(e));
                }
            }
            if sources.contains(e.0) && names_authority(p, e.0) && signers.contains(e.1) && is_authority(p, e.0, e.1) {
                let j = choose|j: int| 0 <= j < sources.len() && sources[j] == e.0;
                if j < d.len() {
                    assert(d[j] == e.0);
                    assert(before.contains(e));
                    let m = choose|m: int| 0 <= m < before.len() && before[m] == e;
                    assert(now[m] == e);
                } else {
                    let i = choose|i: int| 0 <= i < signers.len() && signers[i] == e.1;
                    assert(is_authority(p, l, signers[i]));
                    assert(own.contains(e));
                    let m = choose|m: int| 0 <= m < own.len() && own[m] == e;
                    assert(now[before.len() + m] == e);
                }
            }
        }
    }
}

proof fn lemma_guarded(p: Probe, source: Pubkey, signer: Pubkey)
    ensures
        authorities(p, account_keys(p.ixs)).contains((source, signer)) == is_guarded(p, source, signer),
{
    lemma_authorities(p, account_keys(p.ixs));
    lemma_uses(p.ixs, source);
    lemma_uses(p.ixs, signer);
    lemma_signer_keys(slots_of(p.ixs), signer);
    lemma_reads(p, source);
    lemma_unsigned(p, signer);
}

proof fn lemma_authority_members(p: Probe, cs: Seq<(Pubkey, Pubkey)>, ds: Seq<Keypair>)
    ensures
        forall|f: FindingView| #[trigger]
            authority_findings(p, cs, ds).contains(f) <==> exists|i: int| 0 <= i < cs.len() && authority_finding(p, (#[trigger] cs[i]).0, cs[i].1, ds[i]) == Some(f),
    decreases cs.len(),
{
    if cs.len() > 0 {
        let d = cs.drop_last();
        let before = authority_findings(p, d, ds);
        let now = authority_findings(p, cs, ds);
        let n = cs.len() - 1;
        lemma_authority_members(p, d, ds);
        lemma_with_finding(before, authority_finding(p, cs[n].0, cs[n].1, ds[n]));
        assert forall|f: FindingView| #[trigger] now.contains(f) <==> exists|i: int| 0 <= i < cs.len() && authority_finding(p, (#[trigger] cs[i]).0, cs[i].1, ds[i]) == Some(f) by {
            if before.contains(f) {
                let i = choose|i: int| 0 <= i < d.len() && authority_finding(p, (#[trigger] d[i]).0, d[i].1, ds[i]) == Some(f);
                assert(cs[i] == d[i]);
            }
            if authority_finding(p, cs[n].0, cs[n].1, ds[n]) == Some(f) {
                assert(cs[n] == cs.last());
            }
            if exists|i: int| 0 <= i < cs.len() && authority_finding(p, (#[trigger] cs[i]).0, cs[i].1, ds[i]) == Some(f) {
                let i = choose|i: int| 0 <= i < cs.len() && authority_finding(p, (#[trigger] cs[i]).0, cs[i].1, ds[i]) == Some(f);
                if i < d.len() {
                    assert(d[i] == cs[i]);
                    assert(before.contains(f));
                }
            }
        }
    }
}

/// Each finding on authorities is of an account that names one, and of another signer who takes its place, and the
/// transaction succeeds with that signer and does what it did.
pub proof fn lemma_authority_findings(found: Findings, p: Probe, config: ConfigView, f: FindingView)
    requires
        found.found_by(p, config),
        found.authorities.contains(f),
    ensures
        exists|source: Pubkey, signer: Pubkey, other: Keypair|
            is_guarded(p, source, signer) && other.well_formed() && takes_signer(p, signer, other) && f == #[trigger] authority_told(
                p,
                source,
                signer,
                other,
            ),
{
    let pairs = authorities(p, account_keys(p.ixs));
    let others = choose|others: Seq<Keypair>|
        attackers_for(pairs, others) && found.authorities == #[trigger] authority_findings(p, pairs, others);
    lemma_authority_members(p, pairs, others);
    let i = choose|i: int| 0 <= i < pairs.len() && authority_finding(p, (#[trigger] pairs[i]).0, pairs[i].1, others[i]) == Some(f);
    assert(pairs.contains(pairs[i]));
    assert(pairs[i] == (pairs[i].0, pairs[i].1));
    lemma_guarded(p, pairs[i].0, pairs[i].1);
    assert(others[i].well_formed());
    lemma_takes_signer(p, pairs[i].1, others[i]);
    assert(f == authority_told(p, pairs[i].0, pairs[i].1, others[i]));
}

/// For each account that names an authority some other signer is tried, and where the transaction succeeds with that
/// signer and does what it did, there is a finding.
pub proof fn lemma_authority_tried(found: Findings, p: Probe, config: ConfigView, source: Pubkey, signer: Pubkey) -> (other: Keypair)
    requires
        found.found_by(p, config),
        is_guarded(p, source, signer),
    ensures
        other.well_formed(),
        takes_signer(p, signer, other) ==> found.authorities.contains(authority_told(p, source, signer, other)),
{
    let pairs = authorities(p, account_keys(p.ixs));
    let others = choose|others: Seq<Keypair>|
        attackers_for(pairs, others) && found.authorities == #[trigger] authority_findings(p, pairs, others);
    lemma_authority_members(p, pairs, others);
    lemma_guarded(p, source, signer);
    let i = choose|i: int| 0 <= i < pairs.len() && pairs[i] == (source, signer);
    lemma_takes_signer(p, signer, others[i]);
    assert(others[i].well_formed());
    if takes_signer(p, signer, others[i]) {
        assert(authority_finding(p, pairs[i].0, pairs[i].1, others[i]) == Some(authority_told(p, source, signer, others[i])));
    }
    others[i]
}

/// The first use of an account is of one that a token program owns: it is not the program that is called, no sysvar, and
/// not executable.
pub open spec fn uses_token(p: Probe, s: Slot) -> bool {
    &&& first_use(p.ixs, s)
    &&& s.meta.pubkey != s.program_id && !known_sysvar(s.meta.pubkey)
    &&& account_at(p.svm, s.meta.pubkey) is Some
    &&& !account_at(p.svm, s.meta.pubkey)->0.executable && token_owned(account_at(p.svm, s.meta.pubkey)->0.owner)
}

/// What the data of an account look like: those of a mint, or else those of a token account.
pub open spec fn looks_like(data: Seq<u8>, kind: TokenShapeKind) -> bool {
    match kind {
        TokenShapeKind::Mint => mint_shape(data),
        TokenShapeKind::Account => !mint_shape(data) && token_shape(data),
    }
}

proof fn lemma_shapes(svm: LiteSVM, slots: Seq<Slot>)
    ensures
        forall|c: TokenShapeCandidate| #[trigger]
            shape_candidates(svm, slots).contains(c) <==> exists|i: int|
                {
                    &&& 0 <= i < slots.len() && in_token_program(svm, #[trigger] slots[i])
                    &&& c.pubkey == slots[i].meta.pubkey && c.owner == account_at(svm, slots[i].meta.pubkey)->0.owner
                    &&& looks_like(account_at(svm, slots[i].meta.pubkey)->0.data, c.kind)
                },
    decreases slots.len(),
{
    if slots.len() > 0 {
        let d = slots.drop_last();
        let before = shape_candidates(svm, d);
        let now = shape_candidates(svm, slots);
        let n = slots.len() - 1;
        lemma_shapes(svm, d);
        assert forall|c: TokenShapeCandidate| #[trigger] now.contains(c) <==> exists|i: int|
            {
                &&& 0 <= i < slots.len() && in_token_program(svm, #[trigger] slots[i])
                &&& c.pubkey == slots[i].meta.pubkey && c.owner == account_at(svm, slots[i].meta.pubkey)->0.owner
                &&& looks_like(account_at(svm, slots[i].meta.pubkey)->0.data, c.kind)
            } by {
            if before.contains(c) {
                let i = choose|i: int|
                    {
                        &&& 0 <= i < d.len() && in_token_program(svm, #[trigger] d[i])
                        &&& c.pubkey == d[i].meta.pubkey && c.owner == account_at(svm, d[i].meta.pubkey)->0.owner
                        &&& looks_like(account_at(svm, d[i].meta.pubkey)->0.data, c.kind)
                    };
                assert(slots[i] == d[i]);
            }
            if now.contains(c) {
                let m = choose|m: int| 0 <= m < now.len() && now[m] == c;
                if m < before.len() {
                    assert(before[m] == c);
                } else {
                    assert(slots[n] == slots.last());
                }
            }
            if exists|i: int|
                {
                    &&& 0 <= i < slots.len() && in_token_program(svm, #[trigger] slots[i])
                    &&& c.pubkey == slots[i].meta.pubkey && c.owner == account_at(svm, slots[i].meta.pubkey)->0.owner
                    &&& looks_like(account_at(svm, slots[i].meta.pubkey)->0.data, c.kind)
                } {
                let i = choose|i: int|
                    {
                        &&& 0 <= i < slots.len() && in_token_program(svm, #[trigger] slots[i])
                        &&& c.pubkey == slots[i].meta.pubkey && c.owner == account_at(svm, slots[i].meta.pubkey)->0.owner
                        &&& looks_like(account_at(svm, slots[i].meta.pubkey)->0.data, c.kind)
                    };
                if i < d.len() {
                    assert(d[i] == slots[i]);
                    assert(before.contains(c));
                    let m = choose|m: int| 0 <= m < before.len() && before[m] == c;
                    assert(now[m] == c);
                } else {
                    assert(now[before.len() as int] == c);
                }
            }
        }
    }
}

proof fn lemma_shape_used(p: Probe, c: TokenShapeCandidate)
    ensures
        shape_candidates(p.svm, first_slots(slots_of(p.ixs))).contains(c) <==> exists|s: Slot| #[trigger]
            uses_token(p, s) && c.pubkey == s.meta.pubkey && c.owner == account_at(p.svm, s.meta.pubkey)->0.owner && looks_like(
                account_at(p.svm, s.meta.pubkey)->0.data,
                c.kind,
            ),
{
    let slots = first_slots(slots_of(p.ixs));
    lemma_shapes(p.svm, slots);
    if shape_candidates(p.svm, slots).contains(c) {
        let i = choose|i: int|
            {
                &&& 0 <= i < slots.len() && in_token_program(p.svm, #[trigger] slots[i])
                &&& c.pubkey == slots[i].meta.pubkey && c.owner == account_at(p.svm, slots[i].meta.pubkey)->0.owner
                &&& looks_like(account_at(p.svm, slots[i].meta.pubkey)->0.data, c.kind)
            };
        assert(slots.contains(slots[i]));
        lemma_first_slots(slots_of(p.ixs), slots[i]);
        assert(uses_token(p, slots[i]));
    }
    if exists|s: Slot| #[trigger]
        uses_token(p, s) && c.pubkey == s.meta.pubkey && c.owner == account_at(p.svm, s.meta.pubkey)->0.owner && looks_like(
            account_at(p.svm, s.meta.pubkey)->0.data,
            c.kind,
        ) {
        let s = choose|s: Slot| #[trigger]
            uses_token(p, s) && c.pubkey == s.meta.pubkey && c.owner == account_at(p.svm, s.meta.pubkey)->0.owner && looks_like(
                account_at(p.svm, s.meta.pubkey)->0.data,
                c.kind,
            );
        lemma_first_slots(slots_of(p.ixs), s);
        let i = choose|i: int| 0 <= i < slots.len() && slots[i] == s;
        assert(in_token_program(p.svm, slots[i]));
    }
}

/// What is told of an account of the token program that one with another owner replaced.
pub open spec fn owner_told(p: Probe, k: Pubkey, decoy: Pubkey, kind: TokenShapeKind) -> FindingView {
    let class = match kind {
        TokenShapeKind::Mint => "CC-token fake-mint-owner"@,
        TokenShapeKind::Account => "CC-token fake-account-owner"@,
    };
    let shape = match kind {
        TokenShapeKind::Mint => "SPL mint-shaped"@,
        TokenShapeKind::Account => "SPL token-account-shaped"@,
    };
    let owner = account_at(p.svm, k)->0.owner;
    FindingView {
        id: found_id(p, class, k),
        message: "["@ + class + "] account "@ + base58(k@) + " substituted with decoy "@ + base58(decoy@) + " owner "@ + base58(
            owner@,
        ) + "->"@ + base58(stranger(owner)@) + " instr "@ + call_text(p) + " still succeeded (missing "@ + shape + " owner check)"@,
    }
}

/// The account at `k` is one of the token program that the transaction reads, and it goes on with a copy of it at
/// `decoy` that has another owner.
pub open spec fn takes_owner(p: Probe, s: Slot, decoy: Pubkey) -> bool {
    let k = s.meta.pubkey;
    let a = account_at(p.svm, k)->0;
    reads(p, k) && goes_on_without(p, k, decoy, AccountView { owner: stranger(a.owner), ..a })
}

proof fn lemma_fake_owner_members(p: Probe, cs: Seq<TokenShapeCandidate>, ds: Seq<Pubkey>)
    ensures
        forall|f: FindingView| #[trigger]
            fake_owner_findings(p, cs, ds).contains(f) <==> exists|i: int| 0 <= i < cs.len() && fake_owner_finding(p, #[trigger] cs[i], ds[i]) == Some(f),
    decreases cs.len(),
{
    if cs.len() > 0 {
        let d = cs.drop_last();
        let before = fake_owner_findings(p, d, ds);
        let now = fake_owner_findings(p, cs, ds);
        let n = cs.len() - 1;
        lemma_fake_owner_members(p, d, ds);
        lemma_with_finding(before, fake_owner_finding(p, cs[n], ds[n]));
        assert forall|f: FindingView| #[trigger] now.contains(f) <==> exists|i: int| 0 <= i < cs.len() && fake_owner_finding(p, #[trigger] cs[i], ds[i]) == Some(f) by {
            if before.contains(f) {
                let i = choose|i: int| 0 <= i < d.len() && fake_owner_finding(p, #[trigger] d[i], ds[i]) == Some(f);
                assert(cs[i] == d[i]);
            }
            if fake_owner_finding(p, cs[n], ds[n]) == Some(f) {
                assert(cs[n] == cs.last());
            }
            if exists|i: int| 0 <= i < cs.len() && fake_owner_finding(p, #[trigger] cs[i], ds[i]) == Some(f) {
                let i = choose|i: int| 0 <= i < cs.len() && fake_owner_finding(p, #[trigger] cs[i], ds[i]) == Some(f);
                if i < d.len() {
                    assert(d[i] == cs[i]);
                    assert(before.contains(f));
                }
            }
        }
    }
}

/// Each finding on the owner of tokens is of a mint or a token account whose copy under another owner, at an address
/// drawn for it, the transaction takes.
pub proof fn lemma_fake_owner_findings(found: Findings, p: Probe, config: ConfigView, f: FindingView)
    requires
        found.found_by(p, config),
        found.token_owners.contains(f),
    ensures
        exists|s: Slot, decoy: Pubkey, kind: TokenShapeKind|
            {
                &&& uses_token(p, s) && looks_like(account_at(p.svm, s.meta.pubkey)->0.data, kind)
                &&& drawn_for(s.meta.pubkey, decoy) && takes_owner(p, s, decoy)
                &&& f == #[trigger] owner_told(p, s.meta.pubkey, decoy, kind)
            },
{
    let cs = shape_candidates(p.svm, first_slots(slots_of(p.ixs)));
    let ds = choose|ds: Seq<Pubkey>|
        decoys_for(candidate_keys(cs), ds) && found.token_owners == #[trigger] fake_owner_findings(p, cs, ds);
    lemma_fake_owner_members(p, cs, ds);
    let i = choose|i: int| 0 <= i < cs.len() && fake_owner_finding(p, #[trigger] cs[i], ds[i]) == Some(f);
    let c = cs[i];
    assert(cs.contains(c));
    lemma_shape_used(p, c);
    let s = choose|s: Slot| #[trigger]
        uses_token(p, s) && c.pubkey == s.meta.pubkey && c.owner == account_at(p.svm, s.meta.pubkey)->0.owner && looks_like(
            account_at(p.svm, s.meta.pubkey)->0.data,
            c.kind,
        );
    assert(drawn_for(candidate_keys(cs)[i], ds[i]));
    let a = account_at(p.svm, c.pubkey)->0;
    lemma_reads(p, c.pubkey);
    lemma_goes_on_without(p, c.pubkey, ds[i], AccountView { owner: stranger(a.owner), ..a });
    assert(f == owner_told(p, s.meta.pubkey, ds[i], c.kind));
}

/// For each mint and each token account some address is drawn, and where the transaction takes a copy there under
/// another owner, there is a finding.
pub proof fn lemma_fake_owner_tried(found: Findings, p: Probe, config: ConfigView, s: Slot, kind: TokenShapeKind) -> (decoy: Pubkey)
    requires
        found.found_by(p, config),
        uses_token(p, s),
        looks_like(account_at(p.svm, s.meta.pubkey)->0.data, kind),
    ensures
        drawn_for(s.meta.pubkey, decoy),
        takes_owner(p, s, decoy) ==> found.token_owners.contains(owner_told(p, s.meta.pubkey, decoy, kind)),
{
    let cs = shape_candidates(p.svm, first_slots(slots_of(p.ixs)));
    let ds = choose|ds: Seq<Pubkey>|
        decoys_for(candidate_keys(cs), ds) && found.token_owners == #[trigger] fake_owner_findings(p, cs, ds);
    lemma_fake_owner_members(p, cs, ds);
    let k = s.meta.pubkey;
    let a = account_at(p.svm, k)->0;
    let c = TokenShapeCandidate { pubkey: k, owner: a.owner, kind };
    lemma_shape_used(p, c);
    let i = choose|i: int| 0 <= i < cs.len() && cs[i] == c;
    assert(drawn_for(candidate_keys(cs)[i], ds[i]));
    lemma_reads(p, k);
    lemma_goes_on_without(p, k, ds[i], AccountView { owner: stranger(a.owner), ..a });
    if takes_owner(p, s, ds[i]) {
        assert(fake_owner_finding(p, cs[i], ds[i]) == Some(owner_told(p, k, ds[i], kind)));
    }
    ds[i]
}

proof fn lemma_token_accounts_list(svm: LiteSVM, cs: Seq<Slot>)
    ensures
        forall|e: TokenAccountCandidate| #[trigger] token_accounts(svm, cs).contains(e) <==> exists|i: int| 0 <= i < cs.len() && is_token_slot(svm, #[trigger] cs[i]) && token_at(svm, cs[i]) == e,
    decreases cs.len(),
{
    if cs.len() > 0 {
        let d = cs.drop_last();
        let before = token_accounts(svm, d);
        let now = token_accounts(svm, cs);
        lemma_token_accounts_list(svm, d);
        assert forall|e: TokenAccountCandidate| #[trigger] now.contains(e) <==> exists|i: int| 0 <= i < cs.len() && is_token_slot(svm, #[trigger] cs[i]) && token_at(svm, cs[i]) == e by {
            if before.contains(e) {
                let i = choose|i: int| 0 <= i < d.len() && is_token_slot(svm, #[trigger] d[i]) && token_at(svm, d[i]) == e;
                assert(cs[i] == d[i]);
            }
            if now.contains(e) {
                let m = choose|m: int| 0 <= m < now.len() && now[m] == e;
                if m < before.len() {
                    assert(before[m] == e);
                } else {
                    assert(cs[cs.len() - 1] == cs.last());
                }
            }
            if exists|i: int| 0 <= i < cs.len() && is_token_slot(svm, #[trigger] cs[i]) && token_at(svm, cs[i]) == e {
                let i = choose|i: int| 0 <= i < cs.len() && is_token_slot(svm, #[trigger] cs[i]) && token_at(svm, cs[i]) == e;
                if i < d.len() {
                    assert(d[i] == cs[i]);
                    assert(before.contains(e));
                    let m = choose|m: int| 0 <= m < before.len() && before[m] == e;
                    assert(now[m] == e);
                } else {
                    assert(now[before.len() as int] == e);
                }
            }
        }
    }
}

spec fn is_token_slot(svm: LiteSVM, s: Slot) -> bool {
    in_token_program(svm, s) && token_shape(account_at(svm, s.meta.pubkey)->0.data)
}

spec fn token_at(svm: LiteSVM, s: Slot) -> TokenAccountCandidate {
    TokenAccountCandidate { pubkey: s.meta.pubkey, token: spl_token_account(account_at(svm, s.meta.pubkey)->0.data)->0 }
}

/// The mints of a list of uses are those of them that a token program owns, whose data are those of a mint and not also
/// those of a token account, in their order.
pub proof fn lemma_mints_listed(svm: LiteSVM, slots: Seq<Slot>)
    ensures
        mint_accounts(svm, slots) == slots.filter(
            |s: Slot|
                s.meta.pubkey != s.program_id && !known_sysvar(s.meta.pubkey) && account_at(svm, s.meta.pubkey) is Some && !account_at(
                    svm,
                    s.meta.pubkey,
                )->0.executable && token_owned(account_at(svm, s.meta.pubkey)->0.owner) && mint_shape(
                    account_at(svm, s.meta.pubkey)->0.data,
                ) && !token_shape(account_at(svm, s.meta.pubkey)->0.data),
        ).map_values(|s: Slot| s.meta.pubkey),
    decreases slots.len(),
{
    reveal(Seq::filter);
    let keep = |s: Slot|
        s.meta.pubkey != s.program_id && !known_sysvar(s.meta.pubkey) && account_at(svm, s.meta.pubkey) is Some && !account_at(
            svm,
            s.meta.pubkey,
        )->0.executable && token_owned(account_at(svm, s.meta.pubkey)->0.owner) && mint_shape(
            account_at(svm, s.meta.pubkey)->0.data,
        ) && !token_shape(account_at(svm, s.meta.pubkey)->0.data);
    let key = |s: Slot| s.meta.pubkey;
    if slots.len() > 0 {
        lemma_mints_listed(svm, slots.drop_last());
        let sub = slots.drop_last().filter(keep);
        assert(slots.filter(keep) == if keep(slots.last()) { sub.push(slots.last()) } else { sub });
        assert(mint_accounts(svm, slots) =~= slots.filter(keep).map_values(key));
    } else {
        assert(mint_accounts(svm, slots) =~= slots.filter(keep).map_values(key));
    }
}

/// The token account at `k` stands beside its mint: the transaction changes something but the payer's account, reads the
/// token account, whose first use `s` it is, and uses the mint too.
pub open spec fn beside_mint(p: Probe, s: Slot, t: TokenAccount) -> bool {
    let k = s.meta.pubkey;
    &&& exists|x: Pubkey| #[trigger] uses(p.ixs, x) && x != p.payer.key && account_at(p.svm, x) != account_at(p.after, x)
    &&& uses_token(p, s) && spl_token_account(account_at(p.svm, k)->0.data) == Some(t) && reads(p, k)
    &&& exists|m: Slot| #[trigger]
        uses_token(p, m) && m.meta.pubkey == t.mint && mint_shape(account_at(p.svm, t.mint)->0.data) && !token_shape(
            account_at(p.svm, t.mint)->0.data,
        )
}

proof fn lemma_pairs_of_mint(account: TokenAccountCandidate, mints: Seq<Pubkey>)
    ensures
        forall|m: MintPair| #[trigger]
            pairs_of(account, mints).contains(m) <==> m.account == account && m.mint == account.token.mint && mints.contains(
                m.mint,
            ),
    decreases mints.len(),
{
    if mints.len() > 0 {
        let d = mints.drop_last();
        let before = pairs_of(account, d);
        let now = pairs_of(account, mints);
        lemma_pairs_of_mint(account, d);
        assert(mints[mints.len() - 1] == mints.last());
        assert forall|m: MintPair| #[trigger] now.contains(m) <==> m.account == account && m.mint == account.token.mint
            && mints.contains(m.mint) by {
            if now.contains(m) {
                let i = choose|i: int| 0 <= i < now.len() && now[i] == m;
                if i < before.len() {
                    assert(before[i] == m);
                    assert(before.contains(m));
                    let j = choose|j: int| 0 <= j < d.len() && d[j] == m.mint;
                    assert(mints[j] == m.mint);
                }
            }
            if m.account == account && m.mint == account.token.mint && mints.contains(m.mint) {
                let j = choose|j: int| 0 <= j < mints.len() && mints[j] == m.mint;
                if j < d.len() {
                    assert(d[j] == m.mint);
                    assert(before.contains(m));
                    let i = choose|i: int| 0 <= i < before.len() && before[i] == m;
                    assert(now[i] == m);
                } else {
                    assert(now[before.len() as int] == m);
                }
            }
        }
    }
}

proof fn lemma_mint_pairs(p: Probe, accounts: Seq<TokenAccountCandidate>, mints: Seq<Pubkey>)
    ensures
        forall|m: MintPair| #[trigger]
            mint_pairs(p, accounts, mints).contains(m) <==> accounts.contains(m.account) && load_bearing(p, m.account.pubkey)
                && m.mint == m.account.token.mint && mints.contains(m.mint),
    decreases accounts.len(),
{
    if accounts.len() > 0 {
        let d = accounts.drop_last();
        let l = accounts.last();
        let before = mint_pairs(p, d, mints);
        let own = pairs_of(l, mints);
        let now = mint_pairs(p, accounts, mints);
        lemma_mint_pairs(p, d, mints);
        lemma_pairs_of_mint(l, mints);
        assert(accounts[accounts.len() - 1] == l);
        assert forall|m: MintPair| #[trigger] now.contains(m) <==> accounts.contains(m.account) && load_bearing(
            p,
            m.account.pubkey,
        ) && m.mint == m.account.token.mint && mints.contains(m.mint) by {
            if now.contains(m) {
                let i = choose|i: int| 0 <= i < now.len() && now[i] == m;
                if i < before.len() {
                    assert(before[i] == m);
                    assert(before.contains(m));
                    let j = choose|j: int| 0 <= j < d.len() && d[j] == m.account;
                    assert(accounts[j] == m.account);
                } else {
                    assert(own[i - before.len()] == m);
                    assert(own.contains(m));
                }
            }
            if accounts.contains(m.account) && load_bearing(p, m.account.pubkey) && m.mint == m.account.token.mint
                && mints.contains(m.mint) {
                let j = choose|j: int| 0 <= j < accounts.len() && accounts[j] == m.account;
                if j < d.len() {
                    assert(d[j] == m.account);
                    assert(before.contains(m));
                    let i = choose|i: int| 0 <= i < before.len() && before[i] == m;
                    assert(now[i] == m);
                } else {
                    assert(own.contains(m));
                    let i = choose|i: int| 0 <= i < own.len() && own[i] == m;
                    assert(now[before.len() + i] == m);
                }
            }
        }
    }
}

proof fn lemma_mint_used(p: Probe, k: Pubkey)
    ensures
        mint_accounts(p.svm, first_slots(slots_of(p.ixs))).contains(k) <==> exists|m: Slot| #[trigger]
            uses_token(p, m) && m.meta.pubkey == k && mint_shape(account_at(p.svm, k)->0.data) && !token_shape(
                account_at(p.svm, k)->0.data,
            ),
{
    let slots = first_slots(slots_of(p.ixs));
    lemma_mint_accounts_list(p.svm, slots);
    if mint_accounts(p.svm, slots).contains(k) {
        let i = choose|i: int| 0 <= i < slots.len() && is_mint_slot(p.svm, #[trigger] slots[i]) && slots[i].meta.pubkey == k;
        assert(slots.contains(slots[i]));
        lemma_first_slots(slots_of(p.ixs), slots[i]);
        assert(uses_token(p, slots[i]));
    }
    if exists|m: Slot| #[trigger]
        uses_token(p, m) && m.meta.pubkey == k && mint_shape(account_at(p.svm, k)->0.data) && !token_shape(
            account_at(p.svm, k)->0.data,
        ) {
        let m = choose|m: Slot| #[trigger]
            uses_token(p, m) && m.meta.pubkey == k && mint_shape(account_at(p.svm, k)->0.data) && !token_shape(
                account_at(p.svm, k)->0.data,
            );
        lemma_first_slots(slots_of(p.ixs), m);
        let i = choose|i: int| 0 <= i < slots.len() && slots[i] == m;
        assert(is_mint_slot(p.svm, slots[i]));
    }
}

spec fn is_mint_slot(svm: LiteSVM, s: Slot) -> bool {
    in_token_program(svm, s) && !token_shape(account_at(svm, s.meta.pubkey)->0.data) && mint_shape(
        account_at(svm, s.meta.pubkey)->0.data,
    )
}

proof fn lemma_mint_accounts_list(svm: LiteSVM, cs: Seq<Slot>)
    ensures
        forall|e: Pubkey| #[trigger] mint_accounts(svm, cs).contains(e) <==> exists|i: int| 0 <= i < cs.len() && is_mint_slot(svm, #[trigger] cs[i]) && cs[i].meta.pubkey == e,
    decreases cs.len(),
{
    if cs.len() > 0 {
        let d = cs.drop_last();
        let before = mint_accounts(svm, d);
        let now = mint_accounts(svm, cs);
        lemma_mint_accounts_list(svm, d);
        assert forall|e: Pubkey| #[trigger] now.contains(e) <==> exists|i: int| 0 <= i < cs.len() && is_mint_slot(svm, #[trigger] cs[i]) && cs[i].meta.pubkey == e by {
            if before.contains(e) {
                let i = choose|i: int| 0 <= i < d.len() && is_mint_slot(svm, #[trigger] d[i]) && d[i].meta.pubkey == e;
                assert(cs[i] == d[i]);
            }
            if now.contains(e) {
                let m = choose|m: int| 0 <= m < now.len() && now[m] == e;
                if m < before.len() {
                    assert(before[m] == e);
                } else {
                    assert(cs[cs.len() - 1] == cs.last());
                }
            }
            if exists|i: int| 0 <= i < cs.len() && is_mint_slot(svm, #[trigger] cs[i]) && cs[i].meta.pubkey == e {
                let i = choose|i: int| 0 <= i < cs.len() && is_mint_slot(svm, #[trigger] cs[i]) && cs[i].meta.pubkey == e;
                if i < d.len() {
                    assert(d[i] == cs[i]);
                    assert(before.contains(e));
                    let m = choose|m: int| 0 <= m < before.len() && before[m] == e;
                    assert(now[m] == e);
                } else {
                    assert(now[before.len() as int] == e);
                }
            }
        }
    }
}

proof fn lemma_token_used(p: Probe, c: TokenAccountCandidate)
    ensures
        token_accounts(p.svm, first_slots(slots_of(p.ixs))).contains(c) <==> exists|s: Slot| #[trigger]
            uses_token(p, s) && s.meta.pubkey == c.pubkey && spl_token_account(account_at(p.svm, c.pubkey)->0.data) == Some(
                c.token,
            ),
{
    let slots = first_slots(slots_of(p.ixs));
    lemma_token_accounts_list(p.svm, slots);
    if token_accounts(p.svm, slots).contains(c) {
        let i = choose|i: int| 0 <= i < slots.len() && is_token_slot(p.svm, #[trigger] slots[i]) && token_at(p.svm, slots[i]) == c;
        assert(slots.contains(slots[i]));
        lemma_first_slots(slots_of(p.ixs), slots[i]);
        assert(uses_token(p, slots[i]));
    }
    if exists|s: Slot| #[trigger]
        uses_token(p, s) && s.meta.pubkey == c.pubkey && spl_token_account(account_at(p.svm, c.pubkey)->0.data) == Some(c.token) {
        let s = choose|s: Slot| #[trigger]
            uses_token(p, s) && s.meta.pubkey == c.pubkey && spl_token_account(account_at(p.svm, c.pubkey)->0.data) == Some(
                c.token,
            );
        lemma_first_slots(slots_of(p.ixs), s);
        let i = choose|i: int| 0 <= i < slots.len() && slots[i] == s;
        assert(is_token_slot(p.svm, slots[i]));
        assert(token_at(p.svm, slots[i]) == c);
    }
}

proof fn lemma_pair_used(p: Probe, m: MintPair)
    ensures
        probed_pairs(p).contains(m) <==> m.mint == m.account.token.mint && exists|s: Slot|
            s.meta.pubkey == m.account.pubkey && #[trigger] beside_mint(p, s, m.account.token),
{
    let slots = first_slots(slots_of(p.ixs));
    let accounts = token_accounts(p.svm, slots);
    let mints = mint_accounts(p.svm, slots);
    lemma_mint_pairs(p, accounts, mints);
    lemma_token_used(p, m.account);
    lemma_mint_used(p, m.mint);
    lemma_reads(p, m.account.pubkey);
    if non_fee_effect(p.svm, p.after, p.ixs, p.payer.key) {
        let x = choose|x: Pubkey| #[trigger]
            account_keys(p.ixs).contains(x) && x != p.payer.key && account_at(p.svm, x) != account_at(p.after, x);
        lemma_uses(p.ixs, x);
        assert(uses(p.ixs, x));
        if probed_pairs(p).contains(m) {
            let s = choose|s: Slot| #[trigger]
                uses_token(p, s) && s.meta.pubkey == m.account.pubkey && spl_token_account(
                    account_at(p.svm, m.account.pubkey)->0.data,
                ) == Some(m.account.token);
            assert(beside_mint(p, s, m.account.token));
        }
    }
    if m.mint == m.account.token.mint && exists|s: Slot|
        s.meta.pubkey == m.account.pubkey && #[trigger] beside_mint(p, s, m.account.token) {
        let s = choose|s: Slot| s.meta.pubkey == m.account.pubkey && #[trigger] beside_mint(p, s, m.account.token);
        let x = choose|x: Pubkey| #[trigger]
            uses(p.ixs, x) && x != p.payer.key && account_at(p.svm, x) != account_at(p.after, x);
        lemma_uses(p.ixs, x);
        assert(account_keys(p.ixs).contains(x));
        assert(uses_token(p, s));
    }
}

/// The mint that stands in for another: the first of the list that is another one, or an address of all `0xCC` where the
/// list has none.
pub proof fn lemma_other_mint(mints: Seq<Pubkey>, mint: Pubkey)
    ensures
        (forall|i: int| 0 <= i < mints.len() ==> #[trigger] mints[i] == mint) ==> other_mint(mints, mint) == filled_key(0xCC),
        forall|i: int|
            0 <= i < mints.len() && #[trigger] mints[i] != mint && (forall|j: int| 0 <= j < i ==> #[trigger] mints[j] == mint)
                ==> other_mint(mints, mint) == mints[i],
    decreases mints.len(),
{
    if mints.len() > 0 && mints[0] == mint {
        let t = mints.skip(1);
        lemma_other_mint(t, mint);
        if forall|i: int| 0 <= i < mints.len() ==> #[trigger] mints[i] == mint {
            assert forall|i: int| 0 <= i < t.len() implies #[trigger] t[i] == mint by {
                assert(t[i] == mints[i + 1]);
            }
        }
        assert forall|i: int|
            0 <= i < mints.len() && #[trigger] mints[i] != mint && (forall|j: int| 0 <= j < i ==> #[trigger] mints[j] == mint)
            implies other_mint(mints, mint) == mints[i] by {
            assert(t[i - 1] == mints[i]);
            assert forall|j: int| 0 <= j < i - 1 implies #[trigger] t[j] == mint by {
                assert(t[j] == mints[j + 1]);
            }
        }
    }
}

/// The mint that stands in for that of a token account.
pub open spec fn mint_instead(p: Probe, t: TokenAccount) -> Pubkey {
    other_mint(mint_accounts(p.svm, first_slots(slots_of(p.ixs))), t.mint)
}

/// What is told of a token account that one of another mint replaced.
pub open spec fn mint_told(p: Probe, k: Pubkey, mint: Pubkey, wrong: Pubkey, decoy: Pubkey) -> FindingView {
    FindingView {
        id: found_id(p, "CC-token wrong-mint"@, k),
        message: "[CC-token wrong-mint] token account "@ + base58(k@) + " substituted with decoy "@ + base58(decoy@) + " mint "@
            + base58(mint@) + "->"@ + base58(wrong@) + " while mint account "@ + base58(mint@) + " was provided, instr "@
            + call_text(p) + " still succeeded"@,
    }
}

/// The transaction goes on with a copy of the token account at `decoy` that is of another mint.
pub open spec fn takes_mint(p: Probe, k: Pubkey, t: TokenAccount, wrong: Pubkey, decoy: Pubkey) -> bool {
    goes_on_without(
        p,
        k,
        decoy,
        AccountView { data: token_bytes(TokenAccount { mint: wrong, ..t }), ..account_at(p.svm, k)->0 },
    )
}

proof fn lemma_wrong_mint_members(p: Probe, cs: Seq<MintPair>, mints: Seq<Pubkey>, ds: Seq<Pubkey>)
    ensures
        forall|f: FindingView| #[trigger]
            wrong_mint_findings(p, cs, mints, ds).contains(f) <==> exists|i: int| 0 <= i < cs.len() && wrong_mint_finding(p, #[trigger] cs[i], other_mint(mints, cs[i].mint), ds[i]) == Some(f),
    decreases cs.len(),
{
    if cs.len() > 0 {
        let d = cs.drop_last();
        let before = wrong_mint_findings(p, d, mints, ds);
        let now = wrong_mint_findings(p, cs, mints, ds);
        let n = cs.len() - 1;
        lemma_wrong_mint_members(p, d, mints, ds);
        lemma_with_finding(before, wrong_mint_finding(p, cs[n], other_mint(mints, cs[n].mint), ds[n]));
        assert forall|f: FindingView| #[trigger] now.contains(f) <==> exists|i: int| 0 <= i < cs.len() && wrong_mint_finding(p, #[trigger] cs[i], other_mint(mints, cs[i].mint), ds[i]) == Some(f) by {
            if before.contains(f) {
                let i = choose|i: int| 0 <= i < d.len() && wrong_mint_finding(p, #[trigger] d[i], other_mint(mints, d[i].mint), ds[i]) == Some(f);
                assert(cs[i] == d[i]);
            }
            if wrong_mint_finding(p, cs[n], other_mint(mints, cs[n].mint), ds[n]) == Some(f) {
                assert(cs[n] == cs.last());
            }
            if exists|i: int| 0 <= i < cs.len() && wrong_mint_finding(p, #[trigger] cs[i], other_mint(mints, cs[i].mint), ds[i]) == Some(f) {
                let i = choose|i: int| 0 <= i < cs.len() && wrong_mint_finding(p, #[trigger] cs[i], other_mint(mints, cs[i].mint), ds[i]) == Some(f);
                if i < d.len() {
                    assert(d[i] == cs[i]);
                    assert(before.contains(f));
                }
            }
        }
    }
}

/// Each finding on mints is of a token account that stands beside its mint, and whose copy, of the mint that stands in
/// for it and at an address drawn for it, the transaction takes.
pub proof fn lemma_wrong_mint_findings(found: Findings, p: Probe, config: ConfigView, f: FindingView)
    requires
        found.found_by(p, config),
        found.wrong_mints.contains(f),
    ensures
        exists|s: Slot, t: TokenAccount, decoy: Pubkey|
            {
                &&& beside_mint(p, s, t)
                &&& drawn_for(s.meta.pubkey, decoy) && #[trigger] takes_mint(p, s.meta.pubkey, t, mint_instead(p, t), decoy)
                &&& f == mint_told(p, s.meta.pubkey, t.mint, mint_instead(p, t), decoy)
            },
{
    let cs = probed_pairs(p);
    let mints = mint_accounts(p.svm, first_slots(slots_of(p.ixs)));
    let ds = choose|ds: Seq<Pubkey>|
        decoys_for(pair_accounts(cs), ds) && found.wrong_mints == #[trigger] wrong_mint_findings(p, cs, mints, ds);
    lemma_wrong_mint_members(p, cs, mints, ds);
    let i = choose|i: int|
        0 <= i < cs.len() && wrong_mint_finding(p, #[trigger] cs[i], other_mint(mints, cs[i].mint), ds[i]) == Some(f);
    let m = cs[i];
    assert(cs.contains(m));
    lemma_pair_used(p, m);
    let s = choose|s: Slot| s.meta.pubkey == m.account.pubkey && #[trigger] beside_mint(p, s, m.account.token);
    let t = m.account.token;
    let wrong = other_mint(mints, t.mint);
    assert(drawn_for(pair_accounts(cs)[i], ds[i]));
    lemma_goes_on_without(
        p,
        s.meta.pubkey,
        ds[i],
        AccountView { data: token_bytes(TokenAccount { mint: wrong, ..t }), ..account_at(p.svm, s.meta.pubkey)->0 },
    );
    assert(takes_mint(p, s.meta.pubkey, t, mint_instead(p, t), ds[i]));
}

/// For each token account that stands beside its mint some address is drawn, and where the transaction takes a copy
/// there that is of the mint that stands in for it, there is a finding.
pub proof fn lemma_wrong_mint_tried(found: Findings, p: Probe, config: ConfigView, s: Slot, t: TokenAccount) -> (decoy: Pubkey)
    requires
        found.found_by(p, config),
        beside_mint(p, s, t),
    ensures
        drawn_for(s.meta.pubkey, decoy),
        ({
            let wrong = other_mint(mint_accounts(p.svm, first_slots(slots_of(p.ixs))), t.mint);
            takes_mint(p, s.meta.pubkey, t, wrong, decoy) ==> found.wrong_mints.contains(
                mint_told(p, s.meta.pubkey, t.mint, wrong, decoy),
            )
        }),
{
    let cs = probed_pairs(p);
    let mints = mint_accounts(p.svm, first_slots(slots_of(p.ixs)));
    let ds = choose|ds: Seq<Pubkey>|
        decoys_for(pair_accounts(cs), ds) && found.wrong_mints == #[trigger] wrong_mint_findings(p, cs, mints, ds);
    lemma_wrong_mint_members(p, cs, mints, ds);
    let k = s.meta.pubkey;
    let m = MintPair { account: TokenAccountCandidate { pubkey: k, token: t }, mint: t.mint };
    lemma_pair_used(p, m);
    let i = choose|i: int| 0 <= i < cs.len() && cs[i] == m;
    let wrong = other_mint(mints, t.mint);
    assert(drawn_for(pair_accounts(cs)[i], ds[i]));
    lemma_goes_on_without(
        p,
        k,
        ds[i],
        AccountView { data: token_bytes(TokenAccount { mint: wrong, ..t }), ..account_at(p.svm, k)->0 },
    );
    if takes_mint(p, k, t, wrong, ds[i]) {
        assert(wrong_mint_finding(p, cs[i], other_mint(mints, cs[i].mint), ds[i]) == Some(mint_told(p, k, t.mint, wrong, ds[i])));
    }
    ds[i]
}

/// The account refers to the mint, and the transaction reads it: it is another account than the mint, not executable, no
/// account of the token program, and its data hold the address of the mint.
pub open spec fn knows_mint(p: Probe, k: Pubkey, mint: Pubkey) -> bool {
    &&& k != mint && account_at(p.svm, k) is Some && !account_at(p.svm, k)->0.executable
    &&& account_at(p.svm, k)->0.data.len() > 0 && !spl_shape(account_at(p.svm, k)->0)
    &&& holds_address(account_at(p.svm, k)->0.data, mint) && reads(p, k)
}

/// The account is the first that the instructions use of those that refer to the mint.
pub open spec fn knows_first(p: Probe, k: Pubkey, mint: Pubkey) -> bool {
    exists|i: int|
        0 <= i < account_keys(p.ixs).len() && #[trigger] account_keys(p.ixs)[i] == k && knows_mint(p, k, mint) && forall|j: int|
            0 <= j < i ==> !knows_mint(p, #[trigger] account_keys(p.ixs)[j], mint)
}

proof fn lemma_first_reference_to(p: Probe, keys: Seq<Pubkey>, mint: Pubkey)
    ensures
        match first_reference(p, keys, mint) {
            Some(k) => exists|i: int|
                0 <= i < keys.len() && #[trigger] keys[i] == k && knows_mint(p, k, mint) && forall|j: int|
                    0 <= j < i ==> !knows_mint(p, #[trigger] keys[j], mint),
            None => forall|j: int| 0 <= j < keys.len() ==> !knows_mint(p, #[trigger] keys[j], mint),
        },
    decreases keys.len(),
{
    if keys.len() > 0 {
        let d = keys.drop_last();
        lemma_first_reference_to(p, d, mint);
        lemma_reads(p, keys.last());
        assert(refers_to_mint(p, keys.last(), mint) == knows_mint(p, keys.last(), mint));
        assert(keys[keys.len() - 1] == keys.last());
        assert forall|j: int| 0 <= j < d.len() implies d[j] == keys[j] by {}
        match first_reference(p, d, mint) {
            Some(k) => {
                let i = choose|i: int|
                    0 <= i < d.len() && #[trigger] d[i] == k && knows_mint(p, k, mint) && forall|j: int|
                        0 <= j < i ==> !knows_mint(p, #[trigger] d[j], mint);
                assert(keys[i] == k);
                assert forall|j: int| 0 <= j < i implies !knows_mint(p, #[trigger] keys[j], mint) by {
                    assert(d[j] == keys[j]);
                }
            },
            None => {
                assert forall|j: int| 0 <= j < d.len() implies !knows_mint(p, #[trigger] keys[j], mint) by {
                    assert(d[j] == keys[j]);
                }
            },
        }
    }
}

proof fn lemma_knows_first(p: Probe, k: Pubkey, mint: Pubkey)
    ensures
        first_reference(p, account_keys(p.ixs), mint) == Some(k) <==> knows_first(p, k, mint),
{
    let keys = account_keys(p.ixs);
    lemma_first_reference_to(p, keys, mint);
    if knows_first(p, k, mint) {
        let i = choose|i: int|
            0 <= i < keys.len() && #[trigger] keys[i] == k && knows_mint(p, k, mint) && forall|j: int|
                0 <= j < i ==> !knows_mint(p, #[trigger] keys[j], mint);
        match first_reference(p, keys, mint) {
            Some(o) => {
                let n = choose|n: int|
                    0 <= n < keys.len() && #[trigger] keys[n] == o && knows_mint(p, o, mint) && forall|j: int|
                        0 <= j < n ==> !knows_mint(p, #[trigger] keys[j], mint);
                if n < i {
                    assert(!knows_mint(p, keys[n], mint));
                }
                if i < n {
                    assert(!knows_mint(p, keys[i], mint));
                }
            },
            None => {
                assert(!knows_mint(p, keys[i], mint));
            },
        }
    }
}

/// The transaction goes on with a forged pair: a copy of the mint at `fake_mint`, and at `fake_token` a copy of the token
/// account that is of the copied mint.
pub open spec fn takes_pair(p: Probe, k: Pubkey, t: TokenAccount, fake_token: Pubkey, fake_mint: Pubkey) -> bool {
    let forged = AccountView {
        data: token_bytes(TokenAccount { mint: fake_mint, ..t }),
        ..account_at(p.svm, k)->0
    };
    let w = svm_with_account(p.svm, fake_token, forged);
    let v = svm_with_account(w.0, fake_mint, account_at(p.svm, t.mint)->0);
    &&& fake_token != fake_mint && account_at(p.svm, k) is Some && account_at(p.svm, t.mint) is Some && w.1 && v.1
    &&& exists|mid: Seq<InstructionView>, ixs: Seq<InstructionView>| #[trigger]
        swapped(p.ixs, k, fake_token, mid) && #[trigger] swapped(mid, t.mint, fake_mint, ixs) && repeats(
            p,
            v.0,
            ixs,
            p.signers,
            seq![k, fake_token, t.mint, fake_mint],
        )
}

proof fn lemma_takes_pair(p: Probe, m: MintPair, fake_token: Pubkey, fake_mint: Pubkey)
    requires
        m.mint == m.account.token.mint,
    ensures
        (fake_token != fake_mint && forged_pair_survives(p, m, fake_token, fake_mint)) == takes_pair(
            p,
            m.account.pubkey,
            m.account.token,
            fake_token,
            fake_mint,
        ),
{
    let k = m.account.pubkey;
    let t = m.account.token;
    if account_at(p.svm, k) is Some && account_at(p.svm, t.mint) is Some {
        let forged = AccountView {
            data: token_bytes(TokenAccount { mint: fake_mint, ..t }),
            ..account_at(p.svm, k)->0
        };
        let w = svm_with_account(p.svm, fake_token, forged);
        let v = svm_with_account(w.0, fake_mint, account_at(p.svm, t.mint)->0);
        let mid = rewritten(p.ixs, k, fake_token);
        let ixs = rewritten(mid, t.mint, fake_mint);
        let left_out = seq![k, fake_token, t.mint, fake_mint];
        lemma_changed(p.ixs, k, fake_token, mid);
        lemma_changed(mid, t.mint, fake_mint, ixs);
        lemma_survives(p, v.0, ixs, p.signers, left_out);
        assert(swapped(p.ixs, k, fake_token, mid) && swapped(mid, t.mint, fake_mint, ixs));
        if takes_pair(p, k, t, fake_token, fake_mint) {
            let (a, b) = choose|a: Seq<InstructionView>, b: Seq<InstructionView>| #[trigger]
                swapped(p.ixs, k, fake_token, a) && #[trigger] swapped(a, t.mint, fake_mint, b) && repeats(
                    p,
                    v.0,
                    b,
                    p.signers,
                    left_out,
                );
            lemma_changed(p.ixs, k, fake_token, a);
            lemma_changed(a, t.mint, fake_mint, b);
        }
    }
}

/// What is told of a token account and its mint that a forged pair replaced.
pub open spec fn pair_told(p: Probe, k: Pubkey, mint: Pubkey, source: Pubkey, fake_token: Pubkey, fake_mint: Pubkey) -> FindingView {
    FindingView {
        id: found_id(p, "CC-token forged-mint-pair"@, k),
        message: "[CC-token forged-mint-pair] token account "@ + base58(k@) + " and mint "@ + base58(mint@)
            + " substituted with forged pair "@ + base58(fake_token@) + " / "@ + base58(fake_mint@) + " while account "@
            + base58(source@) + " still references canonical mint "@ + base58(mint@) + ", instr "@ + call_text(p)
            + " still succeeded"@,
    }
}

proof fn lemma_forged_pair_members(p: Probe, cs: Seq<MintPair>, ds: Seq<(Pubkey, Pubkey)>)
    ensures
        forall|f: FindingView| #[trigger]
            forged_pair_findings(p, cs, ds).contains(f) <==> exists|i: int| 0 <= i < cs.len() && forged_pair_finding(p, #[trigger] cs[i], ds[i].0, ds[i].1) == Some(f),
    decreases cs.len(),
{
    if cs.len() > 0 {
        let d = cs.drop_last();
        let before = forged_pair_findings(p, d, ds);
        let now = forged_pair_findings(p, cs, ds);
        let n = cs.len() - 1;
        lemma_forged_pair_members(p, d, ds);
        lemma_with_finding(before, forged_pair_finding(p, cs[n], ds[n].0, ds[n].1));
        assert forall|f: FindingView| #[trigger] now.contains(f) <==> exists|i: int| 0 <= i < cs.len() && forged_pair_finding(p, #[trigger] cs[i], ds[i].0, ds[i].1) == Some(f) by {
            if before.contains(f) {
                let i = choose|i: int| 0 <= i < d.len() && forged_pair_finding(p, #[trigger] d[i], ds[i].0, ds[i].1) == Some(f);
                assert(cs[i] == d[i]);
            }
            if forged_pair_finding(p, cs[n], ds[n].0, ds[n].1) == Some(f) {
                assert(cs[n] == cs.last());
            }
            if exists|i: int| 0 <= i < cs.len() && forged_pair_finding(p, #[trigger] cs[i], ds[i].0, ds[i].1) == Some(f) {
                let i = choose|i: int| 0 <= i < cs.len() && forged_pair_finding(p, #[trigger] cs[i], ds[i].0, ds[i].1) == Some(f);
                if i < d.len() {
                    assert(d[i] == cs[i]);
                    assert(before.contains(f));
                }
            }
        }
    }
}

proof fn lemma_fakes(pairs: Seq<MintPair>, fakes: Seq<(Pubkey, Pubkey)>, i: int)
    requires
        fakes_for(pairs, fakes),
        0 <= i < pairs.len(),
    ensures
        drawn_for(pairs[i].account.pubkey, fakes[i].0),
        drawn_for(pairs[i].mint, fakes[i].1),
{
    let first = fakes.map_values(|f: (Pubkey, Pubkey)| f.0);
    let second = fakes.map_values(|f: (Pubkey, Pubkey)| f.1);
    assert(drawn_for(pair_accounts(pairs)[i], first[i]));
    assert(drawn_for(pair_mints(pairs)[i], second[i]));
}

/// Each finding on forged pairs is of a token account that stands beside its mint, of an account that refers to the
/// mint, and of two addresses drawn for the two, where the transaction takes the forged pair.
pub proof fn lemma_forged_pair_findings(found: Findings, p: Probe, config: ConfigView, f: FindingView)
    requires
        found.found_by(p, config),
        found.forged_pairs.contains(f),
    ensures
        exists|s: Slot, t: TokenAccount, source: Pubkey, fake_token: Pubkey, fake_mint: Pubkey|
            {
                &&& beside_mint(p, s, t) && knows_first(p, source, t.mint)
                &&& drawn_for(s.meta.pubkey, fake_token) && drawn_for(t.mint, fake_mint)
                &&& #[trigger] takes_pair(p, s.meta.pubkey, t, fake_token, fake_mint)
                &&& f == #[trigger] pair_told(p, s.meta.pubkey, t.mint, source, fake_token, fake_mint)
            },
{
    let cs = probed_pairs(p);
    let ds = choose|ds: Seq<(Pubkey, Pubkey)>|
        fakes_for(cs, ds) && found.forged_pairs == #[trigger] forged_pair_findings(p, cs, ds);
    lemma_forged_pair_members(p, cs, ds);
    let i = choose|i: int| 0 <= i < cs.len() && forged_pair_finding(p, #[trigger] cs[i], ds[i].0, ds[i].1) == Some(f);
    let m = cs[i];
    assert(cs.contains(m));
    lemma_pair_used(p, m);
    let s = choose|s: Slot| s.meta.pubkey == m.account.pubkey && #[trigger] beside_mint(p, s, m.account.token);
    let t = m.account.token;
    let source = first_reference(p, account_keys(p.ixs), m.mint)->0;
    lemma_knows_first(p, source, m.mint);
    lemma_fakes(cs, ds, i);
    lemma_takes_pair(p, m, ds[i].0, ds[i].1);
    assert(takes_pair(p, s.meta.pubkey, t, ds[i].0, ds[i].1));
    assert(f == pair_told(p, s.meta.pubkey, t.mint, source, ds[i].0, ds[i].1));
}

/// For each token account that stands beside its mint, where some account refers to the mint, two addresses are drawn,
/// and where the transaction takes the forged pair there, there is a finding.
pub proof fn lemma_forged_pair_tried(found: Findings, p: Probe, config: ConfigView, s: Slot, t: TokenAccount, source: Pubkey) -> (fakes: (Pubkey, Pubkey))
    requires
        found.found_by(p, config),
        beside_mint(p, s, t),
        knows_first(p, source, t.mint),
    ensures
        drawn_for(s.meta.pubkey, fakes.0),
        drawn_for(t.mint, fakes.1),
        takes_pair(p, s.meta.pubkey, t, fakes.0, fakes.1) ==> found.forged_pairs.contains(
            pair_told(p, s.meta.pubkey, t.mint, source, fakes.0, fakes.1),
        ),
{
    let cs = probed_pairs(p);
    let ds = choose|ds: Seq<(Pubkey, Pubkey)>|
        fakes_for(cs, ds) && found.forged_pairs == #[trigger] forged_pair_findings(p, cs, ds);
    lemma_forged_pair_members(p, cs, ds);
    let k = s.meta.pubkey;
    let m = MintPair { account: TokenAccountCandidate { pubkey: k, token: t }, mint: t.mint };
    lemma_pair_used(p, m);
    let i = choose|i: int| 0 <= i < cs.len() && cs[i] == m;
    lemma_fakes(cs, ds, i);
    lemma_knows_first(p, source, t.mint);
    lemma_takes_pair(p, m, ds[i].0, ds[i].1);
    if takes_pair(p, k, t, ds[i].0, ds[i].1) {
        assert(forged_pair_finding(p, cs[i], ds[i].0, ds[i].1) == Some(pair_told(p, k, t.mint, source, ds[i].0, ds[i].1)));
    }
    ds[i]
}

/// An address drawn for an account is that of a key pair, the first that was drawn unless that is the account itself.
pub proof fn lemma_drawn_for(target: Pubkey, r: Pubkey)
    ensures
        drawn_for(target, r) ==> crate::keys::curve_point(r@),
        crate::keys::curve_point(r@) && r != target ==> drawn_for(target, r),
{
    if crate::keys::curve_point(r@) && r != target {
        assert(r == crate::mutation::accounts::drawn(target, r, r));
    }
}

/// The places where an authority may stand in an account of a token program: in a token account that of its owner, and
/// those of a delegate and of a close authority where they are set; in a mint those of the mint authority and
/// of the freeze authority where they are set. Of other accounts nothing is known.
pub proof fn lemma_authority_places(a: AccountView, at: usize)
    ensures
        authority_offsets(a) is Some <==> token_owned(a.owner) && (token_shape(a.data) || mint_shape(a.data)),
        token_owned(a.owner) && token_shape(a.data) ==> (authority_offsets(a)->0.contains(at) <==> at == 32 || (at == 76
            && set_at(a.data, 72)) || (at == 133 && set_at(a.data, 129))),
        token_owned(a.owner) && !token_shape(a.data) && mint_shape(a.data) ==> (authority_offsets(a)->0.contains(at) <==> (at == 4
            && set_at(a.data, 0)) || (at == 50 && set_at(a.data, 46))),
        authority_offsets(a) is Some ==> forall|i: int, j: int|
            0 <= i < j < authority_offsets(a)->0.len() ==> #[trigger] authority_offsets(a)->0[i] < #[trigger] authority_offsets(a)->0[j],
{
    if authority_offsets(a) is Some {
        let s = authority_offsets(a)->0;
        let d = a.data;
        lemma_tag_set(d, 72);
        lemma_tag_set(d, 129);
        lemma_tag_set(d, 0);
        lemma_tag_set(d, 46);
        if token_shape(d) {
            assert(s[0] == 32);
            if set_at(d, 72) {
                assert(s[1] == 76);
                if set_at(d, 129) {
                    assert(s[2] == 133);
                }
            } else if set_at(d, 129) {
                assert(s[1] == 133);
            }
        } else {
            if set_at(d, 0) {
                assert(s[0] == 4);
                if set_at(d, 46) {
                    assert(s[1] == 50);
                }
            } else if set_at(d, 46) {
                assert(s[0] == 50);
            }
        }
    }
}

/// The four bytes at `at` are the number one, the lowest byte first.
pub open spec fn set_at(data: Seq<u8>, at: int) -> bool {
    at + 4 <= data.len() && data[at] == 1 && data[at + 1] == 0 && data[at + 2] == 0 && data[at + 3] == 0
}

proof fn lemma_tag_set(data: Seq<u8>, at: int)
    requires
        0 <= at,
    ensures
        (crate::token::option_tag(data, at) == Some(1u32)) == set_at(data, at),
{
}

/// Where nothing is known of where an authority may stand, it may stand at any place behind the tag where an address
/// fits, from the first to the last.
pub proof fn lemma_windows(tags: crate::schema::TagsView, data: Seq<u8>, offsets: Option<Seq<usize>>)
    requires
        data.len() <= usize::MAX,
    ensures
        offsets is Some ==> window_offsets(tags, data, offsets) == offsets->0,
        offsets is None ==> ({
            let start = if crate::schema::tag_len(tags, data) is Some { crate::schema::tag_len(tags, data)->0 as int } else { 0 };
            let w = window_offsets(tags, data, offsets);
            &&& w.len() == if start + 32 <= data.len() { data.len() - 31 - start } else { 0 }
            &&& forall|i: int| 0 <= i < w.len() ==> #[trigger] w[i] == start + i
        }),
{
}

proof fn lemma_grouped(a: Seq<FindingView>, b: Seq<FindingView>, c: Seq<FindingView>)
    ensures
        a + b + c == a + (b + c),
{
    assert(a + b + c =~= a + (b + c));
}

/// The findings are those of all probes, in the order of the probes.
pub proof fn lemma_all_probed(f: Findings)
    ensures
        f.all() == f.pdas + (f.token_owners + (f.wrong_mints + (f.forged_pairs + (f.bindings + (f.references + (f.sysvars + (f.owners + (f.signers + (f.authorities + (f.types + (f.swaps + (f.cross + (f.duplicates + (f.passed_on)))))))))))))),
{
    lemma_grouped(f.pdas + f.token_owners + f.wrong_mints + f.forged_pairs + f.bindings + f.references + f.sysvars + f.owners + f.signers + f.authorities + f.types + f.swaps + f.cross, f.duplicates, f.passed_on);
    lemma_grouped(f.pdas + f.token_owners + f.wrong_mints + f.forged_pairs + f.bindings + f.references + f.sysvars + f.owners + f.signers + f.authorities + f.types + f.swaps, f.cross, f.duplicates + (f.passed_on));
    lemma_grouped(f.pdas + f.token_owners + f.wrong_mints + f.forged_pairs + f.bindings + f.references + f.sysvars + f.owners + f.signers + f.authorities + f.types, f.swaps, f.cross + (f.duplicates + (f.passed_on)));
    lemma_grouped(f.pdas + f.token_owners + f.wrong_mints + f.forged_pairs + f.bindings + f.references + f.sysvars + f.owners + f.signers + f.authorities, f.types, f.swaps + (f.cross + (f.duplicates + (f.passed_on))));
    lemma_grouped(f.pdas + f.token_owners + f.wrong_mints + f.forged_pairs + f.bindings + f.references + f.sysvars + f.owners + f.signers, f.authorities, f.types + (f.swaps + (f.cross + (f.duplicates + (f.passed_on)))));
    lemma_grouped(f.pdas + f.token_owners + f.wrong_mints + f.forged_pairs + f.bindings + f.references + f.sysvars + f.owners, f.signers, f.authorities + (f.types + (f.swaps + (f.cross + (f.duplicates + (f.passed_on))))));
    lemma_grouped(f.pdas + f.token_owners + f.wrong_mints + f.forged_pairs + f.bindings + f.references + f.sysvars, f.owners, f.signers + (f.authorities + (f.types + (f.swaps + (f.cross + (f.duplicates + (f.passed_on)))))));
    lemma_grouped(f.pdas + f.token_owners + f.wrong_mints + f.forged_pairs + f.bindings + f.references, f.sysvars, f.owners + (f.signers + (f.authorities + (f.types + (f.swaps + (f.cross + (f.duplicates + (f.passed_on))))))));
    lemma_grouped(f.pdas + f.token_owners + f.wrong_mints + f.forged_pairs + f.bindings, f.references, f.sysvars + (f.owners + (f.signers + (f.authorities + (f.types + (f.swaps + (f.cross + (f.duplicates + (f.passed_on)))))))));
    lemma_grouped(f.pdas + f.token_owners + f.wrong_mints + f.forged_pairs, f.bindings, f.references + (f.sysvars + (f.owners + (f.signers + (f.authorities + (f.types + (f.swaps + (f.cross + (f.duplicates + (f.passed_on))))))))));
    lemma_grouped(f.pdas + f.token_owners + f.wrong_mints, f.forged_pairs, f.bindings + (f.references + (f.sysvars + (f.owners + (f.signers + (f.authorities + (f.types + (f.swaps + (f.cross + (f.duplicates + (f.passed_on)))))))))));
    lemma_grouped(f.pdas + f.token_owners, f.wrong_mints, f.forged_pairs + (f.bindings + (f.references + (f.sysvars + (f.owners + (f.signers + (f.authorities + (f.types + (f.swaps + (f.cross + (f.duplicates + (f.passed_on))))))))))));
    lemma_grouped(f.pdas, f.token_owners, f.wrong_mints + (f.forged_pairs + (f.bindings + (f.references + (f.sysvars + (f.owners + (f.signers + (f.authorities + (f.types + (f.swaps + (f.cross + (f.duplicates + (f.passed_on)))))))))))));
}

} // verus!
