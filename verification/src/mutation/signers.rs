//! Probes of who signs.
use vstd::prelude::*;
use crate::ids::is_known_sysvar;
#[allow(unused_imports)]
use crate::ids::known_sysvar;
use crate::keys::{key_text, Keypair};
#[allow(unused_imports)]
use crate::keys::base58;
use crate::mutation::accounts::{
    account_has_signer_meta, clear_signer, instruction_account_keys_ordered, rewrite_account, signer_meta_pubkeys,
};
#[allow(unused_imports)]
use crate::mutation::accounts::{account_keys, rewritten, signer_slots, signs, unsigned_by};
use crate::mutation::effects::{
    account_is_load_bearing, probe_matches_baseline_effects, probe_matches_baseline_effects_with_signers, ProbeCtx,
};
#[allow(unused_imports)]
use crate::mutation::effects::{load_bearing, survives, Probe};
use crate::mutation::findings::{add_finding, call_name, found_on, Finding};
#[allow(unused_imports)]
use crate::mutation::findings::{call_text, finding_views, found_id, opt_finding, with_finding, FindingView};
use crate::mutation::refs::data_contains_pubkey;
#[allow(unused_imports)]
use crate::mutation::refs::holds_address;
use crate::svm::{copy_signers, svm_clone, svm_get_account, svm_set_account};
#[allow(unused_imports)]
use crate::svm::{account_at, svm_with_account};
use crate::token::is_spl_token_shape;
#[allow(unused_imports)]
use crate::token::spl_shape;
use crate::types::{has_key, list_slots, Account, Instruction, Pubkey};
#[allow(unused_imports)]
use crate::types::{ix_views, key_of, slots_of, zero_key, AccountView, InstructionView, Slot};

verus! {

/// Why an account is taken to have to sign.
#[derive(Clone, Copy, Debug, PartialEq, Eq, Structural)]
pub enum SignerCandidateKind {
    /// An instruction asks it to.
    MetaSigner,
    /// A key pair was supplied for it.
    SuppliedSigner,
}

/// An account that is taken to have to sign.
#[derive(Clone, Copy, Debug, PartialEq, Eq)]
pub struct SignerCandidate {
    pub pubkey: Pubkey,
    pub kind: SignerCandidateKind,
}

/// The account is among the candidates.
pub open spec fn is_candidate(cs: Seq<SignerCandidate>, k: Pubkey) -> bool {
    exists|i: int| 0 <= i < cs.len() && (#[trigger] cs[i]).pubkey == k
}

/// The candidates with one more, unless it is among them.
pub open spec fn with_candidate(cs: Seq<SignerCandidate>, k: Pubkey, kind: SignerCandidateKind) -> Seq<SignerCandidate> {
    if is_candidate(cs, k) { cs } else { cs.push(SignerCandidate { pubkey: k, kind }) }
}

/// The accounts that some instruction asks to sign.
pub open spec fn meta_signers(slots: Seq<Slot>) -> Seq<SignerCandidate>
    decreases slots.len(),
{
    if slots.len() == 0 {
        Seq::empty()
    } else {
        let before = meta_signers(slots.drop_last());
        if slots.last().meta.is_signer {
            with_candidate(before, slots.last().meta.pubkey, SignerCandidateKind::MetaSigner)
        } else {
            before
        }
    }
}

/// The candidates with the accounts for which a key pair was supplied, where the instructions use them.
pub open spec fn with_supplied(cs: Seq<SignerCandidate>, keys: Seq<Pubkey>, signers: Seq<Keypair>) -> Seq<SignerCandidate>
    decreases signers.len(),
{
    if signers.len() == 0 {
        cs
    } else {
        let before = with_supplied(cs, keys, signers.drop_last());
        if keys.contains(signers.last().key) {
            with_candidate(before, signers.last().key, SignerCandidateKind::SuppliedSigner)
        } else {
            before
        }
    }
}

/// The accounts that are taken to have to sign.
pub open spec fn signer_list(ixs: Seq<InstructionView>, signers: Seq<Keypair>) -> Seq<SignerCandidate> {
    with_supplied(meta_signers(slots_of(ixs)), account_keys(ixs), signers)
}

fn add_candidate(cs: &mut Vec<SignerCandidate>, k: Pubkey, kind: SignerCandidateKind)
    ensures
        final(cs)@ == with_candidate(old(cs)@, k, kind),
{
    let mut i: usize = 0;
    while i < cs.len()
        invariant
            i <= cs@.len(),
            cs@ == old(cs)@,
            forall|j: int| 0 <= j < i ==> (#[trigger] cs@[j]).pubkey != k,
        decreases cs.len() - i,
    {
        if cs[i].pubkey == k {
            return;
        }
        i += 1;
    }
    cs.push(SignerCandidate { pubkey: k, kind });
}

/// The accounts that are taken to have to sign: those that an instruction asks to, and those for which
/// a key pair was supplied although no instruction asks them to.
pub fn signer_candidates(instructions: &[Instruction], signers: &Vec<Keypair>) -> (r: Vec<SignerCandidate>)
    ensures
        r@ == signer_list(ix_views(instructions@), signers@),
{
    let slots = list_slots(instructions);
    let keys = instruction_account_keys_ordered(instructions);
    let mut cs: Vec<SignerCandidate> = Vec::new();
    let mut i: usize = 0;
    while i < slots.len()
        invariant
            i <= slots@.len(),
            cs@ == meta_signers(slots@.take(i as int)),
        decreases slots.len() - i,
    {
        assert(slots@.take(i + 1).drop_last() =~= slots@.take(i as int));
        if slots[i].meta.is_signer {
            add_candidate(&mut cs, slots[i].meta.pubkey, SignerCandidateKind::MetaSigner);
        }
        i += 1;
    }
    assert(slots@.take(i as int) =~= slots@);
    let ghost metas = cs@;
    let mut j: usize = 0;
    while j < signers.len()
        invariant
            j <= signers@.len(),
            cs@ == with_supplied(metas, keys@, signers@.take(j as int)),
        decreases signers.len() - j,
    {
        assert(signers@.take(j + 1).drop_last() =~= signers@.take(j as int));
        let k = signers[j].key;
        if has_key(&keys, &k) {
            add_candidate(&mut cs, k, SignerCandidateKind::SuppliedSigner);
        }
        j += 1;
    }
    assert(signers@.take(j as int) =~= signers@);
    cs
}

/// The accounts that are left out of the comparison: the payer, where the instructions do not use it.
pub open spec fn payer_ignored(a: Seq<InstructionView>, b: Seq<InstructionView>, payer: Pubkey) -> Seq<Pubkey> {
    if account_keys(a).contains(payer) || account_keys(b).contains(payer) { Seq::empty() } else { seq![payer] }
}

/// The accounts that are left out of the comparison where an account no longer signs: the fee changes
/// with the number of signatures.
pub fn signer_probe_ignored_accounts(
    baseline_instructions: &[Instruction],
    mutated_instructions: &[Instruction],
    payer: Pubkey,
) -> (r: Vec<Pubkey>)
    ensures
        r@ == payer_ignored(ix_views(baseline_instructions@), ix_views(mutated_instructions@), payer),
{
    let a = instruction_account_keys_ordered(baseline_instructions);
    let b = instruction_account_keys_ordered(mutated_instructions);
    let mut r: Vec<Pubkey> = Vec::new();
    assert(r@ =~= Seq::<Pubkey>::empty());
    if !has_key(&a, &payer) && !has_key(&b, &payer) {
        r.push(payer);
        assert(r@ =~= seq![payer]);
    }
    r
}

/// Without the signature of `k`, the transaction does what it did.
pub open spec fn unsigned_survives(p: Probe, k: Pubkey) -> bool {
    let ixs = unsigned_by(p.ixs, k);
    survives(p, p.svm, ixs, p.signers, Seq::empty(), payer_ignored(p.ixs, ixs, p.payer.key))
}

/// Whether the transaction does what it did without the signature of `k`.
pub(crate) fn unsigned_probe(ctx: &ProbeCtx, k: &Pubkey) -> (r: bool)
    ensures
        r == unsigned_survives(ctx@, *k),
{
    let flipped = clear_signer(ctx.instructions, *k);
    let ignored = signer_probe_ignored_accounts(ctx.instructions, flipped.as_slice(), ctx.payer.key);
    let none: [(Pubkey, Pubkey); 0] = [];
    assert(none@ =~= Seq::<(Pubkey, Pubkey)>::empty());
    probe_matches_baseline_effects(ctx, svm_clone(ctx.svm), flipped.as_slice(), &none, ignored.as_slice())
}

/// What is said of a candidate.
pub open spec fn signer_detail(kind: SignerCandidateKind) -> Seq<char> {
    match kind {
        SignerCandidateKind::MetaSigner => "is_signer cleared"@,
        SignerCandidateKind::SuppliedSigner => "signer keypair supplied but account meta was not signer"@,
    }
}

/// The finding on a signer: without its signature, the transaction does what it did. The payer has to
/// sign in any case.
pub open spec fn signer_finding(p: Probe, c: SignerCandidate) -> Option<FindingView> {
    if c.pubkey != p.payer.key && unsigned_survives(p, c.pubkey) {
        Some(
            FindingView {
                id: found_id(p, "CC-4 signer"@, c.pubkey),
                message: "[CC-4 signer] account "@ + base58(c.pubkey@) + " "@ + signer_detail(c.kind) + ", instr "@ + call_text(
                    p,
                ) + " still succeeded (missing signer check)"@,
            },
        )
    } else {
        None
    }
}

/// The findings on signers.
pub open spec fn signer_findings(p: Probe, cs: Seq<SignerCandidate>) -> Seq<FindingView>
    decreases cs.len(),
{
    if cs.len() == 0 {
        Seq::empty()
    } else {
        with_finding(signer_findings(p, cs.drop_last()), signer_finding(p, cs.last()))
    }
}

fn probe_signer(ctx: &ProbeCtx, c: &SignerCandidate) -> (r: Option<Finding>)
    requires
        ctx@.ixs.len() > 0,
    ensures
        opt_finding(r) == signer_finding(ctx@, *c),
{
    if c.pubkey == ctx.payer.key || !unsigned_probe(ctx, &c.pubkey) {
        return None;
    }
    let mut m = String::from_str("[CC-4 signer] account ");
    m.append(key_text(&c.pubkey).as_str());
    m.append(" ");
    match c.kind {
        SignerCandidateKind::MetaSigner => {
            m.append("is_signer cleared");
        },
        SignerCandidateKind::SuppliedSigner => {
            m.append("signer keypair supplied but account meta was not signer");
        },
    }
    m.append(", instr ");
    m.append(call_name(ctx).as_str());
    m.append(" still succeeded (missing signer check)");
    Some(Finding { id: found_on(ctx, "CC-4 signer", &c.pubkey), message: m })
}

/// Probes the signers: an account that is meant to sign, and whose signature is not asked for.
pub(crate) fn probe_signers(ctx: &ProbeCtx) -> (r: Vec<Finding>)
    requires
        ctx@.ixs.len() > 0,
    ensures
        finding_views(r@) == signer_findings(ctx@, signer_list(ctx@.ixs, ctx@.signers)),
{
    let cs = signer_candidates(ctx.instructions, ctx.signers);
    let mut r: Vec<Finding> = Vec::new();
    let mut i: usize = 0;
    assert(finding_views(r@) =~= signer_findings(ctx@, cs@.take(0)));
    while i < cs.len()
        invariant
            i <= cs@.len(),
            ctx@.ixs.len() > 0,
            finding_views(r@) == signer_findings(ctx@, cs@.take(i as int)),
        decreases cs.len() - i,
    {
        assert(cs@.take(i + 1).drop_last() =~= cs@.take(i as int));
        let f = probe_signer(ctx, &cs[i]);
        add_finding(&mut r, f);
        i += 1;
    }
    assert(cs@.take(i as int) =~= cs@);
    r
}

/// An account that may name the one who has to sign: it does not sign itself, is no sysvar, no program,
/// not empty and none of a token program, and it is read.
pub open spec fn names_authority(p: Probe, k: Pubkey) -> bool {
    !signs(slots_of(p.ixs), k) && !known_sysvar(k) && match account_at(p.svm, k) {
        Some(a) => !a.executable && a.data.len() > 0 && !spl_shape(a) && load_bearing(p, k),
        None => false,
    }
}

/// `signer` is named by the account at `source`, and its signature is asked for.
pub open spec fn is_authority(p: Probe, source: Pubkey, signer: Pubkey) -> bool {
    signer != p.payer.key && signer != source && holds_address(account_at(p.svm, source)->0.data, signer)
        && !unsigned_survives(p, signer)
}

/// The authorities that one account names.
pub open spec fn authorities_of(p: Probe, source: Pubkey, signers: Seq<Pubkey>) -> Seq<(Pubkey, Pubkey)>
    decreases signers.len(),
{
    if signers.len() == 0 {
        Seq::empty()
    } else {
        let before = authorities_of(p, source, signers.drop_last());
        if is_authority(p, source, signers.last()) { before.push((source, signers.last())) } else { before }
    }
}

/// The authorities that some accounts name.
pub open spec fn authorities(p: Probe, sources: Seq<Pubkey>) -> Seq<(Pubkey, Pubkey)>
    decreases sources.len(),
{
    if sources.len() == 0 {
        Seq::empty()
    } else {
        let before = authorities(p, sources.drop_last());
        if names_authority(p, sources.last()) {
            before + authorities_of(p, sources.last(), signer_slots(slots_of(p.ixs)))
        } else {
            before
        }
    }
}

fn push_authorities_of(ctx: &ProbeCtx, r: &mut Vec<(Pubkey, Pubkey)>, source: &Pubkey, data: &[u8], signers: &Vec<Pubkey>)
    requires
        account_at(ctx@.svm, *source) is Some,
        account_at(ctx@.svm, *source)->0.data == data@,
    ensures
        final(r)@ == old(r)@ + authorities_of(ctx@, *source, signers@),
{
    let ghost before = r@;
    let mut i: usize = 0;
    assert(r@ =~= before + authorities_of(ctx@, *source, signers@.take(0)));
    while i < signers.len()
        invariant
            i <= signers@.len(),
            account_at(ctx@.svm, *source) is Some,
            account_at(ctx@.svm, *source)->0.data == data@,
            r@ == before + authorities_of(ctx@, *source, signers@.take(i as int)),
        decreases signers.len() - i,
    {
        let signer = signers[i];
        assert(signers@.take(i + 1).drop_last() =~= signers@.take(i as int));
        if !(signer == ctx.payer.key) && !(signer == *source) && data_contains_pubkey(data, &signer) && !unsigned_probe(
            ctx,
            &signer,
        ) {
            r.push((*source, signer));
        }
        assert(r@ =~= before + authorities_of(ctx@, *source, signers@.take(i + 1)));
        i += 1;
    }
    assert(signers@.take(i as int) =~= signers@);
}

/// The accounts that name an authority, each with the authority.
pub(crate) fn collect_authorities(ctx: &ProbeCtx) -> (r: Vec<(Pubkey, Pubkey)>)
    ensures
        r@ == authorities(ctx@, account_keys(ctx@.ixs)),
{
    let keys = instruction_account_keys_ordered(ctx.instructions);
    let signers = signer_meta_pubkeys(ctx.instructions);
    let mut r: Vec<(Pubkey, Pubkey)> = Vec::new();
    let mut i: usize = 0;
    while i < keys.len()
        invariant
            i <= keys@.len(),
            signers@ == signer_slots(slots_of(ctx@.ixs)),
            r@ == authorities(ctx@, keys@.take(i as int)),
        decreases keys.len() - i,
    {
        let k = keys[i];
        assert(keys@.take(i + 1).drop_last() =~= keys@.take(i as int));
        if !account_has_signer_meta(ctx.instructions, k) && !is_known_sysvar(&k) {
            match svm_get_account(ctx.svm, &k) {
                Some(a) => {
                    if !a.executable && a.data.len() > 0 && !is_spl_token_shape(&a) && account_is_load_bearing(ctx, &k) {
                        push_authorities_of(ctx, &mut r, &k, a.data.as_slice(), &signers);
                    }
                },
                None => {},
            }
        }
        i += 1;
    }
    assert(keys@.take(i as int) =~= keys@);
    r
}

/// The account of one who signs: some lamports, and nothing else.
pub open spec fn plain_signer() -> AccountView {
    AccountView {
        lamports: 1_000_000,
        data: Seq::empty(),
        owner: key_of(zero_key()),
        executable: false,
        rent_epoch: 0,
    }
}

fn system_signer_account() -> (r: Account)
    ensures
        r@ == plain_signer(),
{
    let owner = Pubkey::default();
    proof {
        crate::types::lemma_key_of(owner);
    }
    let r = Account { lamports: 1_000_000, data: Vec::new(), owner, executable: false, rent_epoch: 0 };
    assert(r@.data =~= Seq::<u8>::empty());
    r
}

/// With `attacker` signing in the place of the authority, the transaction does what it did.
pub open spec fn authority_swap_survives(p: Probe, signer: Pubkey, attacker: Keypair) -> bool {
    let w = svm_with_account(p.svm, attacker.key, plain_signer());
    w.1 && survives(
        p,
        w.0,
        rewritten(p.ixs, signer, attacker.key),
        p.signers.push(attacker),
        Seq::empty(),
        seq![signer, attacker.key],
    )
}

/// The finding on an authority: another one signs in its place, and the transaction does what it did.
pub open spec fn authority_finding(p: Probe, source: Pubkey, signer: Pubkey, attacker: Keypair) -> Option<FindingView> {
    if authority_swap_survives(p, signer, attacker) {
        Some(
            FindingView {
                id: found_id(p, "CC-9 authority"@, source),
                message: "[CC-9 authority] account "@ + base58(source@) + " contains authority "@ + base58(signer@)
                    + ", but instr "@ + call_text(p) + " still succeeded with replacement signer "@ + base58(attacker.key@),
            },
        )
    } else {
        None
    }
}

/// The findings on authorities, with the key pairs that sign in their places.
pub open spec fn authority_findings(p: Probe, pairs: Seq<(Pubkey, Pubkey)>, attackers: Seq<Keypair>) -> Seq<FindingView>
    decreases pairs.len(),
{
    if pairs.len() == 0 {
        Seq::empty()
    } else {
        with_finding(
            authority_findings(p, pairs.drop_last(), attackers),
            authority_finding(p, pairs.last().0, pairs.last().1, attackers[pairs.len() - 1]),
        )
    }
}

fn probe_authority(ctx: &ProbeCtx, source: &Pubkey, signer: &Pubkey, attacker: &Keypair) -> (r: Option<Finding>)
    requires
        ctx@.ixs.len() > 0,
    ensures
        opt_finding(r) == authority_finding(ctx@, *source, *signer, *attacker),
{
    let mut probe = svm_clone(ctx.svm);
    if !svm_set_account(&mut probe, &attacker.key, system_signer_account()) {
        return None;
    }
    let changed = rewrite_account(ctx.instructions, *signer, attacker.key);
    let mut signers = copy_signers(ctx.signers);
    signers.push(*attacker);
    let none: [(Pubkey, Pubkey); 0] = [];
    let ignored: [Pubkey; 2] = [*signer, attacker.key];
    assert(none@ =~= Seq::<(Pubkey, Pubkey)>::empty());
    assert(ignored@ =~= seq![*signer, attacker.key]);
    if !probe_matches_baseline_effects_with_signers(ctx, probe, changed.as_slice(), &signers, &none, &ignored) {
        return None;
    }
    let mut m = String::from_str("[CC-9 authority] account ");
    m.append(key_text(source).as_str());
    m.append(" contains authority ");
    m.append(key_text(signer).as_str());
    m.append(", but instr ");
    m.append(call_name(ctx).as_str());
    m.append(" still succeeded with replacement signer ");
    m.append(key_text(&attacker.key).as_str());
    Some(Finding { id: found_on(ctx, "CC-9 authority", source), message: m })
}

/// Probes authorities with given key pairs in their places.
pub(crate) fn probe_authorities_with(ctx: &ProbeCtx, pairs: &Vec<(Pubkey, Pubkey)>, attackers: &Vec<Keypair>) -> (r: Vec<Finding>)
    requires
        ctx@.ixs.len() > 0,
        attackers@.len() == pairs@.len(),
    ensures
        finding_views(r@) == authority_findings(ctx@, pairs@, attackers@),
{
    let mut r: Vec<Finding> = Vec::new();
    let mut i: usize = 0;
    assert(finding_views(r@) =~= authority_findings(ctx@, pairs@.take(0), attackers@));
    while i < pairs.len()
        invariant
            i <= pairs@.len(),
            attackers@.len() == pairs@.len(),
            ctx@.ixs.len() > 0,
            finding_views(r@) == authority_findings(ctx@, pairs@.take(i as int), attackers@),
        decreases pairs.len() - i,
    {
        assert(pairs@.take(i + 1).drop_last() =~= pairs@.take(i as int));
        let f = probe_authority(ctx, &pairs[i].0, &pairs[i].1, &attackers[i]);
        add_finding(&mut r, f);
        i += 1;
    }
    assert(pairs@.take(i as int) =~= pairs@);
    r
}

/// As many key pairs, drawn at random.
pub fn draw_keypairs(n: usize) -> (r: Vec<Keypair>)
    ensures
        r@.len() == n,
        forall|i: int| 0 <= i < n ==> (#[trigger] r@[i]).well_formed(),
{
    let mut r: Vec<Keypair> = Vec::new();
    let mut i: usize = 0;
    while i < n
        invariant
            i <= n,
            r@.len() == i,
            forall|j: int| 0 <= j < i ==> (#[trigger] r@[j]).well_formed(),
        decreases n - i,
    {
        r.push(Keypair::new());
        i += 1;
    }
    r
}

/// One key pair was drawn for each of the authorities.
pub open spec fn attackers_for(pairs: Seq<(Pubkey, Pubkey)>, attackers: Seq<Keypair>) -> bool {
    attackers.len() == pairs.len() && forall|i: int| 0 <= i < attackers.len() ==> (#[trigger] attackers[i]).well_formed()
}

/// The findings are those on the authorities, with a key pair drawn for each in its place.
pub open spec fn authority_outcome(p: Probe, found: Seq<FindingView>) -> bool {
    exists|attackers: Seq<Keypair>|
        attackers_for(authorities(p, account_keys(p.ixs)), attackers) && found == #[trigger] authority_findings(p, authorities(p, account_keys(p.ixs)), attackers)
}

/// Probes the authorities: an account names who has to sign, and another one may.
pub(crate) fn probe_authorities(ctx: &ProbeCtx) -> (r: Vec<Finding>)
    requires
        ctx@.ixs.len() > 0,
    ensures
        authority_outcome(ctx@, finding_views(r@)),
{
    let pairs = collect_authorities(ctx);
    let attackers = draw_keypairs(pairs.len());
    assert(attackers_for(pairs@, attackers@));
    probe_authorities_with(ctx, &pairs, &attackers)
}

} // verus!
