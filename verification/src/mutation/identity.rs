//! Probes of what an account is: its owner, its type, its address.
use vstd::prelude::*;
use litesvm::LiteSVM;
use crate::ids::{is_known_sysvar, is_loader_owned};
#[allow(unused_imports)]
use crate::ids::{known_sysvar, loader_owned};
use crate::keys::{is_off_curve, key_text};
#[allow(unused_imports)]
use crate::keys::{base58, off_curve};
use crate::mutation::accounts::{decoy_for, list_first_slots, rewrite_account, wrong_owner};
#[allow(unused_imports)]
use crate::mutation::accounts::{first_slots, other_key, other_owner, rewritten};
#[allow(unused_imports)]
use crate::mutation::effects::ConfigView;
use crate::mutation::effects::{
    account_is_identity_relevant, account_is_load_bearing, mutated_account_probe, probe_matches_baseline_effects,
    substitute_mutated_account_probe, AccountMutationConfig, ProbeCtx,
};
#[allow(unused_imports)]
use crate::mutation::effects::{
    identity_relevant, load_bearing, mutation_survives, substitution_survives, survives, Probe,
};
use crate::mutation::findings::{add_finding, call_name, found_on, Finding};
#[allow(unused_imports)]
use crate::mutation::findings::{call_text, finding_views, found_id, opt_finding, with_finding, FindingView};
use crate::schema::{lookup_discriminator_len, TypeTags};
#[allow(unused_imports)]
use crate::schema::{tag_len, TagsView};
use crate::svm::{svm_clone, svm_get_account, svm_set_account};
#[allow(unused_imports)]
use crate::svm::{account_at, svm_with_account};
use crate::sysvars::poison_canonical_sysvar;
#[allow(unused_imports)]
use crate::sysvars::poisoned;
use crate::types::{add_key, has_key, list_slots, Account, Instruction, Pubkey};
#[allow(unused_imports)]
use crate::types::{ix_views, slots_of, with_key, AccountView, Slot};

verus! {

/// An account whose owner is probed.
#[derive(Clone, Copy, Debug, PartialEq, Eq)]
pub struct OwnerCandidate {
    pub pubkey: Pubkey,
    pub original_owner: Pubkey,
}

/// The owner of the account may be probed: the account is neither the program itself, nor known to be
/// unverified, nor a sysvar, nor a derived one where those are skipped, and it holds data.
pub open spec fn owner_probed(svm: LiteSVM, config: ConfigView, s: Slot) -> bool {
    let k = s.meta.pubkey;
    k != s.program_id && !config.unverified.contains(k) && !known_sysvar(k) && !(config.skip_pda_candidates
        && off_curve(k)) && match account_at(svm, k) {
        Some(a) => !a.executable && a.data.len() > 0,
        None => false,
    }
}

/// The accounts whose owner is probed. A program is none: nobody can give a program another owner.
pub open spec fn owner_candidates(svm: LiteSVM, config: ConfigView, slots: Seq<Slot>) -> Seq<OwnerCandidate>
    decreases slots.len(),
{
    if slots.len() == 0 {
        Seq::empty()
    } else {
        let before = owner_candidates(svm, config, slots.drop_last());
        let s = slots.last();
        let owner = account_at(svm, s.meta.pubkey)->0.owner;
        if owner_probed(svm, config, s) && !loader_owned(owner) {
            before.push(OwnerCandidate { pubkey: s.meta.pubkey, original_owner: owner })
        } else {
            before
        }
    }
}

/// What is noted of a program that was left out.
pub open spec fn loader_demotion(k: Pubkey) -> FindingView {
    FindingView {
        id: "CC-1 owner:"@ + base58(k@),
        message: "CC-1: loader-owned program account — owner not attacker-settable"@,
    }
}

/// What is noted of the programs that were left out.
pub open spec fn owner_demotions(svm: LiteSVM, config: ConfigView, slots: Seq<Slot>) -> Seq<FindingView>
    decreases slots.len(),
{
    if slots.len() == 0 {
        Seq::empty()
    } else {
        let before = owner_demotions(svm, config, slots.drop_last());
        let s = slots.last();
        if owner_probed(svm, config, s) && loader_owned(account_at(svm, s.meta.pubkey)->0.owner) {
            before.push(loader_demotion(s.meta.pubkey))
        } else {
            before
        }
    }
}

/// The accounts whose owner is probed, and what is noted of those left out.
pub struct OwnerCandidates {
    pub candidates: Vec<OwnerCandidate>,
    pub demoted: Vec<Finding>,
}

/// The accounts whose owner is probed.
pub fn collect_owner_candidates(svm: &LiteSVM, instructions: &[Instruction], config: &AccountMutationConfig) -> (r:
    OwnerCandidates)
    ensures
        r.candidates@ == owner_candidates(*svm, config@, first_slots(slots_of(ix_views(instructions@)))),
        finding_views(r.demoted@) == owner_demotions(*svm, config@, first_slots(slots_of(ix_views(instructions@)))),
{
    let slots = list_first_slots(instructions);
    let mut candidates: Vec<OwnerCandidate> = Vec::new();
    let mut demoted: Vec<Finding> = Vec::new();
    let mut i: usize = 0;
    assert(finding_views(demoted@) =~= owner_demotions(*svm, config@, slots@.take(0)));
    while i < slots.len()
        invariant
            i <= slots@.len(),
            candidates@ == owner_candidates(*svm, config@, slots@.take(i as int)),
            finding_views(demoted@) == owner_demotions(*svm, config@, slots@.take(i as int)),
        decreases slots.len() - i,
    {
        let s = slots[i];
        let k = s.meta.pubkey;
        assert(slots@.take(i + 1).drop_last() =~= slots@.take(i as int));
        if !(k == s.program_id) && !has_key(&config.unverified_accounts, &k) && !is_known_sysvar(&k) && !(
        config.skip_pda_candidates && is_off_curve(&k)) {
            match svm_get_account(svm, &k) {
                Some(a) => {
                    if !a.executable && a.data.len() > 0 {
                        if is_loader_owned(&a.owner) {
                            let mut id = String::from_str("CC-1 owner:");
                            id.append(key_text(&k).as_str());
                            let f = Finding {
                                id,
                                message: String::from_str("CC-1: loader-owned program account — owner not attacker-settable"),
                            };
                            assert(f@ == loader_demotion(k));
                            add_finding(&mut demoted, Some(f));
                        } else {
                            candidates.push(OwnerCandidate { pubkey: k, original_owner: a.owner });
                        }
                    }
                },
                None => {},
            }
        }
        i += 1;
    }
    assert(slots@.take(i as int) =~= slots@);
    OwnerCandidates { candidates, demoted }
}

/// The finding on an owner: with another owner, an account that is read is still accepted.
pub open spec fn owner_finding(p: Probe, c: OwnerCandidate) -> Option<FindingView> {
    let k = c.pubkey;
    let owner = other_owner(c.original_owner);
    match account_at(p.svm, k) {
        Some(a) => if load_bearing(p, k) && mutation_survives(p, k, AccountView { owner, ..a }) {
            Some(
                FindingView {
                    id: found_id(p, "CC-1 owner"@, k),
                    message: "[CC-1 owner] account "@ + base58(k@) + " owner "@ + base58(c.original_owner@) + "->"@ + base58(
                        owner@,
                    ) + " instr "@ + call_text(p) + " still succeeded after owner mutation"@,
                },
            )
        } else {
            None
        },
        None => None,
    }
}

/// The findings on owners.
pub open spec fn owner_findings(p: Probe, cs: Seq<OwnerCandidate>) -> Seq<FindingView>
    decreases cs.len(),
{
    if cs.len() == 0 {
        Seq::empty()
    } else {
        with_finding(owner_findings(p, cs.drop_last()), owner_finding(p, cs.last()))
    }
}

fn probe_owner_of(ctx: &ProbeCtx, c: &OwnerCandidate) -> (r: Option<Finding>)
    requires
        ctx@.ixs.len() > 0,
    ensures
        opt_finding(r) == owner_finding(ctx@, *c),
{
    let account = match svm_get_account(ctx.svm, &c.pubkey) {
        Some(a) => a,
        None => {
            return None;
        },
    };
    if !account_is_load_bearing(ctx, &c.pubkey) {
        return None;
    }
    let sentinel = wrong_owner(c.original_owner);
    let ghost want = AccountView { owner: sentinel, ..account@ };
    let mut changed = account;
    changed.owner = sentinel;
    assert(changed@ == want);
    if !mutated_account_probe(ctx, c.pubkey, changed) {
        return None;
    }
    let mut m = String::from_str("[CC-1 owner] account ");
    m.append(key_text(&c.pubkey).as_str());
    m.append(" owner ");
    m.append(key_text(&c.original_owner).as_str());
    m.append("->");
    m.append(key_text(&sentinel).as_str());
    m.append(" instr ");
    m.append(call_name(ctx).as_str());
    m.append(" still succeeded after owner mutation");
    Some(Finding { id: found_on(ctx, "CC-1 owner", &c.pubkey), message: m })
}

/// Probes the owners: an account that the program reads without checking who owns it.
pub(crate) fn probe_owners(ctx: &ProbeCtx, demoted: &mut Vec<Finding>) -> (r: Vec<Finding>)
    requires
        ctx@.ixs.len() > 0,
    ensures
        finding_views(r@) == owner_findings(
            ctx@,
            owner_candidates(ctx@.svm, ctx.config@, first_slots(slots_of(ctx@.ixs))),
        ),
        finding_views(final(demoted)@) == finding_views(old(demoted)@) + owner_demotions(
            ctx@.svm,
            ctx.config@,
            first_slots(slots_of(ctx@.ixs)),
        ),
{
    let found = collect_owner_candidates(ctx.svm, ctx.instructions, ctx.config);
    let cs = found.candidates;
    crate::mutation::findings::add_findings(demoted, found.demoted);
    let mut r: Vec<Finding> = Vec::new();
    let mut i: usize = 0;
    assert(finding_views(r@) =~= owner_findings(ctx@, cs@.take(0)));
    while i < cs.len()
        invariant
            i <= cs@.len(),
            ctx@.ixs.len() > 0,
            finding_views(r@) == owner_findings(ctx@, cs@.take(i as int)),
        decreases cs.len() - i,
    {
        assert(cs@.take(i + 1).drop_last() =~= cs@.take(i as int));
        let f = probe_owner_of(ctx, &cs[i]);
        add_finding(&mut r, f);
        i += 1;
    }
    assert(cs@.take(i as int) =~= cs@);
    r
}

/// The account has a type: it is neither the program itself nor a sysvar, and its data begins with a
/// tag.
pub open spec fn is_typed(svm: LiteSVM, tags: TagsView, s: Slot) -> bool {
    s.meta.pubkey != s.program_id && !known_sysvar(s.meta.pubkey) && match account_at(svm, s.meta.pubkey) {
        Some(a) => !a.executable && a.data.len() > 0 && tag_len(tags, a.data) is Some,
        None => false,
    }
}

/// The accounts that have a type.
pub open spec fn typed_candidates(svm: LiteSVM, tags: TagsView, slots: Seq<Slot>) -> Seq<Pubkey>
    decreases slots.len(),
{
    if slots.len() == 0 {
        Seq::empty()
    } else {
        let before = typed_candidates(svm, tags, slots.drop_last());
        if is_typed(svm, tags, slots.last()) { before.push(slots.last().meta.pubkey) } else { before }
    }
}

/// The accounts that have a type.
pub fn collect_typed_candidates(svm: &LiteSVM, instructions: &[Instruction], tags: &TypeTags) -> (r: Vec<Pubkey>)
    ensures
        r@ == typed_candidates(*svm, tags@, first_slots(slots_of(ix_views(instructions@)))),
{
    let slots = list_first_slots(instructions);
    let mut r: Vec<Pubkey> = Vec::new();
    let mut i: usize = 0;
    while i < slots.len()
        invariant
            i <= slots@.len(),
            r@ == typed_candidates(*svm, tags@, slots@.take(i as int)),
        decreases slots.len() - i,
    {
        let s = slots[i];
        let k = s.meta.pubkey;
        assert(slots@.take(i + 1).drop_last() =~= slots@.take(i as int));
        if !(k == s.program_id) && !is_known_sysvar(&k) {
            match svm_get_account(svm, &k) {
                Some(a) => {
                    if !a.executable && a.data.len() > 0 && lookup_discriminator_len(tags, a.data.as_slice()).is_some() {
                        r.push(k);
                    }
                },
                None => {},
            }
        }
        i += 1;
    }
    assert(slots@.take(i as int) =~= slots@);
    r
}

/// The data with every bit of its first `n` bytes turned over.
pub open spec fn tag_flipped(data: Seq<u8>, n: int) -> Seq<u8> {
    Seq::new(data.len(), |i: int| if i < n { !data[i] } else { data[i] })
}

/// The data with every bit of its first `n` bytes turned over.
pub fn flip_tag(data: &[u8], n: usize) -> (r: Vec<u8>)
    ensures
        r@ == tag_flipped(data@, n as int),
{
    let mut r: Vec<u8> = Vec::new();
    let mut i: usize = 0;
    while i < data.len()
        invariant
            i <= data@.len(),
            r@ == tag_flipped(data@, n as int).take(i as int),
        decreases data.len() - i,
    {
        let b: u8 = data[i];
        r.push(
            if i < n {
                !b
            } else {
                b
            },
        );
        assert(r@ =~= tag_flipped(data@, n as int).take(i + 1));
        i += 1;
    }
    assert(tag_flipped(data@, n as int).take(i as int) =~= tag_flipped(data@, n as int));
    r
}

/// The finding on a type: with its tag turned over, an account that is read is still accepted.
pub open spec fn type_finding(p: Probe, k: Pubkey) -> Option<FindingView> {
    match account_at(p.svm, k) {
        Some(a) => match tag_len(p.tags, a.data) {
            Some(n) => if load_bearing(p, k) && mutation_survives(
                p,
                k,
                AccountView { data: tag_flipped(a.data, n as int), ..a },
            ) {
                Some(
                    FindingView {
                        id: found_id(p, "CC-5 type-tag"@, k),
                        message: "[CC-5 type-tag] account "@ + base58(k@) + " discriminator bit-flipped, instr "@ + call_text(
                            p,
                        ) + " still succeeded (missing discriminator check)"@,
                    },
                )
            } else {
                None
            },
            None => None,
        },
        None => None,
    }
}

/// The findings on types.
pub open spec fn type_findings(p: Probe, keys: Seq<Pubkey>) -> Seq<FindingView>
    decreases keys.len(),
{
    if keys.len() == 0 {
        Seq::empty()
    } else {
        with_finding(type_findings(p, keys.drop_last()), type_finding(p, keys.last()))
    }
}

fn probe_type_of(ctx: &ProbeCtx, k: &Pubkey) -> (r: Option<Finding>)
    requires
        ctx@.ixs.len() > 0,
    ensures
        opt_finding(r) == type_finding(ctx@, *k),
{
    let account = match svm_get_account(ctx.svm, k) {
        Some(a) => a,
        None => {
            return None;
        },
    };
    let n: usize = match lookup_discriminator_len(ctx.tags, account.data.as_slice()) {
        Some(n) => n,
        None => {
            return None;
        },
    };
    if !account_is_load_bearing(ctx, k) {
        return None;
    }
    let ghost want = AccountView { data: tag_flipped(account@.data, n as int), ..account@ };
    let changed = Account {
        lamports: account.lamports,
        data: flip_tag(account.data.as_slice(), n),
        owner: account.owner,
        executable: account.executable,
        rent_epoch: account.rent_epoch,
    };
    assert(changed@ == want);
    if !mutated_account_probe(ctx, *k, changed) {
        return None;
    }
    let mut m = String::from_str("[CC-5 type-tag] account ");
    m.append(key_text(k).as_str());
    m.append(" discriminator bit-flipped, instr ");
    m.append(call_name(ctx).as_str());
    m.append(" still succeeded (missing discriminator check)");
    Some(Finding { id: found_on(ctx, "CC-5 type-tag", k), message: m })
}

/// Probes the types: an account that the program reads without checking its type.
pub(crate) fn probe_types(ctx: &ProbeCtx) -> (r: Vec<Finding>)
    requires
        ctx@.ixs.len() > 0,
    ensures
        finding_views(r@) == type_findings(
            ctx@,
            typed_candidates(ctx@.svm, ctx@.tags, first_slots(slots_of(ctx@.ixs))),
        ),
{
    let keys = collect_typed_candidates(ctx.svm, ctx.instructions, ctx.tags);
    let mut r: Vec<Finding> = Vec::new();
    let mut i: usize = 0;
    assert(finding_views(r@) =~= type_findings(ctx@, keys@.take(0)));
    while i < keys.len()
        invariant
            i <= keys@.len(),
            ctx@.ixs.len() > 0,
            finding_views(r@) == type_findings(ctx@, keys@.take(i as int)),
        decreases keys.len() - i,
    {
        assert(keys@.take(i + 1).drop_last() =~= keys@.take(i as int));
        let f = probe_type_of(ctx, &keys[i]);
        add_finding(&mut r, f);
        i += 1;
    }
    assert(keys@.take(i as int) =~= keys@);
    r
}

/// The account is a derived one: it is off the curve, neither the program itself nor known to be
/// unverified nor a sysvar, and no program.
pub open spec fn is_derived(svm: LiteSVM, config: ConfigView, s: Slot) -> bool {
    let k = s.meta.pubkey;
    k != s.program_id && !config.unverified.contains(k) && !known_sysvar(k) && off_curve(k) && match account_at(
        svm,
        k,
    ) {
        Some(a) => !a.executable,
        None => false,
    }
}

/// The derived accounts.
pub open spec fn pda_candidates(svm: LiteSVM, config: ConfigView, slots: Seq<Slot>) -> Seq<Pubkey>
    decreases slots.len(),
{
    if slots.len() == 0 {
        Seq::empty()
    } else {
        let before = pda_candidates(svm, config, slots.drop_last());
        if is_derived(svm, config, slots.last()) { before.push(slots.last().meta.pubkey) } else { before }
    }
}

/// The derived accounts. They need not hold data: often the address is all that matters.
pub fn collect_pda_candidates(svm: &LiteSVM, instructions: &[Instruction], config: &AccountMutationConfig) -> (r: Vec<Pubkey>)
    ensures
        r@ == pda_candidates(*svm, config@, first_slots(slots_of(ix_views(instructions@)))),
{
    let slots = list_first_slots(instructions);
    let mut r: Vec<Pubkey> = Vec::new();
    let mut i: usize = 0;
    while i < slots.len()
        invariant
            i <= slots@.len(),
            r@ == pda_candidates(*svm, config@, slots@.take(i as int)),
        decreases slots.len() - i,
    {
        let s = slots[i];
        let k = s.meta.pubkey;
        assert(slots@.take(i + 1).drop_last() =~= slots@.take(i as int));
        if !(k == s.program_id) && !has_key(&config.unverified_accounts, &k) && !is_known_sysvar(&k) && is_off_curve(&k) {
            match svm_get_account(svm, &k) {
                Some(a) => {
                    if !a.executable {
                        r.push(k);
                    }
                },
                None => {},
            }
        }
        i += 1;
    }
    assert(slots@.take(i as int) =~= slots@);
    r
}

/// The finding on a derived address: another account, with another owner, is accepted in its place.
pub open spec fn pda_finding(p: Probe, k: Pubkey) -> Option<FindingView> {
    match account_at(p.svm, k) {
        Some(a) => {
            let owner = other_owner(a.owner);
            let decoy = other_key(k);
            if identity_relevant(p, k) && substitution_survives(p, k, decoy, AccountView { owner, ..a }) {
                Some(
                    FindingView {
                        id: found_id(p, "CC-3 pda-spoof"@, k),
                        message: "[CC-3 pda-spoof] account "@ + base58(k@) + " substituted with decoy "@ + base58(decoy@)
                            + " owner "@ + base58(a.owner@) + "->"@ + base58(owner@) + " instr "@ + call_text(p)
                            + " still succeeded (missing PDA derivation/owner check)"@,
                    },
                )
            } else {
                None
            }
        },
        None => None,
    }
}

/// The findings on derived addresses.
pub open spec fn pda_findings(p: Probe, keys: Seq<Pubkey>) -> Seq<FindingView>
    decreases keys.len(),
{
    if keys.len() == 0 {
        Seq::empty()
    } else {
        with_finding(pda_findings(p, keys.drop_last()), pda_finding(p, keys.last()))
    }
}

fn probe_pda(ctx: &ProbeCtx, k: &Pubkey) -> (r: Option<Finding>)
    requires
        ctx@.ixs.len() > 0,
    ensures
        opt_finding(r) == pda_finding(ctx@, *k),
{
    let account = match svm_get_account(ctx.svm, k) {
        Some(a) => a,
        None => {
            return None;
        },
    };
    if !account_is_identity_relevant(ctx, k) {
        return None;
    }
    let decoy = decoy_for(*k);
    let original = account.owner;
    let spoof_owner = wrong_owner(original);
    let ghost want = AccountView { owner: spoof_owner, ..account@ };
    let mut changed = account;
    changed.owner = spoof_owner;
    assert(changed@ == want);
    if !substitute_mutated_account_probe(ctx, *k, decoy, changed) {
        return None;
    }
    let mut m = String::from_str("[CC-3 pda-spoof] account ");
    m.append(key_text(k).as_str());
    m.append(" substituted with decoy ");
    m.append(key_text(&decoy).as_str());
    m.append(" owner ");
    m.append(key_text(&original).as_str());
    m.append("->");
    m.append(key_text(&spoof_owner).as_str());
    m.append(" instr ");
    m.append(call_name(ctx).as_str());
    m.append(" still succeeded (missing PDA derivation/owner check)");
    Some(Finding { id: found_on(ctx, "CC-3 pda-spoof", k), message: m })
}

/// Probes the derived addresses: an account that is accepted though its address and its owner are
/// other ones.
pub(crate) fn probe_pdas(ctx: &ProbeCtx) -> (r: Vec<Finding>)
    requires
        ctx@.ixs.len() > 0,
    ensures
        finding_views(r@) == pda_findings(
            ctx@,
            pda_candidates(ctx@.svm, ctx.config@, first_slots(slots_of(ctx@.ixs))),
        ),
{
    let keys = collect_pda_candidates(ctx.svm, ctx.instructions, ctx.config);
    let mut r: Vec<Finding> = Vec::new();
    let mut i: usize = 0;
    assert(finding_views(r@) =~= pda_findings(ctx@, keys@.take(0)));
    while i < keys.len()
        invariant
            i <= keys@.len(),
            ctx@.ixs.len() > 0,
            finding_views(r@) == pda_findings(ctx@, keys@.take(i as int)),
        decreases keys.len() - i,
    {
        assert(keys@.take(i + 1).drop_last() =~= keys@.take(i as int));
        let f = probe_pda(ctx, &keys[i]);
        add_finding(&mut r, f);
        i += 1;
    }
    assert(keys@.take(i as int) =~= keys@);
    r
}

/// The sysvars that the instructions use as accounts, each once.
pub open spec fn sysvar_candidates(slots: Seq<Slot>) -> Seq<Pubkey>
    decreases slots.len(),
{
    if slots.len() == 0 {
        Seq::empty()
    } else {
        let before = sysvar_candidates(slots.drop_last());
        let s = slots.last();
        if s.meta.pubkey != s.program_id && known_sysvar(s.meta.pubkey) {
            with_key(before, s.meta.pubkey)
        } else {
            before
        }
    }
}

/// The sysvars that the instructions use as accounts, each once.
pub fn collect_sysvar_candidates(instructions: &[Instruction]) -> (r: Vec<Pubkey>)
    ensures
        r@ == sysvar_candidates(slots_of(ix_views(instructions@))),
{
    let slots = list_slots(instructions);
    let mut r: Vec<Pubkey> = Vec::new();
    let mut i: usize = 0;
    while i < slots.len()
        invariant
            i <= slots@.len(),
            r@ == sysvar_candidates(slots@.take(i as int)),
        decreases slots.len() - i,
    {
        let s = slots[i];
        assert(slots@.take(i + 1).drop_last() =~= slots@.take(i as int));
        if !(s.meta.pubkey == s.program_id) && is_known_sysvar(&s.meta.pubkey) {
            add_key(&mut r, s.meta.pubkey);
        }
        i += 1;
    }
    assert(slots@.take(i as int) =~= slots@);
    r
}

/// With a copy of the sysvar at `decoy` in the place of `target`, and another value in the sysvar
/// itself, the transaction does what it did: it took the value from the copy.
pub open spec fn sysvar_swap_survives(p: Probe, target: Pubkey, decoy: Pubkey) -> bool {
    match account_at(p.svm, target) {
        Some(a) => {
            let w = svm_with_account(p.svm, decoy, a);
            w.1 && match poisoned(w.0, target) {
                Some(after) => survives(
                    p,
                    after,
                    rewritten(p.ixs, target, decoy),
                    p.signers,
                    seq![(target, decoy)],
                    Seq::empty(),
                ),
                None => false,
            }
        },
        None => false,
    }
}

/// Whether the transaction takes the value of a sysvar from a copy at another address.
pub(crate) fn sysvar_substitution_probe(ctx: &ProbeCtx, target: &Pubkey, decoy: &Pubkey) -> (r: bool)
    ensures
        r == sysvar_swap_survives(ctx@, *target, *decoy),
{
    let account = match svm_get_account(ctx.svm, target) {
        Some(a) => a,
        None => {
            return false;
        },
    };
    let mut probe = svm_clone(ctx.svm);
    if !svm_set_account(&mut probe, decoy, account) {
        return false;
    }
    if !poison_canonical_sysvar(&mut probe, target) {
        return false;
    }
    let changed = rewrite_account(ctx.instructions, *target, *decoy);
    let equivalent: [(Pubkey, Pubkey); 1] = [(*target, *decoy)];
    let none: [Pubkey; 0] = [];
    assert(equivalent@ =~= seq![(*target, *decoy)]);
    assert(none@ =~= Seq::<Pubkey>::empty());
    probe_matches_baseline_effects(ctx, probe, changed.as_slice(), &equivalent, &none)
}

/// The finding on a sysvar: a copy at another address is accepted in its place.
pub open spec fn sysvar_finding(p: Probe, k: Pubkey) -> Option<FindingView> {
    let decoy = other_key(k);
    if load_bearing(p, k) && sysvar_swap_survives(p, k, decoy) {
        Some(
            FindingView {
                id: found_id(p, "CC-2 sysvar"@, k),
                message: "[CC-2 sysvar] account "@ + base58(k@) + " substituted with decoy "@ + base58(decoy@) + " instr "@
                    + call_text(p) + " still succeeded (missing sysvar identity check)"@,
            },
        )
    } else {
        None
    }
}

/// The findings on sysvars.
pub open spec fn sysvar_findings(p: Probe, keys: Seq<Pubkey>) -> Seq<FindingView>
    decreases keys.len(),
{
    if keys.len() == 0 {
        Seq::empty()
    } else {
        with_finding(sysvar_findings(p, keys.drop_last()), sysvar_finding(p, keys.last()))
    }
}

fn probe_sysvar(ctx: &ProbeCtx, k: &Pubkey) -> (r: Option<Finding>)
    requires
        ctx@.ixs.len() > 0,
    ensures
        opt_finding(r) == sysvar_finding(ctx@, *k),
{
    if !account_is_load_bearing(ctx, k) {
        return None;
    }
    let decoy = decoy_for(*k);
    if !sysvar_substitution_probe(ctx, k, &decoy) {
        return None;
    }
    let mut m = String::from_str("[CC-2 sysvar] account ");
    m.append(key_text(k).as_str());
    m.append(" substituted with decoy ");
    m.append(key_text(&decoy).as_str());
    m.append(" instr ");
    m.append(call_name(ctx).as_str());
    m.append(" still succeeded (missing sysvar identity check)");
    Some(Finding { id: found_on(ctx, "CC-2 sysvar", k), message: m })
}

/// Probes the sysvars: one that the program trusts by its place, not by its address.
pub(crate) fn probe_sysvars(ctx: &ProbeCtx) -> (r: Vec<Finding>)
    requires
        ctx@.ixs.len() > 0,
    ensures
        finding_views(r@) == sysvar_findings(ctx@, sysvar_candidates(slots_of(ctx@.ixs))),
{
    let keys = collect_sysvar_candidates(ctx.instructions);
    let mut r: Vec<Finding> = Vec::new();
    let mut i: usize = 0;
    assert(finding_views(r@) =~= sysvar_findings(ctx@, keys@.take(0)));
    while i < keys.len()
        invariant
            i <= keys@.len(),
            ctx@.ixs.len() > 0,
            finding_views(r@) == sysvar_findings(ctx@, keys@.take(i as int)),
        decreases keys.len() - i,
    {
        assert(keys@.take(i + 1).drop_last() =~= keys@.take(i as int));
        let f = probe_sysvar(ctx, &keys[i]);
        add_finding(&mut r, f);
        i += 1;
    }
    assert(keys@.take(i as int) =~= keys@);
    r
}

} // verus!
