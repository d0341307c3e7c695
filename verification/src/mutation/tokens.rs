//! Probes of the accounts of token programs.
use vstd::prelude::*;
use litesvm::LiteSVM;
use crate::ids::{is_known_sysvar, is_token_program_owner};
#[allow(unused_imports)]
use crate::ids::{known_sysvar, token_owned};
use crate::keys::key_text;
#[allow(unused_imports)]
use crate::keys::base58;
use crate::mutation::accounts::{
    attacker_key, instruction_account_keys_ordered, list_first_slots, rewrite_account, token_decoy_for, wrong_owner,
};
#[allow(unused_imports)]
use crate::mutation::accounts::{drawn_for, account_keys, attacker, first_slots, other_owner, rewritten};
use crate::mutation::effects::{
    account_is_load_bearing, baseline_has_non_fee_effect, probe_matches_baseline_effects, substitute_mutated_account_probe,
    ProbeCtx,
};
#[allow(unused_imports)]
use crate::mutation::effects::{load_bearing, non_fee_effect, substitution_survives, survives, Probe};
use crate::mutation::findings::{add_finding, call_name, found_on, Finding};
#[allow(unused_imports)]
use crate::mutation::findings::{call_text, finding_views, found_id, opt_finding, with_finding, FindingView};
use crate::mutation::refs::data_contains_pubkey;
#[allow(unused_imports)]
use crate::mutation::refs::holds_address;
use crate::svm::{svm_clone, svm_get_account, svm_set_account};
#[allow(unused_imports)]
use crate::svm::{account_at, svm_with_account};
use crate::token::{is_spl_token_shape, pack_token_account, unpack_mint, unpack_token_account, TokenAccount};
#[allow(unused_imports)]
use crate::token::{mint_shape, spl_shape, spl_token_account, token_bytes, token_shape};
use crate::types::{Account, Instruction, Pubkey};
#[allow(unused_imports)]
use crate::types::{ix_views, slots_of, AccountView, Slot};

verus! {

/// What an account of a token program is.
#[derive(Clone, Copy, Debug, PartialEq, Eq, Structural)]
pub enum TokenShapeKind {
    Mint,
    Account,
}

/// An account of a token program.
#[derive(Clone, Copy, Debug, PartialEq, Eq)]
pub struct TokenShapeCandidate {
    pub pubkey: Pubkey,
    pub owner: Pubkey,
    pub kind: TokenShapeKind,
}

/// The account belongs to a token program, and is neither the program itself nor a sysvar nor a program.
pub open spec fn in_token_program(svm: LiteSVM, s: Slot) -> bool {
    s.meta.pubkey != s.program_id && !known_sysvar(s.meta.pubkey) && match account_at(svm, s.meta.pubkey) {
        Some(a) => !a.executable && token_owned(a.owner),
        None => false,
    }
}

/// The mints and the token accounts.
pub open spec fn shape_candidates(svm: LiteSVM, slots: Seq<Slot>) -> Seq<TokenShapeCandidate>
    decreases slots.len(),
{
    if slots.len() == 0 {
        Seq::empty()
    } else {
        let before = shape_candidates(svm, slots.drop_last());
        let s = slots.last();
        let k = s.meta.pubkey;
        let a = account_at(svm, k)->0;
        if !in_token_program(svm, s) {
            before
        } else if mint_shape(a.data) {
            before.push(TokenShapeCandidate { pubkey: k, owner: a.owner, kind: TokenShapeKind::Mint })
        } else if token_shape(a.data) {
            before.push(TokenShapeCandidate { pubkey: k, owner: a.owner, kind: TokenShapeKind::Account })
        } else {
            before
        }
    }
}

fn token_program_account(svm: &LiteSVM, s: &Slot) -> (r: Option<Account>)
    ensures
        match r {
            Some(a) => in_token_program(*svm, *s) && account_at(*svm, s.meta.pubkey) == Some(a@),
            None => !in_token_program(*svm, *s),
        },
{
    let k = s.meta.pubkey;
    if k == s.program_id || is_known_sysvar(&k) {
        return None;
    }
    match svm_get_account(svm, &k) {
        Some(a) => if !a.executable && is_token_program_owner(&a.owner) {
            Some(a)
        } else {
            None
        },
        None => None,
    }
}

/// The mints and the token accounts that the instructions use.
pub fn collect_token_shape_candidates(svm: &LiteSVM, instructions: &[Instruction]) -> (r: Vec<TokenShapeCandidate>)
    ensures
        r@ == shape_candidates(*svm, first_slots(slots_of(ix_views(instructions@)))),
{
    let slots = list_first_slots(instructions);
    let mut r: Vec<TokenShapeCandidate> = Vec::new();
    let mut i: usize = 0;
    while i < slots.len()
        invariant
            i <= slots@.len(),
            r@ == shape_candidates(*svm, slots@.take(i as int)),
        decreases slots.len() - i,
    {
        assert(slots@.take(i + 1).drop_last() =~= slots@.take(i as int));
        let k = slots[i].meta.pubkey;
        match token_program_account(svm, &slots[i]) {
            Some(a) => {
                if unpack_mint(a.data.as_slice()).is_some() {
                    r.push(TokenShapeCandidate { pubkey: k, owner: a.owner, kind: TokenShapeKind::Mint });
                } else if unpack_token_account(a.data.as_slice()).is_some() {
                    r.push(TokenShapeCandidate { pubkey: k, owner: a.owner, kind: TokenShapeKind::Account });
                }
            },
            None => {},
        }
        i += 1;
    }
    assert(slots@.take(i as int) =~= slots@);
    r
}

/// A token account, with what it holds.
#[derive(Clone, Copy, Debug)]
pub struct TokenAccountCandidate {
    pub pubkey: Pubkey,
    pub token: TokenAccount,
}

/// The token accounts.
pub open spec fn token_accounts(svm: LiteSVM, slots: Seq<Slot>) -> Seq<TokenAccountCandidate>
    decreases slots.len(),
{
    if slots.len() == 0 {
        Seq::empty()
    } else {
        let before = token_accounts(svm, slots.drop_last());
        let s = slots.last();
        let k = s.meta.pubkey;
        if in_token_program(svm, s) && token_shape(account_at(svm, k)->0.data) {
            before.push(TokenAccountCandidate { pubkey: k, token: spl_token_account(account_at(svm, k)->0.data)->0 })
        } else {
            before
        }
    }
}

/// The mints.
pub open spec fn mint_accounts(svm: LiteSVM, slots: Seq<Slot>) -> Seq<Pubkey>
    decreases slots.len(),
{
    if slots.len() == 0 {
        Seq::empty()
    } else {
        let before = mint_accounts(svm, slots.drop_last());
        let s = slots.last();
        let k = s.meta.pubkey;
        if in_token_program(svm, s) && !token_shape(account_at(svm, k)->0.data) && mint_shape(account_at(svm, k)->0.data) {
            before.push(k)
        } else {
            before
        }
    }
}

/// The token accounts and the mints that the instructions use.
pub fn collect_token_relation_candidates(svm: &LiteSVM, instructions: &[Instruction]) -> (r: (
    Vec<TokenAccountCandidate>,
    Vec<Pubkey>,
))
    ensures
        r.0@ == token_accounts(*svm, first_slots(slots_of(ix_views(instructions@)))),
        r.1@ == mint_accounts(*svm, first_slots(slots_of(ix_views(instructions@)))),
{
    let slots = list_first_slots(instructions);
    let mut tokens: Vec<TokenAccountCandidate> = Vec::new();
    let mut mints: Vec<Pubkey> = Vec::new();
    let mut i: usize = 0;
    while i < slots.len()
        invariant
            i <= slots@.len(),
            tokens@ == token_accounts(*svm, slots@.take(i as int)),
            mints@ == mint_accounts(*svm, slots@.take(i as int)),
        decreases slots.len() - i,
    {
        assert(slots@.take(i + 1).drop_last() =~= slots@.take(i as int));
        let k = slots[i].meta.pubkey;
        match token_program_account(svm, &slots[i]) {
            Some(a) => match unpack_token_account(a.data.as_slice()) {
                Some(token) => {
                    tokens.push(TokenAccountCandidate { pubkey: k, token });
                },
                None => {
                    if unpack_mint(a.data.as_slice()).is_some() {
                        mints.push(k);
                    }
                },
            },
            None => {},
        }
        i += 1;
    }
    assert(slots@.take(i as int) =~= slots@);
    (tokens, mints)
}

/// The class of a finding on the owner of an account of a token program.
pub open spec fn fake_owner_class(kind: TokenShapeKind) -> Seq<char> {
    match kind {
        TokenShapeKind::Mint => "CC-token fake-mint-owner"@,
        TokenShapeKind::Account => "CC-token fake-account-owner"@,
    }
}

/// What the account looks like.
pub open spec fn shape_name(kind: TokenShapeKind) -> Seq<char> {
    match kind {
        TokenShapeKind::Mint => "SPL mint-shaped"@,
        TokenShapeKind::Account => "SPL token-account-shaped"@,
    }
}

/// The finding on the owner of an account of a token program: a copy at `decoy` that belongs to another
/// program is accepted in its place.
pub open spec fn fake_owner_finding(p: Probe, c: TokenShapeCandidate, decoy: Pubkey) -> Option<FindingView> {
    let k = c.pubkey;
    let owner = other_owner(c.owner);
    match account_at(p.svm, k) {
        Some(a) => if load_bearing(p, k) && substitution_survives(p, k, decoy, AccountView { owner, ..a }) {
            Some(
                FindingView {
                    id: found_id(p, fake_owner_class(c.kind), k),
                    message: "["@ + fake_owner_class(c.kind) + "] account "@ + base58(k@) + " substituted with decoy "@
                        + base58(decoy@) + " owner "@ + base58(c.owner@) + "->"@ + base58(owner@) + " instr "@ + call_text(p)
                        + " still succeeded (missing "@ + shape_name(c.kind) + " owner check)"@,
                },
            )
        } else {
            None
        },
        None => None,
    }
}

/// The findings on the owners of accounts of token programs, with the decoys that stand in for them.
pub open spec fn fake_owner_findings(p: Probe, cs: Seq<TokenShapeCandidate>, decoys: Seq<Pubkey>) -> Seq<FindingView>
    decreases cs.len(),
{
    if cs.len() == 0 {
        Seq::empty()
    } else {
        with_finding(
            fake_owner_findings(p, cs.drop_last(), decoys),
            fake_owner_finding(p, cs.last(), decoys[cs.len() - 1]),
        )
    }
}

fn probe_token_owner(ctx: &ProbeCtx, c: &TokenShapeCandidate, decoy: &Pubkey) -> (r: Option<Finding>)
    requires
        ctx@.ixs.len() > 0,
    ensures
        opt_finding(r) == fake_owner_finding(ctx@, *c, *decoy),
{
    let account = match svm_get_account(ctx.svm, &c.pubkey) {
        Some(a) => a,
        None => {
            return None;
        },
    };
    if !account_is_load_bearing(ctx, &c.pubkey) {
        return None;
    }
    let spoof_owner = wrong_owner(c.owner);
    let ghost want = AccountView { owner: spoof_owner, ..account@ };
    let mut changed = account;
    changed.owner = spoof_owner;
    assert(changed@ == want);
    if !substitute_mutated_account_probe(ctx, c.pubkey, *decoy, changed) {
        return None;
    }
    let class = match c.kind {
        TokenShapeKind::Mint => "CC-token fake-mint-owner",
        TokenShapeKind::Account => "CC-token fake-account-owner",
    };
    let shape = match c.kind {
        TokenShapeKind::Mint => "SPL mint-shaped",
        TokenShapeKind::Account => "SPL token-account-shaped",
    };
    let mut m = String::from_str("[");
    m.append(class);
    m.append("] account ");
    m.append(key_text(&c.pubkey).as_str());
    m.append(" substituted with decoy ");
    m.append(key_text(decoy).as_str());
    m.append(" owner ");
    m.append(key_text(&c.owner).as_str());
    m.append("->");
    m.append(key_text(&spoof_owner).as_str());
    m.append(" instr ");
    m.append(call_name(ctx).as_str());
    m.append(" still succeeded (missing ");
    m.append(shape);
    m.append(" owner check)");
    Some(Finding { id: found_on(ctx, class, &c.pubkey), message: m })
}

/// Probes the owners of accounts of token programs with given decoys.
pub(crate) fn probe_token_owners_with(ctx: &ProbeCtx, cs: &Vec<TokenShapeCandidate>, decoys: &Vec<Pubkey>) -> (r: Vec<Finding>)
    requires
        ctx@.ixs.len() > 0,
        decoys@.len() == cs@.len(),
    ensures
        finding_views(r@) == fake_owner_findings(ctx@, cs@, decoys@),
{
    let mut r: Vec<Finding> = Vec::new();
    let mut i: usize = 0;
    assert(finding_views(r@) =~= fake_owner_findings(ctx@, cs@.take(0), decoys@));
    while i < cs.len()
        invariant
            i <= cs@.len(),
            decoys@.len() == cs@.len(),
            ctx@.ixs.len() > 0,
            finding_views(r@) == fake_owner_findings(ctx@, cs@.take(i as int), decoys@),
        decreases cs.len() - i,
    {
        assert(cs@.take(i + 1).drop_last() =~= cs@.take(i as int));
        let f = probe_token_owner(ctx, &cs[i], &decoys[i]);
        add_finding(&mut r, f);
        i += 1;
    }
    assert(cs@.take(i as int) =~= cs@);
    r
}

/// One decoy was drawn for each of the targets.
pub open spec fn decoys_for(targets: Seq<Pubkey>, decoys: Seq<Pubkey>) -> bool {
    decoys.len() == targets.len() && forall|i: int|
        0 <= i < decoys.len() ==> drawn_for(targets[i], #[trigger] decoys[i])
}

/// The addresses of some candidates.
pub open spec fn candidate_keys(cs: Seq<TokenShapeCandidate>) -> Seq<Pubkey> {
    cs.map_values(|c: TokenShapeCandidate| c.pubkey)
}

/// The findings are those on the owners of accounts of token programs, with a decoy drawn for each.
pub open spec fn fake_owner_outcome(p: Probe, found: Seq<FindingView>) -> bool {
    let cs = shape_candidates(p.svm, first_slots(slots_of(p.ixs)));
    exists|decoys: Seq<Pubkey>|
        decoys_for(candidate_keys(cs), decoys) && found == #[trigger] fake_owner_findings(p, cs, decoys)
}

/// Probes the owners of accounts of token programs: a mint or a token account that need not belong to
/// a token program.
pub(crate) fn probe_token_owners(ctx: &ProbeCtx) -> (r: Vec<Finding>)
    requires
        ctx@.ixs.len() > 0,
    ensures
        fake_owner_outcome(ctx@, finding_views(r@)),
{
    let cs = collect_token_shape_candidates(ctx.svm, ctx.instructions);
    let mut decoys: Vec<Pubkey> = Vec::new();
    let mut i: usize = 0;
    while i < cs.len()
        invariant
            i <= cs@.len(),
            decoys@.len() == i,
            forall|j: int| 0 <= j < i ==> drawn_for(cs@[j].pubkey, #[trigger] decoys@[j]),
        decreases cs.len() - i,
    {
        decoys.push(token_decoy_for(cs[i].pubkey));
        i += 1;
    }
    assert(decoys_for(candidate_keys(cs@), decoys@));
    probe_token_owners_with(ctx, &cs, &decoys)
}

/// A token account that is read, with its mint among the accounts.
#[derive(Clone, Copy, Debug)]
pub struct MintPair {
    pub account: TokenAccountCandidate,
    pub mint: Pubkey,
}

/// The mints of one token account.
pub open spec fn pairs_of(account: TokenAccountCandidate, mints: Seq<Pubkey>) -> Seq<MintPair>
    decreases mints.len(),
{
    if mints.len() == 0 {
        Seq::empty()
    } else {
        let before = pairs_of(account, mints.drop_last());
        if account.token.mint == mints.last() { before.push(MintPair { account, mint: mints.last() }) } else { before }
    }
}

/// The token accounts that are read, each with its mint.
pub open spec fn mint_pairs(p: Probe, accounts: Seq<TokenAccountCandidate>, mints: Seq<Pubkey>) -> Seq<MintPair>
    decreases accounts.len(),
{
    if accounts.len() == 0 {
        Seq::empty()
    } else {
        let before = mint_pairs(p, accounts.drop_last(), mints);
        if load_bearing(p, accounts.last().pubkey) { before + pairs_of(accounts.last(), mints) } else { before }
    }
}

/// The pairs of the transaction: none where it has no effect but the fee.
pub open spec fn probed_pairs(p: Probe) -> Seq<MintPair> {
    let slots = first_slots(slots_of(p.ixs));
    if non_fee_effect(p.svm, p.after, p.ixs, p.payer.key) {
        mint_pairs(p, token_accounts(p.svm, slots), mint_accounts(p.svm, slots))
    } else {
        Seq::empty()
    }
}

fn push_pairs_of(r: &mut Vec<MintPair>, account: &TokenAccountCandidate, mints: &Vec<Pubkey>)
    ensures
        final(r)@ == old(r)@ + pairs_of(*account, mints@),
{
    let ghost before = r@;
    let mut i: usize = 0;
    assert(r@ =~= before + pairs_of(*account, mints@.take(0)));
    while i < mints.len()
        invariant
            i <= mints@.len(),
            r@ == before + pairs_of(*account, mints@.take(i as int)),
        decreases mints.len() - i,
    {
        assert(mints@.take(i + 1).drop_last() =~= mints@.take(i as int));
        if account.token.mint == mints[i] {
            r.push(MintPair { account: *account, mint: mints[i] });
        }
        assert(r@ =~= before + pairs_of(*account, mints@.take(i + 1)));
        i += 1;
    }
    assert(mints@.take(i as int) =~= mints@);
}

/// The pairs of the transaction, and the mints.
pub(crate) fn collect_mint_pairs(ctx: &ProbeCtx) -> (r: (Vec<MintPair>, Vec<Pubkey>))
    ensures
        r.0@ == probed_pairs(ctx@),
        r.1@ == mint_accounts(ctx@.svm, first_slots(slots_of(ctx@.ixs))),
{
    let (accounts, mints) = collect_token_relation_candidates(ctx.svm, ctx.instructions);
    let mut r: Vec<MintPair> = Vec::new();
    if !baseline_has_non_fee_effect(ctx) {
        assert(r@ =~= Seq::<MintPair>::empty());
        return (r, mints);
    }
    let mut i: usize = 0;
    while i < accounts.len()
        invariant
            i <= accounts@.len(),
            r@ == mint_pairs(ctx@, accounts@.take(i as int), mints@),
        decreases accounts.len() - i,
    {
        assert(accounts@.take(i + 1).drop_last() =~= accounts@.take(i as int));
        if account_is_load_bearing(ctx, &accounts[i].pubkey) {
            push_pairs_of(&mut r, &accounts[i], &mints);
        }
        i += 1;
    }
    assert(accounts@.take(i as int) =~= accounts@);
    (r, mints)
}

/// The first of the mints that is not `mint`, or a made-up one.
pub open spec fn other_mint(mints: Seq<Pubkey>, mint: Pubkey) -> Pubkey
    decreases mints.len(),
{
    if mints.len() == 0 {
        attacker()
    } else if mints[0] != mint {
        mints[0]
    } else {
        other_mint(mints.skip(1), mint)
    }
}

fn find_other_mint(mints: &Vec<Pubkey>, mint: &Pubkey) -> (r: Pubkey)
    ensures
        r == other_mint(mints@, *mint),
{
    let mut i: usize = 0;
    assert(mints@.skip(0) =~= mints@);
    while i < mints.len()
        invariant
            i <= mints@.len(),
            other_mint(mints@.skip(i as int), *mint) == other_mint(mints@, *mint),
        decreases mints.len() - i,
    {
        if !(mints[i] == *mint) {
            return mints[i];
        }
        assert(mints@.skip(i as int).skip(1) =~= mints@.skip(i + 1));
        i += 1;
    }
    attacker_key()
}

/// The finding on a token account: one of another mint, at `decoy`, is accepted in its place.
pub open spec fn wrong_mint_finding(p: Probe, pair: MintPair, wrong: Pubkey, decoy: Pubkey) -> Option<FindingView> {
    let k = pair.account.pubkey;
    match account_at(p.svm, k) {
        Some(a) => if substitution_survives(
            p,
            k,
            decoy,
            AccountView { data: token_bytes(TokenAccount { mint: wrong, ..pair.account.token }), ..a },
        ) {
            Some(
                FindingView {
                    id: found_id(p, "CC-token wrong-mint"@, k),
                    message: "[CC-token wrong-mint] token account "@ + base58(k@) + " substituted with decoy "@ + base58(
                        decoy@,
                    ) + " mint "@ + base58(pair.mint@) + "->"@ + base58(wrong@) + " while mint account "@ + base58(
                        pair.mint@,
                    ) + " was provided, instr "@ + call_text(p) + " still succeeded"@,
                },
            )
        } else {
            None
        },
        None => None,
    }
}

/// The findings on token accounts with another mint.
pub open spec fn wrong_mint_findings(p: Probe, pairs: Seq<MintPair>, mints: Seq<Pubkey>, decoys: Seq<Pubkey>) -> Seq<FindingView>
    decreases pairs.len(),
{
    if pairs.len() == 0 {
        Seq::empty()
    } else {
        with_finding(
            wrong_mint_findings(p, pairs.drop_last(), mints, decoys),
            wrong_mint_finding(p, pairs.last(), other_mint(mints, pairs.last().mint), decoys[pairs.len() - 1]),
        )
    }
}

fn probe_wrong_mint(ctx: &ProbeCtx, pair: &MintPair, wrong: &Pubkey, decoy: &Pubkey) -> (r: Option<Finding>)
    requires
        ctx@.ixs.len() > 0,
    ensures
        opt_finding(r) == wrong_mint_finding(ctx@, *pair, *wrong, *decoy),
{
    let k = pair.account.pubkey;
    let account = match svm_get_account(ctx.svm, &k) {
        Some(a) => a,
        None => {
            return None;
        },
    };
    let mut token = pair.account.token;
    token.mint = *wrong;
    let ghost want = AccountView {
        data: token_bytes(TokenAccount { mint: *wrong, ..pair.account.token }),
        ..account@
    };
    let changed = Account {
        lamports: account.lamports,
        data: pack_token_account(&token),
        owner: account.owner,
        executable: account.executable,
        rent_epoch: account.rent_epoch,
    };
    assert(changed@ == want);
    if !substitute_mutated_account_probe(ctx, k, *decoy, changed) {
        return None;
    }
    let mut m = String::from_str("[CC-token wrong-mint] token account ");
    m.append(key_text(&k).as_str());
    m.append(" substituted with decoy ");
    m.append(key_text(decoy).as_str());
    m.append(" mint ");
    m.append(key_text(&pair.mint).as_str());
    m.append("->");
    m.append(key_text(wrong).as_str());
    m.append(" while mint account ");
    m.append(key_text(&pair.mint).as_str());
    m.append(" was provided, instr ");
    m.append(call_name(ctx).as_str());
    m.append(" still succeeded");
    Some(Finding { id: found_on(ctx, "CC-token wrong-mint", &k), message: m })
}

/// Probes token accounts with another mint, with given decoys.
pub(crate) fn probe_wrong_mints_with(ctx: &ProbeCtx, pairs: &Vec<MintPair>, mints: &Vec<Pubkey>, decoys: &Vec<Pubkey>) -> (r: Vec<Finding>)
    requires
        ctx@.ixs.len() > 0,
        decoys@.len() == pairs@.len(),
    ensures
        finding_views(r@) == wrong_mint_findings(ctx@, pairs@, mints@, decoys@),
{
    let mut r: Vec<Finding> = Vec::new();
    let mut i: usize = 0;
    assert(finding_views(r@) =~= wrong_mint_findings(ctx@, pairs@.take(0), mints@, decoys@));
    while i < pairs.len()
        invariant
            i <= pairs@.len(),
            decoys@.len() == pairs@.len(),
            ctx@.ixs.len() > 0,
            finding_views(r@) == wrong_mint_findings(ctx@, pairs@.take(i as int), mints@, decoys@),
        decreases pairs.len() - i,
    {
        assert(pairs@.take(i + 1).drop_last() =~= pairs@.take(i as int));
        let wrong = find_other_mint(mints, &pairs[i].mint);
        let f = probe_wrong_mint(ctx, &pairs[i], &wrong, &decoys[i]);
        add_finding(&mut r, f);
        i += 1;
    }
    assert(pairs@.take(i as int) =~= pairs@);
    r
}

/// The token accounts of some pairs.
pub open spec fn pair_accounts(pairs: Seq<MintPair>) -> Seq<Pubkey> {
    pairs.map_values(|m: MintPair| m.account.pubkey)
}

/// The mints of some pairs.
pub open spec fn pair_mints(pairs: Seq<MintPair>) -> Seq<Pubkey> {
    pairs.map_values(|m: MintPair| m.mint)
}

/// The findings are those on token accounts with another mint, with a decoy drawn for each.
pub open spec fn wrong_mint_outcome(p: Probe, found: Seq<FindingView>) -> bool {
    exists|decoys: Seq<Pubkey>|
        decoys_for(pair_accounts(probed_pairs(p)), decoys) && found == #[trigger] wrong_mint_findings(
            p,
            probed_pairs(p),
            mint_accounts(p.svm, first_slots(slots_of(p.ixs))),
            decoys,
        )
}

/// Probes whether a token account has to be of the mint that is given beside it.
pub(crate) fn probe_wrong_mints(ctx: &ProbeCtx) -> (r: Vec<Finding>)
    requires
        ctx@.ixs.len() > 0,
    ensures
        wrong_mint_outcome(ctx@, finding_views(r@)),
{
    let (pairs, mints) = collect_mint_pairs(ctx);
    let mut decoys: Vec<Pubkey> = Vec::new();
    let mut i: usize = 0;
    while i < pairs.len()
        invariant
            i <= pairs@.len(),
            decoys@.len() == i,
            forall|j: int| 0 <= j < i ==> drawn_for(pairs@[j].account.pubkey, #[trigger] decoys@[j]),
        decreases pairs.len() - i,
    {
        decoys.push(token_decoy_for(pairs[i].account.pubkey));
        i += 1;
    }
    assert(decoys_for(pair_accounts(pairs@), decoys@));
    probe_wrong_mints_with(ctx, &pairs, &mints, &decoys)
}

/// The account refers to the mint: it is not the mint itself, no program, not empty and none of a
/// token program, its data holds the address of the mint, and it is read.
pub open spec fn refers_to_mint(p: Probe, k: Pubkey, mint: Pubkey) -> bool {
    k != mint && match account_at(p.svm, k) {
        Some(a) => !a.executable && a.data.len() > 0 && !spl_shape(a) && holds_address(a.data, mint) && load_bearing(p, k),
        None => false,
    }
}

/// The first of the accounts that refers to the mint.
pub open spec fn first_reference(p: Probe, keys: Seq<Pubkey>, mint: Pubkey) -> Option<Pubkey>
    decreases keys.len(),
{
    if keys.len() == 0 {
        None
    } else if first_reference(p, keys.drop_last(), mint) is Some {
        first_reference(p, keys.drop_last(), mint)
    } else if refers_to_mint(p, keys.last(), mint) {
        Some(keys.last())
    } else {
        None
    }
}

proof fn lemma_first_reference(p: Probe, keys: Seq<Pubkey>, mint: Pubkey, i: int)
    requires
        0 <= i < keys.len(),
        first_reference(p, keys.take(i), mint) is None,
        refers_to_mint(p, keys[i], mint),
    ensures
        first_reference(p, keys, mint) == Some(keys[i]),
    decreases keys.len(),
{
    if i == keys.len() - 1 {
        assert(keys.take(i) =~= keys.drop_last());
    } else {
        assert(keys.drop_last().take(i) =~= keys.take(i));
        lemma_first_reference(p, keys.drop_last(), mint, i);
    }
}

/// The first account of the instructions that refers to the mint.
pub(crate) fn canonical_mint_reference_source(ctx: &ProbeCtx, mint: Pubkey) -> (r: Option<Pubkey>)
    ensures
        r == first_reference(ctx@, account_keys(ctx@.ixs), mint),
{
    let keys = instruction_account_keys_ordered(ctx.instructions);
    let mut i: usize = 0;
    while i < keys.len()
        invariant
            i <= keys@.len(),
            keys@ == account_keys(ctx@.ixs),
            first_reference(ctx@, keys@.take(i as int), mint) is None,
        decreases keys.len() - i,
    {
        let k = keys[i];
        assert(keys@.take(i + 1).drop_last() =~= keys@.take(i as int));
        if !(k == mint) {
            match svm_get_account(ctx.svm, &k) {
                Some(a) => {
                    if !a.executable && a.data.len() > 0 && !is_spl_token_shape(&a) && data_contains_pubkey(
                        a.data.as_slice(),
                        &mint,
                    ) && account_is_load_bearing(ctx, &k) {
                        proof {
                            lemma_first_reference(ctx@, keys@, mint, i as int);
                        }
                        return Some(k);
                    }
                },
                None => {},
            }
        }
        i += 1;
    }
    assert(keys@.take(i as int) =~= keys@);
    None
}

/// With the token account and its mint both replaced by forged ones that fit together, the transaction
/// does what it did.
pub open spec fn forged_pair_survives(p: Probe, pair: MintPair, fake_token: Pubkey, fake_mint: Pubkey) -> bool {
    let k = pair.account.pubkey;
    match (account_at(p.svm, k), account_at(p.svm, pair.mint)) {
        (Some(t), Some(m)) => {
            let forged = AccountView {
                data: token_bytes(TokenAccount { mint: fake_mint, ..pair.account.token }),
                ..t
            };
            let w = svm_with_account(p.svm, fake_token, forged);
            let v = svm_with_account(w.0, fake_mint, m);
            w.1 && v.1 && survives(
                p,
                v.0,
                rewritten(rewritten(p.ixs, k, fake_token), pair.mint, fake_mint),
                p.signers,
                Seq::empty(),
                seq![k, fake_token, pair.mint, fake_mint],
            )
        },
        _ => false,
    }
}

/// The finding on a token account and its mint: a forged pair is accepted, though an account still
/// refers to the true mint.
pub open spec fn forged_pair_finding(p: Probe, pair: MintPair, fake_token: Pubkey, fake_mint: Pubkey) -> Option<FindingView> {
    let k = pair.account.pubkey;
    match first_reference(p, account_keys(p.ixs), pair.mint) {
        Some(source) => if fake_token != fake_mint && forged_pair_survives(p, pair, fake_token, fake_mint) {
            Some(
                FindingView {
                    id: found_id(p, "CC-token forged-mint-pair"@, k),
                    message: "[CC-token forged-mint-pair] token account "@ + base58(k@) + " and mint "@ + base58(pair.mint@)
                        + " substituted with forged pair "@ + base58(fake_token@) + " / "@ + base58(fake_mint@)
                        + " while account "@ + base58(source@) + " still references canonical mint "@ + base58(pair.mint@)
                        + ", instr "@ + call_text(p) + " still succeeded"@,
                },
            )
        } else {
            None
        },
        None => None,
    }
}

/// The findings on token accounts and their mints, with the forged pairs.
pub open spec fn forged_pair_findings(p: Probe, pairs: Seq<MintPair>, fakes: Seq<(Pubkey, Pubkey)>) -> Seq<FindingView>
    decreases pairs.len(),
{
    if pairs.len() == 0 {
        Seq::empty()
    } else {
        with_finding(
            forged_pair_findings(p, pairs.drop_last(), fakes),
            forged_pair_finding(p, pairs.last(), fakes[pairs.len() - 1].0, fakes[pairs.len() - 1].1),
        )
    }
}

fn forged_pair_probe(ctx: &ProbeCtx, pair: &MintPair, fake_token: &Pubkey, fake_mint: &Pubkey) -> (r: bool)
    ensures
        r == forged_pair_survives(ctx@, *pair, *fake_token, *fake_mint),
{
    let k = pair.account.pubkey;
    let mint_account = match svm_get_account(ctx.svm, &pair.mint) {
        Some(a) => a,
        None => {
            return false;
        },
    };
    let account = match svm_get_account(ctx.svm, &k) {
        Some(a) => a,
        None => {
            return false;
        },
    };
    let mut token = pair.account.token;
    token.mint = *fake_mint;
    let ghost want = AccountView {
        data: token_bytes(TokenAccount { mint: *fake_mint, ..pair.account.token }),
        ..account@
    };
    let forged = Account {
        lamports: account.lamports,
        data: pack_token_account(&token),
        owner: account.owner,
        executable: account.executable,
        rent_epoch: account.rent_epoch,
    };
    assert(forged@ == want);
    let mut probe = svm_clone(ctx.svm);
    if !svm_set_account(&mut probe, fake_token, forged) {
        return false;
    }
    if !svm_set_account(&mut probe, fake_mint, mint_account) {
        return false;
    }
    let once = rewrite_account(ctx.instructions, k, *fake_token);
    let twice = rewrite_account(once.as_slice(), pair.mint, *fake_mint);
    let none: [(Pubkey, Pubkey); 0] = [];
    let ignored: [Pubkey; 4] = [k, *fake_token, pair.mint, *fake_mint];
    assert(none@ =~= Seq::<(Pubkey, Pubkey)>::empty());
    assert(ignored@ =~= seq![k, *fake_token, pair.mint, *fake_mint]);
    probe_matches_baseline_effects(ctx, probe, twice.as_slice(), &none, &ignored)
}

fn probe_forged_pair(ctx: &ProbeCtx, pair: &MintPair, fake_token: &Pubkey, fake_mint: &Pubkey) -> (r: Option<Finding>)
    requires
        ctx@.ixs.len() > 0,
    ensures
        opt_finding(r) == forged_pair_finding(ctx@, *pair, *fake_token, *fake_mint),
{
    let k = pair.account.pubkey;
    let source = match canonical_mint_reference_source(ctx, pair.mint) {
        Some(s) => s,
        None => {
            return None;
        },
    };
    if *fake_token == *fake_mint || !forged_pair_probe(ctx, pair, fake_token, fake_mint) {
        return None;
    }
    let mut m = String::from_str("[CC-token forged-mint-pair] token account ");
    m.append(key_text(&k).as_str());
    m.append(" and mint ");
    m.append(key_text(&pair.mint).as_str());
    m.append(" substituted with forged pair ");
    m.append(key_text(fake_token).as_str());
    m.append(" / ");
    m.append(key_text(fake_mint).as_str());
    m.append(" while account ");
    m.append(key_text(&source).as_str());
    m.append(" still references canonical mint ");
    m.append(key_text(&pair.mint).as_str());
    m.append(", instr ");
    m.append(call_name(ctx).as_str());
    m.append(" still succeeded");
    Some(Finding { id: found_on(ctx, "CC-token forged-mint-pair", &k), message: m })
}

/// Probes token accounts and their mints with given forged pairs.
pub(crate) fn probe_forged_pairs_with(ctx: &ProbeCtx, pairs: &Vec<MintPair>, fakes: &Vec<(Pubkey, Pubkey)>) -> (r: Vec<Finding>)
    requires
        ctx@.ixs.len() > 0,
        fakes@.len() == pairs@.len(),
    ensures
        finding_views(r@) == forged_pair_findings(ctx@, pairs@, fakes@),
{
    let mut r: Vec<Finding> = Vec::new();
    let mut i: usize = 0;
    assert(finding_views(r@) =~= forged_pair_findings(ctx@, pairs@.take(0), fakes@));
    while i < pairs.len()
        invariant
            i <= pairs@.len(),
            fakes@.len() == pairs@.len(),
            ctx@.ixs.len() > 0,
            finding_views(r@) == forged_pair_findings(ctx@, pairs@.take(i as int), fakes@),
        decreases pairs.len() - i,
    {
        assert(pairs@.take(i + 1).drop_last() =~= pairs@.take(i as int));
        let f = probe_forged_pair(ctx, &pairs[i], &fakes[i].0, &fakes[i].1);
        add_finding(&mut r, f);
        i += 1;
    }
    assert(pairs@.take(i as int) =~= pairs@);
    r
}

/// One forged pair was drawn for each of the pairs.
pub open spec fn fakes_for(pairs: Seq<MintPair>, fakes: Seq<(Pubkey, Pubkey)>) -> bool {
    decoys_for(pair_accounts(pairs), fakes.map_values(|f: (Pubkey, Pubkey)| f.0)) && decoys_for(
        pair_mints(pairs),
        fakes.map_values(|f: (Pubkey, Pubkey)| f.1),
    )
}

/// The findings are those on token accounts and their mints, with a forged pair drawn for each.
pub open spec fn forged_pair_outcome(p: Probe, found: Seq<FindingView>) -> bool {
    exists|fakes: Seq<(Pubkey, Pubkey)>|
        fakes_for(probed_pairs(p), fakes) && found == #[trigger] forged_pair_findings(p, probed_pairs(p), fakes)
}

/// Probes whether a token account and its mint may both be forged while the state of the program still
/// refers to the true mint.
pub(crate) fn probe_forged_pairs(ctx: &ProbeCtx) -> (r: Vec<Finding>)
    requires
        ctx@.ixs.len() > 0,
    ensures
        forged_pair_outcome(ctx@, finding_views(r@)),
{
    let (pairs, _) = collect_mint_pairs(ctx);
    let mut fakes: Vec<(Pubkey, Pubkey)> = Vec::new();
    let mut i: usize = 0;
    while i < pairs.len()
        invariant
            i <= pairs@.len(),
            fakes@.len() == i,
            forall|j: int| 0 <= j < i ==> drawn_for(pairs@[j].account.pubkey, (#[trigger] fakes@[j]).0) && drawn_for(
                pairs@[j].mint,
                fakes@[j].1,
            ),
        decreases pairs.len() - i,
    {
        fakes.push((token_decoy_for(pairs[i].account.pubkey), token_decoy_for(pairs[i].mint)));
        i += 1;
    }
    proof {
        let firsts = fakes@.map_values(|f: (Pubkey, Pubkey)| f.0);
        let seconds = fakes@.map_values(|f: (Pubkey, Pubkey)| f.1);
        assert forall|j: int| 0 <= j < firsts.len() implies drawn_for(pair_accounts(pairs@)[j], #[trigger] firsts[j]) by {
            assert(fakes@[j].0 == firsts[j]);
        }
        assert forall|j: int| 0 <= j < seconds.len() implies drawn_for(pair_mints(pairs@)[j], #[trigger] seconds[j]) by {
            assert(fakes@[j].1 == seconds[j]);
        }
        assert(fakes_for(pairs@, fakes@));
    }
    probe_forged_pairs_with(ctx, &pairs, &fakes)
}

} // verus!
