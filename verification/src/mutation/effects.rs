//! Running a mutated transaction, and comparing what it did with what the unmutated one did.
use vstd::prelude::*;
use litesvm::LiteSVM;
use crate::keys::Keypair;
use crate::mutation::accounts::{instruction_account_keys_ordered, rewrite_account};
#[allow(unused_imports)]
use crate::mutation::accounts::{account_keys, rewritten};
use crate::schema::TypeTags;
#[allow(unused_imports)]
use crate::schema::{byte_lists, TagsView};
use crate::svm::{run_probe, svm_clone, svm_get_account, svm_set_account};
#[allow(unused_imports)]
use crate::svm::{account_at, run_result, run_succeeds, svm_with_account};
use crate::text::same_bytes;
use crate::types::{copy_bytes, holds_key, same_account_state, Account, Instruction, Pubkey};
#[allow(unused_imports)]
use crate::types::{ix_views, AccountView, InstructionView};

verus! {

/// How accounts are probed.
pub struct AccountMutationConfig {
    pub enabled: bool,
    /// Derived addresses are not probed for their owner.
    pub skip_pda_candidates: bool,
    /// Accounts whose owner is known not to be checked.
    pub unverified_accounts: Vec<Pubkey>,
}

/// How accounts are probed, as a value.
pub struct ConfigView {
    pub enabled: bool,
    pub skip_pda_candidates: bool,
    pub unverified: Seq<Pubkey>,
}

impl View for AccountMutationConfig {
    type V = ConfigView;

    open spec fn view(&self) -> ConfigView {
        ConfigView {
            enabled: self.enabled,
            skip_pda_candidates: self.skip_pda_candidates,
            unverified: self.unverified_accounts@,
        }
    }
}

impl Default for AccountMutationConfig {
    fn default() -> (r: Self)
        ensures
            r@ == (ConfigView { enabled: false, skip_pda_candidates: true, unverified: Seq::empty() }),
    {
        let r = AccountMutationConfig { enabled: false, skip_pda_candidates: true, unverified_accounts: Vec::new() };
        assert(r@.unverified =~= Seq::<Pubkey>::empty());
        r
    }
}

impl AccountMutationConfig {
    /// Turns probing on.
    pub fn enable(&mut self)
        ensures
            final(self)@ == (ConfigView { enabled: true, ..old(self)@ }),
    {
        self.enabled = true;
    }

    /// Turns probing off.
    pub fn disable(&mut self)
        ensures
            final(self)@ == (ConfigView { enabled: false, ..old(self)@ }),
    {
        self.enabled = false;
    }

    /// Says whether derived addresses are left out of owner probes.
    pub fn set_skip_pda_candidates(&mut self, skip_pda_candidates: bool)
        ensures
            final(self)@ == (ConfigView { skip_pda_candidates, ..old(self)@ }),
    {
        self.skip_pda_candidates = skip_pda_candidates;
    }

    /// Notes an account whose owner is known not to be checked.
    pub fn mark_unverified(&mut self, pubkey: Pubkey)
        ensures
            final(self)@ == (ConfigView { unverified: crate::types::with_key(old(self)@.unverified, pubkey), ..old(self)@ }),
    {
        crate::types::add_key(&mut self.unverified_accounts, pubkey);
    }

    /// A copy.
    pub fn copy(&self) -> (r: AccountMutationConfig)
        ensures
            r@ == self@,
    {
        AccountMutationConfig {
            enabled: self.enabled,
            skip_pda_candidates: self.skip_pda_candidates,
            unverified_accounts: crate::types::copy_keys(&self.unverified_accounts),
        }
    }

    /// Whether probing is on.
    pub fn is_enabled(&self) -> (r: bool)
        ensures
            r == self.enabled,
    {
        self.enabled
    }

    /// Whether derived addresses are left out of owner probes.
    pub fn skip_pda_candidates(&self) -> (r: bool)
        ensures
            r == self.skip_pda_candidates,
    {
        self.skip_pda_candidates
    }
}

/// What every probe starts from. The machine is never changed: each probe runs on a copy.
pub struct ProbeCtx<'a> {
    /// The machine before the transaction.
    pub svm: &'a LiteSVM,
    /// The machine after the unmutated transaction.
    pub baseline_after: &'a LiteSVM,
    /// Every account that was seen so far.
    pub observed_accounts: &'a Vec<Pubkey>,
    /// The accounts that the unmutated transaction passed on to another program.
    pub forwarded_accounts: &'a Vec<Pubkey>,
    pub instructions: &'a [Instruction],
    pub signers: &'a Vec<Keypair>,
    pub payer: &'a Keypair,
    pub sigverify: bool,
    pub config: &'a AccountMutationConfig,
    /// The tags of the account types.
    pub tags: &'a TypeTags,
    /// The length of the tag of an instruction, where it is known.
    pub disc_len: Option<usize>,
}

/// What every probe starts from, as a value.
pub struct Probe {
    pub svm: LiteSVM,
    pub after: LiteSVM,
    pub observed: Seq<Pubkey>,
    pub forwarded: Seq<Pubkey>,
    pub ixs: Seq<InstructionView>,
    pub signers: Seq<Keypair>,
    pub payer: Keypair,
    pub sigverify: bool,
    pub enabled: bool,
    pub skip_pdas: bool,
    pub unverified: Seq<Pubkey>,
    pub tags: TagsView,
    pub disc_len: Option<usize>,
}

impl<'a> View for ProbeCtx<'a> {
    type V = Probe;

    open spec fn view(&self) -> Probe {
        Probe {
            svm: *self.svm,
            after: *self.baseline_after,
            observed: self.observed_accounts@,
            forwarded: self.forwarded_accounts@,
            ixs: ix_views(self.instructions@),
            signers: self.signers@,
            payer: *self.payer,
            sigverify: self.sigverify,
            enabled: self.config.enabled,
            skip_pdas: self.config.skip_pda_candidates,
            unverified: self.config.unverified_accounts@,
            tags: self.tags@,
            disc_len: self.disc_len,
        }
    }
}

/// The account is the first or the second of some pair.
pub open spec fn paired(pairs: Seq<(Pubkey, Pubkey)>, k: Pubkey) -> bool {
    exists|i: int| 0 <= i < pairs.len() && ((#[trigger] pairs[i]).0 == k || pairs[i].1 == k)
}

/// The account is used by one of the transactions, or pays for them.
pub open spec fn watched(a: Seq<InstructionView>, b: Seq<InstructionView>, payer: Pubkey, k: Pubkey) -> bool {
    account_keys(a).contains(k) || account_keys(b).contains(k) || k == payer
}

/// The accounts hold the same on both machines: in each pair the second what the first holds, and all
/// others that are watched and not ignored what they hold.
pub open spec fn effects_match(
    baseline: LiteSVM,
    mutated: LiteSVM,
    baseline_ixs: Seq<InstructionView>,
    mutated_ixs: Seq<InstructionView>,
    equivalent: Seq<(Pubkey, Pubkey)>,
    ignored: Seq<Pubkey>,
    payer: Pubkey,
) -> bool {
    &&& forall|i: int|
        0 <= i < equivalent.len() ==> account_at(baseline, (#[trigger] equivalent[i]).0) == account_at(
            mutated,
            equivalent[i].1,
        )
    &&& forall|k: Pubkey| #[trigger]
        watched(baseline_ixs, mutated_ixs, payer, k) && !ignored.contains(k) && !paired(equivalent, k) ==> account_at(
            baseline,
            k,
        ) == account_at(mutated, k)
}

fn is_paired(pairs: &[(Pubkey, Pubkey)], k: &Pubkey) -> (r: bool)
    ensures
        r == paired(pairs@, *k),
{
    let mut i: usize = 0;
    while i < pairs.len()
        invariant
            i <= pairs@.len(),
            forall|j: int| 0 <= j < i ==> (#[trigger] pairs@[j]).0 != *k && pairs@[j].1 != *k,
        decreases pairs.len() - i,
    {
        if pairs[i].0 == *k || pairs[i].1 == *k {
            return true;
        }
        i += 1;
    }
    false
}

fn same_at(a: &LiteSVM, ka: &Pubkey, b: &LiteSVM, kb: &Pubkey) -> (r: bool)
    ensures
        r == (account_at(*a, *ka) == account_at(*b, *kb)),
{
    same_account_state(&svm_get_account(a, ka), &svm_get_account(b, kb))
}

/// The accounts of a list hold the same on both machines, except those left out.
spec fn list_matches(
    baseline: LiteSVM,
    mutated: LiteSVM,
    keys: Seq<Pubkey>,
    equivalent: Seq<(Pubkey, Pubkey)>,
    ignored: Seq<Pubkey>,
) -> bool {
    forall|i: int|
        0 <= i < keys.len() && !ignored.contains(#[trigger] keys[i]) && !paired(equivalent, keys[i]) ==> account_at(
            baseline,
            keys[i],
        ) == account_at(mutated, keys[i])
}

fn keys_match(
    baseline: &LiteSVM,
    mutated: &LiteSVM,
    keys: &Vec<Pubkey>,
    equivalent: &[(Pubkey, Pubkey)],
    ignored: &[Pubkey],
) -> (r: bool)
    ensures
        r == list_matches(*baseline, *mutated, keys@, equivalent@, ignored@),
{
    let mut i: usize = 0;
    while i < keys.len()
        invariant
            i <= keys@.len(),
            forall|j: int|
                0 <= j < i && !ignored@.contains(#[trigger] keys@[j]) && !paired(equivalent@, keys@[j]) ==> account_at(
                    *baseline,
                    keys@[j],
                ) == account_at(*mutated, keys@[j]),
        decreases keys.len() - i,
    {
        let k = keys[i];
        if !holds_key(ignored, &k) && !is_paired(equivalent, &k) && !same_at(baseline, &k, mutated, &k) {
            assert(keys@[i as int] == k);
            return false;
        }
        i += 1;
    }
    true
}

/// Whether the accounts hold the same on both machines.
pub fn post_state_matches(
    baseline: &LiteSVM,
    mutated: &LiteSVM,
    baseline_instructions: &[Instruction],
    mutated_instructions: &[Instruction],
    equivalent_accounts: &[(Pubkey, Pubkey)],
    ignored_accounts: &[Pubkey],
    payer: Pubkey,
) -> (r: bool)
    ensures
        r == effects_match(
            *baseline,
            *mutated,
            ix_views(baseline_instructions@),
            ix_views(mutated_instructions@),
            equivalent_accounts@,
            ignored_accounts@,
            payer,
        ),
{
    let ghost a = ix_views(baseline_instructions@);
    let ghost b = ix_views(mutated_instructions@);
    let mut i: usize = 0;
    while i < equivalent_accounts.len()
        invariant
            i <= equivalent_accounts@.len(),
            forall|j: int|
                0 <= j < i ==> account_at(*baseline, (#[trigger] equivalent_accounts@[j]).0) == account_at(
                    *mutated,
                    equivalent_accounts@[j].1,
                ),
        decreases equivalent_accounts.len() - i,
    {
        if !same_at(baseline, &equivalent_accounts[i].0, mutated, &equivalent_accounts[i].1) {
            return false;
        }
        i += 1;
    }
    let first = instruction_account_keys_ordered(baseline_instructions);
    let second = instruction_account_keys_ordered(mutated_instructions);
    let mut third: Vec<Pubkey> = Vec::new();
    third.push(payer);
    proof {
        assert forall|k: Pubkey| #[trigger] watched(a, b, payer, k) implies first@.contains(k) || second@.contains(k)
            || third@.contains(k) by {
            if k == payer {
                assert(third@[0] == k);
            }
        }
        assert forall|j: int| 0 <= j < first@.len() implies watched(a, b, payer, #[trigger] first@[j]) by {
            assert(first@.contains(first@[j]));
        }
        assert forall|j: int| 0 <= j < second@.len() implies watched(a, b, payer, #[trigger] second@[j]) by {
            assert(second@.contains(second@[j]));
        }
        assert forall|j: int| 0 <= j < third@.len() implies watched(a, b, payer, #[trigger] third@[j]) by {
        }
    }
    keys_match(baseline, mutated, &first, equivalent_accounts, ignored_accounts) && keys_match(
        baseline,
        mutated,
        &second,
        equivalent_accounts,
        ignored_accounts,
    ) && keys_match(baseline, mutated, &third, equivalent_accounts, ignored_accounts)
}

/// The mutated transaction succeeds on `svm` and does what the unmutated one did.
pub open spec fn survives(
    p: Probe,
    svm: LiteSVM,
    ixs: Seq<InstructionView>,
    signers: Seq<Keypair>,
    equivalent: Seq<(Pubkey, Pubkey)>,
    ignored: Seq<Pubkey>,
) -> bool {
    &&& run_succeeds(svm, ixs, signers, p.payer, p.sigverify)
    &&& effects_match(
        p.after,
        run_result(svm, ixs, signers, p.payer, p.sigverify).0,
        p.ixs,
        ixs,
        equivalent,
        ignored,
        p.payer.key,
    )
}

/// Whether the mutated transaction, signed by `signers`, succeeds and does what the unmutated one did.
pub(crate) fn probe_matches_baseline_effects_with_signers(
    ctx: &ProbeCtx,
    probe: LiteSVM,
    mutated_instructions: &[Instruction],
    signers: &Vec<Keypair>,
    equivalent_accounts: &[(Pubkey, Pubkey)],
    ignored_accounts: &[Pubkey],
) -> (r: bool)
    ensures
        r == survives(ctx@, probe, ix_views(mutated_instructions@), signers@, equivalent_accounts@, ignored_accounts@),
{
    let mut probe = probe;
    if !run_probe(&mut probe, mutated_instructions, signers, ctx.payer, ctx.sigverify) {
        return false;
    }
    post_state_matches(
        ctx.baseline_after,
        &probe,
        ctx.instructions,
        mutated_instructions,
        equivalent_accounts,
        ignored_accounts,
        ctx.payer.key,
    )
}

/// Whether the mutated transaction succeeds and does what the unmutated one did.
pub(crate) fn probe_matches_baseline_effects(
    ctx: &ProbeCtx,
    probe: LiteSVM,
    mutated_instructions: &[Instruction],
    equivalent_accounts: &[(Pubkey, Pubkey)],
    ignored_accounts: &[Pubkey],
) -> (r: bool)
    ensures
        r == survives(
            ctx@,
            probe,
            ix_views(mutated_instructions@),
            ctx@.signers,
            equivalent_accounts@,
            ignored_accounts@,
        ),
{
    probe_matches_baseline_effects_with_signers(
        ctx,
        probe,
        mutated_instructions,
        ctx.signers,
        equivalent_accounts,
        ignored_accounts,
    )
}

/// A byte that differs from `b`: all bits set, or none where they are all set.
pub open spec fn spoiled(b: u8) -> u8 {
    if b == 0xFF { 0x00 } else { 0xFF }
}

/// The data with every byte from `from` to `to` changed.
pub open spec fn corrupted(data: Seq<u8>, from: int, to: int) -> Seq<u8> {
    Seq::new(data.len(), |i: int| if from <= i < to { spoiled(data[i]) } else { data[i] })
}

/// The variants with the data corrupted from `from` to `to` behind them, where that is new.
pub open spec fn with_corruption(variants: Seq<Seq<u8>>, data: Seq<u8>, from: int, to: int) -> Seq<Seq<u8>> {
    let c = corrupted(data, from, to);
    if from < to && c != data && !variants.contains(c) { variants.push(c) } else { variants }
}

/// The data corrupted in all ways that are tried: behind the first eight bytes, in the first eight
/// bytes, and everywhere.
pub open spec fn corruptions(data: Seq<u8>) -> Seq<Seq<u8>> {
    let n = data.len() as int;
    let body = if n > 8 { with_corruption(Seq::empty(), data, 8, n) } else { Seq::empty() };
    let head = with_corruption(body, data, 0, if n < 8 { n } else { 8 });
    with_corruption(head, data, 0, n)
}

/// Every variant is as long as the data, differs from it, and none comes twice; data that is not empty
/// has at least one.
pub proof fn lemma_corruptions(data: Seq<u8>)
    ensures
        forall|i: int|
            0 <= i < corruptions(data).len() ==> (#[trigger] corruptions(data)[i]).len() == data.len() && corruptions(
                data,
            )[i] != data,
        forall|i: int, j: int|
            0 <= i < j < corruptions(data).len() ==> #[trigger] corruptions(data)[i] != #[trigger] corruptions(data)[j],
        data.len() > 0 ==> corruptions(data).len() > 0,
        data.len() == 0 ==> corruptions(data).len() == 0,
{
    let n = data.len() as int;
    if n > 0 {
        assert(corrupted(data, 0, if n < 8 { n } else { 8 })[0] != data[0]);
    }
}

fn push_unique_corruption(variants: &mut Vec<Vec<u8>>, data: &[u8], from: usize, to: usize)
    requires
        to <= data@.len(),
    ensures
        byte_lists(final(variants)@) == with_corruption(byte_lists(old(variants)@), data@, from as int, to as int),
{
    let ghost before = byte_lists(variants@);
    if from >= to {
        return;
    }
    let ghost want = corrupted(data@, from as int, to as int);
    let mut c: Vec<u8> = Vec::new();
    let mut i: usize = 0;
    while i < data.len()
        invariant
            i <= data@.len(),
            want == corrupted(data@, from as int, to as int),
            c@ == want.take(i as int),
        decreases data.len() - i,
    {
        let b: u8 = data[i];
        c.push(
            if from <= i && i < to {
                if b == 0xFF {
                    0x00
                } else {
                    0xFF
                }
            } else {
                b
            },
        );
        assert(c@ =~= want.take(i + 1));
        i += 1;
    }
    assert(want.take(i as int) =~= want);
    if same_bytes(c.as_slice(), data) {
        return;
    }
    let mut j: usize = 0;
    while j < variants.len()
        invariant
            j <= variants@.len(),
            before == byte_lists(variants@),
            before == byte_lists(old(variants)@),
            want == corrupted(data@, from as int, to as int),
            c@ == want,
            forall|k: int| 0 <= k < j ==> (#[trigger] variants@[k])@ != want,
        decreases variants.len() - j,
    {
        if same_bytes(variants[j].as_slice(), c.as_slice()) {
            assert(before[j as int] == want);
            return;
        }
        j += 1;
    }
    proof {
        assert forall|k: int| 0 <= k < before.len() implies before[k] != want by {
            assert(variants@[k]@ != want);
        }
    }
    variants.push(c);
    assert(byte_lists(variants@) =~= before.push(want));
}

/// The data corrupted in all ways that are tried.
pub fn data_corruption_variants(data: &[u8]) -> (r: Vec<Vec<u8>>)
    ensures
        byte_lists(r@) == corruptions(data@),
{
    let mut variants: Vec<Vec<u8>> = Vec::new();
    let len: usize = data.len();
    assert(byte_lists(variants@) =~= Seq::<Seq<u8>>::empty());
    if len > 8 {
        push_unique_corruption(&mut variants, data, 8, len);
    }
    push_unique_corruption(&mut variants, data, 0, if len < 8 { len } else { 8 });
    push_unique_corruption(&mut variants, data, 0, len);
    variants
}

/// With `account` at `key`, the transaction no longer does what it did.
pub open spec fn disturbs(p: Probe, key: Pubkey, account: AccountView, ixs: Seq<InstructionView>, ignored: Seq<Pubkey>) -> bool {
    let w = svm_with_account(p.svm, key, account);
    w.1 && !survives(p, w.0, ixs, p.signers, Seq::empty(), ignored)
}

/// The corruption number `i` of the data of `a`, at `key`, is noticed by the transaction.
pub open spec fn corruption_noticed(
    p: Probe,
    key: Pubkey,
    a: AccountView,
    ixs: Seq<InstructionView>,
    ignored: Seq<Pubkey>,
    i: int,
) -> bool {
    0 <= i < corruptions(a.data).len() && disturbs(p, key, AccountView { data: corruptions(a.data)[i], ..a }, ixs, ignored)
}

/// Some corruption of the data at `key` is noticed by the transaction.
pub open spec fn data_matters(p: Probe, key: Pubkey, ixs: Seq<InstructionView>, ignored: Seq<Pubkey>) -> bool {
    match account_at(p.svm, key) {
        Some(a) => exists|i: int| #[trigger] corruption_noticed(p, key, a, ixs, ignored, i),
        None => false,
    }
}

fn corruption_matters(ctx: &ProbeCtx, key: &Pubkey, instructions: &[Instruction], ignored: &[Pubkey]) -> (r: bool)
    ensures
        r == data_matters(ctx@, *key, ix_views(instructions@), ignored@),
{
    let ghost p = ctx@;
    let account = match svm_get_account(ctx.svm, key) {
        Some(a) => a,
        None => {
            return false;
        },
    };
    let variants = data_corruption_variants(account.data.as_slice());
    let ghost cs = corruptions(account@.data);
    let mut i: usize = 0;
    while i < variants.len()
        invariant
            i <= variants@.len(),
            p == ctx@,
            byte_lists(variants@) == cs,
            cs == corruptions(account@.data),
            account_at(p.svm, *key) == Some(account@),
            forall|j: int| j < i ==> !#[trigger] corruption_noticed(
                p,
                *key,
                account@,
                ix_views(instructions@),
                ignored@,
                j,
            ),
        decreases variants.len() - i,
    {
        assert(cs[i as int] == variants@[i as int]@);
        let changed = Account {
            lamports: account.lamports,
            data: copy_bytes(variants[i].as_slice()),
            owner: account.owner,
            executable: account.executable,
            rent_epoch: account.rent_epoch,
        };
        assert(changed@ == (AccountView { data: cs[i as int], ..account@ }));
        let mut probe = svm_clone(ctx.svm);
        if svm_set_account(&mut probe, key, changed) {
            let none: [(Pubkey, Pubkey); 0] = [];
            assert(none@ =~= Seq::<(Pubkey, Pubkey)>::empty());
            if !probe_matches_baseline_effects(ctx, probe, instructions, &none, ignored) {
                proof {
                    let found = account_at(p.svm, *key)->0;
                    assert(found == account@);
                    assert(corruption_noticed(p, *key, found, ix_views(instructions@), ignored@, i as int));
                }
                return true;
            }
        }
        i += 1;
    }
    assert(byte_lists(variants@).len() == variants@.len());
    false
}

/// The transaction notices when the data of the account changes.
pub open spec fn load_bearing(p: Probe, k: Pubkey) -> bool {
    data_matters(p, k, p.ixs, seq![k])
}

/// Whether the transaction notices when the data of the account changes. An account that it does not
/// read is of no interest.
pub(crate) fn account_is_load_bearing(ctx: &ProbeCtx, pubkey: &Pubkey) -> (r: bool)
    ensures
        r == load_bearing(ctx@, *pubkey),
{
    let ignored: [Pubkey; 1] = [*pubkey];
    assert(ignored@ =~= seq![*pubkey]);
    corruption_matters(ctx, pubkey, ctx.instructions, &ignored)
}

/// With `replacement` in the place of `target`, the transaction notices when the data of `replacement`
/// changes.
pub open spec fn replacement_load_bearing(p: Probe, target: Pubkey, replacement: Pubkey) -> bool {
    data_matters(p, replacement, rewritten(p.ixs, target, replacement), seq![target, replacement])
}

/// The transaction fails where the account has no lamports.
pub open spec fn lamport_bearing(p: Probe, k: Pubkey) -> bool {
    match account_at(p.svm, k) {
        Some(a) => {
            let w = svm_with_account(p.svm, k, AccountView { lamports: 0, ..a });
            a.lamports != 0 && w.1 && !run_succeeds(w.0, p.ixs, p.signers, p.payer, p.sigverify)
        },
        None => false,
    }
}

/// Whether the transaction fails where the account has no lamports.
pub(crate) fn account_is_lamport_bearing(ctx: &ProbeCtx, pubkey: &Pubkey) -> (r: bool)
    ensures
        r == lamport_bearing(ctx@, *pubkey),
{
    let account = match svm_get_account(ctx.svm, pubkey) {
        Some(a) => a,
        None => {
            return false;
        },
    };
    if account.lamports == 0 {
        return false;
    }
    let ghost want = AccountView { lamports: 0, ..account@ };
    let mut emptied = account;
    emptied.lamports = 0;
    assert(emptied@ == want);
    let mut probe = svm_clone(ctx.svm);
    if !svm_set_account(&mut probe, pubkey, emptied) {
        return false;
    }
    !run_probe(&mut probe, ctx.instructions, ctx.signers, ctx.payer, ctx.sigverify)
}

/// The transaction depends on which account stands there.
pub open spec fn identity_relevant(p: Probe, k: Pubkey) -> bool {
    load_bearing(p, k) || lamport_bearing(p, k)
}

/// Whether the transaction depends on which account stands there.
pub(crate) fn account_is_identity_relevant(ctx: &ProbeCtx, pubkey: &Pubkey) -> (r: bool)
    ensures
        r == identity_relevant(ctx@, *pubkey),
{
    account_is_load_bearing(ctx, pubkey) || account_is_lamport_bearing(ctx, pubkey)
}

/// With `account` written to `key`, the transaction does what it did.
pub open spec fn mutation_survives(p: Probe, key: Pubkey, account: AccountView) -> bool {
    let w = svm_with_account(p.svm, key, account);
    w.1 && survives(p, w.0, p.ixs, p.signers, Seq::empty(), seq![key])
}

/// Whether the transaction does what it did with `account` at `key`.
pub(crate) fn mutated_account_probe(ctx: &ProbeCtx, key: Pubkey, account: Account) -> (r: bool)
    ensures
        r == mutation_survives(ctx@, key, account@),
{
    let mut probe = svm_clone(ctx.svm);
    if !svm_set_account(&mut probe, &key, account) {
        return false;
    }
    let none: [(Pubkey, Pubkey); 0] = [];
    let ignored: [Pubkey; 1] = [key];
    assert(none@ =~= Seq::<(Pubkey, Pubkey)>::empty());
    assert(ignored@ =~= seq![key]);
    probe_matches_baseline_effects(ctx, probe, ctx.instructions, &none, &ignored)
}

/// With `account` written to `decoy`, and `decoy` in the place of `target`, the transaction does what
/// it did.
pub open spec fn substitution_survives(p: Probe, target: Pubkey, decoy: Pubkey, account: AccountView) -> bool {
    let w = svm_with_account(p.svm, decoy, account);
    w.1 && survives(p, w.0, rewritten(p.ixs, target, decoy), p.signers, Seq::empty(), seq![target, decoy])
}

/// Whether the transaction does what it did with `account` at `decoy` in the place of `target`.
pub(crate) fn substitute_mutated_account_probe(ctx: &ProbeCtx, target: Pubkey, decoy: Pubkey, account: Account) -> (r: bool)
    ensures
        r == substitution_survives(ctx@, target, decoy, account@),
{
    let mut probe = svm_clone(ctx.svm);
    if !svm_set_account(&mut probe, &decoy, account) {
        return false;
    }
    let changed = rewrite_account(ctx.instructions, target, decoy);
    let none: [(Pubkey, Pubkey); 0] = [];
    let ignored: [Pubkey; 2] = [target, decoy];
    assert(none@ =~= Seq::<(Pubkey, Pubkey)>::empty());
    assert(ignored@ =~= seq![target, decoy]);
    probe_matches_baseline_effects(ctx, probe, changed.as_slice(), &none, &ignored)
}

/// With `replacement` in the place of `target`, the transaction does what it did.
pub open spec fn swap_survives(p: Probe, target: Pubkey, replacement: Pubkey) -> bool {
    survives(
        p,
        p.svm,
        rewritten(p.ixs, target, replacement),
        p.signers,
        Seq::empty(),
        seq![target, replacement],
    )
}

/// Whether the transaction does what it did with `replacement` in the place of `target`.
pub(crate) fn substitute_existing_referenced_target_probe(ctx: &ProbeCtx, target: Pubkey, replacement: Pubkey) -> (r: bool)
    ensures
        r == swap_survives(ctx@, target, replacement),
{
    let changed = rewrite_account(ctx.instructions, target, replacement);
    let none: [(Pubkey, Pubkey); 0] = [];
    let ignored: [Pubkey; 2] = [target, replacement];
    assert(none@ =~= Seq::<(Pubkey, Pubkey)>::empty());
    assert(ignored@ =~= seq![target, replacement]);
    probe_matches_baseline_effects(ctx, svm_clone(ctx.svm), changed.as_slice(), &none, &ignored)
}

/// Whether the transaction does what it did with `replacement` in the place of `target`, and reads
/// what it holds.
pub(crate) fn substitute_existing_load_bearing_account_probe(ctx: &ProbeCtx, target: Pubkey, replacement: Pubkey) -> (r: bool)
    ensures
        r == (swap_survives(ctx@, target, replacement) && replacement_load_bearing(ctx@, target, replacement)),
{
    if !substitute_existing_referenced_target_probe(ctx, target, replacement) {
        return false;
    }
    let changed = rewrite_account(ctx.instructions, target, replacement);
    let ignored: [Pubkey; 2] = [target, replacement];
    assert(ignored@ =~= seq![target, replacement]);
    corruption_matters(ctx, &replacement, changed.as_slice(), &ignored)
}

/// Between two machines, some account of the instructions changed, apart from the payer.
pub open spec fn non_fee_effect(before: LiteSVM, after: LiteSVM, ixs: Seq<InstructionView>, payer: Pubkey) -> bool {
    exists|k: Pubkey| #[trigger]
        account_keys(ixs).contains(k) && k != payer && account_at(before, k) != account_at(after, k)
}

/// Whether some account of the instructions changed between two machines, apart from the payer.
pub fn baseline_has_non_fee_effect_between(
    before: &LiteSVM,
    after: &LiteSVM,
    instructions: &[Instruction],
    payer: Pubkey,
) -> (r: bool)
    ensures
        r == non_fee_effect(*before, *after, ix_views(instructions@), payer),
{
    let keys = instruction_account_keys_ordered(instructions);
    let mut i: usize = 0;
    while i < keys.len()
        invariant
            i <= keys@.len(),
            keys@ == account_keys(ix_views(instructions@)),
            forall|j: int|
                0 <= j < i && #[trigger] keys@[j] != payer ==> account_at(*before, keys@[j]) == account_at(*after, keys@[j]),
        decreases keys.len() - i,
    {
        let k = keys[i];
        if !(k == payer) && !same_at(before, &k, after, &k) {
            assert(keys@.contains(k));
            return true;
        }
        i += 1;
    }
    false
}

/// Whether the unmutated transaction changed any of its accounts, apart from the payer.
pub(crate) fn baseline_has_non_fee_effect(ctx: &ProbeCtx) -> (r: bool)
    ensures
        r == non_fee_effect(ctx@.svm, ctx@.after, ctx@.ixs, ctx@.payer.key),
{
    baseline_has_non_fee_effect_between(ctx.svm, ctx.baseline_after, ctx.instructions, ctx.payer.key)
}

} // verus!
