//! The context of a test: a machine, what was loaded into it, and what waits to be sent.
use vstd::prelude::*;
use litesvm::LiteSVM;
use crate::coverage::analysis::analyze_program;
#[allow(unused_imports)]
use crate::coverage::analysis::{analyzed, coverage_totals};
use crate::errors::ContextError;
use crate::keys::Keypair;
use crate::mutation::effects::AccountMutationConfig;
#[allow(unused_imports)]
use crate::mutation::effects::ConfigView;
use crate::snapshot::{DirtyTracker, SvmSnapshot};
#[allow(unused_imports)]
use crate::snapshot::{
    all_written, clean, held, put_back, taken_back, DirtyView,
};
use crate::svm::{copy_signers, svm_clone, svm_get_account, svm_has_clock, svm_list_accounts, svm_set_account};
#[allow(unused_imports)]
use crate::svm::{account_at, svm_accounts, svm_knows_clock, svm_with_account};
use crate::ready::{fits_rent, svm_rent_rate};
#[allow(unused_imports)]
use crate::ready::{rent_fits, svm_rent};
use crate::sysvars::{read_clock, svm_set_clock, Clock};
#[allow(unused_imports)]
use crate::sysvars::{svm_clock, svm_with_clock};
use crate::token::unpack_token_account;
#[allow(unused_imports)]
use crate::token::spl_token_account;
use crate::types::{add_key, copy_bytes, copy_keys, Account, Instruction, Pubkey};
#[allow(unused_imports)]
use crate::types::{ix_views, with_key, zero_key, AccountView, InstructionView};

verus! {

/// `LiteSVM::new`: a machine whose clock stands at zero. Nothing else is claimed of it: it draws a key
/// at random.
#[verifier::external_body]
fn fresh_machine() -> (r: LiteSVM)
    ensures
        svm_clock(r) == Some(
            (Clock { slot: 0, epoch_start_timestamp: 0, epoch: 0, leader_schedule_epoch: 0, unix_timestamp: 0 }),
        ),
{
    LiteSVM::new()
}

/// The machine with another number of transactions that it remembers.
pub uninterp spec fn svm_with_history(svm: LiteSVM, capacity: usize) -> LiteSVM;

/// `LiteSVM::with_transaction_history`: how many transactions the machine remembers. No account changes.
/// A larger number than zero makes room, which can fail, and may remember more than was asked for.
#[verifier::external_body]
fn set_history(svm: LiteSVM, capacity: usize) -> (r: LiteSVM)
    requires
        capacity == 0,
    ensures
        r == svm_with_history(svm, capacity),
        svm_accounts(r) == svm_accounts(svm),
{
    svm.with_transaction_history(capacity)
}

/// The machine with its check of signatures on or off.
pub uninterp spec fn svm_with_sigverify(svm: LiteSVM, on: bool) -> LiteSVM;

/// `LiteSVM::with_sigverify`: whether the machine checks signatures. No account changes.
#[verifier::external_body]
fn set_signature_check(svm: LiteSVM, on: bool) -> (r: LiteSVM)
    ensures
        r == svm_with_sigverify(svm, on),
        svm_accounts(r) == svm_accounts(svm),
{
    svm.with_sigverify(on)
}

/// The machine with its check of blockhashes on or off.
pub uninterp spec fn svm_with_blockhash_check(svm: LiteSVM, on: bool) -> LiteSVM;

/// `LiteSVM::with_blockhash_check`: whether the machine checks blockhashes. No account changes.
#[verifier::external_body]
fn set_hash_check(svm: LiteSVM, on: bool) -> (r: LiteSVM)
    ensures
        r == svm_with_blockhash_check(svm, on),
        svm_accounts(r) == svm_accounts(svm),
{
    svm.with_blockhash_check(on)
}

/// A machine for tests: it remembers no transactions and checks neither signatures nor blockhashes.
pub open spec fn test_machine(fresh: LiteSVM) -> LiteSVM {
    svm_with_blockhash_check(svm_with_sigverify(svm_with_history(fresh, 0), false), false)
}

/// A new machine for tests, whose clock stands at zero.
fn new_machine() -> (r: LiteSVM)
    ensures
        svm_clock(r) == Some(
            (Clock { slot: 0, epoch_start_timestamp: 0, epoch: 0, leader_schedule_epoch: 0, unix_timestamp: 0 }),
        ),
        exists|fresh: LiteSVM| r == #[trigger] test_machine(fresh),
{
    let fresh = fresh_machine();
    let ghost start = fresh;
    let r = set_hash_check(set_signature_check(set_history(fresh, 0), false), false);
    assert(r == test_machine(start));
    r
}

/// The machine with a limit of compute units, with or without the deeper calls and the larger lists of
/// accounts that two features allow.
pub uninterp spec fn svm_with_budget(svm: LiteSVM, limit: u64, deeper_calls: bool, longer_lists: bool) -> LiteSVM;

/// `LiteSVM::with_compute_budget`, with `ComputeBudget::new_with_defaults` for the two features but for the
/// limit of compute units. No account changes.
#[verifier::external_body]
fn set_budget(svm: LiteSVM, limit: u64, deeper_calls: bool, longer_lists: bool) -> (r: LiteSVM)
    ensures
        r == svm_with_budget(svm, limit, deeper_calls, longer_lists),
        svm_accounts(r) == svm_accounts(svm),
{
    let mut budget = solana_compute_budget::compute_budget::ComputeBudget::new_with_defaults(deeper_calls, longer_lists);
    budget.compute_unit_limit = limit;
    svm.with_compute_budget(budget)
}

/// What `LiteSVM::add_program` makes of a machine, and why it refuses the program where it does.
pub uninterp spec fn litesvm_with_program(svm: LiteSVM, id: Pubkey, program: Seq<u8>) -> (LiteSVM, Result<(), Seq<char>>);

/// What is said of a machine that cannot load a program.
pub open spec fn no_clock_text() -> Seq<char> {
    "the machine has no clock sysvar"@
}

/// What is said of a machine that cannot reckon the price of a program.
pub open spec fn no_price_text() -> Seq<char> {
    "the machine cannot reckon the price of the program"@
}

/// The price of a byte for a year that a program is reckoned with: that of the machine, or where it knows
/// none the usual one.
pub open spec fn program_rate(svm: LiteSVM) -> u64 {
    match svm_rent(svm) {
        Some(rate) => rate,
        None => USUAL_RATE,
    }
}

/// The usual price of a byte for a year.
pub const USUAL_RATE: u64 = 3480;

/// The machine after a program was added, and why it was refused where it was: a program with an
/// address is where the machine knows no clock, and any where its price cannot be reckoned.
pub open spec fn svm_with_program(svm: LiteSVM, id: Pubkey, program: Seq<u8>) -> (LiteSVM, Result<(), Seq<char>>) {
    if !svm_knows_clock(svm) && id@ != zero_key() {
        (svm, Err(no_clock_text()))
    } else if !rent_fits(program_rate(svm), program.len()) {
        (svm, Err(no_price_text()))
    } else {
        litesvm_with_program(svm, id, program)
    }
}

/// Whether a program was loaded, as a value.
pub open spec fn load_result(r: Result<(), String>) -> Result<(), Seq<char>> {
    match r {
        Ok(_) => Ok(()),
        Err(e) => Err(e@),
    }
}

/// The accounts after a program was added: accepted, an executable account of the second loader holds
/// its bytes; refused, no account changes. No other account changes.
pub open spec fn program_stored(before: LiteSVM, after: LiteSVM, id: Pubkey, program: Seq<u8>, ok: bool) -> bool {
    &&& !ok ==> svm_accounts(after) == svm_accounts(before)
    &&& ok ==> account_at(after, id) is Some && account_at(after, id)->0.data == program && account_at(after, id)->0.executable
        && account_at(after, id)->0.owner@ == crate::ids::loader_v2_address()
    &&& forall|k: Pubkey| k != id ==> #[trigger] account_at(after, k) == account_at(before, k)
}

/// `LiteSVM::add_program`: loads a program. Accepted, an executable account of the second loader holds
/// its bytes; refused, no account changes. The error comes as its `Debug` text. It panics where the
/// program has an address and the machine knows no clock, and where the price of its bytes is more than a
/// number can hold.
#[verifier::external_body]
fn litesvm_add_program(svm: &mut LiteSVM, id: &Pubkey, program: &[u8]) -> (r: Result<(), String>)
    requires
        svm_knows_clock(*old(svm)) || id@ == zero_key(),
        rent_fits(program_rate(*old(svm)), program@.len()),
    ensures
        (*final(svm), load_result(r)) == litesvm_with_program(*old(svm), *id, program@),
        program_stored(*old(svm), *final(svm), *id, program@, r is Ok),
{
    svm.add_program(solana_pubkey::Pubkey::new_from_array(id.bytes), program).map_err(|e| format!("{:?}", e))
}

fn svm_add_program(svm: &mut LiteSVM, id: &Pubkey, program: &[u8]) -> (r: Result<(), String>)
    ensures
        (*final(svm), load_result(r)) == svm_with_program(*old(svm), *id, program@),
        program_stored(*old(svm), *final(svm), *id, program@, r is Ok),
{
    if !svm_has_clock(svm) && !id.same_as(&Pubkey::default()) {
        return Err(String::from_str("the machine has no clock sysvar"));
    }
    let rate: u64 = match svm_rent_rate(svm) {
        Some(rate) => rate,
        None => USUAL_RATE,
    };
    if !fits_rent(rate, program.len() as u64) {
        return Err(String::from_str("the machine cannot reckon the price of the program"));
    }
    litesvm_add_program(svm, id, program)
}

/// The length of the map `LiteSVM::accounts_db().inner`: how many accounts the machine holds.
#[verifier::external_body]
fn svm_len(svm: &LiteSVM) -> (r: usize)
    ensures
        r == svm_accounts(*svm).dom().len(),
{
    svm.accounts_db().inner.len()
}

/// A program that was loaded.
#[derive(Debug)]
pub struct ProgramData {
    pub program_id: Pubkey,
    pub data: Vec<u8>,
}

/// A program that was loaded, as a value.
pub struct ProgramView {
    pub program_id: Pubkey,
    pub data: Seq<u8>,
}

impl View for ProgramData {
    type V = ProgramView;

    open spec fn view(&self) -> ProgramView {
        ProgramView { program_id: self.program_id, data: self.data@ }
    }
}

/// Some programs, as values.
pub open spec fn program_views(v: Seq<ProgramData>) -> Seq<ProgramView> {
    Seq::new(v.len(), |i: int| v[i]@)
}

/// How much of a program can be covered.
#[derive(Clone, Copy, Debug, PartialEq, Eq)]
pub struct ProgramTotals {
    pub program_id: Pubkey,
    pub edges: usize,
    pub instructions: usize,
}

/// Where the totals of a program stand.
pub open spec fn totals_at(s: Seq<ProgramTotals>, k: Pubkey) -> Option<int>
    decreases s.len(),
{
    if s.len() == 0 {
        None
    } else if s.last().program_id == k {
        Some(s.len() - 1)
    } else {
        totals_at(s.drop_last(), k)
    }
}

/// The totals with those of one program: they replace what is there of it.
pub open spec fn with_totals(s: Seq<ProgramTotals>, t: ProgramTotals) -> Seq<ProgramTotals> {
    match totals_at(s, t.program_id) {
        Some(i) => s.update(i, t),
        None => s.push(t),
    }
}

fn put_totals(v: &mut Vec<ProgramTotals>, t: ProgramTotals)
    ensures
        final(v)@ == with_totals(old(v)@, t),
{
    let mut i: usize = v.len();
    assert(v@.take(i as int) =~= v@);
    while i > 0
        invariant
            i <= v@.len(),
            v@ == old(v)@,
            totals_at(v@, t.program_id) == totals_at(v@.take(i as int), t.program_id),
        decreases i,
    {
        assert(v@.take(i as int).drop_last() =~= v@.take(i - 1));
        if v[i - 1].program_id == t.program_id {
            v.set(i - 1, t);
            return;
        }
        i -= 1;
    }
    v.push(t);
}

/// A later program has the same address.
pub open spec fn replaced_later(s: Seq<ProgramView>, i: int) -> bool {
    exists|j: int| i < j < s.len() && (#[trigger] s[j]).program_id == s[i].program_id
}

/// The first programs, without those that were replaced.
pub open spec fn latest(s: Seq<ProgramView>, n: nat) -> Seq<ProgramView>
    decreases n,
{
    if n == 0 {
        Seq::empty()
    } else {
        let before = latest(s, (n - 1) as nat);
        if replaced_later(s, n - 1) { before } else { before.push(s[n - 1]) }
    }
}

/// The context of a test.
pub struct TestContext {
    pub svm: LiteSVM,
    pub pending_instructions: Vec<Instruction>,
    pub pending_signers: Vec<Keypair>,
    pub programs: Vec<ProgramData>,
    /// The accounts that were written, each once.
    pub tracked_accounts: Vec<Pubkey>,
    pub program_coverage_totals: Vec<ProgramTotals>,
    pub snapshot: Option<SvmSnapshot>,
    pub dirty_tracker: DirtyTracker,
    pub account_mutation: AccountMutationConfig,
    /// Transactions are signed.
    pub sigverify: bool,
}

/// The context of a test, as a value.
pub struct ContextView {
    pub svm: LiteSVM,
    pub pending: Seq<InstructionView>,
    pub pending_signers: Seq<Keypair>,
    pub programs: Seq<ProgramView>,
    pub seen: Seq<Pubkey>,
    pub totals: Seq<ProgramTotals>,
    pub snapshot: Option<SvmSnapshot>,
    pub dirty: DirtyView,
    pub mutation: ConfigView,
    pub sigverify: bool,
}

impl View for TestContext {
    type V = ContextView;

    open spec fn view(&self) -> ContextView {
        ContextView {
            svm: self.svm,
            pending: ix_views(self.pending_instructions@),
            pending_signers: self.pending_signers@,
            programs: program_views(self.programs@),
            seen: self.tracked_accounts@,
            totals: self.program_coverage_totals@,
            snapshot: self.snapshot,
            dirty: self.dirty_tracker@,
            mutation: self.account_mutation@,
            sigverify: self.sigverify,
        }
    }
}

/// A context around a machine, with nothing in it.
pub open spec fn empty_context(svm: LiteSVM) -> ContextView {
    ContextView {
        svm,
        pending: Seq::empty(),
        pending_signers: Seq::empty(),
        programs: Seq::empty(),
        seen: Seq::empty(),
        totals: Seq::empty(),
        snapshot: None,
        dirty: clean(),
        mutation: ConfigView { enabled: false, skip_pda_candidates: true, unverified: Seq::empty() },
        sigverify: false,
    }
}

fn copy_instructions(v: &Vec<Instruction>) -> (r: Vec<Instruction>)
    ensures
        ix_views(r@) == ix_views(v@),
{
    let mut r: Vec<Instruction> = Vec::new();
    let mut i: usize = 0;
    while i < v.len()
        invariant
            i <= v@.len(),
            r@.len() == i,
            forall|j: int| 0 <= j < i ==> (#[trigger] r@[j])@ == v@[j]@,
        decreases v.len() - i,
    {
        r.push(v[i].copy());
        i += 1;
    }
    assert(ix_views(r@) =~= ix_views(v@));
    r
}

fn copy_programs(v: &Vec<ProgramData>) -> (r: Vec<ProgramData>)
    ensures
        program_views(r@) == program_views(v@),
{
    let mut r: Vec<ProgramData> = Vec::new();
    let mut i: usize = 0;
    while i < v.len()
        invariant
            i <= v@.len(),
            r@.len() == i,
            forall|j: int| 0 <= j < i ==> (#[trigger] r@[j])@ == v@[j]@,
        decreases v.len() - i,
    {
        r.push(ProgramData { program_id: v[i].program_id, data: copy_bytes(v[i].data.as_slice()) });
        i += 1;
    }
    assert(program_views(r@) =~= program_views(v@));
    r
}

fn copy_totals(v: &Vec<ProgramTotals>) -> (r: Vec<ProgramTotals>)
    ensures
        r@ == v@,
{
    let mut r: Vec<ProgramTotals> = Vec::new();
    let mut i: usize = 0;
    while i < v.len()
        invariant
            i <= v@.len(),
            r@ == v@.take(i as int),
        decreases v.len() - i,
    {
        r.push(v[i]);
        assert(v@.take(i + 1) =~= v@.take(i as int).push(v@[i as int]));
        i += 1;
    }
    assert(v@.take(i as int) =~= v@);
    r
}

impl Clone for TestContext {
    /// A copy without the snapshot, which only the first context owns, and in which nothing has changed yet.
    fn clone(&self) -> (r: Self)
        ensures
            r@ == (ContextView { snapshot: None, dirty: clean(), ..self@ }),
    {
        TestContext {
            svm: svm_clone(&self.svm),
            pending_instructions: copy_instructions(&self.pending_instructions),
            pending_signers: copy_signers(&self.pending_signers),
            programs: copy_programs(&self.programs),
            tracked_accounts: copy_keys(&self.tracked_accounts),
            program_coverage_totals: copy_totals(&self.program_coverage_totals),
            snapshot: None,
            dirty_tracker: DirtyTracker::new(),
            account_mutation: self.account_mutation.copy(),
            sigverify: self.sigverify,
        }
    }
}

/// The totals after a program was analysed.
pub open spec fn totals_noted(before: Seq<ProgramTotals>, after: Seq<ProgramTotals>, id: Pubkey, program: Seq<u8>) -> bool {
    match analyzed(program) {
        Ok(a) => exists|t: ProgramTotals|
            t.program_id == id && (t.edges as nat, t.instructions as nat) == coverage_totals(a) && after == #[trigger] with_totals(
                before,
                t,
            ),
        Err(_) => after == before,
    }
}

/// What loading a program does: its totals are noted where it can be analysed, its bytes where the
/// machine accepts it, and nothing else changes.
pub open spec fn program_added(
    before: ContextView,
    after: ContextView,
    id: Pubkey,
    program: Seq<u8>,
    r: Result<(), ContextError>,
) -> bool {
    let p = svm_with_program(before.svm, id, program);
    &&& totals_noted(before.totals, after.totals, id, program)
    &&& program_stored(before.svm, after.svm, id, program, r is Ok)
    &&& match p.1 {
        Ok(_) => r is Ok && after == (ContextView {
            svm: p.0,
            totals: after.totals,
            programs: before.programs.push(ProgramView { program_id: id, data: program }),
            ..before
        }),
        Err(e) => r is Err && r->Err_0 is ProgramNotLoaded && r->Err_0->ProgramNotLoaded_0 == id
            && r->Err_0->ProgramNotLoaded_1@ == e && after == (ContextView { svm: p.0, totals: after.totals, ..before }),
    }
}

/// The accounts that a snapshot takes back, as they were.
pub open spec fn restored(c: ContextView) -> LiteSVM {
    match c.snapshot {
        Some(snap) => {
            let back = taken_back(c.svm, snap.accounts@, c.dirty.accounts);
            if c.dirty.clock_target_slot is Some { all_written(back, snap.sysvars@) } else { back }
        },
        None => c.svm,
    }
}

impl TestContext {
    /// A context around a new machine.
    pub fn new() -> (r: TestContext)
        ensures
            r@ == empty_context(r.svm),
            svm_clock(r.svm) is Some && svm_clock(r.svm)->0.slot == 0,
            exists|fresh: LiteSVM| r.svm == #[trigger] test_machine(fresh),
    {
        TestContext::from_svm(new_machine())
    }

    /// A context around a machine.
    pub fn from_svm(svm: LiteSVM) -> (r: TestContext)
        ensures
            r@ == empty_context(svm),
    {
        let r = TestContext {
            svm,
            pending_instructions: Vec::new(),
            pending_signers: Vec::new(),
            programs: Vec::new(),
            tracked_accounts: Vec::new(),
            program_coverage_totals: Vec::new(),
            snapshot: None,
            dirty_tracker: DirtyTracker::new(),
            account_mutation: AccountMutationConfig::default(),
            sigverify: false,
        };
        proof {
            let e = empty_context(svm);
            assert(r@.pending =~= e.pending);
            assert(r@.programs =~= e.programs);
            assert(r@.seen =~= e.seen);
            assert(r@.totals =~= e.totals);
            assert(r@.pending_signers =~= e.pending_signers);
        }
        r
    }

    /// The machine of the context.
    pub fn into_svm(self) -> (r: LiteSVM)
        ensures
            r == self.svm,
    {
        self.svm
    }

    /// The context with a limit of compute units.
    pub fn with_compute_budget(self, compute_unit_limit: u64) -> (r: TestContext)
        ensures
            r@ == (ContextView { svm: svm_with_budget(self.svm, compute_unit_limit, true, true), ..self@ }),
            svm_accounts(r.svm) == svm_accounts(self.svm),
    {
        let mut r = self;
        r.svm = set_budget(r.svm, compute_unit_limit, true, true);
        r
    }

    /// The totals of a program, where it can be analysed: the outcomes of its conditional branches and its
    /// instructions, in the part that can be reached.
    pub fn analyze_program_coverage(program_data: &[u8]) -> (r: Option<(usize, usize)>)
        ensures
            match r {
                Some(t) => analyzed(program_data@) is Ok && (t.0 as nat, t.1 as nat) == coverage_totals(
                    analyzed(program_data@)->Ok_0,
                ),
                None => analyzed(program_data@) is Err,
            },
    {
        analyze_program(program_data)
    }

    /// Loads a program. Its totals are kept where it can be analysed, its bytes where it is accepted.
    pub fn add_program_from_bytes(&mut self, program_id: &Pubkey, program_data: &[u8]) -> (r: Result<(), ContextError>)
        ensures
            program_added(old(self)@, final(self)@, *program_id, program_data@, r),
    {
        let ghost before = self.programs@;
        match analyze_program(program_data) {
            Some((edges, instructions)) => {
                let t = ProgramTotals { program_id: *program_id, edges, instructions };
                put_totals(&mut self.program_coverage_totals, t);
                assert(self@.totals == with_totals(old(self)@.totals, t));
            },
            None => {},
        }
        match svm_add_program(&mut self.svm, program_id, program_data) {
            Ok(_) => {},
            Err(e) => {
                return Err(ContextError::ProgramNotLoaded(*program_id, e));
            },
        }
        self.programs.push(ProgramData { program_id: *program_id, data: copy_bytes(program_data) });
        assert(program_views(self.programs@) =~= program_views(before).push(
            ProgramView { program_id: *program_id, data: program_data@ },
        ));
        Ok(())
    }

    /// Notes an account that was written.
    pub fn track_account(&mut self, pubkey: Pubkey)
        ensures
            final(self)@ == (ContextView { seen: with_key(old(self)@.seen, pubkey), ..old(self)@ }),
    {
        add_key(&mut self.tracked_accounts, pubkey);
    }

    /// Turns account probes on.
    pub fn enable_account_mutation(&mut self) -> (r: &mut TestContext)
        ensures
            r@ == (ContextView { mutation: ConfigView { enabled: true, ..old(self)@.mutation }, ..old(self)@ }),
            *final(self) == *final(r),
    {
        self.account_mutation.enable();
        self
    }

    /// Turns account probes off.
    pub fn disable_account_mutation(&mut self) -> (r: &mut TestContext)
        ensures
            r@ == (ContextView { mutation: ConfigView { enabled: false, ..old(self)@.mutation }, ..old(self)@ }),
            *final(self) == *final(r),
    {
        self.account_mutation.disable();
        self
    }

    /// Says whether derived addresses are left out of owner probes.
    pub fn set_owner_mutation_skip_pdas(&mut self, skip_pdas: bool) -> (r: &mut TestContext)
        ensures
            r@ == (ContextView {
                mutation: ConfigView { skip_pda_candidates: skip_pdas, ..old(self)@.mutation },
                ..old(self)@
            }),
            *final(self) == *final(r),
    {
        self.account_mutation.set_skip_pda_candidates(skip_pdas);
        self
    }

    /// Leaves an account out of the probes of owners and derived addresses.
    pub fn mark_owner_unverified(&mut self, pubkey: Pubkey) -> (r: &mut TestContext)
        ensures
            r@ == (ContextView {
                mutation: ConfigView { unverified: with_key(old(self)@.mutation.unverified, pubkey), ..old(self)@.mutation },
                ..old(self)@
            }),
            *final(self) == *final(r),
    {
        self.account_mutation.mark_unverified(pubkey);
        self
    }

    /// Leaves some accounts out of the probes of owners and derived addresses.
    pub fn mark_owners_unverified(&mut self, pubkeys: &[Pubkey]) -> (r: &mut TestContext)
        ensures
            r@ == (ContextView {
                mutation: ConfigView { unverified: with_keys(old(self)@.mutation.unverified, pubkeys@), ..old(self)@.mutation },
                ..old(self)@
            }),
            *final(self) == *final(r),
    {
        let ghost before = self@;
        let mut i: usize = 0;
        while i < pubkeys.len()
            invariant
                i <= pubkeys@.len(),
                self@ == (ContextView {
                    mutation: ConfigView {
                        unverified: with_keys(before.mutation.unverified, pubkeys@.take(i as int)),
                        ..before.mutation
                    },
                    ..before
                }),
            decreases pubkeys.len() - i,
        {
            assert(pubkeys@.take(i + 1).drop_last() =~= pubkeys@.take(i as int));
            self.account_mutation.mark_unverified(pubkeys[i]);
            i += 1;
        }
        assert(pubkeys@.take(i as int) =~= pubkeys@);
        self
    }

    /// How many accounts were written.
    pub fn tracked_accounts_count(&self) -> (r: usize)
        ensures
            r == self@.seen.len(),
    {
        self.tracked_accounts.len()
    }

    /// How many programs were loaded.
    pub fn programs_count(&self) -> (r: usize)
        ensures
            r == self@.programs.len(),
    {
        self.programs.len()
    }

    /// How many accounts the machine holds.
    pub fn svm_account_count(&self) -> (r: usize)
        ensures
            r == svm_accounts(self.svm).dom().len(),
    {
        svm_len(&self.svm)
    }

    /// Whether the machine holds an account.
    pub fn account_exists(&self, pubkey: &Pubkey) -> (r: bool)
        ensures
            r == (account_at(self.svm, *pubkey) is Some),
    {
        svm_get_account(&self.svm, pubkey).is_some()
    }

    /// The totals of the programs that were loaded.
    pub fn get_program_coverage_totals(&self) -> (r: &Vec<ProgramTotals>)
        ensures
            r@ == self@.totals,
    {
        &self.program_coverage_totals
    }

    /// The programs that were loaded; of those with one address the last.
    pub fn get_program_binaries(&self) -> (r: Vec<ProgramData>)
        ensures
            program_views(r@) == latest(self@.programs, self@.programs.len()),
    {
        let ghost all = program_views(self.programs@);
        let mut r: Vec<ProgramData> = Vec::new();
        let mut i: usize = 0;
        assert(program_views(r@) =~= latest(all, 0));
        while i < self.programs.len()
            invariant
                i <= self.programs@.len(),
                all == program_views(self.programs@),
                program_views(r@) == latest(all, i as nat),
            decreases self.programs.len() - i,
        {
            let mut later = false;
            let mut j: usize = i + 1;
            while j < self.programs.len()
                invariant
                    i < j <= self.programs@.len(),
                    all == program_views(self.programs@),
                    later == exists|m: int| i < m < j && (#[trigger] all[m]).program_id == all[i as int].program_id,
                decreases self.programs.len() - j,
            {
                if self.programs[j].program_id == self.programs[i].program_id {
                    later = true;
                    assert(all[j as int].program_id == all[i as int].program_id);
                }
                j += 1;
            }
            assert(later == replaced_later(all, i as int));
            if !later {
                let ghost before = r@;
                r.push(
                    ProgramData {
                        program_id: self.programs[i].program_id,
                        data: copy_bytes(self.programs[i].data.as_slice()),
                    },
                );
                assert(program_views(r@) =~= program_views(before).push(all[i as int]));
            }
            i += 1;
        }
        r
    }

    /// The bytes of the first program that was loaded at an address.
    pub fn get_program_binary(&self, pubkey: &Pubkey) -> (r: Option<&[u8]>)
        ensures
            match r {
                Some(data) => exists|i: int|
                    0 <= i < self@.programs.len() && (#[trigger] self@.programs[i]).program_id == *pubkey && data@
                        == self@.programs[i].data && forall|j: int|
                        0 <= j < i ==> (#[trigger] self@.programs[j]).program_id != *pubkey,
                None => forall|i: int| 0 <= i < self@.programs.len() ==> (#[trigger] self@.programs[i]).program_id != *pubkey,
            },
    {
        let mut i: usize = 0;
        while i < self.programs.len()
            invariant
                i <= self.programs@.len(),
                forall|j: int| 0 <= j < i ==> (#[trigger] self@.programs[j]).program_id != *pubkey,
            decreases self.programs.len() - i,
        {
            assert(self@.programs[i as int] == self.programs@[i as int]@);
            if self.programs[i].program_id == *pubkey {
                return Some(self.programs[i].data.as_slice());
            }
            i += 1;
        }
        None
    }

    /// Keeps what the machine holds now. All accounts count as written, and none as changed.
    pub fn take_snapshot(&mut self)
        ensures
            final(self)@ == (ContextView {
                seen: final(self)@.seen,
                snapshot: final(self)@.snapshot,
                dirty: clean(),
                ..old(self)@
            }),
            final(self)@.snapshot is Some,
            final(self)@.snapshot->0.of(old(self).svm),
            final(self)@.snapshot->0.well_formed(),
            forall|k: Pubkey|
                #[trigger] final(self)@.seen.contains(k) <==> old(self)@.seen.contains(k) || account_at(
                    old(self).svm,
                    k,
                ) is Some,
    {
        let all = svm_list_accounts(&self.svm);
        let ghost before = self.tracked_accounts@;
        let mut i: usize = 0;
        while i < all.len()
            invariant
                i <= all@.len(),
                self@ == (ContextView { seen: self@.seen, ..old(self)@ }),
                before == old(self)@.seen,
                forall|k: Pubkey|
                    #[trigger] self.tracked_accounts@.contains(k) <==> before.contains(k) || exists|j: int|
                        0 <= j < i && (#[trigger] all@[j]).0 == k,
            decreases all.len() - i,
        {
            let ghost prior = self.tracked_accounts@;
            add_key(&mut self.tracked_accounts, all[i].0);
            proof {
                let now = self.tracked_accounts@;
                let k0 = all@[i as int].0;
                assert forall|k: Pubkey| #[trigger] now.contains(k) <==> before.contains(k) || exists|j: int|
                    0 <= j < i + 1 && (#[trigger] all@[j]).0 == k by {
                    assert(now.contains(k) == (prior.contains(k) || k == k0)) by {
                        if !prior.contains(k0) {
                            assert(now == prior.push(k0));
                            assert(now[now.len() - 1] == k0);
                            if prior.contains(k) {
                                let m = choose|m: int| 0 <= m < prior.len() && prior[m] == k;
                                assert(now[m] == k);
                            }
                        }
                    }
                    assert(prior.contains(k) <==> before.contains(k) || exists|j: int|
                        0 <= j < i && (#[trigger] all@[j]).0 == k);
                }
            }
            i += 1;
        }
        assert forall|k: Pubkey| (exists|j: int| 0 <= j < all@.len() && (#[trigger] all@[j]).0 == k) <==> #[trigger] account_at(
            self.svm,
            k,
        ) is Some by {}
        self.snapshot = Some(SvmSnapshot::take_all(&self.svm));
        self.dirty_tracker.clear();
    }

    /// Starts an iteration: nothing is changed, and nothing waits.
    pub fn begin_iteration(&mut self)
        ensures
            final(self)@ == (ContextView {
                dirty: clean(),
                pending: Seq::empty(),
                pending_signers: Seq::empty(),
                ..old(self)@
            }),
    {
        self.dirty_tracker.clear();
        self.pending_instructions = Vec::new();
        self.pending_signers = Vec::new();
        assert(self@.pending =~= Seq::<InstructionView>::empty());
        assert(self@.pending_signers =~= Seq::<Keypair>::empty());
    }

    /// Takes the accounts that may have changed back to the snapshot, and says how many they are.
    pub fn restore_snapshot(&mut self) -> (r: usize)
        requires
            old(self)@.snapshot is Some ==> old(self)@.snapshot->0.well_formed(),
        ensures
            final(self)@ == (ContextView { svm: restored(old(self)@), ..old(self)@ }),
            r == if old(self)@.snapshot is Some { old(self)@.dirty.accounts.len() } else { 0 },
            old(self)@.snapshot is Some ==> put_back(
                old(self).svm,
                final(self).svm,
                old(self)@.snapshot->0,
                old(self)@.dirty,
            ),
    {
        match &self.snapshot {
            Some(snap) => snap.restore(&mut self.svm, &self.dirty_tracker),
            None => 0,
        }
    }

    /// Whether there is a snapshot.
    pub fn has_snapshot(&self) -> (r: bool)
        ensures
            r == (self@.snapshot is Some),
    {
        self.snapshot.is_some()
    }

    /// The accounts that may have changed.
    pub fn dirty_tracker(&self) -> (r: &DirtyTracker)
        ensures
            r@ == self@.dirty,
    {
        &self.dirty_tracker
    }

    /// The slot of the clock.
    pub fn slot(&self) -> (r: u64)
        requires
            svm_clock(self.svm) is Some,
        ensures
            r == svm_clock(self.svm)->0.slot,
    {
        match read_clock(&self.svm) {
            Some(c) => c.slot,
            None => 0,
        }
    }

    /// The slot of the clock, where the machine has one.
    pub fn clock_slot(&self) -> (r: Option<u64>)
        ensures
            r == match svm_clock(self.svm) {
                Some(c) => Some(c.slot),
                None => None,
            },
    {
        if read_clock(&self.svm).is_some() { Some(self.slot()) } else { None }
    }

    /// The slot that the next transaction sees.
    pub fn next_slot(&self) -> (r: u64)
        requires
            svm_clock(self.svm) is Some,
            svm_clock(self.svm)->0.slot < u64::MAX,
        ensures
            r == svm_clock(self.svm)->0.slot + 1,
    {
        self.slot() + 1
    }

    /// The slot that the next transaction sees, where there is one.
    pub fn following_slot(&self) -> (r: Option<u64>)
        ensures
            r == match svm_clock(self.svm) {
                Some(c) => if c.slot < u64::MAX { Some((c.slot + 1) as u64) } else { None },
                None => None,
            },
    {
        match read_clock(&self.svm) {
            Some(c) => if c.slot < u64::MAX { Some(self.next_slot()) } else { None },
            None => None,
        }
    }

    /// Sets the clock to a slot.
    pub fn warp_to_slot(&mut self, slot: u64)
        requires
            svm_clock(old(self).svm) is Some,
        ensures
            final(self)@ == (ContextView {
                svm: svm_with_clock(old(self).svm, Clock { slot, ..svm_clock(old(self).svm)->0 }),
                dirty: DirtyView { clock_target_slot: Some(slot), ..old(self)@.dirty },
                ..old(self)@
            }),
            svm_clock(final(self).svm) == Some((Clock { slot, ..svm_clock(old(self).svm)->0 })),
            forall|k: Pubkey|
                k@ != crate::ids::clock_address() ==> #[trigger] account_at(final(self).svm, k) == account_at(old(self).svm, k),
    {
        match read_clock(&self.svm) {
            Some(clock) => {
                self.dirty_tracker.mark_clock_dirty(slot);
                let clock = Clock { slot, ..clock };
                svm_set_clock(&mut self.svm, &clock);
                proof {
                    let k = crate::types::key_of(crate::ids::clock_address());
                    crate::sysvars::lemma_clock_key();
                    assert(account_at(self.svm, k) is Some);
                }
            },
            None => {},
        }
    }

    /// Sets the clock to a slot, where the machine has one, and says whether it has.
    pub fn try_warp_to_slot(&mut self, slot: u64) -> (r: bool)
        ensures
            r == (svm_clock(old(self).svm) is Some),
            !r ==> *final(self) == *old(self),
            r ==> final(self)@ == (ContextView {
                svm: svm_with_clock(old(self).svm, Clock { slot, ..svm_clock(old(self).svm)->0 }),
                dirty: DirtyView { clock_target_slot: Some(slot), ..old(self)@.dirty },
                ..old(self)@
            }),
            r ==> svm_clock(final(self).svm) == Some((Clock { slot, ..svm_clock(old(self).svm)->0 })),
            forall|k: Pubkey|
                k@ != crate::ids::clock_address() ==> #[trigger] account_at(final(self).svm, k) == account_at(old(self).svm, k),
    {
        if read_clock(&self.svm).is_none() {
            return false;
        }
        self.warp_to_slot(slot);
        true
    }

    /// Moves the clock on by some slots.
    pub fn advance_slots(&mut self, slots: u64)
        requires
            svm_clock(old(self).svm) is Some,
            svm_clock(old(self).svm)->0.slot + slots <= u64::MAX,
        ensures
            final(self)@ == (ContextView {
                svm: svm_with_clock(
                    old(self).svm,
                    Clock { slot: (svm_clock(old(self).svm)->0.slot + slots) as u64, ..svm_clock(old(self).svm)->0 },
                ),
                dirty: DirtyView {
                    clock_target_slot: Some((svm_clock(old(self).svm)->0.slot + slots) as u64),
                    ..old(self)@.dirty
                },
                ..old(self)@
            }),
            svm_clock(final(self).svm) is Some && svm_clock(final(self).svm)->0.slot == svm_clock(old(self).svm)->0.slot
                + slots,
            forall|k: Pubkey|
                k@ != crate::ids::clock_address() ==> #[trigger] account_at(final(self).svm, k) == account_at(old(self).svm, k),
    {
        let target: u64 = self.slot() + slots;
        self.warp_to_slot(target);
    }

    /// Moves the clock on by some slots, where that can be done, and says whether it can.
    pub fn try_advance_slots(&mut self, slots: u64) -> (r: bool)
        ensures
            r == (svm_clock(old(self).svm) is Some && svm_clock(old(self).svm)->0.slot + slots <= u64::MAX),
            !r ==> *final(self) == *old(self),
            r ==> svm_clock(final(self).svm) is Some && svm_clock(final(self).svm)->0.slot == svm_clock(
                old(self).svm,
            )->0.slot + slots,
            r ==> final(self)@.dirty == (DirtyView {
                clock_target_slot: Some((svm_clock(old(self).svm)->0.slot + slots) as u64),
                ..old(self)@.dirty
            }),
            final(self)@ == (ContextView { svm: final(self)@.svm, dirty: final(self)@.dirty, ..old(self)@ }),
            forall|k: Pubkey|
                k@ != crate::ids::clock_address() ==> #[trigger] account_at(final(self).svm, k) == account_at(old(self).svm, k),
    {
        match read_clock(&self.svm) {
            Some(c) => if slots <= u64::MAX - c.slot {
                self.advance_slots(slots);
                true
            } else {
                false
            },
            None => false,
        }
    }

    /// Whether an account exists and holds at least so many bytes.
    pub fn account_has_data(&self, pubkey: &Pubkey, min_size: usize) -> (r: bool)
        ensures
            r == (account_at(self.svm, *pubkey) is Some && account_at(self.svm, *pubkey)->0.data.len() >= min_size),
    {
        match svm_get_account(&self.svm, pubkey) {
            Some(a) => a.data.len() >= min_size,
            None => false,
        }
    }

    /// The account at an address.
    pub fn read_account(&self, address: &Pubkey) -> (r: Result<Account, ContextError>)
        ensures
            match r {
                Ok(a) => account_at(self.svm, *address) == Some(a@),
                Err(e) => account_at(self.svm, *address) is None && e == ContextError::AccountNotFound(*address),
            },
    {
        match svm_get_account(&self.svm, address) {
            Some(a) => Ok(a),
            None => Err(ContextError::AccountNotFound(*address)),
        }
    }

    /// The account at an address.
    pub fn get_account(&self, address: &Pubkey) -> (r: Result<Account, ContextError>)
        ensures
            match r {
                Ok(a) => account_at(self.svm, *address) == Some(a@),
                Err(e) => account_at(self.svm, *address) is None && e == ContextError::AccountNotFound(*address),
            },
    {
        self.read_account(address)
    }

    /// What an account holds behind its tag.
    pub fn read_account_with_discriminator(&self, address: &Pubkey, discriminator_len: usize) -> (r: Result<
        Vec<u8>,
        ContextError,
    >)
        ensures
            body_read(account_at(self.svm, *address), *address, discriminator_len, r),
    {
        let account = match self.read_account(address) {
            Ok(a) => a,
            Err(e) => {
                return Err(e);
            },
        };
        if account.data.len() < discriminator_len {
            return Err(ContextError::NoTag { need: discriminator_len, got: account.data.len() });
        }
        let r = copy_range(&account.data, discriminator_len, account.data.len());
        assert(r@ =~= account.data@.skip(discriminator_len as int));
        Ok(r)
    }

    /// The bytes of a value of `size` bytes that stands behind the tag of an account.
    pub fn read_zero_copy_account_with_discriminator(&self, address: &Pubkey, discriminator_len: usize, size: usize) -> (r: Result<
        Vec<u8>,
        ContextError,
    >)
        requires
            discriminator_len + size <= usize::MAX,
        ensures
            match r {
                Ok(v) => account_at(self.svm, *address) is Some && discriminator_len + size <= account_at(
                    self.svm,
                    *address,
                )->0.data.len() && v@ == account_at(self.svm, *address)->0.data.subrange(
                    discriminator_len as int,
                    discriminator_len + size,
                ),
                Err(ContextError::AccountNotFound(k)) => account_at(self.svm, *address) is None && k == *address,
                Err(ContextError::TooShortToRead { got, need, tag }) => account_at(self.svm, *address) is Some && got
                    == account_at(self.svm, *address)->0.data.len() && got < need && need == discriminator_len + size && tag
                    == discriminator_len,
                Err(_) => false,
            },
    {
        let account = match self.read_account(address) {
            Ok(a) => a,
            Err(e) => {
                return Err(e);
            },
        };
        let need: usize = discriminator_len + size;
        if account.data.len() < need {
            return Err(ContextError::TooShortToRead { got: account.data.len(), need, tag: discriminator_len });
        }
        Ok(copy_range(&account.data, discriminator_len, need))
    }

    /// The bytes of a value of `size` bytes that stands behind a tag of eight bytes.
    pub fn read_zero_copy_account(&self, address: &Pubkey, size: usize) -> (r: Result<Vec<u8>, ContextError>)
        requires
            8 + size <= usize::MAX,
        ensures
            match r {
                Ok(v) => account_at(self.svm, *address) is Some && 8 + size <= account_at(self.svm, *address)->0.data.len()
                    && v@ == account_at(self.svm, *address)->0.data.subrange(8, 8 + size),
                Err(ContextError::AccountNotFound(k)) => account_at(self.svm, *address) is None && k == *address,
                Err(ContextError::TooShortToRead { got, need, tag }) => account_at(self.svm, *address) is Some && got
                    == account_at(self.svm, *address)->0.data.len() && got < need && need == 8 + size && tag == 8,
                Err(_) => false,
            },
    {
        self.read_zero_copy_account_with_discriminator(address, 8, size)
    }

    /// The amount of a token account, or zero where there is none.
    pub fn token_balance(&self, token_account: &Pubkey) -> (r: u64)
        ensures
            r == match account_at(self.svm, *token_account) {
                Some(a) => match spl_token_account(a.data) {
                    Some(t) => t.amount,
                    None => 0,
                },
                None => 0,
            },
    {
        match svm_get_account(&self.svm, token_account) {
            Some(a) => match unpack_token_account(a.data.as_slice()) {
                Some(t) => t.amount,
                None => 0,
            },
            None => 0,
        }
    }

    /// Writes an account. It counts as written and as changed. Where the machine refuses it, as it may
    /// do with programs and sysvars, no account changes.
    pub fn write_account(&mut self, address: &Pubkey, account: Account) -> (r: Result<(), ContextError>)
        ensures
            r is Ok,
            final(self)@ == written(old(self)@, *address, account@),
            !account.executable && !crate::ids::known_sysvar(*address) ==> account_at(final(self).svm, *address) == held(
                Some(account@),
            ),
            forall|k: Pubkey|
                k != *address ==> #[trigger] account_at(final(self).svm, k) == account_at(old(self).svm, k),
    {
        add_key(&mut self.tracked_accounts, *address);
        self.dirty_tracker.mark_account_dirty(address);
        svm_set_account(&mut self.svm, address, account);
        Ok(())
    }

    /// Writes bytes behind the tag of an account.
    pub fn write_zero_copy_account_with_discriminator(
        &mut self,
        address: &Pubkey,
        bytes: &[u8],
        discriminator_len: usize,
    ) -> (r: Result<(), ContextError>)
        requires
            discriminator_len + bytes@.len() <= usize::MAX,
        ensures
            bytes_written(account_at(old(self).svm, *address), old(self)@, *address, bytes@, discriminator_len, r, final(self)@),
            forall|k: Pubkey|
                k != *address ==> #[trigger] account_at(final(self).svm, k) == account_at(old(self).svm, k),
    {
        let mut account = match self.read_account(address) {
            Ok(a) => a,
            Err(e) => {
                return Err(e);
            },
        };
        let need: usize = discriminator_len + bytes.len();
        if account.data.len() < need {
            return Err(ContextError::TooShortToWrite { got: account.data.len(), need });
        }
        splice(&mut account.data, bytes, discriminator_len);
        self.write_account(address, account)
    }

    /// Writes bytes behind a tag of eight bytes.
    pub fn write_zero_copy_account(&mut self, address: &Pubkey, bytes: &[u8]) -> (r: Result<(), ContextError>)
        requires
            8 + bytes@.len() <= usize::MAX,
        ensures
            bytes_written(account_at(old(self).svm, *address), old(self)@, *address, bytes@, 8, r, final(self)@),
            forall|k: Pubkey|
                k != *address ==> #[trigger] account_at(final(self).svm, k) == account_at(old(self).svm, k),
    {
        self.write_zero_copy_account_with_discriminator(address, bytes, 8)
    }

    /// Replaces the data of an account. It counts as changed.
    pub fn replace_account_data(&mut self, address: &Pubkey, data: Vec<u8>) -> (r: Result<(), ContextError>)
        ensures
            match account_at(old(self).svm, *address) {
                Some(a) => r is Ok && final(self)@ == (ContextView {
                    svm: svm_with_account(old(self).svm, *address, AccountView { data: data@, ..a }).0,
                    dirty: DirtyView { accounts: with_key(old(self)@.dirty.accounts, *address), ..old(self)@.dirty },
                    ..old(self)@
                }),
                None => r == Err::<(), _>(ContextError::AccountNotFound(*address)) && final(self)@ == old(self)@,
            },
            forall|k: Pubkey|
                k != *address ==> #[trigger] account_at(final(self).svm, k) == account_at(old(self).svm, k),
    {
        let mut account = match self.read_account(address) {
            Ok(a) => a,
            Err(e) => {
                return Err(e);
            },
        };
        account.data = data;
        self.dirty_tracker.mark_account_dirty(address);
        svm_set_account(&mut self.svm, address, account);
        Ok(())
    }

    /// Changes the data of an account with `f`, and writes it.
    pub fn update_account<F: FnOnce(Vec<u8>) -> Vec<u8>>(&mut self, pubkey: &Pubkey, f: F) -> (r: Result<(), ContextError>)
        requires
            forall|data: Vec<u8>| #[trigger] f.requires((data,)),
        ensures
            match account_at(old(self).svm, *pubkey) {
                Some(a) => r is Ok && exists|data: Vec<u8>, out: Vec<u8>|
                    #![trigger f.ensures((data,), out)]
                    data@ == a.data && f.ensures((data,), out) && final(self)@ == written(
                        old(self)@,
                        *pubkey,
                        AccountView { data: out@, ..a },
                    ),
                None => r == Err::<(), _>(ContextError::AccountNotFound(*pubkey)) && final(self)@ == old(self)@,
            },
            forall|k: Pubkey|
                k != *pubkey ==> #[trigger] account_at(final(self).svm, k) == account_at(old(self).svm, k),
    {
        let account = match self.read_account(pubkey) {
            Ok(a) => a,
            Err(e) => {
                return Err(e);
            },
        };
        let ghost data = account.data;
        let out = f(account.data);
        assert(f.ensures((data,), out));
        let changed = Account {
            lamports: account.lamports,
            data: out,
            owner: account.owner,
            executable: account.executable,
            rent_epoch: account.rent_epoch,
        };
        self.write_account(pubkey, changed)
    }
}

/// The addresses with some more, each once.
pub open spec fn with_keys(s: Seq<Pubkey>, more: Seq<Pubkey>) -> Seq<Pubkey>
    decreases more.len(),
{
    if more.len() == 0 {
        s
    } else {
        with_key(with_keys(s, more.drop_last()), more.last())
    }
}

/// The context after an account was written.
pub open spec fn written(c: ContextView, address: Pubkey, account: AccountView) -> ContextView {
    ContextView {
        svm: svm_with_account(c.svm, address, account).0,
        seen: with_key(c.seen, address),
        dirty: DirtyView { accounts: with_key(c.dirty.accounts, address), ..c.dirty },
        ..c
    }
}

/// What is read of an account behind its tag, or why nothing is.
pub open spec fn body_read(a: Option<AccountView>, address: Pubkey, tag: usize, r: Result<Vec<u8>, ContextError>) -> bool {
    match a {
        None => r is Err && r->Err_0 == ContextError::AccountNotFound(address),
        Some(a) => if a.data.len() < tag {
            r is Err && r->Err_0 == (ContextError::NoTag { need: tag, got: a.data.len() as usize })
        } else {
            r is Ok && r->Ok_0@ == a.data.skip(tag as int)
        },
    }
}

/// The data with some bytes written over them.
pub open spec fn spliced(data: Seq<u8>, bytes: Seq<u8>, at: int) -> Seq<u8> {
    Seq::new(data.len(), |i: int| if at <= i < at + bytes.len() { bytes[i - at] } else { data[i] })
}

/// Bytes were written behind the tag of an account, or it was refused and nothing changed.
pub open spec fn bytes_written(
    a: Option<AccountView>,
    before: ContextView,
    address: Pubkey,
    bytes: Seq<u8>,
    tag: usize,
    r: Result<(), ContextError>,
    after: ContextView,
) -> bool {
    match a {
        None => r is Err && r->Err_0 == ContextError::AccountNotFound(address) && after == before,
        Some(a) => if a.data.len() < tag + bytes.len() {
            r is Err && r->Err_0 == (ContextError::TooShortToWrite {
                got: a.data.len() as usize,
                need: (tag + bytes.len()) as usize,
            }) && after == before
        } else {
            r is Ok && after == written(before, address, AccountView { data: spliced(a.data, bytes, tag as int), ..a })
        },
    }
}

fn splice(data: &mut Vec<u8>, bytes: &[u8], at: usize)
    requires
        at + bytes@.len() <= old(data)@.len(),
    ensures
        final(data)@ == spliced(old(data)@, bytes@, at as int),
{
    let ghost before = data@;
    let n: usize = data.len();
    let mut i: usize = 0;
    assert(data@ =~= spliced(before, bytes@.take(0), at as int));
    while i < bytes.len()
        invariant
            i <= bytes@.len(),
            at + bytes@.len() <= before.len(),
            before.len() == n,
            data@ == spliced(before, bytes@.take(i as int), at as int),
        decreases bytes.len() - i,
    {
        data.set(at + i, bytes[i]);
        assert(data@ =~= spliced(before, bytes@.take(i + 1), at as int));
        i += 1;
    }
    assert(bytes@.take(i as int) =~= bytes@);
}

fn copy_range(data: &Vec<u8>, from: usize, to: usize) -> (r: Vec<u8>)
    requires
        from <= to <= data@.len(),
    ensures
        r@ == data@.subrange(from as int, to as int),
{
    let mut r: Vec<u8> = Vec::new();
    let mut i: usize = from;
    while i < to
        invariant
            from <= i <= to <= data@.len(),
            r@ == data@.subrange(from as int, i as int),
        decreases to - i,
    {
        r.push(data[i]);
        assert(data@.subrange(from as int, i + 1) =~= data@.subrange(from as int, i as int).push(data@[i as int]));
        i += 1;
    }
    r
}

} // verus!
