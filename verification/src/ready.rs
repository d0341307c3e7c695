//! Whether a machine can take a transaction: it has what the transaction needs, and can keep what the
//! transaction leaves behind.
use vstd::prelude::*;
use litesvm::LiteSVM;
use crate::ids::{loader_v4_id, native_loader_id, upgradeable_loader_id};
#[allow(unused_imports)]
use crate::ids::{loader_v4_address, native_loader_address, upgradeable_loader_address};
use crate::svm::{list_all_keys, svm_clone, svm_get_account, svm_set_account};
#[allow(unused_imports)]
use crate::svm::{account_at, all_keys, loads_program, svm_with_account};
use crate::sysvars::read_rent;
#[allow(unused_imports)]
use crate::sysvars::held_rent;
use crate::types::{add_key, list_slots, Account, Instruction, Pubkey, Slot};
#[allow(unused_imports)]
use crate::types::{ix_views, slots_of, with_key, AccountView, InstructionView};

verus! {

/// The machine has a program at this address in its cache.
pub uninterp spec fn svm_caches(svm: LiteSVM, key: Pubkey) -> bool;

/// `ProgramCacheForTxBatch::find`, on the cache of the machine: whether there is a program at this
/// address.
#[verifier::external_body]
fn svm_has_program(svm: &LiteSVM, key: &Pubkey) -> (r: bool)
    ensures
        r == svm_caches(*svm, *key),
{
    svm.accounts_db().programs_cache.find(&key.bytes.into()).is_some()
}

/// The price of a byte for a year that the machine reckons with, where it knows one.
pub uninterp spec fn svm_rent(svm: LiteSVM) -> Option<u64>;

/// `SysvarCache::get_rent`, on the cache of the machine: the price of a byte for a year.
#[allow(deprecated)]
#[verifier::external_body]
pub(crate) fn svm_rent_rate(svm: &LiteSVM) -> (r: Option<u64>)
    ensures
        r == svm_rent(*svm),
{
    svm.accounts_db().sysvar_cache.get_rent().ok().map(|rent| rent.lamports_per_byte_year)
}

/// How large a heap a program is given and how deep programs may call each other, where the machine has a
/// budget of its own.
pub uninterp spec fn svm_budget(svm: LiteSVM) -> Option<(u32, usize)>;

/// `LiteSVM::get_compute_budget`: the fields `heap_size` and `max_instruction_stack_depth` of the budget.
#[verifier::external_body]
fn svm_read_budget(svm: &LiteSVM) -> (r: Option<(u32, usize)>)
    ensures
        r == svm_budget(*svm),
{
    svm.get_compute_budget().map(|b| (b.heap_size, b.max_instruction_stack_depth))
}

/// How many frames the stack of a program has, and how many bytes each of them.
pub uninterp spec fn svm_frames(svm: LiteSVM) -> (usize, usize);

/// `BuiltinProgram::get_config`, on the environment of the machine: the fields `max_call_depth` and
/// `stack_frame_size`.
#[verifier::external_body]
fn svm_read_frames(svm: &LiteSVM) -> (r: (usize, usize))
    ensures
        r == svm_frames(*svm),
{
    let config = svm.accounts_db().environments.program_runtime_v1.get_config();
    (config.max_call_depth, config.stack_frame_size)
}

/// So many calls can be made room for, where no program runs that makes them.
pub const DEEPEST_LIST: usize = 0x10_0000;

/// The runtime has room for what the machine gives to programs: it keeps heaps of 32 to 256 kilobytes and
/// stacks of 64 frames of four kilobytes, for programs that call each other nine deep at most. Where no
/// program runs but those of the machine itself, only the list of calls takes room.
pub open spec fn room_fits(svm: LiteSVM, runs_programs: bool) -> bool {
    &&& match svm_budget(svm) {
        Some((heap, depth)) => if runs_programs { 32768 <= heap <= 262144 && depth <= 9 } else { depth <= DEEPEST_LIST },
        None => true,
    }
    &&& runs_programs ==> svm_frames(svm) == (64usize, 4096usize)
}

fn has_room(svm: &LiteSVM, runs_programs: bool) -> (r: bool)
    ensures
        r == room_fits(*svm, runs_programs),
{
    let fits = match svm_read_budget(svm) {
        Some((heap, depth)) => if runs_programs { 32768 <= heap && heap <= 262144 && depth <= 9 } else { depth <= DEEPEST_LIST },
        None => true,
    };
    let (calls, frame): (usize, usize) = svm_read_frames(svm);
    fits && (!runs_programs || (calls == 64 && frame == 4096))
}

/// The price of some bytes, with the 128 that every account counts for, is a number that a machine can
/// hold.
pub open spec fn rent_fits(rate: u64, len: nat) -> bool {
    rate * (len + 128) <= u64::MAX
}

/// Whether the price of some bytes is a number that a machine can hold.
pub fn fits_rent(rate: u64, len: u64) -> (r: bool)
    ensures
        r == rent_fits(rate, len as nat),
{
    let price: u128 = rate as u128;
    let bytes: u128 = len as u128 + 128;
    assert(price * bytes == rate * (len as nat + 128));
    match price.checked_mul(bytes) {
        Some(p) => p <= 0xffff_ffff_ffff_ffff,
        None => false,
    }
}

/// The price of some bytes is a number that the machine can hold, at the price that it knows and at the
/// one that it holds.
pub open spec fn price_fits(svm: LiteSVM, len: nat) -> bool {
    &&& svm_rent(svm) is Some ==> rent_fits(svm_rent(svm)->0, len)
    &&& held_rent(svm) is Some ==> rent_fits(held_rent(svm)->0, len)
}

fn has_fitting_price(known: &Option<u64>, held: &Option<u64>, len: u64) -> (r: bool)
    ensures
        r == ((*known is Some ==> rent_fits((*known)->0, len as nat)) && (*held is Some ==> rent_fits(
            (*held)->0,
            len as nat,
        ))),
{
    let a = match known {
        Some(rate) => fits_rent(*rate, len),
        None => true,
    };
    let b = match held {
        Some(rate) => fits_rent(*rate, len),
        None => true,
    };
    a && b
}

/// As many bytes as an account can grow to in a transaction: the runtime refuses more than ten megabytes.
pub const LONGEST_ACCOUNT: u64 = 0xa0_0000;

/// As many bytes as the fourth loader prices before it refuses them: any 32-bit number, and the head of a
/// program.
pub const LONGEST_PROGRAM: u64 = 0x1_0000_002f;

/// The instructions name an account that may be written to, and so grow.
pub open spec fn may_grow(ixs: Seq<InstructionView>, payer: Pubkey) -> bool {
    exists|i: int|
        0 <= i < slots_of(ixs).len() && ((#[trigger] slots_of(ixs)[i]).meta.is_writable || slots_of(ixs)[i].meta.pubkey
            == payer)
}

/// The most bytes that the instructions can come to price, but for what accounts hold already. An account
/// that may be written to can grow to its longest before it is priced, also where the transaction fails.
pub open spec fn longest(ixs: Seq<InstructionView>, payer: Pubkey) -> u64 {
    if exists|k: Pubkey| k@ == loader_v4_address() && #[trigger] reaches(ixs, k) {
        LONGEST_PROGRAM
    } else if may_load(ixs) || may_grow(ixs, payer) {
        LONGEST_ACCOUNT
    } else {
        0
    }
}

/// Some instruction uses this account.
pub open spec fn uses_key(slots: Seq<Slot>, k: Pubkey) -> bool {
    exists|i: int| 0 <= i < slots.len() && (#[trigger] slots[i]).meta.pubkey == k
}

fn is_used(slots: &Vec<Slot>, k: &Pubkey) -> (r: bool)
    ensures
        r == uses_key(slots@, *k),
{
    let mut i: usize = 0;
    while i < slots.len()
        invariant
            i <= slots@.len(),
            forall|j: int| 0 <= j < i ==> (#[trigger] slots@[j]).meta.pubkey != *k,
        decreases slots.len() - i,
    {
        if slots[i].meta.pubkey == *k {
            return true;
        }
        i += 1;
    }
    false
}

/// Some instruction calls this program.
pub open spec fn calls(ixs: Seq<InstructionView>, k: Pubkey) -> bool {
    exists|i: int| 0 <= i < ixs.len() && (#[trigger] ixs[i]).program_id == k
}

fn is_called(ixs: &[Instruction], k: &Pubkey) -> (r: bool)
    ensures
        r == calls(ix_views(ixs@), *k),
{
    let ghost v = ix_views(ixs@);
    let mut i: usize = 0;
    while i < ixs.len()
        invariant
            i <= ixs@.len(),
            v == ix_views(ixs@),
            forall|j: int| 0 <= j < i ==> (#[trigger] v[j]).program_id != *k,
        decreases ixs.len() - i,
    {
        assert(v[i as int] == ixs@[i as int]@);
        if ixs[i].program_id == *k {
            return true;
        }
        i += 1;
    }
    false
}

/// A program that is only called, or that pays, has an account where it is in the cache.
pub open spec fn present(svm: LiteSVM, slots: Seq<Slot>, k: Pubkey) -> bool {
    uses_key(slots, k) || !svm_caches(svm, k) || account_at(svm, k) is Some
}

fn is_present(svm: &LiteSVM, slots: &Vec<Slot>, k: &Pubkey) -> (r: bool)
    ensures
        r == present(*svm, slots@, *k),
{
    is_used(slots, k) || !svm_has_program(svm, k) || svm_get_account(svm, k).is_some()
}

/// The loader of a program that is not builtin has an account.
pub open spec fn owner_present(svm: LiteSVM, k: Pubkey) -> bool {
    match account_at(svm, k) {
        Some(a) => has_loader(k, a) ==> account_at(svm, a.owner) is Some,
        None => true,
    }
}

fn is_owner_present(svm: &LiteSVM, k: &Pubkey) -> (r: bool)
    ensures
        r == owner_present(*svm, *k),
{
    match svm_get_account(svm, k) {
        Some(a) => !a.executable || k.same_as(&native_loader_id()) || a.owner.same_as(&native_loader_id())
            || svm_get_account(svm, &a.owner).is_some(),
        None => true,
    }
}

fn is_program_at(k: &Pubkey, a: &Account) -> (r: bool)
    ensures
        r == loads_program(*k, a@),
{
    a.executable && !k.same_as(&Pubkey::default()) && !a.owner.same_as(&native_loader_id())
}

/// A program stands at this address.
pub open spec fn is_program(svm: LiteSVM, k: Pubkey) -> bool {
    account_at(svm, k) is Some && loads_program(k, account_at(svm, k)->0)
}

fn holds_program(svm: &LiteSVM, k: &Pubkey) -> (r: bool)
    ensures
        r == is_program(*svm, *k),
{
    match svm_get_account(svm, k) {
        Some(a) => is_program_at(k, &a),
        None => false,
    }
}

/// The price of the account at this address is a number that the machine can hold.
pub open spec fn account_fits(svm: LiteSVM, k: Pubkey) -> bool {
    match account_at(svm, k) {
        Some(a) => price_fits(svm, a.data.len()),
        None => true,
    }
}

fn is_account_fitting(svm: &LiteSVM, known: &Option<u64>, held: &Option<u64>, k: &Pubkey) -> (r: bool)
    requires
        *known == svm_rent(*svm),
        *held == held_rent(*svm),
    ensures
        r == account_fits(*svm, *k),
{
    match svm_get_account(svm, k) {
        Some(a) => has_fitting_price(known, held, a.data.len() as u64),
        None => true,
    }
}

/// The program that an instruction calls has an account where it is in the cache, and so has its loader.
pub open spec fn program_ready(svm: LiteSVM, slots: Seq<Slot>, k: Pubkey) -> bool {
    present(svm, slots, k) && owner_present(svm, k)
}

/// The program at this address has a loader that is itself a program.
pub open spec fn has_loader(k: Pubkey, a: AccountView) -> bool {
    a.executable && k@ != native_loader_address() && a.owner@ != native_loader_address()
}

/// The loaders of the programs that some instructions call, each once.
pub open spec fn loaders(svm: LiteSVM, ixs: Seq<InstructionView>) -> Seq<Pubkey>
    decreases ixs.len(),
{
    if ixs.len() == 0 {
        Seq::empty()
    } else {
        let before = loaders(svm, ixs.drop_last());
        match account_at(svm, ixs.last().program_id) {
            Some(a) => if has_loader(ixs.last().program_id, a) { with_key(before, a.owner) } else { before },
            None => before,
        }
    }
}

fn list_loaders(svm: &LiteSVM, ixs: &[Instruction]) -> (r: Vec<Pubkey>)
    ensures
        r@ == loaders(*svm, ix_views(ixs@)),
{
    let ghost v = ix_views(ixs@);
    let mut r: Vec<Pubkey> = Vec::new();
    let mut i: usize = 0;
    assert(v.take(0) =~= Seq::<InstructionView>::empty());
    while i < ixs.len()
        invariant
            i <= ixs@.len(),
            v == ix_views(ixs@),
            r@ == loaders(*svm, v.take(i as int)),
        decreases ixs.len() - i,
    {
        assert(v.take(i + 1).drop_last() =~= v.take(i as int));
        assert(v.take(i + 1).last() == ixs@[i as int]@);
        match svm_get_account(svm, &ixs[i].program_id) {
            Some(a) => {
                let k = ixs[i].program_id;
                if a.executable && !k.same_as(&native_loader_id()) && !a.owner.same_as(&native_loader_id()) {
                    add_key(&mut r, a.owner);
                }
            },
            None => {},
        }
        i += 1;
    }
    assert(v.take(i as int) =~= v);
    r
}

/// The machine has what the instructions need: the programs and their loaders, prices that it can hold,
/// and room for programs and for all accounts. The runtime counts the accounts of a message and behind
/// them the loaders, 256 in all.
pub open spec fn machine_ready(svm: LiteSVM, ixs: Seq<InstructionView>, payer: Pubkey) -> bool {
    let slots = slots_of(ixs);
    &&& room_fits(svm, loaders(svm, ixs).len() > 0)
    &&& all_keys(ixs, slots, payer).len() + loaders(svm, ixs).len() <= 256
    &&& price_fits(svm, longest(ixs, payer) as nat)
    &&& present(svm, slots, payer) && account_fits(svm, payer)
    &&& forall|i: int| 0 <= i < ixs.len() ==> program_ready(svm, slots, (#[trigger] ixs[i]).program_id)
    &&& forall|i: int| 0 <= i < slots.len() ==> account_fits(svm, (#[trigger] slots[i]).meta.pubkey)
}

/// Whether the machine has what the instructions need.
pub fn is_machine_ready(svm: &LiteSVM, ixs: &[Instruction], payer: &Pubkey) -> (r: bool)
    ensures
        r == machine_ready(*svm, ix_views(ixs@), *payer),
{
    let ghost v = ix_views(ixs@);
    let slots = list_slots(ixs);
    let known = svm_rent_rate(svm);
    let held = read_rent(svm);
    let keys: usize = list_all_keys(ixs, &slots, payer).len();
    let more: usize = list_loaders(svm, ixs).len();
    if !has_room(svm, more > 0) || keys > 256 || more > 256 - keys {
        return false;
    }
    let most: u64 = find_longest(ixs, &slots, payer);
    if !has_fitting_price(&known, &held, most) || !is_present(svm, &slots, payer) || !is_account_fitting(
        svm,
        &known,
        &held,
        payer,
    ) {
        return false;
    }
    let mut i: usize = 0;
    while i < ixs.len()
        invariant
            i <= ixs@.len(),
            v == ix_views(ixs@),
            slots@ == slots_of(v),
            forall|j: int| 0 <= j < i ==> program_ready(*svm, slots@, (#[trigger] v[j]).program_id),
        decreases ixs.len() - i,
    {
        assert(v[i as int] == ixs@[i as int]@);
        if !is_present(svm, &slots, &ixs[i].program_id) || !is_owner_present(svm, &ixs[i].program_id) {
            return false;
        }
        i += 1;
    }
    let mut i: usize = 0;
    while i < slots.len()
        invariant
            i <= slots@.len(),
            v == ix_views(ixs@),
            slots@ == slots_of(v),
            known == svm_rent(*svm),
            held == held_rent(*svm),
            forall|j: int| 0 <= j < i ==> account_fits(*svm, (#[trigger] slots@[j]).meta.pubkey),
        decreases slots.len() - i,
    {
        if !is_account_fitting(svm, &known, &held, &slots[i].meta.pubkey) {
            assert(!account_fits(*svm, slots@[i as int].meta.pubkey));
            return false;
        }
        i += 1;
    }
    true
}

/// How many accounts of a message can stand for programs that it calls: as many as a packet has room for.
pub const PROGRAM_ROOM: usize = 38;

/// The program stands among the first accounts of a message.
pub open spec fn stands_early(keys: Seq<Pubkey>, k: Pubkey) -> bool {
    exists|j: int| 0 <= j < keys.len() && j < PROGRAM_ROOM && #[trigger] keys[j] == k
}

/// All programs that the instructions call stand among the first accounts of their message.
pub open spec fn programs_early(ixs: Seq<InstructionView>, keys: Seq<Pubkey>) -> bool {
    forall|i: int| 0 <= i < ixs.len() ==> stands_early(keys, (#[trigger] ixs[i]).program_id)
}

/// Whether all programs that the instructions call stand among the first accounts of their message.
pub fn are_programs_early(ixs: &[Instruction], keys: &Vec<Pubkey>) -> (r: bool)
    ensures
        r == programs_early(ix_views(ixs@), keys@),
{
    let ghost v = ix_views(ixs@);
    let mut i: usize = 0;
    while i < ixs.len()
        invariant
            i <= ixs@.len(),
            v == ix_views(ixs@),
            forall|m: int| 0 <= m < i ==> stands_early(keys@, (#[trigger] v[m]).program_id),
        decreases ixs.len() - i,
    {
        assert(v[i as int] == ixs@[i as int]@);
        let k = ixs[i].program_id;
        let mut j: usize = 0;
        let mut found = false;
        while j < keys.len() && j < PROGRAM_ROOM && !found
            invariant
                j <= keys@.len(),
                j <= PROGRAM_ROOM,
                found ==> stands_early(keys@, k),
                !found ==> forall|m: int| 0 <= m < j ==> #[trigger] keys@[m] != k,
            decreases keys.len() - j,
        {
            if keys[j] == k {
                assert(keys@[j as int] == k);
                found = true;
            }
            j += 1;
        }
        if !found {
            assert(!stands_early(keys@, v[i as int].program_id));
            return false;
        }
        i += 1;
    }
    true
}

/// The instructions can come to a loader that changes programs.
pub open spec fn may_load(ixs: Seq<InstructionView>) -> bool {
    exists|k: Pubkey| (k@ == upgradeable_loader_address() || k@ == loader_v4_address()) && #[trigger] reaches(ixs, k)
}

/// The instructions call this program or hand it on.
pub open spec fn reaches(ixs: Seq<InstructionView>, k: Pubkey) -> bool {
    calls(ixs, k) || uses_key(slots_of(ixs), k)
}

fn find_longest(ixs: &[Instruction], slots: &Vec<Slot>, payer: &Pubkey) -> (r: u64)
    requires
        slots@ == slots_of(ix_views(ixs@)),
    ensures
        r == longest(ix_views(ixs@), *payer),
{
    let loader = loader_v4_id();
    let found = is_called(ixs, &loader) || is_used(slots, &loader);
    proof {
        let v = ix_views(ixs@);
        assert(found == reaches(v, loader));
        if exists|k: Pubkey| k@ == loader_v4_address() && #[trigger] reaches(v, k) {
            let k = choose|k: Pubkey| k@ == loader_v4_address() && #[trigger] reaches(v, k);
            crate::types::lemma_key_ext(k, loader);
        }
    }
    if found {
        return LONGEST_PROGRAM;
    }
    if can_load(ixs) {
        return LONGEST_ACCOUNT;
    }
    let mut i: usize = 0;
    while i < slots.len()
        invariant
            i <= slots@.len(),
            slots@ == slots_of(ix_views(ixs@)),
            !may_load(ix_views(ixs@)),
            forall|j: int| 0 <= j < i ==> !((#[trigger] slots@[j]).meta.is_writable || slots@[j].meta.pubkey == *payer),
        decreases slots.len() - i,
    {
        if slots[i].meta.is_writable || slots[i].meta.pubkey == *payer {
            proof {
                let v = ix_views(ixs@);
                assert(may_grow(v, *payer));
                assert forall|k: Pubkey| k@ == loader_v4_address() implies !(#[trigger] reaches(v, k)) by {
                    if reaches(v, k) {
                        assert(may_load(v));
                    }
                }
            }
            return LONGEST_ACCOUNT;
        }
        i += 1;
    }
    0
}

/// Whether the instructions can come to a loader that changes programs.
pub fn can_load(ixs: &[Instruction]) -> (r: bool)
    ensures
        r == may_load(ix_views(ixs@)),
{
    let ghost v = ix_views(ixs@);
    let slots = list_slots(ixs);
    let first = upgradeable_loader_id();
    let second = loader_v4_id();
    let r = is_called(ixs, &first) || is_used(&slots, &first) || is_called(ixs, &second) || is_used(&slots, &second);
    proof {
        assert(reaches(v, first) || reaches(v, second) <==> r);
        if may_load(v) {
            let k = choose|k: Pubkey|
                (k@ == upgradeable_loader_address() || k@ == loader_v4_address()) && #[trigger] reaches(v, k);
            if k@ == first@ {
                crate::types::lemma_key_ext(k, first);
            } else {
                crate::types::lemma_key_ext(k, second);
            }
        }
    }
    r
}

/// An account that a transaction leaves behind.
pub type Left = (Pubkey, AccountView);

/// Some accounts with their addresses, as values.
pub open spec fn left_views(v: Seq<(Pubkey, Account)>) -> Seq<Left> {
    Seq::new(v.len(), |i: int| (v[i].0, v[i].1@))
}

/// The account holds the code of an upgradeable program.
pub open spec fn holds_program_code(a: AccountView) -> bool {
    a.owner@ == upgradeable_loader_address() && a.data.len() > 0 && a.data[0] == 3
}

/// The instructions may write to a program.
pub open spec fn writes_program(svm: LiteSVM, ixs: Seq<InstructionView>, payer: Pubkey) -> bool {
    is_program(svm, payer) || exists|i: int|
        0 <= i < slots_of(ixs).len() && (#[trigger] slots_of(ixs)[i]).meta.is_writable && is_program(
            svm,
            slots_of(ixs)[i].meta.pubkey,
        )
}

/// The transaction may leave a program behind, so that it is to be tried first.
pub open spec fn needs_trial(svm: LiteSVM, ixs: Seq<InstructionView>, payer: Pubkey) -> bool {
    may_load(ixs) || writes_program(svm, ixs, payer)
}

/// Whether the transaction may leave a program behind.
pub fn is_trial_needed(svm: &LiteSVM, ixs: &[Instruction], payer: &Pubkey) -> (r: bool)
    ensures
        r == needs_trial(*svm, ix_views(ixs@), *payer),
{
    if can_load(ixs) || holds_program(svm, payer) {
        return true;
    }
    let slots = list_slots(ixs);
    let mut i: usize = 0;
    while i < slots.len()
        invariant
            i <= slots@.len(),
            slots@ == slots_of(ix_views(ixs@)),
            forall|j: int|
                0 <= j < i ==> !((#[trigger] slots@[j]).meta.is_writable && is_program(*svm, slots@[j].meta.pubkey)),
        decreases slots.len() - i,
    {
        if slots[i].meta.is_writable && holds_program(svm, &slots[i].meta.pubkey) {
            return true;
        }
        i += 1;
    }
    false
}

/// The last place before `hi`, and from `lo` on, whose account holds the code of a program; one before `lo`
/// where there is none.
pub open spec fn last_code(left: Seq<Left>, order: Seq<usize>, lo: int, hi: int) -> int
    decreases hi - lo,
{
    if hi <= lo {
        lo - 1
    } else if holds_program_code(left[order[hi - 1] as int].1) {
        hi - 1
    } else {
        last_code(left, order, lo, hi - 1)
    }
}

/// The places of accounts in the order in which the machine keeps them: the code of programs comes first.
/// From the front on, an account without code changes places with the last that has some.
pub open spec fn code_first(left: Seq<Left>, order: Seq<usize>, front: int, back: int) -> Seq<usize>
    decreases back - front,
{
    if front >= back {
        order
    } else if holds_program_code(left[order[front] as int].1) {
        code_first(left, order, front + 1, back)
    } else {
        let found = last_code(left, order, front + 1, back);
        if found <= front || found >= back {
            order
        } else {
            code_first(left, order.update(front, order[found]).update(found, order[front]), front + 1, found)
        }
    }
}

/// In which order the machine keeps some accounts.
pub open spec fn keeping_order(left: Seq<Left>) -> Seq<usize> {
    code_first(left, Seq::new(left.len(), |i: int| i as usize), 0, left.len() as int)
}

/// The machine with some accounts kept, in this order, and whether all were accepted.
pub open spec fn kept_in(svm: LiteSVM, left: Seq<Left>, order: Seq<usize>) -> (LiteSVM, bool)
    decreases order.len(),
{
    if order.len() == 0 {
        (svm, true)
    } else {
        let before = kept_in(svm, left, order.drop_last());
        let l = left[order.last() as int];
        let w = svm_with_account(before.0, l.0, l.1);
        (w.0, before.1 && w.1)
    }
}

/// The machine accepts all that a transaction leaves behind.
pub open spec fn keepable(svm: LiteSVM, left: Seq<Left>) -> bool {
    kept_in(svm, left, keeping_order(left)).1
}

fn has_code(a: &Account) -> (r: bool)
    ensures
        r == holds_program_code(a@),
{
    a.owner.same_as(&upgradeable_loader_id()) && a.data.len() > 0 && a.data[0] == 3
}

fn find_keeping_order(left: &Vec<(Pubkey, Account)>) -> (order: Vec<usize>)
    ensures
        order@ == keeping_order(left_views(left@)),
        order@.len() == left@.len(),
        forall|i: int| 0 <= i < order@.len() ==> #[trigger] order@[i] < left@.len(),
{
    let ghost v = left_views(left@);
    let mut order: Vec<usize> = Vec::new();
    let mut i: usize = 0;
    while i < left.len()
        invariant
            i <= left@.len(),
            order@ == Seq::new(i as nat, |j: int| j as usize),
        decreases left.len() - i,
    {
        order.push(i);
        assert(order@ =~= Seq::new((i + 1) as nat, |j: int| j as usize));
        i += 1;
    }
    let mut front: usize = 0;
    let mut back: usize = left.len();
    while front < back
        invariant
            front <= back <= left@.len(),
            v == left_views(left@),
            order@.len() == left@.len(),
            forall|j: int| 0 <= j < order@.len() ==> #[trigger] order@[j] < left@.len(),
            keeping_order(v) == code_first(v, order@, front as int, back as int),
        decreases back - front,
    {
        if !has_code(&left[order[front]].1) {
            let ghost was = order@;
            let mut found: usize = back - 1;
            while found > front && !has_code(&left[order[found]].1)
                invariant
                    front <= found < back <= left@.len(),
                    v == left_views(left@),
                    order@ == was,
                    order@.len() == left@.len(),
                    forall|j: int| 0 <= j < order@.len() ==> #[trigger] order@[j] < left@.len(),
                    last_code(v, was, front + 1, back as int) == last_code(v, was, front + 1, found + 1),
                decreases found,
            {
                found -= 1;
            }
            if found == front {
                assert(keeping_order(v) == was);
                return order;
            }
            let a: usize = order[front];
            let b: usize = order[found];
            order.set(front, b);
            order.set(found, a);
            assert(order@ =~= was.update(front as int, b).update(found as int, a));
            back = found;
        }
        front += 1;
    }
    order
}

/// Whether the machine accepts all that a transaction leaves behind.
pub fn can_keep(svm: &LiteSVM, left: &Vec<(Pubkey, Account)>) -> (r: bool)
    ensures
        r == keepable(*svm, left_views(left@)),
{
    let ghost v = left_views(left@);
    let order = find_keeping_order(left);
    let mut trial = svm_clone(svm);
    let mut ok = true;
    let mut i: usize = 0;
    while i < order.len()
        invariant
            i <= order@.len(),
            v == left_views(left@),
            forall|j: int| 0 <= j < order@.len() ==> #[trigger] order@[j] < left@.len(),
            (trial, ok) == kept_in(*svm, v, order@.take(i as int)),
        decreases order.len() - i,
    {
        assert(order@.take(i + 1).drop_last() =~= order@.take(i as int));
        let n: usize = order[i];
        assert(order@.take(i + 1).last() == n);
        assert(v[n as int] == (left@[n as int].0, left@[n as int].1@));
        let k = left[n].0;
        let accepted = svm_set_account(&mut trial, &k, left[n].1.copy());
        ok = ok && accepted;
        i += 1;
    }
    assert(order@.take(i as int) =~= order@);
    ok
}

} // verus!
