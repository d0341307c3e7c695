//! The sysvars that the machine keeps, as plain values.
use vstd::prelude::*;
use litesvm::LiteSVM;
use crate::ids::{
    clock_id, epoch_rewards_id, epoch_schedule_id, fees_id, last_restart_slot_id, rent_id, slot_history_id,
};
#[allow(unused_imports)]
use crate::ids::{
    clock_address, epoch_rewards_address, epoch_schedule_address, fees_address, last_restart_slot_address, rent_address,
    slot_history_address,
};
use crate::svm::svm_get_account;
#[allow(unused_imports)]
use crate::svm::account_at;
use crate::types::Pubkey;

verus! {

/// The history of slots.
#[verifier::external_type_specification]
#[verifier::external_body]
pub struct ExSlotHistory(solana_sysvar::slot_history::SlotHistory);

/// The clock.
#[derive(Clone, Copy, Debug, PartialEq, Eq, Structural)]
pub struct Clock {
    pub slot: u64,
    pub epoch_start_timestamp: i64,
    pub epoch: u64,
    pub leader_schedule_epoch: u64,
    pub unix_timestamp: i64,
}

/// The clock that these bytes hold.
pub uninterp spec fn clock_value(data: Seq<u8>) -> Option<Clock>;

/// `Account::deserialize_data` for `solana_clock::Clock`: the clock that these bytes hold.
#[verifier::external_body]
fn decode_clock(data: &[u8]) -> (r: Option<Clock>)
    ensures
        r == clock_value(data@),
{
    let a = solana_account::Account { data: data.to_vec(), ..Default::default() };
    let c = a.deserialize_data::<solana_clock::Clock>().ok()?;
    Some(Clock {
        slot: c.slot,
        epoch_start_timestamp: c.epoch_start_timestamp,
        epoch: c.epoch,
        leader_schedule_epoch: c.leader_schedule_epoch,
        unix_timestamp: c.unix_timestamp,
    })
}

/// The machine with another clock.
pub uninterp spec fn svm_with_clock(svm: LiteSVM, clock: Clock) -> LiteSVM;

/// `LiteSVM::set_sysvar` for `solana_clock::Clock`: sets the clock. Reading it back gives it; no other
/// account changes.
#[verifier::external_body]
pub(crate) fn svm_set_clock(svm: &mut LiteSVM, clock: &Clock)
    ensures
        *final(svm) == svm_with_clock(*old(svm), *clock),
        forall|k: Pubkey| k@ == clock_address() ==> #[trigger] account_at(*final(svm), k) is Some && clock_value(
            account_at(*final(svm), k)->0.data,
        ) == Some(*clock),
        forall|k: Pubkey| k@ != clock_address() ==> #[trigger] account_at(*final(svm), k) == account_at(*old(svm), k),
{
    svm.set_sysvar(&solana_clock::Clock {
        slot: clock.slot,
        epoch_start_timestamp: clock.epoch_start_timestamp,
        epoch: clock.epoch,
        leader_schedule_epoch: clock.leader_schedule_epoch,
        unix_timestamp: clock.unix_timestamp,
    });
}

/// The clock of a machine, where it can be read.
pub open spec fn svm_clock(svm: LiteSVM) -> Option<Clock> {
    match account_at(svm, crate::types::key_of(clock_address())) {
        Some(a) => clock_value(a.data),
        None => None,
    }
}

/// The address of the clock has its bytes.
pub(crate) proof fn lemma_clock_key()
    ensures
        crate::types::key_of(clock_address())@ == clock_address(),
{
    reveal(clock_address);
    let b = clock_address();
    let k = Pubkey { bytes: [b[0], b[1], b[2], b[3], b[4], b[5], b[6], b[7], b[8], b[9], b[10], b[11], b[12], b[13], b[14], b[15], b[16], b[17], b[18], b[19], b[20], b[21], b[22], b[23], b[24], b[25], b[26], b[27], b[28], b[29], b[30], b[31]] };
    assert(k@ =~= b);
}

/// The clock of a machine, where it can be read.
pub fn read_clock(svm: &LiteSVM) -> (r: Option<Clock>)
    ensures
        r == svm_clock(*svm),
{
    let k = clock_id();
    proof {
        crate::types::lemma_key_of(k);
    }
    match svm_get_account(svm, &k) {
        Some(a) => decode_clock(a.data.as_slice()),
        None => None,
    }
}

/// The block height at which the distribution of rewards starts, and whether it is under way, in these
/// bytes.
pub uninterp spec fn epoch_rewards_value(data: Seq<u8>) -> Option<(u64, bool)>;

/// `Account::deserialize_data` for `EpochRewards`: its starting block height, and whether it is active.
#[verifier::external_body]
fn decode_epoch_rewards(data: &[u8]) -> (r: Option<(u64, bool)>)
    ensures
        r == epoch_rewards_value(data@),
{
    let a = solana_account::Account { data: data.to_vec(), ..Default::default() };
    let v = a.deserialize_data::<solana_sysvar::epoch_rewards::EpochRewards>().ok()?;
    Some((v.distribution_starting_block_height, v.active))
}

/// The machine with epoch rewards that are those of `data` but for these two values.
pub uninterp spec fn svm_with_epoch_rewards(svm: LiteSVM, data: Seq<u8>, height: u64, active: bool) -> LiteSVM;

/// `LiteSVM::set_sysvar` for the `EpochRewards` in `data` with two fields replaced.
#[verifier::external_body]
fn svm_set_epoch_rewards(svm: &mut LiteSVM, data: &[u8], height: u64, active: bool)
    requires
        epoch_rewards_value(data@) is Some,
    ensures
        *final(svm) == svm_with_epoch_rewards(*old(svm), data@, height, active),
{
    let a = solana_account::Account { data: data.to_vec(), ..Default::default() };
    let mut v = a.deserialize_data::<solana_sysvar::epoch_rewards::EpochRewards>().unwrap();
    v.distribution_starting_block_height = height;
    v.active = active;
    svm.set_sysvar(&v);
}

/// The machine with epochs that do not grow.
pub uninterp spec fn svm_without_warmup(svm: LiteSVM) -> LiteSVM;

/// `LiteSVM::set_sysvar` for `EpochSchedule::without_warmup`.
#[verifier::external_body]
fn svm_set_without_warmup(svm: &mut LiteSVM)
    ensures
        *final(svm) == svm_without_warmup(*old(svm)),
{
    svm.set_sysvar(&solana_sysvar::epoch_schedule::EpochSchedule::without_warmup());
}

/// The lamports that a signature costs, in these bytes.
pub uninterp spec fn fee_value(data: Seq<u8>) -> Option<u64>;

/// `Account::deserialize_data` for `Fees`: the lamports that a signature costs.
#[allow(deprecated)]
#[verifier::external_body]
fn decode_fees(data: &[u8]) -> (r: Option<u64>)
    ensures
        r == fee_value(data@),
{
    let a = solana_account::Account { data: data.to_vec(), ..Default::default() };
    Some(a.deserialize_data::<solana_sysvar::fees::Fees>().ok()?.fee_calculator.lamports_per_signature)
}

/// The machine with another price of a signature, in the fees of `data`.
pub uninterp spec fn svm_with_fee(svm: LiteSVM, data: Seq<u8>, lamports: u64) -> LiteSVM;

/// `LiteSVM::set_sysvar` for the `Fees` in `data` with another price of a signature.
#[allow(deprecated)]
#[verifier::external_body]
fn svm_set_fee(svm: &mut LiteSVM, data: &[u8], lamports: u64)
    requires
        fee_value(data@) is Some,
    ensures
        *final(svm) == svm_with_fee(*old(svm), data@, lamports),
{
    let a = solana_account::Account { data: data.to_vec(), ..Default::default() };
    let mut v = a.deserialize_data::<solana_sysvar::fees::Fees>().unwrap();
    v.fee_calculator.lamports_per_signature = lamports;
    svm.set_sysvar(&v);
}

/// The slot of the last restart, in these bytes.
pub uninterp spec fn restart_value(data: Seq<u8>) -> Option<u64>;

/// `Account::deserialize_data` for `LastRestartSlot`.
#[verifier::external_body]
fn decode_last_restart_slot(data: &[u8]) -> (r: Option<u64>)
    ensures
        r == restart_value(data@),
{
    let a = solana_account::Account { data: data.to_vec(), ..Default::default() };
    Some(a.deserialize_data::<solana_sysvar::last_restart_slot::LastRestartSlot>().ok()?.last_restart_slot)
}

/// The machine with another slot of the last restart.
pub uninterp spec fn svm_with_restart(svm: LiteSVM, slot: u64) -> LiteSVM;

/// `LiteSVM::set_sysvar` for `LastRestartSlot`.
#[verifier::external_body]
fn svm_set_last_restart_slot(svm: &mut LiteSVM, slot: u64)
    ensures
        *final(svm) == svm_with_restart(*old(svm), slot),
{
    svm.set_sysvar(&solana_sysvar::last_restart_slot::LastRestartSlot { last_restart_slot: slot });
}

/// The price of a byte for a year, in these bytes.
pub uninterp spec fn rent_value(data: Seq<u8>) -> Option<u64>;

/// `Account::deserialize_data` for `Rent`: the price of a byte for a year.
#[allow(deprecated)]
#[verifier::external_body]
fn decode_rent(data: &[u8]) -> (r: Option<u64>)
    ensures
        r == rent_value(data@),
{
    let a = solana_account::Account { data: data.to_vec(), ..Default::default() };
    Some(a.deserialize_data::<solana_sysvar::rent::Rent>().ok()?.lamports_per_byte_year)
}

/// The price of a byte for a year that the machine holds, where it can be read.
pub open spec fn held_rent(svm: LiteSVM) -> Option<u64> {
    match account_at(svm, crate::types::key_of(rent_address())) {
        Some(a) => rent_value(a.data),
        None => None,
    }
}

/// The price of a byte for a year that the machine holds, where it can be read.
pub(crate) fn read_rent(svm: &LiteSVM) -> (r: Option<u64>)
    ensures
        r == held_rent(*svm),
{
    let k = rent_id();
    proof {
        crate::types::lemma_key_of(k);
    }
    match svm_get_account(svm, &k) {
        Some(a) => decode_rent(a.data.as_slice()),
        None => None,
    }
}

/// The machine with another price of a byte, in the rent of `data`.
pub uninterp spec fn svm_with_rent(svm: LiteSVM, data: Seq<u8>, rate: u64) -> LiteSVM;

/// `LiteSVM::set_sysvar` for the `Rent` in `data` with another price of a byte.
#[allow(deprecated)]
#[verifier::external_body]
fn svm_set_rent(svm: &mut LiteSVM, data: &[u8], rate: u64)
    requires
        rent_value(data@) is Some,
    ensures
        *final(svm) == svm_with_rent(*old(svm), data@, rate),
{
    let a = solana_account::Account { data: data.to_vec(), ..Default::default() };
    let mut v = a.deserialize_data::<solana_sysvar::rent::Rent>().unwrap();
    v.lamports_per_byte_year = rate;
    svm.set_sysvar(&v);
}

/// The history of slots in these bytes.
pub uninterp spec fn slot_history_value(data: Seq<u8>) -> Option<solana_sysvar::slot_history::SlotHistory>;

/// `Account::deserialize_data` for `SlotHistory`.
#[verifier::external_body]
fn decode_slot_history(data: &[u8]) -> (r: Option<solana_sysvar::slot_history::SlotHistory>)
    ensures
        r == slot_history_value(data@),
{
    let a = solana_account::Account { data: data.to_vec(), ..Default::default() };
    a.deserialize_data::<solana_sysvar::slot_history::SlotHistory>().ok()
}

/// The slot that comes next in a history, how many slots it holds, and for how many it has room.
pub uninterp spec fn history_size(history: solana_sysvar::slot_history::SlotHistory) -> (u64, u64, u64);

/// The field `next_slot` of a `SlotHistory`, and the length and the capacity of its `bits`.
#[verifier::external_body]
fn read_history_size(history: &solana_sysvar::slot_history::SlotHistory) -> (r: (u64, u64, u64))
    ensures
        r == history_size(*history),
{
    (history.next_slot, history.bits.len(), history.bits.capacity())
}

/// The machine with a history and one more slot in it.
pub uninterp spec fn svm_with_slot(svm: LiteSVM, history: solana_sysvar::slot_history::SlotHistory, slot: u64) -> LiteSVM;

/// How many slots a history keeps.
pub const SLOT_HISTORY_ENTRIES: u64 = 1048576;

/// `SlotHistory::add` and `LiteSVM::set_sysvar`: notes a slot in a history. That panics at the last slot
/// of all, and where the history does not have the size that it was made with.
#[verifier::external_body]
fn svm_add_slot(svm: &mut LiteSVM, history: solana_sysvar::slot_history::SlotHistory, slot: u64)
    requires
        slot < u64::MAX,
        history_size(history).1 == SLOT_HISTORY_ENTRIES,
        history_size(history).2 == SLOT_HISTORY_ENTRIES,
    ensures
        *final(svm) == svm_with_slot(*old(svm), history, slot),
{
    let mut h = history;
    h.add(slot);
    svm.set_sysvar(&h);
}

/// The data at an address.
pub open spec fn data_at(svm: LiteSVM, k: Pubkey) -> Option<Seq<u8>> {
    match account_at(svm, k) {
        Some(a) => Some(a.data),
        None => None,
    }
}

/// The clock one slot and one second later.
pub open spec fn shifted(c: Clock) -> Clock {
    Clock { slot: c.slot.wrapping_add(1), unix_timestamp: c.unix_timestamp.wrapping_add(1), ..c }
}

/// The history with a slot left out and the next one noted, on the machine.
pub open spec fn history_poisoned(svm: LiteSVM, history: solana_sysvar::slot_history::SlotHistory) -> Option<LiteSVM> {
    let z = history_size(history);
    if z.0.wrapping_add(1) < u64::MAX && z.1 == SLOT_HISTORY_ENTRIES && z.2 == SLOT_HISTORY_ENTRIES {
        Some(svm_with_slot(svm, history, z.0.wrapping_add(1)))
    } else {
        None
    }
}

/// The machine with another value in the sysvar at `target`, where that is one that can be changed and
/// holds what it should.
pub open spec fn poisoned(svm: LiteSVM, target: Pubkey) -> Option<LiteSVM> {
    let data = data_at(svm, target);
    if target@ == epoch_schedule_address() {
        Some(svm_without_warmup(svm))
    } else {
        match data {
            None => None,
            Some(d) => if target@ == clock_address() {
                match clock_value(d) {
                    Some(c) => Some(svm_with_clock(svm, shifted(c))),
                    None => None,
                }
            } else if target@ == epoch_rewards_address() {
                match epoch_rewards_value(d) {
                    Some(v) => Some(svm_with_epoch_rewards(svm, d, v.0.wrapping_add(1), !v.1)),
                    None => None,
                }
            } else if target@ == fees_address() {
                match fee_value(d) {
                    Some(v) => Some(svm_with_fee(svm, d, v.wrapping_add(1))),
                    None => None,
                }
            } else if target@ == last_restart_slot_address() {
                match restart_value(d) {
                    Some(v) => Some(svm_with_restart(svm, v.wrapping_add(1))),
                    None => None,
                }
            } else if target@ == rent_address() {
                match rent_value(d) {
                    Some(v) => Some(svm_with_rent(svm, d, v.wrapping_add(1))),
                    None => None,
                }
            } else if target@ == slot_history_address() {
                match slot_history_value(d) {
                    Some(h) => history_poisoned(svm, h),
                    None => None,
                }
            } else {
                None
            },
        }
    }
}

fn poison_clock(svm: &mut LiteSVM, data: &[u8]) -> (r: bool)
    ensures
        match clock_value(data@) {
            Some(c) => r && *final(svm) == svm_with_clock(*old(svm), shifted(c)),
            None => !r && *final(svm) == *old(svm),
        },
{
    match decode_clock(data) {
        Some(c) => {
            let mut next = c;
            next.slot = c.slot.wrapping_add(1);
            next.unix_timestamp = c.unix_timestamp.wrapping_add(1);
            svm_set_clock(svm, &next);
            true
        },
        None => false,
    }
}

fn poison_slot_history(svm: &mut LiteSVM, data: &[u8]) -> (r: bool)
    ensures
        match slot_history_value(data@) {
            Some(h) => match history_poisoned(*old(svm), h) {
                Some(after) => r && *final(svm) == after,
                None => !r && *final(svm) == *old(svm),
            },
            None => !r && *final(svm) == *old(svm),
        },
{
    match decode_slot_history(data) {
        Some(h) => {
            let size = read_history_size(&h);
            let slot: u64 = size.0.wrapping_add(1);
            if slot < u64::MAX && size.1 == SLOT_HISTORY_ENTRIES && size.2 == SLOT_HISTORY_ENTRIES {
                svm_add_slot(svm, h, slot);
                true
            } else {
                false
            }
        },
        None => false,
    }
}

fn poison_epoch_rewards(svm: &mut LiteSVM, data: &[u8]) -> (r: bool)
    ensures
        match epoch_rewards_value(data@) {
            Some(v) => r && *final(svm) == svm_with_epoch_rewards(*old(svm), data@, v.0.wrapping_add(1), !v.1),
            None => !r && *final(svm) == *old(svm),
        },
{
    match decode_epoch_rewards(data) {
        Some(v) => {
            svm_set_epoch_rewards(svm, data, v.0.wrapping_add(1), !v.1);
            true
        },
        None => false,
    }
}

/// Puts another value into the sysvar at `target`, and says whether it did. The machine stays as it
/// is where the sysvar is not one that is changed here, or does not hold what it should.
pub fn poison_canonical_sysvar(svm: &mut LiteSVM, target: &Pubkey) -> (r: bool)
    ensures
        match poisoned(*old(svm), *target) {
            Some(after) => r && *final(svm) == after,
            None => !r && *final(svm) == *old(svm),
        },
{
    if target.same_as(&epoch_schedule_id()) {
        svm_set_without_warmup(svm);
        return true;
    }
    let account = match svm_get_account(svm, target) {
        Some(a) => a,
        None => {
            return false;
        },
    };
    let data = account.data.as_slice();
    if target.same_as(&clock_id()) {
        return poison_clock(svm, data);
    }
    if target.same_as(&epoch_rewards_id()) {
        return poison_epoch_rewards(svm, data);
    }
    if target.same_as(&fees_id()) {
        return match decode_fees(data) {
            Some(v) => {
                svm_set_fee(svm, data, v.wrapping_add(1));
                true
            },
            None => false,
        };
    }
    if target.same_as(&last_restart_slot_id()) {
        return match decode_last_restart_slot(data) {
            Some(v) => {
                svm_set_last_restart_slot(svm, v.wrapping_add(1));
                true
            },
            None => false,
        };
    }
    if target.same_as(&rent_id()) {
        return match decode_rent(data) {
            Some(v) => {
                svm_set_rent(svm, data, v.wrapping_add(1));
                true
            },
            None => false,
        };
    }
    if target.same_as(&slot_history_id()) {
        return poison_slot_history(svm, data);
    }
    false
}

} // verus!
