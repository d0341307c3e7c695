//! The virtual machine that transactions run on.
//!
//! A `LiteSVM` is an opaque value. What it holds at each address is given by [`svm_accounts`]; what
//! an operation makes of it is given a name, as a function of the machine and the arguments.
use vstd::prelude::*;
use litesvm::LiteSVM;
use litesvm::types::TransactionMetadata;
use solana_message::legacy::Message;
use solana_transaction::versioned::VersionedTransaction;
use crate::ids::native_loader_id;
#[allow(unused_imports)]
use crate::ids::native_loader_address;
use crate::keys::Keypair;
use crate::session::SendTimers;
use crate::ready::{are_programs_early, can_keep, is_machine_ready, is_trial_needed, svm_rent_rate};
#[allow(unused_imports)]
use crate::ready::{
    calls, keepable, left_views, machine_ready, needs_trial, programs_early, svm_rent, uses_key, Left,
};
use crate::sysvars::read_rent;
#[allow(unused_imports)]
use crate::sysvars::held_rent;
use crate::types::{add_key, list_slots, Account, Instruction, Pubkey, Slot};
#[allow(unused_imports)]
use crate::types::{ix_views, opt_account, slots_of, with_key, zero_key, AccountMeta, AccountView, InstructionView};

verus! {

/// The virtual machine.
#[verifier::external_type_specification]
#[verifier::external_body]
pub struct ExLiteSvm(litesvm::LiteSVM);

/// A compiled message.
#[verifier::external_type_specification]
#[verifier::external_body]
pub struct ExMessage(solana_message::legacy::Message);

/// A message with signatures.
#[verifier::external_type_specification]
#[verifier::external_body]
pub struct ExVersionedTransaction(solana_transaction::versioned::VersionedTransaction);

/// What the machine records of a transaction.
#[verifier::external_type_specification]
#[verifier::external_body]
pub struct ExTransactionMetadata(litesvm::types::TransactionMetadata);

/// Why a transaction failed.
#[verifier::external_type_specification]
#[verifier::external_body]
pub struct ExTransactionError(solana_transaction_error::TransactionError);

/// What the machine holds at each address.
pub uninterp spec fn svm_accounts(svm: LiteSVM) -> Map<Pubkey, AccountView>;

/// What a machine holds at an address.
pub open spec fn account_at(svm: LiteSVM, key: Pubkey) -> Option<AccountView> {
    if svm_accounts(svm).contains_key(key) { Some(svm_accounts(svm)[key]) } else { None }
}

/// `LiteSVM::get_account`: what the machine holds at an address.
#[verifier::external_body]
pub(crate) fn svm_get_account(svm: &LiteSVM, key: &Pubkey) -> (r: Option<Account>)
    ensures
        opt_account(r) == account_at(*svm, *key),
{
    svm.get_account(&key.bytes.into()).map(|a| Account {
        lamports: a.lamports,
        data: a.data,
        owner: Pubkey { bytes: a.owner.to_bytes() },
        executable: a.executable,
        rent_epoch: a.rent_epoch,
    })
}

/// The machine knows a clock.
pub uninterp spec fn svm_knows_clock(svm: LiteSVM) -> bool;

/// `SysvarCache::get_clock`, on the cache of the machine: whether the machine knows a clock.
#[verifier::external_body]
pub(crate) fn svm_has_clock(svm: &LiteSVM) -> (r: bool)
    ensures
        r == svm_knows_clock(*svm),
{
    svm.accounts_db().sysvar_cache.get_clock().is_ok()
}

/// Writing the account makes the machine load a program.
pub open spec fn loads_program(key: Pubkey, account: AccountView) -> bool {
    account.executable && key@ != zero_key() && account.owner@ != native_loader_address()
}

/// What `LiteSVM::set_account` makes of a machine, and whether it accepts the account.
pub uninterp spec fn litesvm_with_account(svm: LiteSVM, key: Pubkey, account: AccountView) -> (LiteSVM, bool);

/// The machine after an account was written, and whether that was accepted: a program is not where the
/// machine knows no clock.
pub open spec fn svm_with_account(svm: LiteSVM, key: Pubkey, account: AccountView) -> (LiteSVM, bool) {
    if loads_program(key, account) && !svm_knows_clock(svm) { (svm, false) } else { litesvm_with_account(svm, key, account) }
}

/// The accounts after `account` was written to `key`: an account without lamports is removed.
pub open spec fn accounts_with(
    accounts: Map<Pubkey, AccountView>,
    key: Pubkey,
    account: AccountView,
) -> Map<Pubkey, AccountView> {
    if account.lamports == 0 { accounts.remove(key) } else { accounts.insert(key, account) }
}

/// The writing was accepted as a sysvar is: the clock where its bytes hold one.
pub open spec fn clock_accepted(key: Pubkey, account: AccountView, ok: bool) -> bool {
    key@ == crate::ids::clock_address() && !account.executable ==> ok == (crate::sysvars::clock_value(account.data) is Some)
}

/// Where the account is a sysvar, its bytes hold what it should. Of four sysvars that is left unsaid.
pub open spec fn sysvar_holds(key: Pubkey, data: Seq<u8>) -> bool {
    &&& key@ == crate::ids::clock_address() ==> crate::sysvars::clock_value(data) is Some
    &&& key@ == crate::ids::rent_address() ==> crate::sysvars::rent_value(data) is Some
    &&& key@ == crate::ids::fees_address() ==> crate::sysvars::fee_value(data) is Some
    &&& key@ == crate::ids::epoch_rewards_address() ==> crate::sysvars::epoch_rewards_value(data) is Some
    &&& key@ == crate::ids::last_restart_slot_address() ==> crate::sysvars::restart_value(data) is Some
    &&& key@ != crate::ids::epoch_schedule_address() && key@ != crate::ids::slot_hashes_address()
    &&& key@ != crate::ids::stake_history_address() && key@ != crate::ids::recent_blockhashes_address()
}

/// The machine accepts the account, whatever else it holds: it is no program, and where it is a sysvar, its
/// bytes hold what it should.
pub open spec fn surely_accepted(key: Pubkey, account: AccountView) -> bool {
    !account.executable && sysvar_holds(key, account.data)
}

/// `LiteSVM::set_account`: writes an account. Accepted, it replaces what was there, and an account
/// without lamports is removed; refused, no account changes. An account that is no program is accepted,
/// a sysvar where its bytes hold what it should; when a program is refused, and one of four sysvars, is
/// left unsaid. A program panics where the machine knows no clock.
#[verifier::external_body]
fn litesvm_set_account(svm: &mut LiteSVM, key: &Pubkey, account: Account) -> (ok: bool)
    requires
        loads_program(*key, account@) ==> svm_knows_clock(*old(svm)),
    ensures
        (*final(svm), ok) == litesvm_with_account(*old(svm), *key, account@),
        ok ==> svm_accounts(*final(svm)) == accounts_with(svm_accounts(*old(svm)), *key, account@),
        !ok ==> svm_accounts(*final(svm)) == svm_accounts(*old(svm)),
        surely_accepted(*key, account@) ==> ok,
        clock_accepted(*key, account@, ok),
{
    svm.set_account(key.bytes.into(), solana_account::Account {
        lamports: account.lamports,
        data: account.data,
        owner: account.owner.bytes.into(),
        executable: account.executable,
        rent_epoch: account.rent_epoch,
    }).is_ok()
}

/// Writes an account, and says whether it was accepted. Accepted, it replaces what was there, and an
/// account without lamports is removed; refused, no account changes.
pub(crate) fn svm_set_account(svm: &mut LiteSVM, key: &Pubkey, account: Account) -> (ok: bool)
    ensures
        (*final(svm), ok) == svm_with_account(*old(svm), *key, account@),
        ok ==> svm_accounts(*final(svm)) == accounts_with(svm_accounts(*old(svm)), *key, account@),
        !ok ==> svm_accounts(*final(svm)) == svm_accounts(*old(svm)),
        surely_accepted(*key, account@) ==> ok,
        clock_accepted(*key, account@, ok),
{
    if account.executable && !key.same_as(&Pubkey::default()) && !account.owner.same_as(&native_loader_id())
        && !svm_has_clock(svm) {
        return false;
    }
    litesvm_set_account(svm, key, account)
}

/// The list holds each account of the machine once, in any order.
pub open spec fn lists_accounts(svm: LiteSVM, v: Seq<(Pubkey, Account)>) -> bool {
    &&& forall|a: int, b: int| 0 <= a < b < v.len() ==> (#[trigger] v[a]).0 != (#[trigger] v[b]).0
    &&& forall|i: int| 0 <= i < v.len() ==> account_at(svm, (#[trigger] v[i]).0) == Some(v[i].1@)
    &&& forall|k: Pubkey| #[trigger] account_at(svm, k) is Some ==> exists|i: int| 0 <= i < v.len() && (#[trigger] v[i]).0 == k
}

/// The map `LiteSVM::accounts_db().inner`: all accounts of the machine. In which order they come is
/// left unsaid.
#[verifier::external_body]
pub(crate) fn svm_list_accounts(svm: &LiteSVM) -> (r: Vec<(Pubkey, Account)>)
    ensures
        lists_accounts(*svm, r@),
{
    svm.accounts_db().inner.iter().map(|(k, a)| (Pubkey { bytes: k.to_bytes() }, solana_account::Account::from(a.clone())))
        .map(|(k, a)| (k, Account {
            lamports: a.lamports,
            data: a.data,
            owner: Pubkey { bytes: a.owner.to_bytes() },
            executable: a.executable,
            rent_epoch: a.rent_epoch,
        }))
        .collect()
}

/// `LiteSVM::clone`: a machine that behaves as the first one does. An inspection callback is shared
/// between the two; it only observes.
#[verifier::external_body]
pub(crate) fn svm_clone(svm: &LiteSVM) -> (r: LiteSVM)
    ensures
        r == *svm,
{
    svm.clone()
}

/// The blockhash that the machine accepts.
pub uninterp spec fn svm_blockhash(svm: LiteSVM) -> Seq<u8>;

/// `LiteSVM::latest_blockhash`.
#[verifier::external_body]
fn svm_latest_blockhash(svm: &LiteSVM) -> (h: [u8; 32])
    ensures
        h@ == svm_blockhash(*svm),
{
    svm.latest_blockhash().to_bytes()
}

/// The machine with a new blockhash.
pub uninterp spec fn svm_expired(svm: LiteSVM) -> LiteSVM;

/// `LiteSVM::expire_blockhash`: takes a new blockhash, made from the last one, and notes it in the
/// sysvar of recent blockhashes. No other account changes.
#[verifier::external_body]
fn svm_expire_blockhash(svm: &mut LiteSVM)
    ensures
        *final(svm) == svm_expired(*old(svm)),
        forall|k: Pubkey| k@ != crate::ids::recent_blockhashes_address() ==> #[trigger] account_at(*final(svm), k)
            == account_at(*old(svm), k),
{
    svm.expire_blockhash();
}

/// The keys that sign: the payer, and every account that some instruction marks as a signer.
pub open spec fn signing_keys(slots: Seq<Slot>, payer: Pubkey) -> Seq<Pubkey>
    decreases slots.len(),
{
    if slots.len() == 0 {
        seq![payer]
    } else {
        let before = signing_keys(slots.drop_last(), payer);
        if slots.last().meta.is_signer { with_key(before, slots.last().meta.pubkey) } else { before }
    }
}

/// The key signs or is written to.
pub open spec fn privileged(slots: Seq<Slot>, payer: Pubkey, k: Pubkey) -> bool {
    k == payer || exists|i: int| 0 <= i < slots.len() && (#[trigger] slots[i]).meta.pubkey == k && (slots[i].meta.is_signer
        || slots[i].meta.is_writable)
}

/// The accounts that are only read, in the order in which the instructions name them.
pub open spec fn read_keys(slots: Seq<Slot>, all: Seq<Slot>, payer: Pubkey) -> Seq<Pubkey>
    decreases slots.len(),
{
    if slots.len() == 0 {
        Seq::empty()
    } else {
        let before = read_keys(slots.drop_last(), all, payer);
        if privileged(all, payer, slots.last().meta.pubkey) { before } else { with_key(before, slots.last().meta.pubkey) }
    }
}

/// The programs that are called and otherwise neither sign nor are written to, behind the accounts
/// that are only read.
pub open spec fn read_only_keys(ixs: Seq<InstructionView>, all: Seq<Slot>, payer: Pubkey) -> Seq<Pubkey>
    decreases ixs.len(),
{
    if ixs.len() == 0 {
        read_keys(all, all, payer)
    } else {
        let before = read_only_keys(ixs.drop_last(), all, payer);
        if privileged(all, payer, ixs.last().program_id) { before } else { with_key(before, ixs.last().program_id) }
    }
}

/// The payer and the accounts that the instructions name, each once.
pub open spec fn named_keys(slots: Seq<Slot>, payer: Pubkey) -> Seq<Pubkey>
    decreases slots.len(),
{
    if slots.len() == 0 {
        seq![payer]
    } else {
        with_key(named_keys(slots.drop_last(), payer), slots.last().meta.pubkey)
    }
}

/// All accounts of a message, each once: the payer, the accounts that the instructions name, and the
/// programs that they call.
pub open spec fn all_keys(ixs: Seq<InstructionView>, slots: Seq<Slot>, payer: Pubkey) -> Seq<Pubkey>
    decreases ixs.len(),
{
    if ixs.len() == 0 {
        named_keys(slots, payer)
    } else {
        with_key(all_keys(ixs.drop_last(), slots, payer), ixs.last().program_id)
    }
}

/// A message counts the accounts and the data of an instruction in two bytes each.
pub open spec fn instruction_fits(ix: InstructionView) -> bool {
    ix.accounts.len() <= 65535 && ix.data.len() <= 65535
}

/// A message counts its signers and its read-only accounts in one byte each, names an account by one byte,
/// and counts its instructions, and what each of them holds, in two.
pub open spec fn message_fits(ixs: Seq<InstructionView>, payer: Pubkey) -> bool {
    &&& signing_keys(slots_of(ixs), payer).len() <= 255
    &&& read_only_keys(ixs, slots_of(ixs), payer).len() <= 255
    &&& all_keys(ixs, slots_of(ixs), payer).len() <= 256
    &&& ixs.len() <= 65535
    &&& forall|i: int| 0 <= i < ixs.len() ==> instruction_fits(#[trigger] ixs[i])
}

/// The message of some instructions.
pub uninterp spec fn legacy_message(ixs: Seq<InstructionView>, payer: Pubkey, blockhash: Seq<u8>) -> Message;

/// `Message::new_with_blockhash`: compiles the instructions into a message that `payer` pays for. It
/// panics where the signers or the read-only accounts are too many for the header.
#[verifier::external_body]
fn compile_message(ixs: &[Instruction], payer: &Pubkey, blockhash: &[u8; 32]) -> (m: Message)
    requires
        message_fits(ix_views(ixs@), *payer),
    ensures
        m == legacy_message(ix_views(ixs@), *payer, blockhash@),
{
    let ixs: Vec<_> = ixs.iter().map(|ix| solana_instruction::Instruction {
        program_id: ix.program_id.bytes.into(),
        accounts: ix.accounts.iter().map(|m| solana_instruction::AccountMeta {
            pubkey: m.pubkey.bytes.into(),
            is_signer: m.is_signer,
            is_writable: m.is_writable,
        }).collect(),
        data: ix.data.clone(),
    }).collect();
    Message::new_with_blockhash(&ixs, Some(&payer.bytes.into()), &(*blockhash).into())
}

/// The accounts of a message, in the order of their indexes.
pub uninterp spec fn message_keys(m: Message) -> Seq<Pubkey>;

/// The field `account_keys` of a message.
#[verifier::external_body]
fn read_message_keys(m: &Message) -> (r: Vec<Pubkey>)
    ensures
        r@ == message_keys(*m),
{
    m.account_keys.iter().map(|k| Pubkey { bytes: k.to_bytes() }).collect()
}

/// How many signatures a message asks for.
pub uninterp spec fn message_signers(m: Message) -> u8;

/// The field `num_required_signatures` in the header of a message.
#[verifier::external_body]
fn read_message_signers(m: &Message) -> (n: u8)
    ensures
        n == message_signers(*m),
{
    m.header.num_required_signatures
}

/// A message with some empty signatures.
pub uninterp spec fn blank_transaction(m: Message, count: usize) -> VersionedTransaction;

/// A `VersionedTransaction` of the message and as many times `Signature::default`. There is room for as
/// many as a message can ask for, not for any number.
#[verifier::external_body]
fn with_blank_signatures(m: Message, count: usize) -> (tx: VersionedTransaction)
    requires
        count <= u8::MAX,
    ensures
        tx == blank_transaction(m, count),
{
    VersionedTransaction {
        signatures: vec![solana_signature::Signature::default(); count],
        message: solana_message::VersionedMessage::Legacy(m),
    }
}

/// The message with an empty signature for each signer.
pub open spec fn unsigned_transaction(m: Message) -> VersionedTransaction {
    blank_transaction(m, message_signers(m) as usize)
}

/// The message with an empty signature for each signer that it asks for.
fn leave_unsigned(m: Message) -> (tx: VersionedTransaction)
    ensures
        tx == unsigned_transaction(m),
{
    let count: usize = read_message_signers(&m) as usize;
    with_blank_signatures(m, count)
}

/// The message signed with these secrets, or why it cannot be.
pub uninterp spec fn signed_transaction(m: Message, secrets: Seq<Seq<u8>>) -> Result<VersionedTransaction, Seq<char>>;

/// A signed transaction, as a value.
pub open spec fn signing_result(r: Result<VersionedTransaction, String>) -> Result<VersionedTransaction, Seq<char>> {
    match r {
        Ok(tx) => Ok(tx),
        Err(e) => Err(e@),
    }
}

/// The message is that of some instructions which fit into one.
pub open spec fn compiled(m: Message) -> bool {
    exists|ixs: Seq<InstructionView>, payer: Pubkey, blockhash: Seq<u8>|
        message_fits(ixs, payer) && m == #[trigger] legacy_message(ixs, payer, blockhash)
}

/// `VersionedTransaction::try_new`: signs a message. It fails where the signers are not exactly those
/// that the message asks for; the error comes as its text. It panics on a message that holds more than
/// can be counted in two bytes.
#[verifier::external_body]
fn sign_message(m: Message, signers: &Vec<Keypair>) -> (r: Result<VersionedTransaction, String>)
    requires
        compiled(m),
    ensures
        signing_result(r) == signed_transaction(m, crate::keys::secrets(signers@)),
{
    let pairs: Vec<_> = signers.iter().map(|k| solana_keypair::Keypair::new_from_array(k.secret)).collect();
    VersionedTransaction::try_new(solana_message::VersionedMessage::Legacy(m), &pairs.iter().collect::<Vec<_>>())
        .map_err(|e| e.to_string())
}

/// The machine has the rent that it needs to run a transaction.
pub open spec fn svm_runs(svm: LiteSVM) -> bool {
    svm_rent(svm) is Some && held_rent(svm) is Some
}

/// What is said of a machine that cannot run a transaction.
pub open spec fn no_rent_text() -> Seq<char> {
    "the machine has no rent sysvar"@
}

/// What is said of a machine that lacks something which a transaction needs, or could not keep what it
/// leaves behind.
pub open spec fn not_ready_text() -> Seq<char> {
    "the machine cannot take the transaction"@
}

/// The transaction is made of this message, with signatures or without.
pub open spec fn made_of(tx: VersionedTransaction, m: Message) -> bool {
    tx == unsigned_transaction(m) || exists|secrets: Seq<Seq<u8>>| #[trigger] signed_transaction(m, secrets) == Ok::<
        VersionedTransaction,
        Seq<char>,
    >(tx)
}

/// The transaction carries these instructions, and this account pays.
pub open spec fn carries(tx: VersionedTransaction, ixs: Seq<InstructionView>, payer: Pubkey) -> bool {
    exists|blockhash: Seq<u8>| made_of(tx, #[trigger] legacy_message(ixs, payer, blockhash))
}

/// Where a transaction succeeds on a copy of the machine, the accounts that it leaves behind.
pub uninterp spec fn svm_simulated(svm: LiteSVM, tx: VersionedTransaction) -> Option<Seq<Left>>;

/// The machine has what the instructions of this message need.
pub open spec fn message_ready(svm: LiteSVM, m: Message, ixs: Seq<InstructionView>, payer: Pubkey) -> bool {
    machine_ready(svm, ixs, payer) && programs_early(ixs, message_keys(m))
}

/// The transaction carries instructions that fit, and the machine has what they need.
pub open spec fn can_run(svm: LiteSVM, tx: VersionedTransaction) -> bool {
    svm_runs(svm) && exists|ixs: Seq<InstructionView>, payer: Pubkey, blockhash: Seq<u8>|
        made_of(tx, #[trigger] legacy_message(ixs, payer, blockhash)) && message_fits(ixs, payer) && message_ready(
            svm,
            legacy_message(ixs, payer, blockhash),
            ixs,
            payer,
        )
}

/// `LiteSVM::simulate_transaction`: runs a transaction and keeps nothing of it; where it succeeds, gives
/// the accounts that it would leave behind. It panics where sending does before anything is kept.
#[verifier::external_body]
fn svm_simulate(svm: &LiteSVM, tx: &VersionedTransaction) -> (r: Option<Vec<(Pubkey, Account)>>)
    requires
        can_run(*svm, *tx),
    ensures
        match r {
            Some(left) => svm_simulated(*svm, *tx) == Some(left_views(left@)),
            None => svm_simulated(*svm, *tx) is None,
        },
{
    let info = svm.simulate_transaction(tx.clone()).ok()?;
    Some(info.post_accounts.into_iter().map(|(k, a)| (k.to_bytes(), solana_account::Account::from(a)))
        .map(|(k, a)| (Pubkey { bytes: k }, Account {
            lamports: a.lamports,
            data: a.data,
            owner: Pubkey { bytes: a.owner.to_bytes() },
            executable: a.executable,
            rent_epoch: a.rent_epoch,
        })).collect())
}

/// The machine can take a transaction of this message: it has what the instructions need, and where they
/// may leave a program behind, it can keep what they leave.
pub open spec fn svm_takes(svm: LiteSVM, tx: VersionedTransaction, m: Message, ixs: Seq<InstructionView>, payer: Pubkey) -> bool {
    message_ready(svm, m, ixs, payer) && (needs_trial(svm, ixs, payer) ==> match svm_simulated(svm, tx) {
        Some(left) => keepable(svm, left),
        None => true,
    })
}

/// The transaction carries instructions that fit, and the machine can take it.
pub open spec fn can_send(svm: LiteSVM, tx: VersionedTransaction) -> bool {
    svm_runs(svm) && exists|ixs: Seq<InstructionView>, payer: Pubkey, blockhash: Seq<u8>|
        made_of(tx, #[trigger] legacy_message(ixs, payer, blockhash)) && message_fits(ixs, payer) && svm_takes(
            svm,
            tx,
            legacy_message(ixs, payer, blockhash),
            ixs,
            payer,
        )
}

/// Some instruction may write to this account.
pub open spec fn may_write(slots: Seq<Slot>, k: Pubkey) -> bool {
    exists|i: int| 0 <= i < slots.len() && (#[trigger] slots[i]).meta.is_writable && slots[i].meta.pubkey == k
}

/// The fee is taken from the payer: it is neither the instructions sysvar nor a program that is only
/// called. In place of such a payer the next account pays that is none of these.
pub open spec fn payer_pays(ixs: Seq<InstructionView>, payer: Pubkey) -> bool {
    payer@ != crate::ids::instructions_address() && (!calls(ixs, payer) || uses_key(slots_of(ixs), payer))
}

/// Of the accounts, only the payer and those that some instruction may write to changed; where the
/// transaction failed, only the payer.
pub open spec fn only_written(before: LiteSVM, after: LiteSVM, ixs: Seq<InstructionView>, payer: Pubkey, failed: bool) -> bool {
    payer_pays(ixs, payer) ==> forall|k: Pubkey|
        #![trigger account_at(after, k)]
        k != payer && (failed || !may_write(slots_of(ixs), k)) ==> account_at(after, k) == account_at(before, k)
}

/// The machine after a transaction, what it recorded of it, and why it failed where it did.
pub uninterp spec fn svm_sent(
    svm: LiteSVM,
    tx: VersionedTransaction,
) -> (LiteSVM, TransactionMetadata, Option<solana_transaction_error::TransactionError>);

/// `LiteSVM::send_transaction`: runs a transaction. What it does is a function of the machine and the
/// transaction; which one is left unsaid, but that it writes to no account which the message does not
/// mark as written to, and, where it fails, to none but the payer, all this where the fee is taken from
/// the payer. It panics on a machine without the rent, or with one that cannot be reckoned with; on one
/// that gives programs more room than the runtime has; on one from which the account of a program or a
/// loader was removed that the transaction calls; where the transaction leaves behind a program that
/// cannot be loaded; and on a message that names more accounts than it can count, or a program behind the
/// first 38 of them.
#[verifier::external_body]
fn svm_send(svm: &mut LiteSVM, tx: VersionedTransaction) -> (r: (
    TransactionMetadata,
    Option<solana_transaction_error::TransactionError>,
))
    requires
        can_send(*old(svm), tx),
    ensures
        (*final(svm), r.0, r.1) == svm_sent(*old(svm), tx),
        forall|ixs: Seq<InstructionView>, payer: Pubkey| #[trigger]
            carries(tx, ixs, payer) && message_fits(ixs, payer) ==> only_written(
                *old(svm),
                *final(svm),
                ixs,
                payer,
                r.1 is Some,
            ),
{
    match svm.send_transaction(tx) {
        Ok(meta) => (meta, None),
        Err(failed) => (failed.meta, Some(failed.err)),
    }
}

/// The keys that sign.
fn list_signing_keys(slots: &Vec<Slot>, payer: &Pubkey) -> (r: Vec<Pubkey>)
    ensures
        r@ == signing_keys(slots@, *payer),
{
    let mut r: Vec<Pubkey> = Vec::new();
    r.push(*payer);
    assert(r@ =~= seq![*payer]);
    let mut i: usize = 0;
    while i < slots.len()
        invariant
            i <= slots@.len(),
            r@ == signing_keys(slots@.take(i as int), *payer),
        decreases slots.len() - i,
    {
        assert(slots@.take(i + 1).drop_last() =~= slots@.take(i as int));
        if slots[i].meta.is_signer {
            add_key(&mut r, slots[i].meta.pubkey);
        }
        i += 1;
    }
    assert(slots@.take(i as int) =~= slots@);
    r
}

fn is_privileged(slots: &Vec<Slot>, payer: &Pubkey, k: &Pubkey) -> (r: bool)
    ensures
        r == privileged(slots@, *payer, *k),
{
    if *k == *payer {
        return true;
    }
    let mut i: usize = 0;
    while i < slots.len()
        invariant
            i <= slots@.len(),
            forall|j: int| 0 <= j < i ==> !((#[trigger] slots@[j]).meta.pubkey == *k && (slots@[j].meta.is_signer
                || slots@[j].meta.is_writable)),
        decreases slots.len() - i,
    {
        if slots[i].meta.pubkey == *k && (slots[i].meta.is_signer || slots[i].meta.is_writable) {
            return true;
        }
        i += 1;
    }
    false
}

/// The accounts and programs that are only read.
fn list_read_only_keys(ixs: &[Instruction], slots: &Vec<Slot>, payer: &Pubkey) -> (r: Vec<Pubkey>)
    requires
        slots@ == slots_of(ix_views(ixs@)),
    ensures
        r@ == read_only_keys(ix_views(ixs@), slots@, *payer),
{
    let ghost v = ix_views(ixs@);
    let mut r: Vec<Pubkey> = Vec::new();
    let mut i: usize = 0;
    while i < slots.len()
        invariant
            i <= slots@.len(),
            r@ == read_keys(slots@.take(i as int), slots@, *payer),
        decreases slots.len() - i,
    {
        assert(slots@.take(i + 1).drop_last() =~= slots@.take(i as int));
        if !is_privileged(slots, payer, &slots[i].meta.pubkey) {
            add_key(&mut r, slots[i].meta.pubkey);
        }
        i += 1;
    }
    assert(slots@.take(i as int) =~= slots@);
    let mut j: usize = 0;
    assert(v.take(0) =~= Seq::<InstructionView>::empty());
    while j < ixs.len()
        invariant
            j <= ixs@.len(),
            v == ix_views(ixs@),
            r@ == read_only_keys(v.take(j as int), slots@, *payer),
        decreases ixs.len() - j,
    {
        assert(v.take(j + 1).drop_last() =~= v.take(j as int));
        assert(v.take(j + 1).last() == ixs@[j as int]@);
        if !is_privileged(slots, payer, &ixs[j].program_id) {
            add_key(&mut r, ixs[j].program_id);
        }
        j += 1;
    }
    assert(v.take(j as int) =~= v);
    r
}

fn list_named_keys(slots: &Vec<Slot>, payer: &Pubkey) -> (r: Vec<Pubkey>)
    ensures
        r@ == named_keys(slots@, *payer),
{
    let mut r: Vec<Pubkey> = Vec::new();
    r.push(*payer);
    assert(r@ =~= seq![*payer]);
    let mut i: usize = 0;
    while i < slots.len()
        invariant
            i <= slots@.len(),
            r@ == named_keys(slots@.take(i as int), *payer),
        decreases slots.len() - i,
    {
        assert(slots@.take(i + 1).drop_last() =~= slots@.take(i as int));
        add_key(&mut r, slots[i].meta.pubkey);
        i += 1;
    }
    assert(slots@.take(i as int) =~= slots@);
    r
}

pub(crate) fn list_all_keys(ixs: &[Instruction], slots: &Vec<Slot>, payer: &Pubkey) -> (r: Vec<Pubkey>)
    ensures
        r@ == all_keys(ix_views(ixs@), slots@, *payer),
{
    let ghost v = ix_views(ixs@);
    let mut r = list_named_keys(slots, payer);
    let mut j: usize = 0;
    assert(v.take(0) =~= Seq::<InstructionView>::empty());
    while j < ixs.len()
        invariant
            j <= ixs@.len(),
            v == ix_views(ixs@),
            r@ == all_keys(v.take(j as int), slots@, *payer),
        decreases ixs.len() - j,
    {
        assert(v.take(j + 1).drop_last() =~= v.take(j as int));
        assert(v.take(j + 1).last() == ixs@[j as int]@);
        add_key(&mut r, ixs[j].program_id);
        j += 1;
    }
    assert(v.take(j as int) =~= v);
    r
}

fn do_instructions_fit(ixs: &[Instruction]) -> (r: bool)
    ensures
        r == (forall|i: int| 0 <= i < ixs@.len() ==> instruction_fits(#[trigger] ix_views(ixs@)[i])),
{
    let ghost v = ix_views(ixs@);
    let mut i: usize = 0;
    while i < ixs.len()
        invariant
            i <= ixs@.len(),
            v == ix_views(ixs@),
            forall|j: int| 0 <= j < i ==> instruction_fits(#[trigger] v[j]),
        decreases ixs.len() - i,
    {
        assert(v[i as int] == ixs@[i as int]@);
        if ixs[i].accounts.len() > 65535 || ixs[i].data.len() > 65535 {
            assert(!instruction_fits(v[i as int]));
            return false;
        }
        i += 1;
    }
    true
}

/// Few accounts always fit: where the accounts that the instructions name and the instructions
/// themselves are fewer than the header can count, there is a message.
pub proof fn lemma_small_message(ixs: Seq<InstructionView>, payer: Pubkey)
    requires
        slots_of(ixs).len() + ixs.len() < 255,
        forall|i: int| 0 <= i < ixs.len() ==> (#[trigger] ixs[i]).data.len() <= 65535,
    ensures
        message_fits(ixs, payer),
{
    lemma_signing_len(slots_of(ixs), payer);
    lemma_read_only_len(ixs, slots_of(ixs), payer);
    lemma_all_len(ixs, slots_of(ixs), payer);
    lemma_accounts_len(ixs);
}

proof fn lemma_named_len(slots: Seq<Slot>, payer: Pubkey)
    ensures
        named_keys(slots, payer).len() <= slots.len() + 1,
    decreases slots.len(),
{
    if slots.len() > 0 {
        lemma_named_len(slots.drop_last(), payer);
    }
}

proof fn lemma_all_len(ixs: Seq<InstructionView>, slots: Seq<Slot>, payer: Pubkey)
    ensures
        all_keys(ixs, slots, payer).len() <= slots.len() + ixs.len() + 1,
    decreases ixs.len(),
{
    if ixs.len() > 0 {
        lemma_all_len(ixs.drop_last(), slots, payer);
    } else {
        lemma_named_len(slots, payer);
    }
}

proof fn lemma_accounts_len(ixs: Seq<InstructionView>)
    ensures
        forall|i: int| 0 <= i < ixs.len() ==> (#[trigger] ixs[i]).accounts.len() <= slots_of(ixs).len(),
    decreases ixs.len(),
{
    if ixs.len() > 0 {
        let d = ixs.drop_last();
        lemma_accounts_len(d);
        assert forall|i: int| 0 <= i < ixs.len() implies (#[trigger] ixs[i]).accounts.len() <= slots_of(ixs).len() by {
            if i < d.len() {
                assert(d[i] == ixs[i]);
            } else {
                assert(crate::types::ix_slots(ixs[i]).len() == ixs[i].accounts.len());
            }
        }
    }
}

proof fn lemma_signing_len(slots: Seq<Slot>, payer: Pubkey)
    ensures
        signing_keys(slots, payer).len() <= slots.len() + 1,
    decreases slots.len(),
{
    if slots.len() > 0 {
        lemma_signing_len(slots.drop_last(), payer);
    }
}

proof fn lemma_read_len(slots: Seq<Slot>, all: Seq<Slot>, payer: Pubkey)
    ensures
        read_keys(slots, all, payer).len() <= slots.len(),
    decreases slots.len(),
{
    if slots.len() > 0 {
        lemma_read_len(slots.drop_last(), all, payer);
    }
}

proof fn lemma_read_only_len(ixs: Seq<InstructionView>, all: Seq<Slot>, payer: Pubkey)
    ensures
        read_only_keys(ixs, all, payer).len() <= all.len() + ixs.len(),
    decreases ixs.len(),
{
    if ixs.len() > 0 {
        lemma_read_only_len(ixs.drop_last(), all, payer);
    } else {
        lemma_read_len(all, all, payer);
    }
}

/// Whether the instructions fit into one message.
pub fn fits_message(ixs: &[Instruction], payer: &Pubkey) -> (r: bool)
    ensures
        r == message_fits(ix_views(ixs@), *payer),
{
    let slots = list_slots(ixs);
    list_signing_keys(&slots, payer).len() <= 255 && list_read_only_keys(ixs, &slots, payer).len() <= 255 && list_all_keys(
        ixs,
        &slots,
        payer,
    ).len() <= 256 && ixs.len() <= 65535 && do_instructions_fit(ixs)
}

/// The accounts of the message of some instructions, in the order of their indexes.
pub(crate) fn message_account_keys(ixs: &[Instruction], payer: &Pubkey) -> (r: Option<Vec<Pubkey>>)
    ensures
        match r {
            Some(keys) => message_fits(ix_views(ixs@), *payer) && keys@ == message_keys(
                legacy_message(ix_views(ixs@), *payer, crate::types::zero_key()),
            ),
            None => !message_fits(ix_views(ixs@), *payer),
        },
{
    if !fits_message(ixs, payer) {
        return None;
    }
    let blank: [u8; 32] = [0u8; 32];
    assert(blank@ =~= crate::types::zero_key());
    let m = compile_message(ixs, payer, &blank);
    Some(read_message_keys(&m))
}

/// Some key pair has this address.
pub open spec fn has_signer(signers: Seq<Keypair>, k: Pubkey) -> bool {
    exists|i: int| 0 <= i < signers.len() && (#[trigger] signers[i]).key == k
}

/// Whether some key pair has this address.
pub fn holds_signer(signers: &Vec<Keypair>, k: &Pubkey) -> (r: bool)
    ensures
        r == has_signer(signers@, *k),
{
    let mut i: usize = 0;
    while i < signers.len()
        invariant
            i <= signers@.len(),
            forall|j: int| 0 <= j < i ==> (#[trigger] signers@[j]).key != *k,
        decreases signers.len() - i,
    {
        if signers[i].key == *k {
            return true;
        }
        i += 1;
    }
    false
}

/// A copy of some key pairs.
pub fn copy_signers(signers: &Vec<Keypair>) -> (r: Vec<Keypair>)
    ensures
        r@ == signers@,
{
    let mut r: Vec<Keypair> = Vec::new();
    let mut i: usize = 0;
    while i < signers.len()
        invariant
            i <= signers@.len(),
            r@ == signers@.take(i as int),
        decreases signers.len() - i,
    {
        r.push(signers[i]);
        assert(signers@.take(i + 1) =~= signers@.take(i as int).push(signers@[i as int]));
        i += 1;
    }
    assert(signers@.take(i as int) =~= signers@);
    r
}

/// The key pairs that sign: those given, and the payer behind them unless it is among them.
pub open spec fn with_payer(signers: Seq<Keypair>, payer: Keypair) -> Seq<Keypair> {
    if has_signer(signers, payer.key) { signers } else { signers.push(payer) }
}

/// The machine that a transaction is made for: with signatures checked, it takes a new blockhash first.
pub open spec fn machine_for(svm: LiteSVM, sigverify: bool) -> LiteSVM {
    if sigverify { svm_expired(svm) } else { svm }
}

/// The transaction of some instructions: signed where signatures are checked, else with empty
/// signatures.
pub open spec fn transaction_for(svm: LiteSVM, ixs: Seq<InstructionView>, signers: Seq<Keypair>, payer: Keypair, sigverify: bool)
    -> Result<VersionedTransaction, Seq<char>> {
    let m = legacy_message(ixs, payer.key, svm_blockhash(svm));
    if sigverify {
        signed_transaction(m, crate::keys::secrets(with_payer(signers, payer)))
    } else {
        Ok(unsigned_transaction(m))
    }
}

/// What the machine records of a transaction, and why the transaction failed where it did.
pub type Sent = (TransactionMetadata, Option<solana_transaction_error::TransactionError>);

/// What sending some instructions makes of a machine: the machine afterwards, and what was recorded,
/// or why no transaction could be made or run.
pub open spec fn sent_result(
    svm: LiteSVM,
    ixs: Seq<InstructionView>,
    signers: Seq<Keypair>,
    payer: Keypair,
    sigverify: bool,
) -> (LiteSVM, Result<Sent, Seq<char>>) {
    let m = machine_for(svm, sigverify);
    match transaction_for(m, ixs, signers, payer, sigverify) {
        Ok(tx) => if !svm_runs(m) {
            (m, Err(no_rent_text()))
        } else if !svm_takes(m, tx, legacy_message(ixs, payer.key, svm_blockhash(m)), ixs, payer.key) {
            (m, Err(not_ready_text()))
        } else {
            let s = svm_sent(m, tx);
            (s.0, Ok((s.1, s.2)))
        },
        Err(e) => (m, Err(e)),
    }
}

/// What was recorded, or why nothing was, as a value.
pub open spec fn sent_value(r: Result<Sent, String>) -> Result<Sent, Seq<char>> {
    match r {
        Ok(s) => Ok(s),
        Err(e) => Err(e@),
    }
}

/// A moment.
#[verifier::external_type_specification]
#[verifier::external_body]
pub struct ExInstant(std::time::Instant);

/// `Instant::now`. Nothing is claimed of it.
#[verifier::external_body]
pub(crate) fn start_timer() -> std::time::Instant
{
    std::time::Instant::now()
}

/// `Instant::elapsed`, in nanoseconds. Nothing is claimed of it.
#[verifier::external_body]
pub(crate) fn spent_since(start: &std::time::Instant) -> u64
{
    start.elapsed().as_nanos() as u64
}

/// Of the accounts, only the payer and those that some instruction may write to changed, and the sysvar
/// of recent blockhashes.
pub open spec fn sending_kept(before: LiteSVM, after: LiteSVM, ixs: Seq<InstructionView>, payer: Pubkey) -> bool {
    payer_pays(ixs, payer) ==> forall|k: Pubkey|
        #![trigger account_at(after, k)]
        k != payer && !may_write(slots_of(ixs), k) && k@ != crate::ids::recent_blockhashes_address() ==> account_at(after, k)
            == account_at(before, k)
}

/// Sends some instructions as one transaction. Where signatures are checked, the machine takes a new
/// blockhash first and the transaction is signed; else it carries empty signatures. The time spent is
/// noted.
pub(crate) fn transmit(
    svm: &mut LiteSVM,
    ixs: &[Instruction],
    signers: &Vec<Keypair>,
    payer: &Keypair,
    sigverify: bool,
    spent: &mut SendTimers,
) -> (r: Result<Sent, String>)
    requires
        message_fits(ix_views(ixs@), payer.key),
    ensures
        (*final(svm), sent_value(r)) == sent_result(*old(svm), ix_views(ixs@), signers@, *payer, sigverify),
        final(spent).pre == old(spent).pre,
        final(spent).svm == old(spent).svm,
        final(spent).post == old(spent).post,
        sending_kept(*old(svm), *final(svm), ix_views(ixs@), payer.key),
{
    let start = start_timer();
    let ghost first = *svm;
    if sigverify {
        svm_expire_blockhash(svm);
    }
    let blockhash = svm_latest_blockhash(svm);
    let blockhash_time: u64 = spent_since(&start);
    let start = start_timer();
    let message = compile_message(ixs, &payer.key, &blockhash);
    let ghost v = ix_views(ixs@);
    assert(compiled(message));
    let keys = read_message_keys(&message);
    let tx = if sigverify {
        let mut pairs = copy_signers(signers);
        if !holds_signer(&pairs, &payer.key) {
            pairs.push(*payer);
        }
        match sign_message(message, &pairs) {
            Ok(tx) => tx,
            Err(e) => {
                return Err(e);
            },
        }
    } else {
        leave_unsigned(message)
    };
    let sign_time: u64 = spent_since(&start);
    if svm_rent_rate(svm).is_none() || read_rent(svm).is_none() {
        return Err(String::from_str("the machine has no rent sysvar"));
    }
    proof {
        assert(made_of(tx, legacy_message(v, payer.key, blockhash@)));
        assert(carries(tx, v, payer.key));
    }
    let ghost m = legacy_message(v, payer.key, blockhash@);
    let taken = if !is_machine_ready(svm, ixs, &payer.key) || !are_programs_early(ixs, &keys) {
        false
    } else if is_trial_needed(svm, ixs, &payer.key) {
        match svm_simulate(svm, &tx) {
            Some(left) => can_keep(svm, &left),
            None => true,
        }
    } else {
        true
    };
    if !taken {
        return Err(String::from_str("the machine cannot take the transaction"));
    }
    assert(svm_takes(*svm, tx, m, v, payer.key));
    let start = start_timer();
    let sent = svm_send(svm, tx);
    let execute_time: u64 = spent_since(&start);
    spent.blockhash = blockhash_time;
    spent.sign = sign_time;
    spent.execute = execute_time;
    Ok(sent)
}

/// What running some instructions makes of a machine: the machine afterwards, and what was recorded;
/// nothing is recorded where no transaction could be made.
pub open spec fn run_result(
    svm: LiteSVM,
    ixs: Seq<InstructionView>,
    signers: Seq<Keypair>,
    payer: Keypair,
    sigverify: bool,
) -> (LiteSVM, Option<Sent>) {
    if !message_fits(ixs, payer.key) {
        (svm, None)
    } else {
        let r = sent_result(svm, ixs, signers, payer, sigverify);
        match r.1 {
            Ok(s) => (r.0, Some(s)),
            Err(_) => (r.0, None),
        }
    }
}

/// Running the instructions succeeds.
pub open spec fn run_succeeds(
    svm: LiteSVM,
    ixs: Seq<InstructionView>,
    signers: Seq<Keypair>,
    payer: Keypair,
    sigverify: bool,
) -> bool {
    let r = run_result(svm, ixs, signers, payer, sigverify);
    r.1 is Some && (r.1->0).1 is None
}

/// Runs some instructions as one transaction.
pub(crate) fn send_probe_transaction(
    svm: &mut LiteSVM,
    ixs: &[Instruction],
    signers: &Vec<Keypair>,
    payer: &Keypair,
    sigverify: bool,
) -> (r: Option<Sent>)
    ensures
        (*final(svm), r) == run_result(*old(svm), ix_views(ixs@), signers@, *payer, sigverify),
{
    if !fits_message(ixs, &payer.key) {
        return None;
    }
    let mut spent = SendTimers::none();
    match transmit(svm, ixs, signers, payer, sigverify, &mut spent) {
        Ok(s) => Some(s),
        Err(_) => None,
    }
}

/// Whether running some instructions succeeds; the machine holds what they did.
pub(crate) fn run_probe(svm: &mut LiteSVM, ixs: &[Instruction], signers: &Vec<Keypair>, payer: &Keypair, sigverify: bool) -> (ok:
    bool)
    ensures
        *final(svm) == run_result(*old(svm), ix_views(ixs@), signers@, *payer, sigverify).0,
        ok == run_succeeds(*old(svm), ix_views(ixs@), signers@, *payer, sigverify),
{
    match send_probe_transaction(svm, ixs, signers, payer, sigverify) {
        Some((_, None)) => true,
        _ => false,
    }
}

} // verus!
