//! Which accounts changed, and how the machine is taken back to what it was.
use vstd::prelude::*;
use litesvm::LiteSVM;
use crate::ids::{is_known_sysvar, slot_hashes_id, slot_history_id};
#[allow(unused_imports)]
use crate::ids::{clock_address, known_sysvar, slot_hashes_address, slot_history_address};
use crate::svm::{svm_list_accounts, svm_set_account};
#[allow(unused_imports)]
use crate::svm::{account_at, surely_accepted, svm_with_account};
#[allow(unused_imports)]
use crate::sysvars::{clock_value, svm_clock};
use crate::types::{add_key, Account, Instruction, Pubkey};
#[allow(unused_imports)]
use crate::types::{ix_views, key_of, lemma_with_key, opt_account, slots_of, with_key, zero_key, AccountView, InstructionView, Slot};

verus! {

/// The accounts that an iteration may have changed.
#[derive(Debug)]
pub struct DirtyTracker {
    /// Each address once, in the order in which they were noted.
    pub accounts: Vec<Pubkey>,
    /// The slot that the clock was set to last.
    pub clock_target_slot: Option<u64>,
}

/// The accounts that an iteration may have changed, as a value.
pub struct DirtyView {
    pub accounts: Seq<Pubkey>,
    pub clock_target_slot: Option<u64>,
}

impl View for DirtyTracker {
    type V = DirtyView;

    open spec fn view(&self) -> DirtyView {
        DirtyView { accounts: self.accounts@, clock_target_slot: self.clock_target_slot }
    }
}

/// Nothing changed.
pub open spec fn clean() -> DirtyView {
    DirtyView { accounts: Seq::empty(), clock_target_slot: None }
}

/// The addresses with those that some slots may write to.
pub open spec fn with_writable(before: Seq<Pubkey>, slots: Seq<Slot>) -> Seq<Pubkey>
    decreases slots.len(),
{
    if slots.len() == 0 {
        before
    } else {
        let r = with_writable(before, slots.drop_last());
        if slots.last().meta.is_writable { with_key(r, slots.last().meta.pubkey) } else { r }
    }
}

/// The addresses with those that a transaction may change: its payer, and the accounts that it may
/// write to.
pub open spec fn with_transaction(before: Seq<Pubkey>, ixs: Seq<InstructionView>, payer: Pubkey) -> Seq<Pubkey> {
    with_writable(with_key(before, payer), slots_of(ixs))
}

proof fn lemma_with_writable(before: Seq<Pubkey>, slots: Seq<Slot>)
    ensures
        forall|k: Pubkey| #[trigger] with_writable(before, slots).contains(k) <==> before.contains(k) || exists|i: int|
            0 <= i < slots.len() && (#[trigger] slots[i]).meta.is_writable && slots[i].meta.pubkey == k,
        before.no_duplicates() ==> with_writable(before, slots).no_duplicates(),
    decreases slots.len(),
{
    if slots.len() > 0 {
        let d = slots.drop_last();
        lemma_with_writable(before, d);
        lemma_with_key(with_writable(before, d), slots.last().meta.pubkey);
        assert forall|k: Pubkey| #[trigger] with_writable(before, slots).contains(k) <==> before.contains(k) || exists|i: int|
            0 <= i < slots.len() && (#[trigger] slots[i]).meta.is_writable && slots[i].meta.pubkey == k by {
            if with_writable(before, d).contains(k) && !before.contains(k) {
                let i = choose|i: int| 0 <= i < d.len() && (#[trigger] d[i]).meta.is_writable && d[i].meta.pubkey == k;
                assert(slots[i] == d[i]);
            }
            if exists|i: int| 0 <= i < slots.len() && (#[trigger] slots[i]).meta.is_writable && slots[i].meta.pubkey == k {
                let i = choose|i: int|
                    0 <= i < slots.len() && (#[trigger] slots[i]).meta.is_writable && slots[i].meta.pubkey == k;
                if i < d.len() {
                    assert(d[i] == slots[i]);
                    assert(with_writable(before, d).contains(k));
                }
            }
            if slots.last().meta.is_writable && slots.last().meta.pubkey == k {
                assert(slots[slots.len() - 1].meta.is_writable);
            }
        }
    }
}

/// What a transaction may change is noted, and nothing else: its payer, and every account that some
/// instruction may write to. What was noted before stays noted, and nothing is noted twice.
pub proof fn lemma_with_transaction(before: Seq<Pubkey>, ixs: Seq<InstructionView>, payer: Pubkey)
    ensures
        forall|k: Pubkey| #[trigger] with_transaction(before, ixs, payer).contains(k) <==> before.contains(k) || k == payer
            || exists|i: int|
            0 <= i < slots_of(ixs).len() && (#[trigger] slots_of(ixs)[i]).meta.is_writable && slots_of(ixs)[i].meta.pubkey
                == k,
        before.no_duplicates() ==> with_transaction(before, ixs, payer).no_duplicates(),
{
    lemma_with_key(before, payer);
    lemma_with_writable(with_key(before, payer), slots_of(ixs));
}

impl DirtyTracker {
    /// Nothing changed yet.
    pub fn new() -> (r: DirtyTracker)
        ensures
            r@ == clean(),
    {
        let r = DirtyTracker { accounts: Vec::new(), clock_target_slot: None };
        assert(r@.accounts =~= clean().accounts);
        r
    }

    /// Forgets all changes.
    pub fn clear(&mut self)
        ensures
            final(self)@ == clean(),
    {
        self.accounts = Vec::new();
        self.clock_target_slot = None;
        assert(self@.accounts =~= clean().accounts);
    }

    /// Notes that an account may have changed.
    pub fn mark_account_dirty(&mut self, key: &Pubkey)
        ensures
            final(self)@ == (DirtyView { accounts: with_key(old(self)@.accounts, *key), ..old(self)@ }),
    {
        add_key(&mut self.accounts, *key);
    }

    /// Notes that the clock was set to a slot.
    pub fn mark_clock_dirty(&mut self, slot: u64)
        ensures
            final(self)@ == (DirtyView { clock_target_slot: Some(slot), ..old(self)@ }),
    {
        self.clock_target_slot = Some(slot);
    }

    /// Whether the clock was set.
    pub fn is_clock_dirty(&self) -> (r: bool)
        ensures
            r == (self@.clock_target_slot is Some),
    {
        self.clock_target_slot.is_some()
    }

    /// The accounts that may have changed.
    pub fn dirty_accounts(&self) -> (r: &Vec<Pubkey>)
        ensures
            r@ == self@.accounts,
    {
        &self.accounts
    }

    /// How many accounts may have changed.
    pub fn dirty_count(&self) -> (r: usize)
        ensures
            r == self@.accounts.len(),
    {
        self.accounts.len()
    }

    /// Notes what a transaction may change.
    pub fn record_tx(&mut self, ixs: &[Instruction], payer: &Pubkey)
        ensures
            final(self)@ == (DirtyView {
                accounts: with_transaction(old(self)@.accounts, ix_views(ixs@), *payer),
                ..old(self)@
            }),
    {
        let ghost before = with_key(self.accounts@, *payer);
        let ghost target = self.clock_target_slot;
        add_key(&mut self.accounts, *payer);
        let slots = crate::types::list_slots(ixs);
        let mut i: usize = 0;
        while i < slots.len()
            invariant
                i <= slots@.len(),
                self.clock_target_slot == target,
                self.accounts@ == with_writable(before, slots@.take(i as int)),
            decreases slots.len() - i,
        {
            assert(slots@.take(i + 1).drop_last() =~= slots@.take(i as int));
            if slots[i].meta.is_writable {
                add_key(&mut self.accounts, slots[i].meta.pubkey);
            }
            i += 1;
        }
        assert(slots@.take(i as int) =~= slots@);
    }
}

/// The accounts of a machine at one moment.
#[derive(Debug)]
pub struct SvmSnapshot {
    /// The accounts, but for the two sysvars that record all slots.
    pub accounts: Vec<(Pubkey, Account)>,
    /// The sysvars that are taken back.
    pub sysvars: Vec<(Pubkey, Account)>,
}

/// The account is left out of snapshots: the two sysvars that record all slots are too large.
pub open spec fn left_out(k: Pubkey) -> bool {
    k@ == slot_hashes_address() || k@ == slot_history_address()
}

/// The sysvar is kept in snapshots.
pub open spec fn kept_sysvar(k: Pubkey) -> bool {
    known_sysvar(k) && !left_out(k)
}

fn is_left_out(k: &Pubkey) -> (r: bool)
    ensures
        r == left_out(*k),
{
    k.same_as(&slot_hashes_id()) || k.same_as(&slot_history_id())
}

/// The account at an address, among some.
pub open spec fn listed(v: Seq<(Pubkey, Account)>, k: Pubkey) -> Option<AccountView>
    decreases v.len(),
{
    if v.len() == 0 {
        None
    } else if v.last().0 == k {
        Some(v.last().1@)
    } else {
        listed(v.drop_last(), k)
    }
}

proof fn lemma_listed(v: Seq<(Pubkey, Account)>, i: int)
    requires
        0 <= i < v.len(),
        forall|a: int, b: int| 0 <= a < b < v.len() ==> (#[trigger] v[a]).0 != (#[trigger] v[b]).0,
    ensures
        listed(v, v[i].0) == Some(v[i].1@),
    decreases v.len(),
{
    if i < v.len() - 1 {
        assert(v[i].0 != v[v.len() - 1].0);
        lemma_listed(v.drop_last(), i);
    }
}

proof fn lemma_unlisted(v: Seq<(Pubkey, Account)>, k: Pubkey)
    requires
        forall|i: int| 0 <= i < v.len() ==> (#[trigger] v[i]).0 != k,
    ensures
        listed(v, k) is None,
    decreases v.len(),
{
    if v.len() > 0 {
        lemma_unlisted(v.drop_last(), k);
    }
}

/// What is written to take an account back: the account that was there, or none.
pub open spec fn written_back(was: Option<AccountView>) -> AccountView {
    match was {
        Some(a) => a,
        None => AccountView {
            lamports: 0,
            data: Seq::empty(),
            owner: crate::types::key_of(zero_key()),
            executable: false,
            rent_epoch: 0,
        },
    }
}

/// The machine with some accounts taken back.
pub open spec fn taken_back(svm: LiteSVM, was: Seq<(Pubkey, Account)>, keys: Seq<Pubkey>) -> LiteSVM
    decreases keys.len(),
{
    if keys.len() == 0 {
        svm
    } else {
        let before = taken_back(svm, was, keys.drop_last());
        if left_out(keys.last()) {
            before
        } else {
            svm_with_account(before, keys.last(), written_back(listed(was, keys.last()))).0
        }
    }
}

/// The machine with all of some accounts written.
pub open spec fn all_written(svm: LiteSVM, was: Seq<(Pubkey, Account)>) -> LiteSVM
    decreases was.len(),
{
    if was.len() == 0 {
        svm
    } else {
        svm_with_account(all_written(svm, was.drop_last()), was.last().0, was.last().1@).0
    }
}

/// The machine accepted an account when some were taken back.
pub open spec fn accepted_back(svm: LiteSVM, was: Seq<(Pubkey, Account)>, keys: Seq<Pubkey>, k: Pubkey) -> bool
    decreases keys.len(),
{
    keys.len() > 0 && (accepted_back(svm, was, keys.drop_last(), k) || (keys.last() == k && !left_out(k) && svm_with_account(
        taken_back(svm, was, keys.drop_last()),
        k,
        written_back(listed(was, k)),
    ).1))
}

/// The machine accepted an account when all of some were written.
pub open spec fn accepted_written(svm: LiteSVM, was: Seq<(Pubkey, Account)>, k: Pubkey) -> bool
    decreases was.len(),
{
    was.len() > 0 && (accepted_written(svm, was.drop_last(), k) || (was.last().0 == k && svm_with_account(
        all_written(svm, was.drop_last()),
        k,
        was.last().1@,
    ).1))
}

pub(crate) proof fn lemma_accepted_back(svm: LiteSVM, was: Seq<(Pubkey, Account)>, keys: Seq<Pubkey>, k: Pubkey)
    requires
        accepted_back(svm, was, keys, k),
    ensures
        keys.contains(k),
        !left_out(k),
    decreases keys.len(),
{
    if accepted_back(svm, was, keys.drop_last(), k) {
        lemma_accepted_back(svm, was, keys.drop_last(), k);
        let i = choose|i: int| 0 <= i < keys.len() - 1 && keys.drop_last()[i] == k;
        assert(keys[i] == k);
    } else {
        assert(keys[keys.len() - 1] == k);
    }
}

pub(crate) proof fn lemma_accepted_written(svm: LiteSVM, was: Seq<(Pubkey, Account)>, k: Pubkey)
    requires
        accepted_written(svm, was, k),
    ensures
        exists|i: int| 0 <= i < was.len() && (#[trigger] was[i]).0 == k,
        listed(was, k) is Some,
    decreases was.len(),
{
    if accepted_written(svm, was.drop_last(), k) {
        lemma_accepted_written(svm, was.drop_last(), k);
        let i = choose|i: int| 0 <= i < was.len() - 1 && (#[trigger] was.drop_last()[i]).0 == k;
        assert(was[i].0 == k);
    } else {
        assert(was[was.len() - 1].0 == k);
    }
}

/// What is held of an account that is taken back: nothing where it holds no lamports.
pub open spec fn held(was: Option<AccountView>) -> Option<AccountView> {
    if was is Some && was->0.lamports == 0 { None } else { was }
}

/// The account holds a clock that a machine accepts and keeps.
pub open spec fn clock_account(a: AccountView) -> bool {
    a.lamports > 0 && !a.executable && clock_value(a.data) is Some
}

/// What taking a machine back does: the accounts that were noted are what they were, and what was not
/// noted stays. Where the clock was set, it is what it was. Another sysvar or a program is what it was
/// where the machine accepted it; refused, it stays as it is.
pub open spec fn put_back(before: LiteSVM, after: LiteSVM, snap: SvmSnapshot, dirty: DirtyView) -> bool {
    &&& forall|k: Pubkey|
        #![trigger account_at(after, k)]
        !known_sysvar(k) && dirty.accounts.contains(k) && !written_back(listed(snap.accounts@, k)).executable ==> account_at(
            after,
            k,
        ) == held(listed(snap.accounts@, k))
    &&& forall|k: Pubkey|
        #![trigger account_at(after, k)]
        !dirty.accounts.contains(k) && (dirty.clock_target_slot is None || !kept_sysvar(k)) ==> account_at(after, k)
            == account_at(before, k)
    &&& forall|k: Pubkey|
        #![trigger account_at(after, k)]
        dirty.clock_target_slot is Some && k@ == clock_address() && listed(snap.sysvars@, k) is Some && clock_account(
            listed(snap.sysvars@, k)->0,
        ) ==> account_at(after, k) == listed(snap.sysvars@, k)
    &&& forall|k: Pubkey|
        #![trigger account_at(after, k)]
        account_at(after, k) == if rewritten(before, snap, dirty, k) {
            held(listed(snap.sysvars@, k))
        } else if accepted_back(before, snap.accounts@, dirty.accounts, k) {
            held(listed(snap.accounts@, k))
        } else {
            account_at(before, k)
        }
    &&& forall|k: Pubkey|
        #![trigger account_at(after, k)]
        dirty.accounts.contains(k) && !left_out(k) && surely_accepted(k, written_back(listed(snap.accounts@, k)))
            ==> accepted_back(before, snap.accounts@, dirty.accounts, k)
    &&& forall|k: Pubkey|
        #![trigger account_at(after, k)]
        dirty.clock_target_slot is Some && listed(snap.sysvars@, k) is Some && surely_accepted(
            k,
            listed(snap.sysvars@, k)->0,
        ) ==> rewritten(before, snap, dirty, k)
}

/// The sysvar was written and accepted, the clock having been set.
pub open spec fn rewritten(before: LiteSVM, snap: SvmSnapshot, dirty: DirtyView, k: Pubkey) -> bool {
    dirty.clock_target_slot is Some && accepted_written(
        taken_back(before, snap.accounts@, dirty.accounts),
        snap.sysvars@,
        k,
    )
}

/// The account can be taken back: it is one that holds lamports and that the machine surely accepts, or
/// none, where none is needed for a sysvar.
pub open spec fn can_be_put_back(k: Pubkey, a: Option<AccountView>) -> bool {
    !left_out(k) && match a {
        Some(a) => a.lamports > 0 && surely_accepted(k, a),
        None => !known_sysvar(k),
    }
}

/// Taking a machine back gives what the snapshot was taken of: every account that did not change or whose
/// change was noted, and the sysvars where the clock was set, as far as the machine surely accepts them.
pub proof fn lemma_put_back(start: LiteSVM, before: LiteSVM, after: LiteSVM, snap: SvmSnapshot, dirty: DirtyView)
    requires
        snap.of(start),
        snap.well_formed(),
        put_back(before, after, snap, dirty),
    ensures
        forall|k: Pubkey|
            #![trigger account_at(after, k)]
            can_be_put_back(k, account_at(start, k)) && (account_at(before, k) == account_at(start, k)
                || dirty.accounts.contains(k) || (dirty.clock_target_slot is Some && kept_sysvar(k))) ==> account_at(after, k)
                == account_at(start, k),
        dirty.clock_target_slot is Some && svm_clock(start) is Some && clock_account(
            account_at(start, key_of(clock_address()))->0,
        ) ==> svm_clock(after) == svm_clock(start),
{
    assert forall|k: Pubkey|
        #![trigger account_at(after, k)]
        can_be_put_back(k, account_at(start, k)) && (account_at(before, k) == account_at(start, k)
            || dirty.accounts.contains(k) || (dirty.clock_target_slot is Some && kept_sysvar(k))) implies account_at(after, k)
            == account_at(start, k) by {
        assert(listed(snap.accounts@, k) == account_at(start, k));
        if rewritten(before, snap, dirty, k) {
            lemma_accepted_written(taken_back(before, snap.accounts@, dirty.accounts), snap.sysvars@, k);
            let i = choose|i: int| 0 <= i < snap.sysvars@.len() && (#[trigger] snap.sysvars@[i]).0 == k;
            assert(kept_sysvar(snap.sysvars@[i].0));
            assert(listed(snap.sysvars@, k) == account_at(start, k));
        } else if dirty.clock_target_slot is Some && kept_sysvar(k) {
            assert(listed(snap.sysvars@, k) == account_at(start, k));
        }
    }
    let c = key_of(clock_address());
    crate::sysvars::lemma_clock_key();
    lemma_clock_is_kept();
    assert(kept_sysvar(c));
    assert(listed(snap.sysvars@, c) == account_at(start, c));
    if dirty.clock_target_slot is Some && svm_clock(start) is Some && clock_account(account_at(start, c)->0) {
        assert(account_at(after, c) == account_at(start, c));
    }
}

pub(crate) proof fn lemma_clock_is_kept()
    ensures
        forall|k: Pubkey| #[trigger] k@ == clock_address() ==> kept_sysvar(k),
{
    reveal(clock_address);
    reveal(slot_hashes_address);
    reveal(slot_history_address);
    assert(clock_address()[4] != slot_hashes_address()[4]);
    assert(clock_address()[4] != slot_history_address()[4]);
}

fn find_listed(v: &Vec<(Pubkey, Account)>, k: &Pubkey) -> (r: Option<Account>)
    ensures
        opt_account(r) == listed(v@, *k),
{
    let mut i: usize = v.len();
    assert(v@.take(i as int) =~= v@);
    while i > 0
        invariant
            i <= v@.len(),
            listed(v@, *k) == listed(v@.take(i as int), *k),
        decreases i,
    {
        assert(v@.take(i as int).drop_last() =~= v@.take(i - 1));
        if v[i - 1].0 == *k {
            return Some(v[i - 1].1.copy());
        }
        i -= 1;
    }
    None
}

impl SvmSnapshot {
    /// The snapshot holds the accounts of this machine.
    pub open spec fn of(&self, svm: LiteSVM) -> bool {
        forall|k: Pubkey|
            #![trigger account_at(svm, k)]
            (!left_out(k) ==> listed(self.accounts@, k) == account_at(svm, k)) && (kept_sysvar(k) ==> listed(
                self.sysvars@,
                k,
            ) == account_at(svm, k))
    }

    /// Only sysvars that are kept stand among the sysvars, each once.
    pub open spec fn well_formed(&self) -> bool {
        &&& forall|i: int| 0 <= i < self.sysvars@.len() ==> kept_sysvar((#[trigger] self.sysvars@[i]).0)
        &&& forall|a: int, b: int|
            0 <= a < b < self.sysvars@.len() ==> (#[trigger] self.sysvars@[a]).0 != (#[trigger] self.sysvars@[b]).0
    }

    /// The accounts of a machine.
    pub fn take_all(svm: &LiteSVM) -> (r: SvmSnapshot)
        ensures
            r.of(*svm),
            r.well_formed(),
    {
        let all = svm_list_accounts(svm);
        let mut accounts: Vec<(Pubkey, Account)> = Vec::new();
        let mut sysvars: Vec<(Pubkey, Account)> = Vec::new();
        let mut i: usize = 0;
        while i < all.len()
            invariant
                i <= all@.len(),
                forall|a: int, b: int| 0 <= a < b < all@.len() ==> (#[trigger] all@[a]).0 != (#[trigger] all@[b]).0,
                forall|k: Pubkey|
                    #![trigger listed(accounts@, k)]
                    !left_out(k) ==> listed(accounts@, k) == listed(all@.take(i as int), k),
                forall|k: Pubkey|
                    #![trigger listed(sysvars@, k)]
                    kept_sysvar(k) ==> listed(sysvars@, k) == listed(all@.take(i as int), k),
                forall|j: int| 0 <= j < sysvars@.len() ==> kept_sysvar((#[trigger] sysvars@[j]).0),
                forall|j: int|
                    0 <= j < sysvars@.len() ==> exists|a: int| 0 <= a < i && (#[trigger] all@[a]).0 == (#[trigger] sysvars@[j]).0,
                forall|a: int, b: int|
                    0 <= a < b < sysvars@.len() ==> (#[trigger] sysvars@[a]).0 != (#[trigger] sysvars@[b]).0,
            decreases all.len() - i,
        {
            let ghost was_accounts = accounts@;
            let ghost was_sysvars = sysvars@;
            proof {
                assert(all@.take(i + 1).drop_last() =~= all@.take(i as int));
                assert(all@.take(i + 1).last() == all@[i as int]);
            }
            let k = all[i].0;
            if !is_left_out(&k) {
                if is_known_sysvar(&k) {
                    sysvars.push((k, all[i].1.copy()));
                    assert(sysvars@.drop_last() =~= was_sysvars);
                }
                accounts.push((k, all[i].1.copy()));
                assert(accounts@.drop_last() =~= was_accounts);
            }
            assert forall|q: Pubkey| !left_out(q) implies #[trigger] listed(accounts@, q) == listed(
                all@.take(i + 1),
                q,
            ) by {
                assert(listed(was_accounts, q) == listed(all@.take(i as int), q));
            }
            assert forall|q: Pubkey| kept_sysvar(q) implies #[trigger] listed(sysvars@, q) == listed(all@.take(i + 1), q) by {
                assert(listed(was_sysvars, q) == listed(all@.take(i as int), q));
            }
            i += 1;
        }
        let r = SvmSnapshot { accounts, sysvars };
        proof {
            assert(all@.take(i as int) =~= all@);
            assert forall|k: Pubkey| listed(all@, k) == #[trigger] account_at(*svm, k) by {
                if exists|j: int| 0 <= j < all@.len() && (#[trigger] all@[j]).0 == k {
                    let j = choose|j: int| 0 <= j < all@.len() && (#[trigger] all@[j]).0 == k;
                    lemma_listed(all@, j);
                } else {
                    lemma_unlisted(all@, k);
                }
            }
            assert forall|k: Pubkey| #![trigger account_at(*svm, k)]
                (!left_out(k) ==> listed(r.accounts@, k) == account_at(*svm, k)) && (kept_sysvar(k) ==> listed(
                    r.sysvars@,
                    k,
                ) == account_at(*svm, k)) by {
                assert(listed(all@, k) == account_at(*svm, k));
                assert(listed(r.accounts@, k) == listed(r.accounts@, k));
                assert(listed(r.sysvars@, k) == listed(r.sysvars@, k));
            }
        }
        r
    }

    /// Takes the accounts that may have changed back to what they were, and the sysvars where the clock
    /// was set; says how many accounts were taken back. An account that was not there is removed. What
    /// is not noted as changed stays. A program is taken back only where the machine accepts it.
    pub fn restore(&self, svm: &mut LiteSVM, tracker: &DirtyTracker) -> (r: usize)
        requires
            self.well_formed(),
        ensures
            r == tracker@.accounts.len(),
            *final(svm) == ({
                let back = taken_back(*old(svm), self.accounts@, tracker@.accounts);
                if tracker@.clock_target_slot is Some { all_written(back, self.sysvars@) } else { back }
            }),
            put_back(*old(svm), *final(svm), *self, tracker@),
    {
        let keys = &tracker.accounts;
        let ghost before = *svm;
        let mut i: usize = 0;
        while i < keys.len()
            invariant
                i <= keys@.len(),
                *svm == taken_back(before, self.accounts@, keys@.take(i as int)),
                forall|k: Pubkey|
                    #![trigger account_at(*svm, k)]
                    !known_sysvar(k) && keys@.take(i as int).contains(k) && !written_back(
                        listed(self.accounts@, k),
                    ).executable ==> account_at(*svm, k) == held(listed(self.accounts@, k)),
                forall|k: Pubkey|
                    #![trigger account_at(*svm, k)]
                    !keys@.take(i as int).contains(k) ==> account_at(*svm, k) == account_at(before, k),
                forall|k: Pubkey|
                    #![trigger account_at(*svm, k)]
                    account_at(*svm, k) == if accepted_back(before, self.accounts@, keys@.take(i as int), k) {
                        held(listed(self.accounts@, k))
                    } else {
                        account_at(before, k)
                    },
                forall|k: Pubkey|
                    #![trigger accepted_back(before, self.accounts@, keys@.take(i as int), k)]
                    keys@.take(i as int).contains(k) && !left_out(k) && surely_accepted(
                        k,
                        written_back(listed(self.accounts@, k)),
                    ) ==> accepted_back(before, self.accounts@, keys@.take(i as int), k),
            decreases keys.len() - i,
        {
            let ghost prior = *svm;
            let k = keys[i];
            let account = match find_listed(&self.accounts, &k) {
                Some(a) => a,
                None => {
                    let a = Account {
                        lamports: 0,
                        data: Vec::new(),
                        owner: Pubkey::default(),
                        executable: false,
                        rent_epoch: 0,
                    };
                    proof {
                        crate::types::lemma_key_of(a.owner);
                        assert(a@.data =~= Seq::<u8>::empty());
                    }
                    a
                },
            };
            assert(account@ == written_back(listed(self.accounts@, k)));
            proof {
                assert(keys@.take(i + 1).drop_last() =~= keys@.take(i as int));
                assert(keys@.take(i + 1).last() == k);
            }
            if !is_left_out(&k) {
                svm_set_account(svm, &k, account);
            }
            proof {
                let now = keys@.take(i + 1);
                let was = keys@.take(i as int);
                assert(now =~= was.push(k));
                assert(now[i as int] == k);
                assert forall|q: Pubkey| #![trigger account_at(*svm, q)] q != k implies account_at(*svm, q) == account_at(prior, q)
                    && now.contains(q) == was.contains(q) by {
                    if now.contains(q) {
                        let j = choose|j: int| 0 <= j < now.len() && now[j] == q;
                        assert(was[j] == q);
                    }
                    if was.contains(q) {
                        let j = choose|j: int| 0 <= j < was.len() && was[j] == q;
                        assert(now[j] == q);
                    }
                }
                assert forall|q: Pubkey|
                    #![trigger account_at(*svm, q)]
                    !known_sysvar(q) && now.contains(q) && !written_back(
                        listed(self.accounts@, q),
                    ).executable implies account_at(*svm, q) == held(listed(self.accounts@, q)) by {
                    if q != k {
                        assert(account_at(prior, q) == held(listed(self.accounts@, q)));
                    }
                }
                assert forall|q: Pubkey|
                    #![trigger account_at(*svm, q)]
                    !now.contains(q) implies account_at(*svm, q) == account_at(before, q) by {
                    assert(q != k);
                    assert(account_at(prior, q) == account_at(before, q));
                }
                assert forall|q: Pubkey|
                    #![trigger account_at(*svm, q)]
                    account_at(*svm, q) == if accepted_back(before, self.accounts@, now, q) {
                        held(listed(self.accounts@, q))
                    } else {
                        account_at(before, q)
                    } by {
                    assert(account_at(prior, q) == if accepted_back(before, self.accounts@, was, q) {
                        held(listed(self.accounts@, q))
                    } else {
                        account_at(before, q)
                    });
                }
                assert forall|q: Pubkey|
                    #![trigger accepted_back(before, self.accounts@, now, q)]
                    now.contains(q) && !left_out(q) && surely_accepted(q, written_back(listed(self.accounts@, q)))
                        implies accepted_back(before, self.accounts@, now, q) by {
                    if q != k {
                        assert(account_at(*svm, q) == account_at(prior, q));
                        assert(was.contains(q));
                        assert(accepted_back(before, self.accounts@, was, q));
                    }
                }
            }
            i += 1;
        }
        assert(keys@.take(i as int) =~= keys@);
        if tracker.is_clock_dirty() {
            let ghost mid = *svm;
            assert(mid == taken_back(before, self.accounts@, tracker@.accounts));
            let mut j: usize = 0;
            while j < self.sysvars.len()
                invariant
                    j <= self.sysvars@.len(),
                    self.well_formed(),
                    *svm == all_written(mid, self.sysvars@.take(j as int)),
                    forall|k: Pubkey|
                        #![trigger account_at(*svm, k)]
                        !kept_sysvar(k) ==> account_at(*svm, k) == account_at(mid, k),
                    forall|k: Pubkey|
                        #![trigger account_at(*svm, k)]
                        k@ == clock_address() && listed(self.sysvars@.take(j as int), k) is Some && clock_account(
                            listed(self.sysvars@.take(j as int), k)->0,
                        ) ==> account_at(*svm, k) == listed(self.sysvars@.take(j as int), k),
                    forall|k: Pubkey|
                        #![trigger account_at(*svm, k)]
                        account_at(*svm, k) == if accepted_written(mid, self.sysvars@.take(j as int), k) {
                            held(listed(self.sysvars@.take(j as int), k))
                        } else {
                            account_at(mid, k)
                        },
                    forall|k: Pubkey|
                        #![trigger accepted_written(mid, self.sysvars@.take(j as int), k)]
                        listed(self.sysvars@.take(j as int), k) is Some && surely_accepted(
                            k,
                            listed(self.sysvars@.take(j as int), k)->0,
                        ) ==> accepted_written(mid, self.sysvars@.take(j as int), k),
                decreases self.sysvars.len() - j,
            {
                let ghost prior = *svm;
                proof {
                    assert(self.sysvars@.take(j + 1).drop_last() =~= self.sysvars@.take(j as int));
                    assert(self.sysvars@.take(j + 1).last() == self.sysvars@[j as int]);
                }
                let k = self.sysvars[j].0;
                svm_set_account(svm, &k, self.sysvars[j].1.copy());
                assert forall|q: Pubkey| #![trigger account_at(*svm, q)] !kept_sysvar(q) implies account_at(*svm, q) == account_at(
                    mid,
                    q,
                ) by {
                    assert(kept_sysvar(self.sysvars@[j as int].0));
                    assert(account_at(prior, q) == account_at(mid, q));
                }
                assert forall|q: Pubkey|
                    #![trigger account_at(*svm, q)]
                    q@ == clock_address() && listed(self.sysvars@.take(j + 1), q) is Some && clock_account(
                        listed(self.sysvars@.take(j + 1), q)->0,
                    ) implies account_at(*svm, q) == listed(self.sysvars@.take(j + 1), q) by {
                    if q != k {
                        assert(account_at(*svm, q) == account_at(prior, q));
                    }
                }
                assert forall|q: Pubkey|
                    #![trigger account_at(*svm, q)]
                    account_at(*svm, q) == if accepted_written(mid, self.sysvars@.take(j + 1), q) {
                        held(listed(self.sysvars@.take(j + 1), q))
                    } else {
                        account_at(mid, q)
                    } by {
                    let was = self.sysvars@.take(j as int);
                    assert(account_at(prior, q) == if accepted_written(mid, was, q) {
                        held(listed(was, q))
                    } else {
                        account_at(mid, q)
                    });
                    if q == k && accepted_written(mid, was, q) {
                        lemma_accepted_written(mid, was, q);
                        let a = choose|a: int| 0 <= a < was.len() && (#[trigger] was[a]).0 == q;
                        assert(self.sysvars@[a].0 != self.sysvars@[j as int].0);
                    }
                }
                assert forall|q: Pubkey|
                    #![trigger accepted_written(mid, self.sysvars@.take(j + 1), q)]
                    listed(self.sysvars@.take(j + 1), q) is Some && surely_accepted(
                        q,
                        listed(self.sysvars@.take(j + 1), q)->0,
                    ) implies accepted_written(mid, self.sysvars@.take(j + 1), q) by {
                    if q != k {
                        assert(accepted_written(mid, self.sysvars@.take(j as int), q));
                    }
                }
                j += 1;
            }
            assert(self.sysvars@.take(j as int) =~= self.sysvars@);
        }
        keys.len()
    }
}

} // verus!
