//! A hash of what the machine holds, to compare runs by.
use vstd::prelude::*;
use litesvm::LiteSVM;
use std::hash::{Hash, Hasher};
use crate::sorting::lemma_insert_at;
#[allow(unused_imports)]
use crate::sorting::{stable_sorted, total_preorder};
use crate::svm::svm_get_account;
use crate::sysvars::read_clock;
#[allow(unused_imports)]
use crate::sysvars::svm_clock;
#[allow(unused_imports)]
use crate::svm::account_at;
use crate::types::{Account, Pubkey};
#[allow(unused_imports)]
use crate::types::AccountView;

verus! {

/// The hasher.
#[verifier::external_type_specification]
#[verifier::external_body]
pub struct ExFxHasher(rustc_hash::FxHasher);

/// A new hasher, on a machine with words of this many bits.
pub uninterp spec fn fx_start(bits: u32) -> rustc_hash::FxHasher;

/// `FxHasher::default`.
#[verifier::external_body]
fn fx_new() -> (h: rustc_hash::FxHasher)
    ensures
        h == fx_start(usize::BITS),
{
    rustc_hash::FxHasher::default()
}

/// A hasher after a number of 64 bits, on a machine with words of this many bits.
pub uninterp spec fn fx_after_word(bits: u32, h: rustc_hash::FxHasher, n: u64) -> rustc_hash::FxHasher;

/// `u64::hash` into an `FxHasher`. What it makes of it depends on how wide a word of the machine is.
#[verifier::external_body]
fn fx_word(h: &mut rustc_hash::FxHasher, n: u64)
    ensures
        *final(h) == fx_after_word(usize::BITS, *old(h), n),
{
    n.hash(h);
}

/// A hasher after a size, on a machine with words of this many bits.
pub uninterp spec fn fx_after_size(bits: u32, h: rustc_hash::FxHasher, n: usize) -> rustc_hash::FxHasher;

/// `usize::hash` into an `FxHasher`. What it makes of it depends on how wide a word of the machine is.
#[verifier::external_body]
fn fx_size(h: &mut rustc_hash::FxHasher, n: usize)
    ensures
        *final(h) == fx_after_size(usize::BITS, *old(h), n),
{
    n.hash(h);
}

/// An `FxHasher` after some bytes, on a machine with words of this many bits that multiplies words in
/// whole or in halves.
pub uninterp spec fn fx_after_bytes(bits: u32, whole: bool, h: rustc_hash::FxHasher, data: Seq<u8>) -> rustc_hash::FxHasher;

/// `Vec::hash` into an `FxHasher`. What it makes of the bytes depends on how wide a word of the machine
/// is, and on which of two ways of multiplying the crate was built with; which one that is, is left
/// unsaid.
#[verifier::external_body]
fn fx_bytes(h: &mut rustc_hash::FxHasher, data: &Vec<u8>)
    ensures
        exists|whole: bool| *final(h) == #[trigger] fx_after_bytes(usize::BITS, whole, *old(h), data@),
{
    data.hash(h);
}

/// The hash of a hasher, on a machine with words of this many bits.
pub uninterp spec fn fx_result(bits: u32, h: rustc_hash::FxHasher) -> u64;

/// `FxHasher::finish`. It depends on how wide a word of the machine is.
#[verifier::external_body]
fn fx_finish(h: &rustc_hash::FxHasher) -> (r: u64)
    ensures
        r == fx_result(usize::BITS, *h),
{
    h.finish()
}

/// What is hashed of an account: its lamports, its size, and the hash of its data.
#[derive(Clone, Copy, Debug, PartialEq, Eq, Structural)]
pub struct DebugEntry {
    pub lamports: u64,
    pub data_len: usize,
    pub data_hash: u64,
}

/// The order of entries: by lamports, then size, then hash.
pub open spec fn entry_leq() -> spec_fn(DebugEntry, DebugEntry) -> bool {
    |a: DebugEntry, b: DebugEntry|
        a.lamports < b.lamports || (a.lamports == b.lamports && (a.data_len < b.data_len || (a.data_len == b.data_len
            && a.data_hash <= b.data_hash)))
}

/// The entries in their order do not depend on the order in which they came.
pub proof fn lemma_entries_order(a: Seq<DebugEntry>, b: Seq<DebugEntry>)
    requires
        a.to_multiset() == b.to_multiset(),
    ensures
        stable_sorted(a, entry_leq()) == stable_sorted(b, entry_leq()),
{
    let leq = entry_leq();
    let x = stable_sorted(a, leq);
    let y = stable_sorted(b, leq);
    assert(total_preorder(leq));
    crate::sorting::lemma_sorted_permutes(a, leq);
    crate::sorting::lemma_sorted_permutes(b, leq);
    crate::sorting::lemma_sorted_in_order(a, leq);
    crate::sorting::lemma_sorted_in_order(b, leq);
    assert forall|i: int, j: int| 0 <= i < j < x.len() implies leq(x[i], x[j]) by {}
    assert forall|i: int, j: int| 0 <= i < j < y.len() implies leq(y[i], y[j]) by {}
    assert(vstd::relations::sorted_by(x, leq));
    assert(vstd::relations::sorted_by(y, leq));
    assert(vstd::relations::total_ordering(leq));
    vstd::seq_lib::lemma_sorted_unique(x, y, leq);
}

fn goes_before(a: &DebugEntry, b: &DebugEntry) -> (r: bool)
    ensures
        r == entry_leq()(*a, *b),
{
    a.lamports < b.lamports || (a.lamports == b.lamports && (a.data_len < b.data_len || (a.data_len == b.data_len
        && a.data_hash <= b.data_hash)))
}

/// The entries in their order.
pub fn sort_entries(entries: &Vec<DebugEntry>) -> (r: Vec<DebugEntry>)
    ensures
        r@ == stable_sorted(entries@, entry_leq()),
{
    let mut r: Vec<DebugEntry> = Vec::new();
    let mut i: usize = 0;
    assert(r@ =~= stable_sorted(entries@.take(0), entry_leq()));
    while i < entries.len()
        invariant
            i <= entries@.len(),
            r@ == stable_sorted(entries@.take(i as int), entry_leq()),
        decreases entries.len() - i,
    {
        let x = entries[i];
        let mut p: usize = r.len();
        while p > 0 && !goes_before(&r[p - 1], &x)
            invariant
                p <= r@.len(),
                forall|j: int| p <= j < r@.len() ==> !entry_leq()(#[trigger] r@[j], x),
            decreases p,
        {
            p -= 1;
        }
        proof {
            lemma_insert_at(r@, x, entry_leq(), p as int);
            assert(entries@.take(i + 1).drop_last() =~= entries@.take(i as int));
        }
        r.insert(p, x);
        i += 1;
    }
    assert(entries@.take(i as int) =~= entries@);
    r
}

/// What is handed to the hasher.
#[derive(Clone, Copy, Debug, PartialEq, Eq, Structural)]
pub enum HashPart {
    Word(u64),
    Size(usize),
}

/// Those of the accounts that there are, in their order.
pub open spec fn found_accounts(svm: LiteSVM, keys: Seq<Pubkey>) -> Seq<AccountView>
    decreases keys.len(),
{
    if keys.len() == 0 {
        Seq::empty()
    } else {
        let before = found_accounts(svm, keys.drop_last());
        match account_at(svm, keys.last()) {
            Some(a) => before.push(a),
            None => before,
        }
    }
}

/// Some accounts, as values.
pub open spec fn account_views(v: Seq<Account>) -> Seq<AccountView> {
    v.map_values(|a: Account| a@)
}

/// Those of the accounts that there are, in their order.
pub fn list_found(svm: &LiteSVM, keys: &[Pubkey]) -> (r: Vec<Account>)
    ensures
        account_views(r@) == found_accounts(*svm, keys@),
{
    let mut r: Vec<Account> = Vec::new();
    let mut i: usize = 0;
    assert(account_views(r@) =~= found_accounts(*svm, keys@.take(0)));
    while i < keys.len()
        invariant
            i <= keys@.len(),
            account_views(r@) == found_accounts(*svm, keys@.take(i as int)),
        decreases keys.len() - i,
    {
        assert(keys@.take(i + 1).drop_last() =~= keys@.take(i as int));
        match svm_get_account(svm, &keys[i]) {
            Some(a) => {
                let ghost before = r@;
                r.push(a);
                assert(account_views(r@) =~= account_views(before).push(a@));
            },
            None => {},
        }
        i += 1;
    }
    assert(keys@.take(i as int) =~= keys@);
    r
}

/// The entry of an account, with the hash of its data.
pub open spec fn entry_of(a: AccountView, data_hash: u64) -> DebugEntry {
    DebugEntry { lamports: a.lamports, data_len: a.data.len() as usize, data_hash }
}

/// The entries of some accounts, with the hashes of their data.
pub open spec fn entries_of(accounts: Seq<AccountView>, hashes: Seq<u64>) -> Seq<DebugEntry> {
    Seq::new(accounts.len(), |i: int| entry_of(accounts[i], hashes[i]))
}

/// What is handed to the hasher of some entries: of each its lamports, its size and the hash of its data.
pub open spec fn entry_parts(entries: Seq<DebugEntry>) -> Seq<HashPart>
    decreases entries.len(),
{
    if entries.len() == 0 {
        Seq::empty()
    } else {
        let e = entries.last();
        entry_parts(entries.drop_last()) + seq![
            HashPart::Word(e.lamports),
            HashPart::Size(e.data_len),
            HashPart::Word(e.data_hash),
        ]
    }
}

/// All that is handed to the hasher: the slot and the epoch, then the entries in their order.
pub open spec fn debug_parts(slot: u64, epoch: u64, accounts: Seq<AccountView>, hashes: Seq<u64>) -> Seq<HashPart> {
    seq![HashPart::Word(slot), HashPart::Word(epoch)] + entry_parts(
        stable_sorted(entries_of(accounts, hashes), entry_leq()),
    )
}

/// All that is handed to the hasher, in its order, for accounts whose data have these hashes.
pub fn list_debug_parts(slot: u64, epoch: u64, accounts: &Vec<Account>, hashes: &Vec<u64>) -> (r: Vec<HashPart>)
    requires
        hashes@.len() == accounts@.len(),
    ensures
        r@ == debug_parts(slot, epoch, account_views(accounts@), hashes@),
{
    let ghost v = account_views(accounts@);
    let mut entries: Vec<DebugEntry> = Vec::new();
    let mut i: usize = 0;
    while i < accounts.len()
        invariant
            i <= accounts@.len(),
            hashes@.len() == accounts@.len(),
            v == account_views(accounts@),
            entries@ == entries_of(v, hashes@).take(i as int),
        decreases accounts.len() - i,
    {
        let ghost before = entries@;
        entries.push(
            DebugEntry { lamports: accounts[i].lamports, data_len: accounts[i].data.len(), data_hash: hashes[i] },
        );
        assert(v[i as int] == accounts@[i as int]@);
        assert(entries@ =~= entries_of(v, hashes@).take(i + 1));
        i += 1;
    }
    assert(entries@ =~= entries_of(v, hashes@));
    let sorted = sort_entries(&entries);
    let mut r: Vec<HashPart> = Vec::new();
    r.push(HashPart::Word(slot));
    r.push(HashPart::Word(epoch));
    let ghost head = seq![HashPart::Word(slot), HashPart::Word(epoch)];
    let mut j: usize = 0;
    assert(r@ =~= head + entry_parts(sorted@.take(0)));
    while j < sorted.len()
        invariant
            j <= sorted@.len(),
            r@ == head + entry_parts(sorted@.take(j as int)),
        decreases sorted.len() - j,
    {
        assert(sorted@.take(j + 1).drop_last() =~= sorted@.take(j as int));
        r.push(HashPart::Word(sorted[j].lamports));
        r.push(HashPart::Size(sorted[j].data_len));
        r.push(HashPart::Word(sorted[j].data_hash));
        assert(r@ =~= head + entry_parts(sorted@.take(j + 1)));
        j += 1;
    }
    assert(sorted@.take(j as int) =~= sorted@);
    r
}

/// What is handed to the hasher does not depend on the order of the accounts, where each comes with the
/// hash of its data.
pub proof fn lemma_parts_order(slot: u64, epoch: u64, a: Seq<AccountView>, ha: Seq<u64>, b: Seq<AccountView>, hb: Seq<u64>)
    requires
        entries_of(a, ha).to_multiset() == entries_of(b, hb).to_multiset(),
    ensures
        debug_parts(slot, epoch, a, ha) == debug_parts(slot, epoch, b, hb),
{
    lemma_entries_order(entries_of(a, ha), entries_of(b, hb));
}

/// A hasher after all of some parts, on a machine with words of this many bits.
pub open spec fn fx_fed(bits: u32, parts: Seq<HashPart>) -> rustc_hash::FxHasher
    decreases parts.len(),
{
    if parts.len() == 0 {
        fx_start(bits)
    } else {
        let before = fx_fed(bits, parts.drop_last());
        match parts.last() {
            HashPart::Word(n) => fx_after_word(bits, before, n),
            HashPart::Size(n) => fx_after_size(bits, before, n),
        }
    }
}

/// The hash of some parts.
pub fn hash_parts(parts: &Vec<HashPart>) -> (r: u64)
    ensures
        r == fx_result(usize::BITS, fx_fed(usize::BITS, parts@)),
{
    let mut hasher = fx_new();
    let mut j: usize = 0;
    while j < parts.len()
        invariant
            j <= parts@.len(),
            hasher == fx_fed(usize::BITS, parts@.take(j as int)),
        decreases parts.len() - j,
    {
        assert(parts@.take(j + 1).drop_last() =~= parts@.take(j as int));
        match parts[j] {
            HashPart::Word(n) => fx_word(&mut hasher, n),
            HashPart::Size(n) => fx_size(&mut hasher, n),
        }
        j += 1;
    }
    assert(parts@.take(j as int) =~= parts@);
    fx_finish(&hasher)
}

/// The hash is one of some data: of the two that machines with words of one width give.
pub open spec fn data_hashed(data: Seq<u8>, hash: u64) -> bool {
    exists|whole: bool|
        hash == fx_result(
            usize::BITS,
            #[trigger] fx_after_bytes(usize::BITS, whole, fx_start(usize::BITS), data),
        )
}

/// The hash is that of the clock and of those of the accounts that there are, with the hashes of their
/// data.
pub open spec fn debug_hash(svm: LiteSVM, keys: Seq<Pubkey>, hash: u64) -> bool {
    let c = svm_clock(svm)->0;
    let found = found_accounts(svm, keys);
    exists|hashes: Seq<u64>|
        hashes.len() == found.len() && (forall|i: int|
            #![trigger hashes[i]]
            0 <= i < found.len() ==> data_hashed(found[i].data, hashes[i])) && hash == fx_result(
            usize::BITS,
            fx_fed(usize::BITS, #[trigger] debug_parts(c.slot, c.epoch, found, hashes)),
        )
}

/// The hash of some data.
fn hash_data(data: &Vec<u8>) -> (r: u64)
    ensures
        data_hashed(data@, r),
{
    let mut h = fx_new();
    fx_bytes(&mut h, data);
    fx_finish(&h)
}

/// A hash of the clock and of some accounts, and the slot of the clock. Which of two hashes the data of an
/// account has depends on the machine that computes it.
pub fn compute_svm_debug_hash(svm: &LiteSVM, tracked_accounts: &[Pubkey]) -> (r: (u64, u64))
    requires
        svm_clock(*svm) is Some,
    ensures
        r.1 == svm_clock(*svm)->0.slot,
        debug_hash(*svm, tracked_accounts@, r.0),
{
    let (slot, epoch): (u64, u64) = match read_clock(svm) {
        Some(c) => (c.slot, c.epoch),
        None => (0, 0),
    };
    let accounts = list_found(svm, tracked_accounts);
    let mut hashes: Vec<u64> = Vec::new();
    let mut i: usize = 0;
    while i < accounts.len()
        invariant
            i <= accounts@.len(),
            hashes@.len() == i,
            forall|j: int| #![trigger hashes@[j]] 0 <= j < i ==> data_hashed(accounts@[j]@.data, hashes@[j]),
        decreases accounts.len() - i,
    {
        hashes.push(hash_data(&accounts[i].data));
        i += 1;
    }
    let parts = list_debug_parts(slot, epoch, &accounts, &hashes);
    proof {
        let found = found_accounts(*svm, tracked_accounts@);
        assert(parts@ == debug_parts(slot, epoch, found, hashes@));
        assert forall|j: int| #![trigger hashes@[j]] 0 <= j < found.len() implies data_hashed(found[j].data, hashes@[j]) by {
            assert(found[j] == accounts@[j]@);
        }
    }
    (hash_parts(&parts), slot)
}

/// A hash of the clock and of some accounts, and the slot of the clock, where there is a clock.
pub fn try_svm_debug_hash(svm: &LiteSVM, tracked_accounts: &[Pubkey]) -> (r: Option<(u64, u64)>)
    ensures
        match r {
            Some(h) => svm_clock(*svm) is Some && h.1 == svm_clock(*svm)->0.slot && debug_hash(
                *svm,
                tracked_accounts@,
                h.0,
            ),
            None => svm_clock(*svm) is None,
        },
{
    if read_clock(svm).is_none() {
        return None;
    }
    Some(compute_svm_debug_hash(svm, tracked_accounts))
}

} // verus!
