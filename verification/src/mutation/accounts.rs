//! The accounts that instructions use, and how instructions are changed.
use vstd::prelude::*;
use crate::types::{add_key, copy_bytes, list_slots, AccountMeta, Instruction, Pubkey, Slot};
#[allow(unused_imports)]
use crate::types::{filled_key, in_instruction, ix_views, lemma_slots_of, slots_of, with_key, InstructionView};

verus! {

/// The addresses of some accounts, each once, in the order in which they come.
pub open spec fn slot_keys(slots: Seq<Slot>) -> Seq<Pubkey>
    decreases slots.len(),
{
    if slots.len() == 0 {
        Seq::empty()
    } else {
        with_key(slot_keys(slots.drop_last()), slots.last().meta.pubkey)
    }
}

/// The addresses of the accounts of the instructions, each once, in the order in which they come.
pub open spec fn account_keys(ixs: Seq<InstructionView>) -> Seq<Pubkey> {
    slot_keys(slots_of(ixs))
}

/// Every address that some instruction uses is listed, and no other, and none twice.
pub proof fn lemma_slot_keys(slots: Seq<Slot>)
    ensures
        forall|k: Pubkey| #[trigger] slot_keys(slots).contains(k) <==> exists|i: int|
            0 <= i < slots.len() && (#[trigger] slots[i]).meta.pubkey == k,
        slot_keys(slots).no_duplicates(),
    decreases slots.len(),
{
    if slots.len() > 0 {
        let d = slots.drop_last();
        let before = slot_keys(d);
        let last = slots.last().meta.pubkey;
        lemma_slot_keys(d);
        assert forall|k: Pubkey| #[trigger] slot_keys(slots).contains(k) <==> exists|i: int|
            0 <= i < slots.len() && (#[trigger] slots[i]).meta.pubkey == k by {
            if slot_keys(slots).contains(k) {
                if before.contains(k) {
                    let i = choose|i: int| 0 <= i < d.len() && (#[trigger] d[i]).meta.pubkey == k;
                    assert(slots[i] == d[i]);
                } else {
                    assert(k == last);
                    assert(slots[slots.len() - 1].meta.pubkey == k);
                }
            }
            if exists|i: int| 0 <= i < slots.len() && (#[trigger] slots[i]).meta.pubkey == k {
                let i = choose|i: int| 0 <= i < slots.len() && (#[trigger] slots[i]).meta.pubkey == k;
                if i < d.len() {
                    assert(d[i] == slots[i]);
                    assert(before.contains(k));
                    let j = choose|j: int| 0 <= j < before.len() && before[j] == k;
                    assert(slot_keys(slots)[j] == k);
                } else if !before.contains(last) {
                    assert(slot_keys(slots)[before.len() as int] == k);
                }
            }
        }
    }
}

/// The addresses of the accounts of the instructions, each once, in the order in which they come.
pub fn instruction_account_keys_ordered(instructions: &[Instruction]) -> (r: Vec<Pubkey>)
    ensures
        r@ == account_keys(ix_views(instructions@)),
{
    let slots = list_slots(instructions);
    let mut r: Vec<Pubkey> = Vec::new();
    let mut i: usize = 0;
    while i < slots.len()
        invariant
            i <= slots@.len(),
            r@ == slot_keys(slots@.take(i as int)),
        decreases slots.len() - i,
    {
        assert(slots@.take(i + 1).drop_last() =~= slots@.take(i as int));
        add_key(&mut r, slots[i].meta.pubkey);
        i += 1;
    }
    assert(slots@.take(i as int) =~= slots@);
    r
}

/// The first use of each account, in the order in which they come.
pub open spec fn first_slots(slots: Seq<Slot>) -> Seq<Slot>
    decreases slots.len(),
{
    if slots.len() == 0 {
        Seq::empty()
    } else {
        let before = first_slots(slots.drop_last());
        if slot_keys(slots.drop_last()).contains(slots.last().meta.pubkey) { before } else { before.push(slots.last()) }
    }
}

/// The first use of each account of the instructions, in the order in which they come.
pub fn list_first_slots(instructions: &[Instruction]) -> (r: Vec<Slot>)
    ensures
        r@ == first_slots(slots_of(ix_views(instructions@))),
{
    let slots = list_slots(instructions);
    let mut seen: Vec<Pubkey> = Vec::new();
    let mut r: Vec<Slot> = Vec::new();
    let mut i: usize = 0;
    while i < slots.len()
        invariant
            i <= slots@.len(),
            seen@ == slot_keys(slots@.take(i as int)),
            r@ == first_slots(slots@.take(i as int)),
        decreases slots.len() - i,
    {
        assert(slots@.take(i + 1).drop_last() =~= slots@.take(i as int));
        if add_key(&mut seen, slots[i].meta.pubkey) {
            r.push(slots[i]);
        }
        i += 1;
    }
    assert(slots@.take(i as int) =~= slots@);
    r
}

/// The account with `decoy` in the place of `target`.
pub open spec fn meta_rewritten(m: AccountMeta, target: Pubkey, decoy: Pubkey) -> AccountMeta {
    if m.pubkey == target { AccountMeta { pubkey: decoy, ..m } } else { m }
}

/// The instructions with `decoy` in the place of `target`, and all else as it is.
pub open spec fn rewritten(ixs: Seq<InstructionView>, target: Pubkey, decoy: Pubkey) -> Seq<InstructionView> {
    Seq::new(
        ixs.len(),
        |i: int|
            InstructionView {
                accounts: Seq::new(ixs[i].accounts.len(), |j: int| meta_rewritten(ixs[i].accounts[j], target, decoy)),
                ..ixs[i]
            },
    )
}

/// A copy of the instructions with `decoy` in the place of `target`.
pub fn rewrite_account(instructions: &[Instruction], target: Pubkey, decoy: Pubkey) -> (r: Vec<Instruction>)
    ensures
        ix_views(r@) == rewritten(ix_views(instructions@), target, decoy),
{
    let ghost want = rewritten(ix_views(instructions@), target, decoy);
    let mut r: Vec<Instruction> = Vec::new();
    let mut i: usize = 0;
    while i < instructions.len()
        invariant
            i <= instructions@.len(),
            want == rewritten(ix_views(instructions@), target, decoy),
            r@.len() == i,
            forall|k: int| 0 <= k < i ==> (#[trigger] r@[k])@ == want[k],
        decreases instructions.len() - i,
    {
        let ix = &instructions[i];
        let mut accounts: Vec<AccountMeta> = Vec::new();
        let mut j: usize = 0;
        while j < ix.accounts.len()
            invariant
                j <= ix.accounts@.len(),
                accounts@.len() == j,
                forall|k: int| 0 <= k < j ==> #[trigger] accounts@[k] == meta_rewritten(ix.accounts@[k], target, decoy),
            decreases ix.accounts.len() - j,
        {
            let m = ix.accounts[j];
            accounts.push(
                AccountMeta {
                    pubkey: if m.pubkey == target {
                        decoy
                    } else {
                        m.pubkey
                    },
                    is_signer: m.is_signer,
                    is_writable: m.is_writable,
                },
            );
            j += 1;
        }
        assert(accounts@ =~= want[i as int].accounts);
        r.push(Instruction { program_id: ix.program_id, accounts, data: copy_bytes(ix.data.as_slice()) });
        i += 1;
    }
    assert(ix_views(r@) =~= want);
    r
}

/// The account, not asked to sign where it is `target`.
pub open spec fn meta_unsigned(m: AccountMeta, target: Pubkey) -> AccountMeta {
    if m.pubkey == target { AccountMeta { is_signer: false, ..m } } else { m }
}

/// The instructions with `target` never asked to sign, and all else as it is.
pub open spec fn unsigned_by(ixs: Seq<InstructionView>, target: Pubkey) -> Seq<InstructionView> {
    Seq::new(
        ixs.len(),
        |i: int|
            InstructionView {
                accounts: Seq::new(ixs[i].accounts.len(), |j: int| meta_unsigned(ixs[i].accounts[j], target)),
                ..ixs[i]
            },
    )
}

/// A copy of the instructions with `target` never asked to sign.
pub fn clear_signer(instructions: &[Instruction], target: Pubkey) -> (r: Vec<Instruction>)
    ensures
        ix_views(r@) == unsigned_by(ix_views(instructions@), target),
{
    let ghost want = unsigned_by(ix_views(instructions@), target);
    let mut r: Vec<Instruction> = Vec::new();
    let mut i: usize = 0;
    while i < instructions.len()
        invariant
            i <= instructions@.len(),
            want == unsigned_by(ix_views(instructions@), target),
            r@.len() == i,
            forall|k: int| 0 <= k < i ==> (#[trigger] r@[k])@ == want[k],
        decreases instructions.len() - i,
    {
        let ix = &instructions[i];
        let mut accounts: Vec<AccountMeta> = Vec::new();
        let mut j: usize = 0;
        while j < ix.accounts.len()
            invariant
                j <= ix.accounts@.len(),
                accounts@.len() == j,
                forall|k: int| 0 <= k < j ==> #[trigger] accounts@[k] == meta_unsigned(ix.accounts@[k], target),
            decreases ix.accounts.len() - j,
        {
            let m = ix.accounts[j];
            accounts.push(
                AccountMeta {
                    pubkey: m.pubkey,
                    is_signer: m.is_signer && !(m.pubkey == target),
                    is_writable: m.is_writable,
                },
            );
            j += 1;
        }
        assert(accounts@ =~= want[i as int].accounts);
        r.push(Instruction { program_id: ix.program_id, accounts, data: copy_bytes(ix.data.as_slice()) });
        i += 1;
    }
    assert(ix_views(r@) =~= want);
    r
}

/// Some instruction asks the account to sign.
pub open spec fn signs(slots: Seq<Slot>, k: Pubkey) -> bool {
    exists|i: int| 0 <= i < slots.len() && (#[trigger] slots[i]).meta.pubkey == k && slots[i].meta.is_signer
}

/// Whether some instruction asks the account to sign.
pub fn account_has_signer_meta(instructions: &[Instruction], pubkey: Pubkey) -> (r: bool)
    ensures
        r == signs(slots_of(ix_views(instructions@)), pubkey),
{
    let slots = list_slots(instructions);
    let mut i: usize = 0;
    while i < slots.len()
        invariant
            i <= slots@.len(),
            slots@ == slots_of(ix_views(instructions@)),
            forall|j: int| 0 <= j < i ==> !((#[trigger] slots@[j]).meta.pubkey == pubkey && slots@[j].meta.is_signer),
        decreases slots.len() - i,
    {
        if slots[i].meta.pubkey == pubkey && slots[i].meta.is_signer {
            return true;
        }
        i += 1;
    }
    false
}

/// The accounts that are asked to sign, each once, in the order in which they come.
pub open spec fn signer_slots(slots: Seq<Slot>) -> Seq<Pubkey>
    decreases slots.len(),
{
    if slots.len() == 0 {
        Seq::empty()
    } else {
        let before = signer_slots(slots.drop_last());
        if slots.last().meta.is_signer { with_key(before, slots.last().meta.pubkey) } else { before }
    }
}

/// The accounts that are asked to sign, each once, in the order in which they come.
pub fn signer_meta_pubkeys(instructions: &[Instruction]) -> (r: Vec<Pubkey>)
    ensures
        r@ == signer_slots(slots_of(ix_views(instructions@))),
{
    let slots = list_slots(instructions);
    let mut r: Vec<Pubkey> = Vec::new();
    let mut i: usize = 0;
    while i < slots.len()
        invariant
            i <= slots@.len(),
            r@ == signer_slots(slots@.take(i as int)),
        decreases slots.len() - i,
    {
        assert(slots@.take(i + 1).drop_last() =~= slots@.take(i as int));
        if slots[i].meta.is_signer {
            add_key(&mut r, slots[i].meta.pubkey);
        }
        i += 1;
    }
    assert(slots@.take(i as int) =~= slots@);
    r
}

/// What the first instruction that uses the account asks of it: to be written, and to sign.
pub open spec fn meta_flags(slots: Seq<Slot>, k: Pubkey) -> Option<(bool, bool)>
    decreases slots.len(),
{
    if slots.len() == 0 {
        None
    } else if meta_flags(slots.drop_last(), k) is Some {
        meta_flags(slots.drop_last(), k)
    } else if slots.last().meta.pubkey == k {
        Some((slots.last().meta.is_writable, slots.last().meta.is_signer))
    } else {
        None
    }
}

proof fn lemma_meta_flags(slots: Seq<Slot>, k: Pubkey, i: int)
    requires
        0 <= i < slots.len(),
        meta_flags(slots.take(i), k) is None,
        slots[i].meta.pubkey == k,
    ensures
        meta_flags(slots, k) == Some((slots[i].meta.is_writable, slots[i].meta.is_signer)),
    decreases slots.len(),
{
    if i == slots.len() - 1 {
        assert(slots.take(i) =~= slots.drop_last());
    } else {
        assert(slots.drop_last().take(i) =~= slots.take(i));
        lemma_meta_flags(slots.drop_last(), k, i);
    }
}

/// What the first instruction that uses the account asks of it: to be written, and to sign.
pub fn account_meta_flags(instructions: &[Instruction], pubkey: Pubkey) -> (r: Option<(bool, bool)>)
    ensures
        r == meta_flags(slots_of(ix_views(instructions@)), pubkey),
{
    let slots = list_slots(instructions);
    let mut i: usize = 0;
    while i < slots.len()
        invariant
            i <= slots@.len(),
            slots@ == slots_of(ix_views(instructions@)),
            meta_flags(slots@.take(i as int), pubkey) is None,
        decreases slots.len() - i,
    {
        assert(slots@.take(i + 1).drop_last() =~= slots@.take(i as int));
        if slots[i].meta.pubkey == pubkey {
            proof {
                lemma_meta_flags(slots@, pubkey, i as int);
            }
            return Some((slots[i].meta.is_writable, slots[i].meta.is_signer));
        }
        i += 1;
    }
    assert(slots@.take(i as int) =~= slots@);
    None
}

/// The owner that is written in the place of the true one.
pub open spec fn attacker() -> Pubkey {
    filled_key(0xCC)
}

/// The address that stands in for another.
pub open spec fn decoy() -> Pubkey {
    filled_key(0xDD)
}

/// The owner that is written in the place of the true one.
pub fn attacker_key() -> (k: Pubkey)
    ensures
        k == attacker(),
{
    Pubkey::filled(0xCC)
}

/// An owner other than the true one.
pub open spec fn other_owner(owner: Pubkey) -> Pubkey {
    if owner == attacker() { filled_key(0xCD) } else { attacker() }
}

/// An address other than `target`.
pub open spec fn other_key(target: Pubkey) -> Pubkey {
    if target == decoy() { filled_key(0xDE) } else { decoy() }
}

/// An owner other than the true one: a mutation of the owner is always a change.
pub fn wrong_owner(original_owner: Pubkey) -> (r: Pubkey)
    ensures
        r == other_owner(original_owner),
        r != original_owner,
{
    let first = Pubkey::filled(0xCC);
    let second = Pubkey::filled(0xCD);
    proof {
        assert(first@[0] != second@[0]);
    }
    if original_owner == first {
        second
    } else {
        first
    }
}

/// An address other than `target`: a substitution is always a change.
pub fn decoy_for(target: Pubkey) -> (r: Pubkey)
    ensures
        r == other_key(target),
        r != target,
{
    let first = Pubkey::filled(0xDD);
    let second = Pubkey::filled(0xDE);
    proof {
        assert(first@[0] != second@[0]);
    }
    if target == first {
        second
    } else {
        first
    }
}

/// The first draw, or the second where the first is `target`.
pub open spec fn drawn(target: Pubkey, first: Pubkey, second: Pubkey) -> Pubkey {
    if first == target { second } else { first }
}

/// The address that stands in for a token account: the first draw, or the second where the first is
/// `target` itself.
pub fn pick_decoy(target: Pubkey, first: Pubkey, second: Pubkey) -> (r: Pubkey)
    ensures
        r == drawn(target, first, second),
{
    if first == target {
        second
    } else {
        first
    }
}

/// The address is the pick between two draws, both points of the curve.
pub open spec fn drawn_for(target: Pubkey, r: Pubkey) -> bool {
    exists|first: Pubkey, second: Pubkey|
        crate::keys::curve_point(first@) && crate::keys::curve_point(second@) && r == #[trigger] drawn(target, first, second)
}

/// An address drawn at random to stand in for a token account.
pub fn token_decoy_for(target: Pubkey) -> (r: Pubkey)
    ensures
        drawn_for(target, r),
        crate::keys::curve_point(r@),
{
    let first = crate::keys::Keypair::new();
    let second = crate::keys::Keypair::new();
    pick_decoy(target, first.key, second.key)
}

/// The pairs of the member at `i` with each later one.
pub open spec fn pairs_at(s: Seq<Pubkey>, i: int) -> Seq<(Pubkey, Pubkey)> {
    Seq::new((s.len() - i - 1) as nat, |j: int| (s[i], s[i + 1 + j]))
}

/// The pairs of each of the first `n` members with each later one.
pub open spec fn pairs_upto(s: Seq<Pubkey>, n: int) -> Seq<(Pubkey, Pubkey)>
    decreases n,
{
    if n <= 0 {
        Seq::empty()
    } else {
        pairs_upto(s, n - 1) + pairs_at(s, n - 1)
    }
}

/// The pairs of any two members, the earlier one first.
pub open spec fn all_pairs(s: Seq<Pubkey>) -> Seq<(Pubkey, Pubkey)> {
    pairs_upto(s, s.len() as int)
}

/// The pairs of any two members, the earlier one first.
pub fn list_pairs(v: &Vec<Pubkey>) -> (r: Vec<(Pubkey, Pubkey)>)
    ensures
        r@ == all_pairs(v@),
{
    let mut r: Vec<(Pubkey, Pubkey)> = Vec::new();
    let mut i: usize = 0;
    while i < v.len()
        invariant
            i <= v@.len(),
            r@ == pairs_upto(v@, i as int),
        decreases v.len() - i,
    {
        let ghost before = r@;
        let mut j: usize = i + 1;
        assert(before =~= before + pairs_at(v@, i as int).take(0));
        while j < v.len()
            invariant
                i < j <= v@.len(),
                r@ == before + pairs_at(v@, i as int).take(j - i - 1),
            decreases v.len() - j,
        {
            r.push((v[i], v[j]));
            assert(pairs_at(v@, i as int)[j - i - 1] == (v@[i as int], v@[j as int]));
            assert(r@ =~= before + pairs_at(v@, i as int).take(j - i));
            j += 1;
        }
        assert(pairs_at(v@, i as int).take(j - i - 1) =~= pairs_at(v@, i as int));
        i += 1;
    }
    r
}

/// Putting one account in the place of another changes nothing but that: the program, the data and what
/// is asked of each account stay, every other account stays, and the replaced one is used no more.
pub proof fn lemma_rewritten(ixs: Seq<InstructionView>, target: Pubkey, decoy: Pubkey)
    ensures
        rewritten(ixs, target, decoy).len() == ixs.len(),
        forall|i: int|
            0 <= i < ixs.len() ==> {
                let r = #[trigger] rewritten(ixs, target, decoy)[i];
                r.program_id == ixs[i].program_id && r.data == ixs[i].data && r.accounts.len() == ixs[i].accounts.len()
            },
        forall|i: int, j: int|
            0 <= i < ixs.len() && 0 <= j < ixs[i].accounts.len() ==> {
                let r = #[trigger] rewritten(ixs, target, decoy)[i].accounts[j];
                let m = ixs[i].accounts[j];
                r.is_signer == m.is_signer && r.is_writable == m.is_writable && r.pubkey == if m.pubkey == target {
                    decoy
                } else {
                    m.pubkey
                }
            },
        target != decoy ==> !account_keys(rewritten(ixs, target, decoy)).contains(target),
        rewritten(ixs, target, target) == ixs,
{
    let r = rewritten(ixs, target, decoy);
    let same = rewritten(ixs, target, target);
    assert forall|i: int| 0 <= i < ixs.len() implies #[trigger] same[i] == ixs[i] by {
        assert(same[i].accounts =~= ixs[i].accounts);
    }
    assert(same =~= ixs);
    if target != decoy && account_keys(r).contains(target) {
        lemma_slot_keys(slots_of(r));
        lemma_slots_of(r);
        let s = slots_of(r);
        let i = choose|i: int| 0 <= i < s.len() && (#[trigger] s[i]).meta.pubkey == target;
        assert(in_instruction(r, s[i]));
    }
}

/// Asking an account not to sign changes nothing but that: it signs no more, and all else stays.
pub proof fn lemma_unsigned_by(ixs: Seq<InstructionView>, target: Pubkey)
    ensures
        unsigned_by(ixs, target).len() == ixs.len(),
        !signs(slots_of(unsigned_by(ixs, target)), target),
        forall|i: int|
            0 <= i < ixs.len() ==> {
                let r = #[trigger] unsigned_by(ixs, target)[i];
                r.program_id == ixs[i].program_id && r.data == ixs[i].data && r.accounts.len() == ixs[i].accounts.len()
            },
        forall|i: int, j: int|
            0 <= i < ixs.len() && 0 <= j < ixs[i].accounts.len() ==> {
                let r = #[trigger] unsigned_by(ixs, target)[i].accounts[j];
                let m = ixs[i].accounts[j];
                r.pubkey == m.pubkey && r.is_writable == m.is_writable && r.is_signer == (m.is_signer && m.pubkey != target)
            },
{
    let r = unsigned_by(ixs, target);
    let s = slots_of(r);
    lemma_slots_of(r);
    assert forall|i: int| 0 <= i < s.len() && (#[trigger] s[i]).meta.pubkey == target implies !s[i].meta.is_signer by {
        assert(in_instruction(r, s[i]));
    }
}

} // verus!
