//! Addresses, accounts and instructions as plain values.
use vstd::prelude::*;
use crate::text::same_bytes;

verus! {

/// An address.
#[derive(Clone, Copy, Eq, Debug, Hash)]
pub struct Pubkey {
    pub bytes: [u8; 32],
}

impl View for Pubkey {
    type V = Seq<u8>;

    open spec fn view(&self) -> Seq<u8> {
        self.bytes@
    }
}

/// Addresses with the same bytes are equal.
pub proof fn lemma_key_ext(a: Pubkey, b: Pubkey)
    ensures
        a@ == b@ <==> a == b,
{
    if a@ == b@ {
        assert(a.bytes =~= b.bytes);
    }
}

/// The address with these bytes.
pub open spec fn key_of(bytes: Seq<u8>) -> Pubkey {
    choose|k: Pubkey| k@ == bytes
}

/// An address is the one with its bytes.
pub proof fn lemma_key_of(k: Pubkey)
    ensures
        key_of(k@) == k,
{
    lemma_key_ext(key_of(k@), k);
}

/// The address that consists of one byte, repeated.
pub open spec fn filled_key(b: u8) -> Pubkey {
    key_of(Seq::new(32, |i: int| b))
}

impl PartialEq for Pubkey {
    fn eq(&self, other: &Self) -> (r: bool) {
        let mut i: usize = 0;
        while i < 32
            invariant
                i <= 32,
                forall|j: int| 0 <= j < i ==> self.bytes@[j] == other.bytes@[j],
            decreases 32 - i,
        {
            if self.bytes[i] != other.bytes[i] {
                return false;
            }
            i += 1;
        }
        assert(self.bytes =~= other.bytes);
        true
    }
}

impl vstd::std_specs::cmp::PartialEqSpecImpl for Pubkey {
    open spec fn obeys_eq_spec() -> bool {
        true
    }

    open spec fn eq_spec(&self, other: &Self) -> bool {
        *self == *other
    }
}

/// The address of the system program: all zero.
pub open spec fn zero_key() -> Seq<u8> {
    Seq::new(32, |i: int| 0u8)
}

impl Pubkey {
    /// The address with these bytes.
    pub fn new_from_array(bytes: [u8; 32]) -> (k: Pubkey)
        ensures
            k.bytes == bytes,
            k@ == bytes@,
    {
        Pubkey { bytes }
    }

    /// The bytes of the address.
    pub fn to_bytes(&self) -> (b: [u8; 32])
        ensures
            b@ == self@,
    {
        self.bytes
    }

    /// Whether the addresses are the same.
    pub fn same_as(&self, other: &Pubkey) -> (r: bool)
        ensures
            r == (*self == *other),
            r == (self@ == other@),
    {
        proof {
            lemma_key_ext(*self, *other);
        }
        *self == *other
    }

    /// The address that consists of one byte, repeated.
    pub fn filled(b: u8) -> (k: Pubkey)
        ensures
            k@ == Seq::new(32, |i: int| b),
            k == filled_key(b),
    {
        let k = Pubkey { bytes: [b; 32] };
        proof {
            assert(k@ =~= Seq::new(32, |i: int| b));
            lemma_key_of(k);
        }
        k
    }
}

impl Default for Pubkey {
    fn default() -> (k: Self)
        ensures
            k@ == zero_key(),
    {
        let k = Pubkey { bytes: [0u8; 32] };
        assert(k@ =~= zero_key());
        k
    }
}

/// An account that an instruction uses, with the rights it asks for.
#[derive(Clone, Copy, Debug)]
pub struct AccountMeta {
    pub pubkey: Pubkey,
    pub is_signer: bool,
    pub is_writable: bool,
}

/// A call of a program.
#[derive(Clone, Debug)]
pub struct Instruction {
    pub program_id: Pubkey,
    pub accounts: Vec<AccountMeta>,
    pub data: Vec<u8>,
}

/// A call of a program, as a value.
pub struct InstructionView {
    pub program_id: Pubkey,
    pub accounts: Seq<AccountMeta>,
    pub data: Seq<u8>,
}

impl View for Instruction {
    type V = InstructionView;

    open spec fn view(&self) -> InstructionView {
        InstructionView { program_id: self.program_id, accounts: self.accounts@, data: self.data@ }
    }
}

pub open spec fn ix_views(ixs: Seq<Instruction>) -> Seq<InstructionView> {
    Seq::new(ixs.len(), |i: int| ixs[i]@)
}

/// What the ledger holds at an address.
#[derive(Clone, Debug)]
pub struct Account {
    pub lamports: u64,
    pub data: Vec<u8>,
    pub owner: Pubkey,
    pub executable: bool,
    pub rent_epoch: u64,
}

/// What the ledger holds at an address, as a value.
pub struct AccountView {
    pub lamports: u64,
    pub data: Seq<u8>,
    pub owner: Pubkey,
    pub executable: bool,
    pub rent_epoch: u64,
}

impl View for Account {
    type V = AccountView;

    open spec fn view(&self) -> AccountView {
        AccountView {
            lamports: self.lamports,
            data: self.data@,
            owner: self.owner,
            executable: self.executable,
            rent_epoch: self.rent_epoch,
        }
    }
}

/// An account that may not exist, as a value.
pub open spec fn opt_account(a: Option<Account>) -> Option<AccountView> {
    match a {
        Some(a) => Some(a@),
        None => None,
    }
}

/// A copy of some bytes.
pub fn copy_bytes(data: &[u8]) -> (r: Vec<u8>)
    ensures
        r@ == data@,
{
    let mut r: Vec<u8> = Vec::new();
    let mut i: usize = 0;
    while i < data.len()
        invariant
            i <= data@.len(),
            r@ == data@.take(i as int),
        decreases data.len() - i,
    {
        r.push(data[i]);
        assert(data@.take(i + 1) =~= data@.take(i as int).push(data@[i as int]));
        i += 1;
    }
    assert(data@.take(i as int) =~= data@);
    r
}

/// Some zeros.
pub open spec fn zeros(n: nat) -> Seq<u8> {
    Seq::new(n, |i: int| 0u8)
}

/// Some zeros.
pub fn zero_bytes(n: usize) -> (r: Vec<u8>)
    ensures
        r@ == zeros(n as nat),
{
    let r: Vec<u8> = vec![0u8; n];
    assert(r@ =~= zeros(n as nat));
    r
}

impl Account {
    /// A copy.
    pub fn copy(&self) -> (r: Account)
        ensures
            r@ == self@,
    {
        Account {
            lamports: self.lamports,
            data: copy_bytes(self.data.as_slice()),
            owner: self.owner,
            executable: self.executable,
            rent_epoch: self.rent_epoch,
        }
    }
}

/// Whether two accounts, each of which may be missing, hold the same.
pub fn same_account_state(a: &Option<Account>, b: &Option<Account>) -> (r: bool)
    ensures
        r == (opt_account(*a) == opt_account(*b)),
{
    match (a, b) {
        (None, None) => true,
        (Some(a), Some(b)) => {
            let same = same_bytes(a.data.as_slice(), b.data.as_slice());
            a.lamports == b.lamports && same && a.owner == b.owner && a.executable == b.executable && a.rent_epoch
                == b.rent_epoch
        },
        _ => false,
    }
}

/// A copy of the account list of an instruction.
pub fn copy_metas(metas: &Vec<AccountMeta>) -> (r: Vec<AccountMeta>)
    ensures
        r@ == metas@,
{
    let mut r: Vec<AccountMeta> = Vec::new();
    let mut i: usize = 0;
    while i < metas.len()
        invariant
            i <= metas@.len(),
            r@ == metas@.take(i as int),
        decreases metas.len() - i,
    {
        r.push(metas[i]);
        assert(metas@.take(i + 1) =~= metas@.take(i as int).push(metas@[i as int]));
        i += 1;
    }
    assert(metas@.take(i as int) =~= metas@);
    r
}

impl Instruction {
    /// A copy.
    pub fn copy(&self) -> (r: Instruction)
        ensures
            r@ == self@,
    {
        Instruction {
            program_id: self.program_id,
            accounts: copy_metas(&self.accounts),
            data: copy_bytes(self.data.as_slice()),
        }
    }
}

/// A copy of some addresses.
pub fn copy_keys(keys: &Vec<Pubkey>) -> (r: Vec<Pubkey>)
    ensures
        r@ == keys@,
{
    let mut r: Vec<Pubkey> = Vec::new();
    let mut i: usize = 0;
    while i < keys.len()
        invariant
            i <= keys@.len(),
            r@ == keys@.take(i as int),
        decreases keys.len() - i,
    {
        r.push(keys[i]);
        assert(keys@.take(i + 1) =~= keys@.take(i as int).push(keys@[i as int]));
        i += 1;
    }
    assert(keys@.take(i as int) =~= keys@);
    r
}

/// Whether the addresses hold `k`.
pub fn has_key(v: &Vec<Pubkey>, k: &Pubkey) -> (r: bool)
    ensures
        r == v@.contains(*k),
{
    holds_key(v.as_slice(), k)
}

/// `s` with `k` behind it, unless it is there.
pub open spec fn with_key(s: Seq<Pubkey>, k: Pubkey) -> Seq<Pubkey> {
    if s.contains(k) { s } else { s.push(k) }
}

/// The addresses with one more are those there were and that one, and none twice where none was.
pub proof fn lemma_with_key(s: Seq<Pubkey>, x: Pubkey)
    ensures
        forall|k: Pubkey| #[trigger] with_key(s, x).contains(k) <==> s.contains(k) || k == x,
        s.no_duplicates() ==> with_key(s, x).no_duplicates(),
{
    assert forall|k: Pubkey| #[trigger] with_key(s, x).contains(k) <==> s.contains(k) || k == x by {
        if s.contains(k) && !s.contains(x) {
            let i = choose|i: int| 0 <= i < s.len() && s[i] == k;
            assert(s.push(x)[i] == k);
        }
        if k == x && !s.contains(x) {
            assert(s.push(x)[s.len() as int] == k);
        }
    }
}

/// Adds an address, unless it is there, and says whether it was added.
pub fn add_key(v: &mut Vec<Pubkey>, k: Pubkey) -> (added: bool)
    ensures
        final(v)@ == with_key(old(v)@, k),
        added == !old(v)@.contains(k),
{
    if has_key(v, &k) {
        false
    } else {
        v.push(k);
        true
    }
}

/// Whether some addresses hold `k`.
pub fn holds_key(v: &[Pubkey], k: &Pubkey) -> (r: bool)
    ensures
        r == v@.contains(*k),
{
    let mut i: usize = 0;
    while i < v.len()
        invariant
            i <= v@.len(),
            forall|j: int| 0 <= j < i ==> v@[j] != *k,
        decreases v.len() - i,
    {
        if v[i] == *k {
            return true;
        }
        i += 1;
    }
    false
}

/// An account that an instruction uses, with the program that is called.
#[derive(Clone, Copy)]
pub struct Slot {
    pub meta: AccountMeta,
    pub program_id: Pubkey,
}

/// The accounts of one instruction.
pub open spec fn ix_slots(ix: InstructionView) -> Seq<Slot> {
    Seq::new(ix.accounts.len(), |i: int| Slot { meta: ix.accounts[i], program_id: ix.program_id })
}

/// Some instruction uses the account in this way.
pub open spec fn in_instruction(ixs: Seq<InstructionView>, s: Slot) -> bool {
    exists|i: int, j: int|
        0 <= i < ixs.len() && 0 <= j < (#[trigger] ixs[i]).accounts.len() && s.meta == #[trigger] ixs[i].accounts[j]
            && s.program_id == ixs[i].program_id
}

/// The accounts of the instructions, in their order.
pub open spec fn slots_of(ixs: Seq<InstructionView>) -> Seq<Slot>
    decreases ixs.len(),
{
    if ixs.len() == 0 {
        Seq::empty()
    } else {
        slots_of(ixs.drop_last()) + ix_slots(ixs.last())
    }
}

/// Every account of every instruction is listed, and nothing else is.
pub proof fn lemma_slots_of(ixs: Seq<InstructionView>)
    ensures
        forall|i: int| 0 <= i < slots_of(ixs).len() ==> in_instruction(ixs, #[trigger] slots_of(ixs)[i]),
        forall|s: Slot| in_instruction(ixs, s) ==> #[trigger] slots_of(ixs).contains(s),
    decreases ixs.len(),
{
    if ixs.len() > 0 {
        let d = ixs.drop_last();
        let own = ix_slots(ixs.last());
        let before = slots_of(d);
        lemma_slots_of(d);
        assert forall|i: int| 0 <= i < slots_of(ixs).len() implies in_instruction(ixs, #[trigger] slots_of(ixs)[i]) by {
            if i < before.len() {
                let s = before[i];
                let (a, b) = choose|a: int, b: int|
                    0 <= a < d.len() && 0 <= b < (#[trigger] d[a]).accounts.len() && s.meta == #[trigger] d[a].accounts[b]
                        && s.program_id == d[a].program_id;
                assert(ixs[a].accounts[b] == s.meta);
            } else {
                assert(ixs[ixs.len() - 1].accounts[i - before.len()] == slots_of(ixs)[i].meta);
            }
        }
        assert forall|s: Slot| in_instruction(ixs, s) implies #[trigger] slots_of(ixs).contains(s) by {
            let (a, b) = choose|a: int, b: int|
                0 <= a < ixs.len() && 0 <= b < (#[trigger] ixs[a]).accounts.len() && s.meta == #[trigger] ixs[a].accounts[b]
                    && s.program_id == ixs[a].program_id;
            if a < d.len() {
                assert(d[a].accounts[b] == s.meta);
                assert(in_instruction(d, s));
                assert(before.contains(s));
                let i = choose|i: int| 0 <= i < before.len() && before[i] == s;
                assert(slots_of(ixs)[i] == s);
            } else {
                assert(own[b] == s);
                assert(slots_of(ixs)[before.len() + b] == s);
            }
        }
    }
}

/// The accounts of the instructions, in their order.
pub fn list_slots(ixs: &[Instruction]) -> (r: Vec<Slot>)
    ensures
        r@ == slots_of(ix_views(ixs@)),
{
    let ghost v = ix_views(ixs@);
    let mut r: Vec<Slot> = Vec::new();
    let mut i: usize = 0;
    assert(r@ =~= slots_of(v.take(0)));
    while i < ixs.len()
        invariant
            i <= ixs@.len(),
            v == ix_views(ixs@),
            r@ == slots_of(v.take(i as int)),
        decreases ixs.len() - i,
    {
        let ix = &ixs[i];
        let ghost before = r@;
        let ghost own = ix_slots(ix@);
        let mut j: usize = 0;
        assert(before =~= before + own.take(0));
        while j < ix.accounts.len()
            invariant
                j <= ix.accounts@.len(),
                own == ix_slots(ix@),
                r@ == before + own.take(j as int),
            decreases ix.accounts.len() - j,
        {
            r.push(Slot { meta: ix.accounts[j], program_id: ix.program_id });
            assert(r@ =~= before + own.take(j + 1));
            j += 1;
        }
        proof {
            assert(own.take(j as int) =~= own);
            assert(v.take(i + 1).drop_last() =~= v.take(i as int));
            assert(v.take(i + 1).last() == ix@);
        }
        i += 1;
    }
    assert(v.take(i as int) =~= v);
    r
}

} // verus!
