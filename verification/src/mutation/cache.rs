//! What was probed before, and the signatures by which states are told apart.
use vstd::prelude::*;
use litesvm::LiteSVM;
use std::collections::hash_map::DefaultHasher;
use std::hash::Hasher;
use vstd::bytes::u64_to_le_bytes;
#[allow(unused_imports)]
use vstd::bytes::spec_u64_to_le_bytes;
#[allow(unused_imports)]
use vstd::std_specs::hash::DefaultHasherAdditionalSpecFns;
use crate::mutation::findings::ix_disc_len;
#[allow(unused_imports)]
use crate::mutation::findings::tag_length;
use crate::svm::svm_get_account;
#[allow(unused_imports)]
use crate::svm::account_at;
use crate::types::{list_slots, Account, Instruction, Pubkey};
#[allow(unused_imports)]
use crate::types::{ix_views, opt_account, slots_of, AccountView, InstructionView, Slot};

verus! {

/// The kind of an instruction: its program, and its tag filled up with zeros.
#[derive(Clone, Copy, Debug, PartialEq, Eq)]
pub struct ProbeBaseKey {
    pub program_id: Pubkey,
    pub disc: [u8; 8],
}

/// The kind of an instruction, as a value.
pub struct BaseView {
    pub program_id: Pubkey,
    pub disc: Seq<u8>,
}

impl View for ProbeBaseKey {
    type V = BaseView;

    open spec fn view(&self) -> BaseView {
        BaseView { program_id: self.program_id, disc: self.disc@ }
    }
}

impl ProbeBaseKey {
    /// Whether two kinds are the same.
    pub fn same_as(&self, other: &ProbeBaseKey) -> (r: bool)
        ensures
            r == (self@ == other@),
    {
        let mut i: usize = 0;
        while i < 8
            invariant
                i <= 8,
                forall|j: int| 0 <= j < i ==> self.disc@[j] == other.disc@[j],
            decreases 8 - i,
        {
            if self.disc[i] != other.disc[i] {
                return false;
            }
            i += 1;
        }
        assert(self.disc@ =~= other.disc@);
        self.program_id == other.program_id
    }
}

/// The kind of an instruction.
pub open spec fn base_of(disc_len: Option<usize>, ix: InstructionView) -> BaseView {
    BaseView {
        program_id: ix.program_id,
        disc: Seq::new(8, |i: int| if i < tag_length(disc_len, ix.data) { ix.data[i] } else { 0u8 }),
    }
}

/// The kind of an instruction: its program and its tag, not its arguments.
pub fn probe_key(disc_len: Option<usize>, ix: &Instruction) -> (r: ProbeBaseKey)
    ensures
        r@ == base_of(disc_len, ix@),
{
    let n: usize = ix_disc_len(disc_len, ix);
    let mut disc: [u8; 8] = [0u8; 8];
    let mut i: usize = 0;
    while i < n && i < 8
        invariant
            i <= 8,
            i <= n <= ix.data@.len(),
            disc@.len() == 8,
            forall|j: int| 0 <= j < i ==> disc@[j] == ix.data@[j],
            forall|j: int| i <= j < 8 ==> disc@[j] == 0,
        decreases n - i,
    {
        disc[i] = ix.data[i];
        i += 1;
    }
    let r = ProbeBaseKey { program_id: ix.program_id, disc };
    assert(r@.disc =~= base_of(disc_len, ix@).disc);
    r
}

/// One probe that ran.
#[derive(Clone, Copy)]
pub struct ProbeMark {
    pub base: ProbeBaseKey,
    pub sig: u64,
}

/// The probes that ran. One kind of instruction is probed once in each state, and no more often than
/// `cap` in all.
pub struct ProbeCache {
    pub marks: Vec<ProbeMark>,
    pub cap: u32,
}

/// How often one kind of instruction is probed where nothing is set.
pub const DEFAULT_PROBE_CAP_PER_IX: u32 = 8;

/// How often one kind of instruction is probed, by a setting.
pub open spec fn cap_setting(setting: Option<Seq<char>>) -> u32 {
    match setting {
        Some(s) => match crate::number::at_most(crate::number::unsigned_value(s), u32::MAX as int) {
            Some(n) => n as u32,
            None => DEFAULT_PROBE_CAP_PER_IX,
        },
        None => DEFAULT_PROBE_CAP_PER_IX,
    }
}

/// How often one kind of instruction is probed: the number of the setting, or the default where it is
/// none.
pub fn probe_cap_per_ix(setting: Option<&str>) -> (r: u32)
    ensures
        r == cap_setting(crate::schema::opt_text(setting)),
{
    match setting {
        Some(s) => match crate::number::parse_u32(s) {
            Some(n) => n,
            None => DEFAULT_PROBE_CAP_PER_IX,
        },
        None => DEFAULT_PROBE_CAP_PER_IX,
    }
}

/// How many of the probes were of this kind.
pub open spec fn mark_count(marks: Seq<ProbeMark>, base: BaseView) -> int
    decreases marks.len(),
{
    if marks.len() == 0 {
        0
    } else {
        mark_count(marks.drop_last(), base) + if marks.last().base@ == base { 1int } else { 0 }
    }
}

impl ProbeCache {
    /// No probe ran.
    pub fn new(cap: u32) -> (r: ProbeCache)
        ensures
            r.marks@ == Seq::<ProbeMark>::empty(),
            r.cap == cap,
    {
        ProbeCache { marks: Vec::new(), cap }
    }

    /// This kind of instruction was probed in this state.
    pub open spec fn holds(&self, base: BaseView, sig: u64) -> bool {
        exists|i: int| 0 <= i < self.marks@.len() && (#[trigger] self.marks@[i]).base@ == base && self.marks@[i].sig == sig
    }

    /// How often this kind of instruction was probed.
    pub open spec fn count(&self, base: BaseView) -> int {
        mark_count(self.marks@, base)
    }

    /// This kind of instruction is not probed any more.
    pub open spec fn capped(&self, base: BaseView) -> bool {
        self.count(base) >= self.cap
    }
}

fn count_marks(cache: &ProbeCache, base: &ProbeBaseKey) -> (n: usize)
    ensures
        n == cache.count(base@),
{
    let mut n: usize = 0;
    let mut i: usize = 0;
    while i < cache.marks.len()
        invariant
            i <= cache.marks@.len(),
            n <= i,
            n == mark_count(cache.marks@.take(i as int), base@),
        decreases cache.marks.len() - i,
    {
        assert(cache.marks@.take(i + 1).drop_last() =~= cache.marks@.take(i as int));
        if cache.marks[i].base.same_as(base) {
            n += 1;
        }
        i += 1;
    }
    assert(cache.marks@.take(i as int) =~= cache.marks@);
    n
}

/// Forgets every probe that ran.
pub fn reset_probed_account_mutations(cache: &mut ProbeCache)
    ensures
        final(cache).marks@ == Seq::<ProbeMark>::empty(),
        final(cache).cap == old(cache).cap,
{
    cache.marks = Vec::new();
}

/// Whether this kind of instruction is not probed any more. A replay is never held back.
pub fn probe_base_cap_reached(cache: &ProbeCache, base: &ProbeBaseKey, replay_target_active: bool) -> (r: bool)
    ensures
        r == (!replay_target_active && cache.capped(base@)),
{
    !replay_target_active && count_marks(cache, base) as u64 >= cache.cap as u64
}

/// Whether a probe is not due: this kind of instruction was probed in this state, or not at all any
/// more. A replay is never held back.
pub fn probe_state_already_seen(cache: &ProbeCache, base: &ProbeBaseKey, sig: u64, replay_target_active: bool) -> (r: bool)
    ensures
        r == (!replay_target_active && (cache.holds(base@, sig) || cache.capped(base@))),
{
    if replay_target_active {
        return false;
    }
    let mut i: usize = 0;
    while i < cache.marks.len()
        invariant
            i <= cache.marks@.len(),
            !replay_target_active,
            forall|j: int| 0 <= j < i ==> !((#[trigger] cache.marks@[j]).base@ == base@ && cache.marks@[j].sig == sig),
        decreases cache.marks.len() - i,
    {
        if cache.marks[i].sig == sig && cache.marks[i].base.same_as(base) {
            return true;
        }
        i += 1;
    }
    probe_base_cap_reached(cache, base, false)
}

/// Notes a probe. A replay is not noted.
pub fn mark_probe_state_seen(cache: &mut ProbeCache, base: ProbeBaseKey, sig: u64, replay_target_active: bool)
    ensures
        final(cache).cap == old(cache).cap,
        final(cache).marks@ == if replay_target_active {
            old(cache).marks@
        } else {
            old(cache).marks@.push(ProbeMark { base, sig })
        },
{
    if replay_target_active {
        return;
    }
    cache.marks.push(ProbeMark { base, sig });
}

/// A noted probe is not due again, and counts once towards its own kind and towards no other.
pub proof fn lemma_mark(before: ProbeCache, after: ProbeCache, base: ProbeBaseKey, sig: u64)
    requires
        after.cap == before.cap,
        after.marks@ == before.marks@.push(ProbeMark { base, sig }),
    ensures
        after.holds(base@, sig),
        forall|b: BaseView, s: u64| #[trigger]
            after.holds(b, s) <==> before.holds(b, s) || (b == base@ && s == sig),
        after.count(base@) == before.count(base@) + 1,
        forall|b: BaseView| b != base@ ==> #[trigger] after.count(b) == before.count(b),
{
    let n = before.marks@.len() as int;
    assert(after.marks@.drop_last() =~= before.marks@);
    assert(after.marks@[n] == (ProbeMark { base, sig }));
    assert forall|b: BaseView, s: u64| #[trigger] after.holds(b, s) <==> before.holds(b, s) || (b == base@ && s == sig) by {
        if after.holds(b, s) {
            let i = choose|i: int|
                0 <= i < after.marks@.len() && (#[trigger] after.marks@[i]).base@ == b && after.marks@[i].sig == s;
            if i < n {
                assert(before.marks@[i] == after.marks@[i]);
            }
        }
        if before.holds(b, s) {
            let i = choose|i: int|
                0 <= i < before.marks@.len() && (#[trigger] before.marks@[i]).base@ == b && before.marks@[i].sig == s;
            assert(before.marks@[i] == after.marks@[i]);
        }
    }
}

/// The branches that the transaction in flight took, where they are recorded.
pub struct EdgeCapture {
    pub edges: Option<Vec<u64>>,
}

/// The numbers come in increasing order.
pub open spec fn ascending(s: Seq<u64>) -> bool {
    forall|i: int, j: int| 0 <= i < j < s.len() ==> s[i] < s[j]
}

impl EdgeCapture {
    /// What is recorded is in increasing order.
    pub open spec fn well_formed(&self) -> bool {
        self.edges is Some ==> ascending(self.edges->0@)
    }

    /// Nothing is recorded.
    pub fn new() -> (r: EdgeCapture)
        ensures
            r.edges is None,
            r.well_formed(),
    {
        EdgeCapture { edges: None }
    }
}

/// Starts to record.
pub fn probe_edge_capture_begin(capture: &mut EdgeCapture)
    ensures
        final(capture).well_formed(),
        final(capture).edges is Some,
        final(capture).edges->0@ == Seq::<u64>::empty(),
{
    capture.edges = Some(Vec::new());
}

/// Adds an edge to a list that is in increasing order.
pub fn insert_edge(edges: &mut Vec<u64>, edge_id: u64)
    requires
        ascending(old(edges)@),
    ensures
        ascending(final(edges)@),
        final(edges)@.to_set() == old(edges)@.to_set().insert(edge_id),
{
    let ghost before = edges@;
    let mut p: usize = 0;
    while p < edges.len() && edges[p] < edge_id
        invariant
            p <= edges@.len(),
            edges@ == before,
            forall|j: int| 0 <= j < p ==> #[trigger] edges@[j] < edge_id,
        decreases edges.len() - p,
    {
        p += 1;
    }
    if p < edges.len() && edges[p] == edge_id {
        proof {
            assert(before[p as int] == edge_id);
            assert(before.to_set() =~= before.to_set().insert(edge_id));
        }
        return;
    }
    edges.insert(p, edge_id);
    proof {
        assert(edges@ == before.insert(p as int, edge_id));
        assert forall|i: int, j: int| 0 <= i < j < edges@.len() implies edges@[i] < edges@[j] by {
            let a = if i < p { i } else { i - 1 };
            let b = if j < p { j } else { j - 1 };
            if i != p && j != p {
                assert(before[a] < before[b]);
            } else if i == p {
                assert(before[p as int] <= before[b]);
            }
        }
        assert forall|x: u64| edges@.to_set().contains(x) <==> before.to_set().insert(edge_id).contains(x) by {
            if edges@.contains(x) {
                let i = choose|i: int| 0 <= i < edges@.len() && edges@[i] == x;
                if i < p {
                    assert(before[i] == x);
                } else if i > p {
                    assert(before[i - 1] == x);
                }
            }
            if before.contains(x) {
                let i = choose|i: int| 0 <= i < before.len() && before[i] == x;
                if i < p {
                    assert(edges@[i] == x);
                } else {
                    assert(edges@[i + 1] == x);
                }
            }
            assert(edges@[p as int] == edge_id);
        }
        assert(edges@.to_set() =~= before.to_set().insert(edge_id));
    }
}

/// Records an edge, where recording is on.
pub fn record_probe_edge(capture: &mut EdgeCapture, edge_id: u64)
    requires
        old(capture).well_formed(),
    ensures
        final(capture).well_formed(),
        match old(capture).edges {
            Some(edges) => final(capture).edges is Some && final(capture).edges->0@.to_set() == edges@.to_set().insert(
                edge_id,
            ),
            None => final(capture).edges is None,
        },
{
    match capture.edges.take() {
        Some(mut edges) => {
            insert_edge(&mut edges, edge_id);
            capture.edges = Some(edges);
        },
        None => {},
    }
}

/// Stops to record, and gives what was recorded: nothing where recording was off, or no edge came.
pub fn probe_edge_capture_take(capture: &mut EdgeCapture) -> (r: Option<Vec<u64>>)
    ensures
        match old(capture).edges {
            Some(edges) => if edges@.len() > 0 { r == Some(edges) } else { r is None },
            None => r is None,
        },
        final(capture).edges is None,
        final(capture).well_formed(),
{
    match capture.edges.take() {
        Some(edges) => {
            if edges.len() > 0 {
                Some(edges)
            } else {
                None
            }
        },
        None => None,
    }
}

/// Lists in increasing order with the same members are the same list.
pub proof fn lemma_ascending_unique(a: Seq<u64>, b: Seq<u64>)
    requires
        ascending(a),
        ascending(b),
        a.to_set() == b.to_set(),
    ensures
        a == b,
    decreases a.len(),
{
    if a.len() == 0 {
        if b.len() > 0 {
            assert(b.to_set().contains(b[0]));
            assert(a.to_set().contains(b[0]));
        }
        assert(a =~= b);
    } else {
        assert(a.to_set().contains(a[0]));
        assert(b.contains(a[0]));
        let x = a.last();
        assert(a[a.len() - 1] == x);
        assert(a.contains(x));
        assert(a.to_set().contains(x));
        assert(b.contains(x));
        let y = b.last();
        assert(b[b.len() - 1] == y);
        assert(b.contains(y));
        assert(b.to_set().contains(y));
        assert(a.contains(y));
        let i = choose|i: int| 0 <= i < b.len() && b[i] == x;
        let j = choose|j: int| 0 <= j < a.len() && a[j] == y;
        assert(x == y) by {
            if i < b.len() - 1 {
                assert(b[i] < b[b.len() - 1]);
            }
            if j < a.len() - 1 {
                assert(a[j] < a[a.len() - 1]);
            }
        }
        let a1 = a.drop_last();
        let b1 = b.drop_last();
        assert forall|z: u64| a1.to_set().contains(z) <==> b1.to_set().contains(z) by {
            if a1.contains(z) {
                let k = choose|k: int| 0 <= k < a1.len() && a1[k] == z;
                assert(a[k] == z && a[k] < a[a.len() - 1]);
                assert(a.contains(z));
                assert(b.to_set().contains(z));
                assert(b.contains(z));
                let m = choose|m: int| 0 <= m < b.len() && b[m] == z;
                assert(m != b.len() - 1);
                assert(b1[m] == z);
            }
            if b1.contains(z) {
                let k = choose|k: int| 0 <= k < b1.len() && b1[k] == z;
                assert(b[k] == z && b[k] < b[b.len() - 1]);
                assert(b.contains(z));
                assert(a.to_set().contains(z));
                assert(a.contains(z));
                let m = choose|m: int| 0 <= m < a.len() && a[m] == z;
                assert(m != a.len() - 1);
                assert(a1[m] == z);
            }
        }
        assert(a1.to_set() =~= b1.to_set());
        lemma_ascending_unique(a1, b1);
        assert(a =~= a1.push(x));
        assert(b =~= b1.push(y));
    }
}

/// What is hashed of a list of edges: its length, then each edge.
pub open spec fn edge_writes(edges: Seq<u64>) -> Seq<Seq<u8>>
    decreases edges.len(),
{
    if edges.len() == 0 {
        Seq::empty()
    } else {
        edge_writes(edges.drop_last()).push(spec_u64_to_le_bytes(edges.last()))
    }
}

/// The signature of a list of edges.
pub open spec fn edge_signature(edges: Seq<u64>) -> u64 {
    DefaultHasher::spec_finish(seq![spec_u64_to_le_bytes(edges.len() as u64)] + edge_writes(edges))
}

/// The signature of the branches that were taken. The order in which they were recorded does not
/// matter: the list is in increasing order.
pub fn edge_trace_signature(edges: &Vec<u64>) -> (r: u64)
    ensures
        r == edge_signature(edges@),
{
    let mut hasher = DefaultHasher::new();
    let head = u64_to_le_bytes(edges.len() as u64);
    hasher.write(head.as_slice());
    let ghost first = seq![spec_u64_to_le_bytes(edges@.len() as u64)];
    assert(hasher@ =~= first + edge_writes(edges@.take(0)));
    let mut i: usize = 0;
    while i < edges.len()
        invariant
            i <= edges@.len(),
            hasher@ == first + edge_writes(edges@.take(i as int)),
        decreases edges.len() - i,
    {
        let b = u64_to_le_bytes(edges[i]);
        hasher.write(b.as_slice());
        assert(edges@.take(i + 1).drop_last() =~= edges@.take(i as int));
        assert(hasher@ =~= first + edge_writes(edges@.take(i + 1)));
        i += 1;
    }
    assert(edges@.take(i as int) =~= edges@);
    hasher.finish()
}

/// Two recordings of the same branches have the same signature, in whatever order they came.
pub proof fn lemma_signature_of_set(a: Seq<u64>, b: Seq<u64>)
    requires
        ascending(a),
        ascending(b),
        a.to_set() == b.to_set(),
    ensures
        edge_signature(a) == edge_signature(b),
{
    lemma_ascending_unique(a, b);
}

/// The first bytes of the data, up to thirty-two.
pub open spec fn window(data: Seq<u8>) -> Seq<u8> {
    data.take(if data.len() < 32 { data.len() as int } else { 32 })
}

/// What is hashed of an account: nothing but that it is missing; or its owner, how much data it holds,
/// whether it has lamports, and its first bytes.
pub open spec fn account_writes(a: Option<AccountView>) -> Seq<Seq<u8>> {
    match a {
        None => seq![seq![0u8]],
        Some(a) => seq![
            seq![1u8],
            a.owner@,
            spec_u64_to_le_bytes(a.data.len() as u64),
            seq![if a.lamports > 0 { 1u8 } else { 0u8 }],
            spec_u64_to_le_bytes(window(a.data).len() as u64),
            window(a.data),
        ],
    }
}

/// What is hashed of the accounts of some instructions.
pub open spec fn state_writes(svm: LiteSVM, slots: Seq<Slot>) -> Seq<Seq<u8>>
    decreases slots.len(),
{
    if slots.len() == 0 {
        Seq::empty()
    } else {
        state_writes(svm, slots.drop_last()) + account_writes(account_at(svm, slots.last().meta.pubkey))
    }
}

/// The signature of the state that some instructions find.
pub open spec fn state_signature(svm: LiteSVM, ixs: Seq<InstructionView>) -> u64 {
    DefaultHasher::spec_finish(state_writes(svm, slots_of(ixs)))
}

fn hash_account(hasher: &mut DefaultHasher, account: &Option<Account>)
    ensures
        final(hasher)@ == old(hasher)@ + account_writes(opt_account(*account)),
{
    match account {
        None => {
            let zero: [u8; 1] = [0];
            assert(zero@ =~= seq![0u8]);
            hasher.write(&zero);
        },
        Some(a) => {
            let one: [u8; 1] = [1];
            let funded: [u8; 1] = [if a.lamports > 0 {
                1
            } else {
                0
            }];
            let n: usize = if a.data.len() < 32 {
                a.data.len()
            } else {
                32
            };
            let first = crate::schema::first_bytes(a.data.as_slice(), n);
            let size = u64_to_le_bytes(a.data.len() as u64);
            let kept = u64_to_le_bytes(n as u64);
            assert(one@ =~= seq![1u8]);
            assert(funded@ =~= seq![if a.lamports > 0 { 1u8 } else { 0u8 }]);
            hasher.write(&one);
            hasher.write(&a.owner.bytes);
            hasher.write(size.as_slice());
            hasher.write(&funded);
            hasher.write(kept.as_slice());
            hasher.write(first.as_slice());
        },
    }
    assert(hasher@ =~= old(hasher)@ + account_writes(opt_account(*account)));
}

/// The signature of the state that some instructions find. Addresses do not enter it: accounts made
/// anew in the same state look the same.
pub fn instruction_state_signature(svm: &LiteSVM, instructions: &[Instruction]) -> (r: u64)
    ensures
        r == state_signature(*svm, ix_views(instructions@)),
{
    let slots = list_slots(instructions);
    let mut hasher = DefaultHasher::new();
    let mut i: usize = 0;
    assert(hasher@ =~= state_writes(*svm, slots@.take(0)));
    while i < slots.len()
        invariant
            i <= slots@.len(),
            hasher@ == state_writes(*svm, slots@.take(i as int)),
        decreases slots.len() - i,
    {
        assert(slots@.take(i + 1).drop_last() =~= slots@.take(i as int));
        let account = svm_get_account(svm, &slots[i].meta.pubkey);
        hash_account(&mut hasher, &account);
        i += 1;
    }
    assert(slots@.take(i as int) =~= slots@);
    hasher.finish()
}

} // verus!
