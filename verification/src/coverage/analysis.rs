//! The control-flow graph of a program, and how far it can be reached.
use vstd::prelude::*;
use std::sync::Arc;
use solana_program_runtime::invoke_context::InvokeContext;
use solana_sbpf::elf::Executable;
use solana_sbpf::program::BuiltinProgram;
use solana_sbpf::static_analysis::Analysis;
use crate::coverage::types::FunctionInfo;

verus! {

/// An instruction: its program counter and its operation code.
#[derive(Clone, Copy)]
pub struct Insn {
    pub ptr: usize,
    pub opc: u8,
}

/// A basic block: its id, the range of its instructions and the blocks that can follow it.
pub struct CfgNode {
    pub id: usize,
    pub start: usize,
    pub end: usize,
    pub destinations: Vec<usize>,
}

/// What the static analysis of a program finds.
pub struct ProgramAnalysis {
    pub entrypoint: usize,
    pub functions: Vec<FunctionInfo>,
    pub nodes: Vec<CfgNode>,
    pub instructions: Vec<Insn>,
}

/// A basic block, as a value.
pub struct NodeView {
    pub id: usize,
    pub start: usize,
    pub end: usize,
    pub destinations: Seq<usize>,
}

/// An analysis, as a value.
pub struct AnalysisView {
    pub entrypoint: usize,
    pub functions: Seq<(usize, Seq<char>)>,
    pub nodes: Seq<NodeView>,
    pub instructions: Seq<Insn>,
}

impl View for CfgNode {
    type V = NodeView;

    open spec fn view(&self) -> NodeView {
        NodeView { id: self.id, start: self.start, end: self.end, destinations: self.destinations@ }
    }
}

impl View for ProgramAnalysis {
    type V = AnalysisView;

    open spec fn view(&self) -> AnalysisView {
        AnalysisView {
            entrypoint: self.entrypoint,
            functions: Seq::new(self.functions@.len(), |i: int| (self.functions@[i].entry_pc, self.functions@[i].name@)),
            nodes: Seq::new(self.nodes@.len(), |i: int| self.nodes@[i]@),
            instructions: self.instructions@,
        }
    }
}

impl AnalysisView {
    /// The blocks are listed by id, each covers a range of the instructions, a later block a later
    /// range. A block that holds instructions has at most two successors, and every successor of a
    /// block holds instructions.
    pub open spec fn well_formed(self) -> bool {
        &&& forall|i: int, j: int| 0 <= i < j < self.nodes.len() ==> self.nodes[i].id < self.nodes[j].id
        &&& forall|i: int, j: int| 0 <= i < j < self.nodes.len() ==> self.nodes[i].end <= self.nodes[j].start
        &&& forall|i: int| 0 <= i < self.nodes.len() ==> (#[trigger] self.nodes[i]).start <= self.nodes[i].end
            <= self.instructions.len()
        &&& forall|i: int| 0 <= i < self.nodes.len() && (#[trigger] self.nodes[i]).start < self.nodes[i].end
            ==> self.nodes[i].destinations.len() <= 2
        &&& forall|i: int, x: usize| 0 <= i < self.nodes.len() && #[trigger] self.nodes[i].destinations.contains(x)
            ==> self.holds_code(x)
    }

    /// There is a block with this id, and it holds instructions.
    pub open spec fn holds_code(self, id: usize) -> bool {
        exists|at: int| #[trigger] self.is_node(id, at) && self.nodes[at].start < self.nodes[at].end
    }

    /// The position of the block with this id.
    pub open spec fn is_node(self, id: usize, at: int) -> bool {
        0 <= at < self.nodes.len() && self.nodes[at].id == id
    }

    /// There is a block with this id.
    pub open spec fn has_node(self, id: usize) -> bool {
        exists|at: int| self.is_node(id, at)
    }

    /// The block with this id.
    pub open spec fn node(self, id: usize) -> NodeView {
        self.nodes[choose|at: int| self.is_node(id, at)]
    }

    /// The blocks that can follow; none for an unknown id and, where `skip_empty`, for an empty block.
    pub open spec fn successors(self, id: usize, skip_empty: bool) -> Seq<usize> {
        if !self.has_node(id) || (skip_empty && self.node(id).start >= self.node(id).end) {
            Seq::empty()
        } else {
            self.node(id).destinations
        }
    }
}

/// The length of the text of a program, or why the program cannot be loaded.
pub uninterp spec fn sbpf_text(program: Seq<u8>) -> Result<usize, Seq<char>>;

/// `Executable::from_elf` and `get_text_bytes` of `solana_sbpf`, with a mock loader: loads the ELF, and
/// gives the length of its text. What makes an ELF load is left unsaid.
#[verifier::external_body]
fn text_len(program: &[u8]) -> (r: Result<usize, String>)
    ensures
        match r {
            Ok(n) => sbpf_text(program@) == Ok::<usize, Seq<char>>(n),
            Err(e) => sbpf_text(program@) == Err::<usize, Seq<char>>(e@),
        },
{
    let loader = Arc::new(BuiltinProgram::<InvokeContext>::new_mock());
    let executable = Executable::from_elf(program, loader).map_err(|e| format!("{e:?}"))?;
    Ok(executable.get_text_bytes().1.len())
}

/// The program can be loaded, and its text is made of whole instructions.
pub open spec fn whole_text(program: Seq<u8>) -> bool {
    match sbpf_text(program) {
        Ok(n) => n % 8 == 0,
        Err(_) => false,
    }
}

/// What the static analysis of the program `program` finds, or why it fails.
pub uninterp spec fn sbpf_analysis(program: Seq<u8>) -> Result<AnalysisView, Seq<char>>;

/// `Executable::from_elf` and `Analysis::from_executable` of `solana_sbpf`, with a mock loader: loads
/// the ELF and splits its text into basic blocks. Both are pure functions of the bytes. The blocks
/// come out of a `BTreeMap`, so by id. Each but the last starts at an instruction, is given the
/// instructions from there up to the next block, and ends in at most two successors. The last, a root
/// that leads to every function, holds no instruction and follows no block. An instruction takes eight
/// bytes of the program. What the analysis makes of a given program is left unsaid. It panics on a text
/// that ends within an instruction.
#[verifier::external_body]
fn analyze(program: &[u8]) -> (r: Result<ProgramAnalysis, String>)
    requires
        whole_text(program@),
    ensures
        match r {
            Ok(a) => sbpf_analysis(program@) == Ok::<AnalysisView, Seq<char>>(a@) && a@.well_formed()
                && 8 * a@.instructions.len() <= program@.len(),
            Err(e) => sbpf_analysis(program@) == Err::<AnalysisView, Seq<char>>(e@),
        },
{
    let loader = Arc::new(BuiltinProgram::<InvokeContext>::new_mock());
    let executable = Executable::from_elf(program, loader).map_err(|e| format!("{e:?}"))?;
    let a = Analysis::from_executable(&executable).map_err(|e| format!("{e:?}"))?;
    Ok(ProgramAnalysis {
        entrypoint: a.entrypoint,
        functions: a.functions.into_iter().map(|(entry_pc, f)| FunctionInfo { name: f.1, entry_pc }).collect(),
        nodes: a.cfg_nodes.into_iter().map(|(id, n)| CfgNode {
            id,
            start: n.instructions.start,
            end: n.instructions.end,
            destinations: n.destinations
        }).collect(),
        instructions: a.instructions.iter().map(|i| Insn { ptr: i.ptr, opc: i.opc }).collect()
    })
}

/// What is said of a program whose text ends within an instruction.
pub open spec fn ragged_text() -> Seq<char> {
    "the text ends within an instruction"@
}

/// What the static analysis finds of a program, or why it cannot be analysed.
pub open spec fn analyzed(program: Seq<u8>) -> Result<AnalysisView, Seq<char>> {
    match sbpf_text(program) {
        Ok(n) => if n % 8 == 0 { sbpf_analysis(program) } else { Err(ragged_text()) },
        Err(e) => Err(e),
    }
}

/// What the static analysis finds of a program, or why it cannot be analysed.
pub(crate) fn analyze_elf(program: &[u8]) -> (r: Result<ProgramAnalysis, String>)
    ensures
        match r {
            Ok(a) => analyzed(program@) == Ok::<AnalysisView, Seq<char>>(a@) && a@.well_formed()
                && 8 * a@.instructions.len() <= program@.len(),
            Err(e) => analyzed(program@) == Err::<AnalysisView, Seq<char>>(e@),
        },
{
    match text_len(program) {
        Ok(n) => {
            if n % 8 == 0 {
                analyze(program)
            } else {
                Err(String::from_str("the text ends within an instruction"))
            }
        },
        Err(e) => Err(e),
    }
}

/// Appends those members of `more` that are not there yet, each once.
pub open spec fn push_new(order: Seq<usize>, more: Seq<usize>) -> Seq<usize>
    decreases more.len(),
{
    if more.len() == 0 {
        order
    } else {
        let before = push_new(order, more.drop_last());
        if before.contains(more.last()) { before } else { before.push(more.last()) }
    }
}

/// The blocks found after the first `k` of them have been expanded, in the order in which they were
/// found: breadth first.
pub open spec fn bfs_state(a: AnalysisView, seeds: Seq<usize>, skip_empty: bool, k: nat) -> Seq<usize>
    decreases k,
{
    if k == 0 {
        seeds
    } else {
        let before = bfs_state(a, seeds, skip_empty, (k - 1) as nat);
        if k - 1 < before.len() {
            push_new(before, a.successors(before[k - 1], skip_empty))
        } else {
            before
        }
    }
}

/// All that was found has been expanded after `k` steps.
pub open spec fn bfs_done(a: AnalysisView, seeds: Seq<usize>, skip_empty: bool, k: nat) -> bool {
    bfs_state(a, seeds, skip_empty, k).len() <= k
}

/// The blocks that can be reached from `seeds`, breadth first.
pub open spec fn bfs_order(a: AnalysisView, seeds: Seq<usize>, skip_empty: bool) -> Seq<usize> {
    bfs_state(a, seeds, skip_empty, choose|k: nat| bfs_done(a, seeds, skip_empty, k))
}

/// Once done, nothing more is found.
pub proof fn lemma_bfs_stable(a: AnalysisView, seeds: Seq<usize>, skip_empty: bool, k: nat, n: nat)
    requires
        bfs_done(a, seeds, skip_empty, k),
        k <= n,
    ensures
        bfs_state(a, seeds, skip_empty, n) == bfs_state(a, seeds, skip_empty, k),
        bfs_done(a, seeds, skip_empty, n),
    decreases n,
{
    if n > k {
        lemma_bfs_stable(a, seeds, skip_empty, k, (n - 1) as nat);
    }
}

/// Where the search is done, what it found is the breadth-first order.
pub proof fn lemma_bfs_is_order(a: AnalysisView, seeds: Seq<usize>, skip_empty: bool, k: nat)
    requires
        bfs_done(a, seeds, skip_empty, k),
    ensures
        bfs_state(a, seeds, skip_empty, k) == bfs_order(a, seeds, skip_empty),
{
    let c = choose|c: nat| bfs_done(a, seeds, skip_empty, c);
    if c <= k {
        lemma_bfs_stable(a, seeds, skip_empty, c, k);
    } else {
        lemma_bfs_stable(a, seeds, skip_empty, k, c);
    }
}

/// A path of the control-flow graph from a seed to `id`.
pub open spec fn is_path(a: AnalysisView, seeds: Seq<usize>, skip_empty: bool, path: Seq<usize>, id: usize) -> bool {
    &&& path.len() > 0
    &&& seeds.contains(path[0])
    &&& path.last() == id
    &&& forall|i: int| 0 <= i < path.len() - 1 ==> a.successors(#[trigger] path[i], skip_empty).contains(path[i + 1])
}

/// `id` can be reached from a seed.
pub open spec fn reachable(a: AnalysisView, seeds: Seq<usize>, skip_empty: bool, id: usize) -> bool {
    exists|path: Seq<usize>| is_path(a, seeds, skip_empty, path, id)
}

proof fn lemma_push_new(order: Seq<usize>, more: Seq<usize>)
    ensures
        order.len() <= push_new(order, more).len(),
        forall|i: int| 0 <= i < order.len() ==> push_new(order, more)[i] == order[i],
        forall|x: usize| #[trigger] push_new(order, more).contains(x) <==> order.contains(x) || more.contains(x),
        order.no_duplicates() ==> push_new(order, more).no_duplicates(),
    decreases more.len(),
{
    if more.len() > 0 {
        let d = more.drop_last();
        lemma_push_new(order, d);
        let before = push_new(order, d);
        let r = push_new(order, more);
        assert forall|x: usize| #[trigger] r.contains(x) <==> order.contains(x) || more.contains(x) by {
            if r.contains(x) {
                let i = choose|i: int| 0 <= i < r.len() && r[i] == x;
                if i < before.len() {
                    assert(before[i] == x);
                    assert(before.contains(x));
                    if d.contains(x) {
                        let k = choose|k: int| 0 <= k < d.len() && d[k] == x;
                        assert(more[k] == x);
                    }
                } else {
                    assert(more[more.len() - 1] == x);
                }
            }
            if order.contains(x) {
                assert(before.contains(x));
                let i = choose|i: int| 0 <= i < before.len() && before[i] == x;
                assert(r[i] == x);
            }
            if more.contains(x) {
                let k = choose|k: int| 0 <= k < more.len() && more[k] == x;
                if k < d.len() {
                    assert(d[k] == x);
                    assert(before.contains(x));
                }
                if before.contains(x) {
                    let i = choose|i: int| 0 <= i < before.len() && before[i] == x;
                    assert(r[i] == x);
                } else {
                    assert(r[before.len() as int] == x);
                }
            }
        }
    }
}

/// What the search has found can be reached, and it starts with the seeds.
proof fn lemma_bfs_sound(a: AnalysisView, seeds: Seq<usize>, skip_empty: bool, k: nat)
    ensures
        forall|i: int| 0 <= i < bfs_state(a, seeds, skip_empty, k).len() ==> #[trigger] reachable(
            a,
            seeds,
            skip_empty,
            bfs_state(a, seeds, skip_empty, k)[i],
        ),
        seeds.len() <= bfs_state(a, seeds, skip_empty, k).len(),
        forall|i: int| 0 <= i < seeds.len() ==> bfs_state(a, seeds, skip_empty, k)[i] == seeds[i],
    decreases k,
{
    if k == 0 {
        assert forall|i: int| 0 <= i < seeds.len() implies #[trigger] reachable(a, seeds, skip_empty, seeds[i]) by {
            assert(is_path(a, seeds, skip_empty, seq![seeds[i]], seeds[i]));
        }
    } else {
        lemma_bfs_sound(a, seeds, skip_empty, (k - 1) as nat);
        let before = bfs_state(a, seeds, skip_empty, (k - 1) as nat);
        if k - 1 < before.len() {
            let from = before[k - 1];
            let more = a.successors(from, skip_empty);
            let r = push_new(before, more);
            lemma_push_new(before, more);
            assert forall|i: int| 0 <= i < r.len() implies #[trigger] reachable(a, seeds, skip_empty, r[i]) by {
                assert(r.contains(r[i]));
                if before.contains(r[i]) {
                    let j = choose|j: int| 0 <= j < before.len() && before[j] == r[i];
                    assert(reachable(a, seeds, skip_empty, before[j]));
                } else {
                    assert(reachable(a, seeds, skip_empty, before[k - 1]));
                    let path = choose|path: Seq<usize>| is_path(a, seeds, skip_empty, path, from);
                    let longer = path.push(r[i]);
                    assert forall|x: int| 0 <= x < longer.len() - 1 implies a.successors(#[trigger] longer[x], skip_empty).contains(
                        longer[x + 1],
                    ) by {
                        if x < path.len() - 1 {
                            assert(a.successors(path[x], skip_empty).contains(path[x + 1]));
                        }
                    }
                    assert(is_path(a, seeds, skip_empty, longer, r[i]));
                }
            }
        }
    }
}

/// Of the first `k` blocks found, all successors have been found.
proof fn lemma_bfs_closed(a: AnalysisView, seeds: Seq<usize>, skip_empty: bool, k: nat)
    ensures
        forall|i: int, x: usize| 0 <= i < k && i < bfs_state(a, seeds, skip_empty, k).len() && #[trigger] a.successors(
            bfs_state(a, seeds, skip_empty, k)[i],
            skip_empty,
        ).contains(x) ==> bfs_state(a, seeds, skip_empty, k).contains(x),
    decreases k,
{
    if k > 0 {
        lemma_bfs_closed(a, seeds, skip_empty, (k - 1) as nat);
        let before = bfs_state(a, seeds, skip_empty, (k - 1) as nat);
        let r = bfs_state(a, seeds, skip_empty, k);
        if k - 1 < before.len() {
            let more = a.successors(before[k - 1], skip_empty);
            lemma_push_new(before, more);
            assert forall|i: int, x: usize| 0 <= i < k && i < r.len() && #[trigger] a.successors(r[i], skip_empty).contains(
                x,
            ) implies r.contains(x) by {
                assert(r[i] == before[i]);
                if i < k - 1 {
                    assert(a.successors(before[i], skip_empty).contains(x));
                    assert(before.contains(x));
                }
            }
        } else {
            assert forall|i: int, x: usize| 0 <= i < k && i < r.len() && #[trigger] a.successors(r[i], skip_empty).contains(
                x,
            ) implies r.contains(x) by {
                assert(a.successors(before[i], skip_empty).contains(x));
            }
        }
    }
}

/// The breadth-first order holds exactly the blocks that can be reached.
pub proof fn lemma_bfs_reaches(a: AnalysisView, seeds: Seq<usize>, skip_empty: bool, k: nat, id: usize)
    requires
        bfs_done(a, seeds, skip_empty, k),
    ensures
        bfs_state(a, seeds, skip_empty, k).contains(id) <==> reachable(a, seeds, skip_empty, id),
{
    let r = bfs_state(a, seeds, skip_empty, k);
    lemma_bfs_sound(a, seeds, skip_empty, k);
    lemma_bfs_closed(a, seeds, skip_empty, k);
    if r.contains(id) {
        let i = choose|i: int| 0 <= i < r.len() && r[i] == id;
        assert(reachable(a, seeds, skip_empty, r[i]));
    }
    if reachable(a, seeds, skip_empty, id) {
        let path = choose|path: Seq<usize>| is_path(a, seeds, skip_empty, path, id);
        lemma_path_found(a, seeds, skip_empty, k, path, path.len() - 1);
    }
}

proof fn lemma_path_found(a: AnalysisView, seeds: Seq<usize>, skip_empty: bool, k: nat, path: Seq<usize>, n: int)
    requires
        bfs_done(a, seeds, skip_empty, k),
        0 <= n < path.len(),
        seeds.contains(path[0]),
        forall|i: int| 0 <= i < path.len() - 1 ==> a.successors(#[trigger] path[i], skip_empty).contains(path[i + 1]),
    ensures
        bfs_state(a, seeds, skip_empty, k).contains(path[n]),
    decreases n,
{
    let r = bfs_state(a, seeds, skip_empty, k);
    lemma_bfs_sound(a, seeds, skip_empty, k);
    lemma_bfs_closed(a, seeds, skip_empty, k);
    if n == 0 {
        let i = choose|i: int| 0 <= i < seeds.len() && seeds[i] == path[0];
        assert(r[i] == path[0]);
    } else {
        lemma_path_found(a, seeds, skip_empty, k, path, n - 1);
        let i = choose|i: int| 0 <= i < r.len() && r[i] == path[n - 1];
        assert(a.successors(path[n - 1], skip_empty).contains(path[n - 1 + 1]));
        assert(a.successors(r[i], skip_empty).contains(path[n]));
    }
}

/// A jump that depends on a condition, of the 64-bit class: neither an unconditional jump, nor a call,
/// nor an exit.
pub open spec fn conditional_jump64(opcode: u8) -> bool {
    opcode % 8 == 5 && opcode != 0x05 && opcode != 0x85 && opcode != 0x8d && opcode != 0x95
}

/// A jump that depends on a condition, of the 32-bit or the 64-bit class.
pub open spec fn conditional_branch(opcode: u8) -> bool {
    opcode % 8 == 6 || conditional_jump64(opcode)
}

/// Whether an operation code is a conditional branch. The low three bits give the class: 6 for the
/// 32-bit jumps, all conditional, 5 for the 64-bit jumps, where the unconditional jump, the two calls
/// and the exit are left out.
pub fn is_conditional_branch_opcode(opcode: u8) -> (r: bool)
    ensures
        r == conditional_branch(opcode),
{
    assert(opcode & 7 == opcode % 8) by (bit_vector);
    match opcode & 7 {
        6 => true,
        5 => !(opcode == 0x05 || opcode == 0x85 || opcode == 0x8d || opcode == 0x95),
        _ => false,
    }
}

/// Whether a branch was taken: the next instruction is not the one that follows it. Program counters
/// are instruction indexes, not byte offsets.
pub fn branch_was_taken(branch_pc: usize, next_pc: usize) -> (taken: bool)
    requires
        branch_pc < usize::MAX,
    ensures
        taken == (next_pc != branch_pc + 1),
{
    next_pc != branch_pc + 1
}

/// The position of the block with this id.
pub fn find_node(a: &ProgramAnalysis, id: usize) -> (r: Option<usize>)
    requires
        a@.well_formed(),
    ensures
        match r {
            Some(at) => at < a.nodes@.len() && a.nodes@[at as int].id == id && a@.has_node(id) && a@.node(id)
                == a.nodes@[at as int]@,
            None => !a@.has_node(id),
        },
{
    let mut lo: usize = 0;
    let mut hi: usize = a.nodes.len();
    while lo < hi
        invariant
            lo <= hi <= a.nodes@.len(),
            a@.well_formed(),
            forall|i: int| 0 <= i < lo ==> (#[trigger] a@.nodes[i]).id < id,
            forall|i: int| hi <= i < a@.nodes.len() ==> (#[trigger] a@.nodes[i]).id > id,
        decreases hi - lo,
    {
        let mid: usize = lo + (hi - lo) / 2;
        assert(a@.nodes[mid as int] == a.nodes@[mid as int]@);
        if a.nodes[mid].id == id {
            proof {
                assert(a@.is_node(id, mid as int));
                let c = choose|at: int| a@.is_node(id, at);
                assert(c == mid) by {
                    if c < mid {
                        assert(a@.nodes[c].id < a@.nodes[mid as int].id);
                    } else if mid < c {
                        assert(a@.nodes[mid as int].id < a@.nodes[c].id);
                    }
                }
            }
            return Some(mid);
        } else if a.nodes[mid].id < id {
            assert forall|i: int| 0 <= i < mid + 1 implies (#[trigger] a@.nodes[i]).id < id by {
                if i < mid {
                    assert(a@.nodes[i].id < a@.nodes[mid as int].id);
                }
            }
            lo = mid + 1;
        } else {
            assert forall|i: int| mid <= i < a@.nodes.len() implies (#[trigger] a@.nodes[i]).id > id by {
                if i > mid {
                    assert(a@.nodes[mid as int].id < a@.nodes[i].id);
                }
            }
            hi = mid;
        }
    }
    assert(!a@.has_node(id)) by {
        if a@.has_node(id) {
            let c = choose|at: int| a@.is_node(id, at);
            assert(a@.nodes[c].id == id);
        }
    }
    None
}

/// Whether `v` holds `x`.
pub fn holds(v: &Vec<usize>, x: usize) -> (r: bool)
    ensures
        r == v@.contains(x),
{
    let mut i: usize = 0;
    while i < v.len()
        invariant
            i <= v@.len(),
            forall|k: int| 0 <= k < i ==> v@[k] != x,
        decreases v.len() - i,
    {
        if v[i] == x {
            return true;
        }
        i += 1;
    }
    false
}

/// Appends those members of `more` that are not there yet, each once.
fn add_new(order: &mut Vec<usize>, more: &Vec<usize>)
    ensures
        final(order)@ == push_new(old(order)@, more@),
{
    let mut i: usize = 0;
    while i < more.len()
        invariant
            i <= more@.len(),
            order@ == push_new(old(order)@, more@.take(i as int)),
        decreases more.len() - i,
    {
        assert(more@.take(i + 1).drop_last() =~= more@.take(i as int));
        if !holds(order, more[i]) {
            order.push(more[i]);
        }
        i += 1;
    }
    assert(more@.take(i as int) =~= more@);
}

/// The blocks that can be reached from `seeds`, breadth first.
pub fn traverse(a: &ProgramAnalysis, seeds: Vec<usize>, skip_empty: bool) -> (order: Vec<usize>)
    requires
        a@.well_formed(),
        seeds@.no_duplicates(),
    ensures
        order@ == bfs_order(a@, seeds@, skip_empty),
        order@.no_duplicates(),
        forall|id: usize| #[trigger] order@.contains(id) <==> reachable(a@, seeds@, skip_empty, id),
{
    let ghost start = seeds@;
    let mut order = seeds;
    let mut head: usize = 0;
    while head < order.len()
        invariant
            head <= order@.len(),
            a@.well_formed(),
            order@ == bfs_state(a@, start, skip_empty, head as nat),
            order@.no_duplicates(),
        decreases usize::MAX - head,
    {
        let id: usize = order[head];
        match find_node(a, id) {
            Some(at) => {
                if !(skip_empty && a.nodes[at].start >= a.nodes[at].end) {
                    proof {
                        lemma_push_new(order@, a@.successors(id, skip_empty));
                    }
                    add_new(&mut order, &a.nodes[at].destinations);
                } else {
                    assert(push_new(order@, a@.successors(id, skip_empty)) =~= order@);
                }
            },
            None => {
                assert(push_new(order@, a@.successors(id, skip_empty)) =~= order@);
            },
        }
        head += 1;
    }
    proof {
        lemma_bfs_is_order(a@, start, skip_empty, head as nat);
        assert forall|id: usize| #[trigger] order@.contains(id) <==> reachable(a@, start, skip_empty, id) by {
            lemma_bfs_reaches(a@, start, skip_empty, head as nat, id);
        }
    }
    order
}

proof fn lemma_ids_bounded(s: Seq<usize>)
    requires
        s.no_duplicates(),
    ensures
        s.len() <= usize::MAX + 1,
{
    let ints = s.map_values(|x: usize| x as int);
    assert(ints.no_duplicates());
    ints.unique_seq_to_set();
    let all = vstd::set_lib::set_int_range(0, usize::MAX + 1);
    vstd::set_lib::lemma_int_range(0, usize::MAX + 1);
    assert(ints.to_set().subset_of(all)) by {
        assert forall|x: int| ints.to_set().contains(x) implies all.contains(x) by {
            let i = choose|i: int| 0 <= i < ints.len() && ints[i] == x;
            assert(ints[i] == s[i] as int);
        }
    }
    vstd::set_lib::lemma_len_subset(ints.to_set(), all);
}

proof fn lemma_bfs_distinct(a: AnalysisView, seeds: Seq<usize>, skip_empty: bool, k: nat)
    requires
        seeds.no_duplicates(),
    ensures
        bfs_state(a, seeds, skip_empty, k).no_duplicates(),
    decreases k,
{
    if k > 0 {
        lemma_bfs_distinct(a, seeds, skip_empty, (k - 1) as nat);
        let before = bfs_state(a, seeds, skip_empty, (k - 1) as nat);
        if k - 1 < before.len() {
            lemma_push_new(before, a.successors(before[k - 1], skip_empty));
        }
    }
}

/// None of these blocks is known to hold no instruction.
pub open spec fn none_empty(a: AnalysisView, ids: Seq<usize>) -> bool {
    forall|i: int| 0 <= i < ids.len() && a.has_node(#[trigger] ids[i]) ==> a.node(ids[i]).start < a.node(ids[i]).end
}

/// Each id names one block.
pub proof fn lemma_one_node(a: AnalysisView, id: usize, at: int)
    requires
        a.well_formed(),
        a.is_node(id, at),
    ensures
        a.node(id) == a.nodes[at],
{
    let c = choose|c: int| a.is_node(id, c);
    if c < at {
        assert(a.nodes[c].id < a.nodes[at].id);
    } else if at < c {
        assert(a.nodes[at].id < a.nodes[c].id);
    }
}

proof fn lemma_same_bfs(a: AnalysisView, seeds: Seq<usize>, k: nat)
    requires
        a.well_formed(),
        none_empty(a, seeds),
    ensures
        bfs_state(a, seeds, true, k) == bfs_state(a, seeds, false, k),
        none_empty(a, bfs_state(a, seeds, false, k)),
    decreases k,
{
    if k > 0 {
        lemma_same_bfs(a, seeds, (k - 1) as nat);
        let before = bfs_state(a, seeds, true, (k - 1) as nat);
        if k - 1 < before.len() {
            let id = before[k - 1];
            let more = a.successors(id, false);
            lemma_push_new(before, more);
            let r = push_new(before, more);
            assert forall|i: int| 0 <= i < r.len() && a.has_node(#[trigger] r[i]) implies a.node(r[i]).start < a.node(
                r[i],
            ).end by {
                let x = r[i];
                assert(r.contains(x));
                if before.contains(x) {
                    let j = choose|j: int| 0 <= j < before.len() && before[j] == x;
                    assert(a.has_node(before[j]));
                } else {
                    let at = choose|at: int| a.is_node(id, at);
                    assert(a.nodes[at].destinations.contains(x));
                    let c = choose|c: int| #[trigger] a.is_node(x, c) && a.nodes[c].start < a.nodes[c].end;
                    lemma_one_node(a, x, c);
                }
            }
            if a.has_node(id) {
                assert(a.node(before[k - 1]).start < a.node(before[k - 1]).end);
            }
        }
    }
}

/// A search that starts at no empty block comes to none, so leaving out empty blocks changes nothing
/// about it.
pub proof fn lemma_same_order(a: AnalysisView, seeds: Seq<usize>)
    requires
        a.well_formed(),
        seeds.no_duplicates(),
        none_empty(a, seeds),
    ensures
        bfs_order(a, seeds, true) == bfs_order(a, seeds, false),
        none_empty(a, bfs_order(a, seeds, true)),
{
    let k = (usize::MAX + 1) as nat;
    lemma_bfs_distinct(a, seeds, true, k);
    lemma_ids_bounded(bfs_state(a, seeds, true, k));
    lemma_same_bfs(a, seeds, k);
    lemma_bfs_is_order(a, seeds, true, k);
    lemma_bfs_is_order(a, seeds, false, k);
}

/// The breadth-first order of a search holds just the blocks that can be reached, none twice.
pub proof fn lemma_order_reaches(a: AnalysisView, seeds: Seq<usize>, skip_empty: bool)
    requires
        seeds.no_duplicates(),
    ensures
        bfs_order(a, seeds, skip_empty).no_duplicates(),
        forall|id: usize| #[trigger]
            bfs_order(a, seeds, skip_empty).contains(id) <==> reachable(a, seeds, skip_empty, id),
{
    let k = (usize::MAX + 1) as nat;
    lemma_bfs_distinct(a, seeds, skip_empty, k);
    lemma_ids_bounded(bfs_state(a, seeds, skip_empty, k));
    lemma_bfs_is_order(a, seeds, skip_empty, k);
    assert forall|id: usize| #[trigger] bfs_order(a, seeds, skip_empty).contains(id) <==> reachable(a, seeds, skip_empty, id) by {
        lemma_bfs_reaches(a, seeds, skip_empty, k, id);
    }
}

/// How many instructions a block holds; none for an unknown id.
pub open spec fn block_size(a: AnalysisView, id: usize) -> nat {
    if a.has_node(id) { (a.node(id).end - a.node(id).start) as nat } else { 0 }
}

/// How many instructions the blocks hold together.
pub open spec fn total_size(a: AnalysisView, order: Seq<usize>) -> nat
    decreases order.len(),
{
    if order.len() == 0 {
        0
    } else {
        total_size(a, order.drop_last()) + block_size(a, order.last())
    }
}

/// The instructions of those of the first `n` blocks that `order` holds.
spec fn masked_size(a: AnalysisView, order: Seq<usize>, n: nat) -> nat
    decreases n,
{
    if n == 0 || n > a.nodes.len() {
        0
    } else {
        masked_size(a, order, (n - 1) as nat) + if order.contains(a.nodes[n - 1].id) {
            (a.nodes[n - 1].end - a.nodes[n - 1].start) as nat
        } else {
            0nat
        }
    }
}

proof fn lemma_masked_bound(a: AnalysisView, order: Seq<usize>, n: nat)
    requires
        a.well_formed(),
        n <= a.nodes.len(),
    ensures
        n == 0 ==> masked_size(a, order, n) == 0,
        n > 0 ==> masked_size(a, order, n) <= a.nodes[n - 1].end,
    decreases n,
{
    if n > 0 {
        lemma_masked_bound(a, order, (n - 1) as nat);
        assert(a.nodes[n - 1].start <= a.nodes[n - 1].end);
        if n > 1 {
            assert(a.nodes[n - 2].end <= a.nodes[n - 1].start);
        }
    }
}

proof fn lemma_masked_push(a: AnalysisView, order: Seq<usize>, id: usize, n: nat)
    requires
        a.well_formed(),
        !order.contains(id),
        n <= a.nodes.len(),
    ensures
        masked_size(a, order.push(id), n) == masked_size(a, order, n) + (if exists|at: int|
            at < n && a.is_node(id, at) { block_size(a, id) } else { 0 }),
    decreases n,
{
    let longer = order.push(id);
    assert forall|x: usize| longer.contains(x) <==> order.contains(x) || x == id by {
        if order.contains(x) {
            let k = choose|k: int| 0 <= k < order.len() && order[k] == x;
            assert(longer[k] == x);
        }
        if x == id {
            assert(longer[order.len() as int] == x);
        }
        if longer.contains(x) && x != id {
            let k = choose|k: int| 0 <= k < longer.len() && longer[k] == x;
            assert(order[k] == x);
        }
    }
    if n > 0 {
        lemma_masked_push(a, order, id, (n - 1) as nat);
        let last = a.nodes[n - 1];
        if last.id == id {
            assert(a.is_node(id, n - 1));
            let c = choose|at: int| a.is_node(id, at);
            if c < n - 1 {
                assert(a.nodes[c].id < last.id);
            } else if c > n - 1 {
                assert(last.id < a.nodes[c].id);
            }
            assert(a.node(id) == last);
            assert(!(exists|at: int| at < n - 1 && a.is_node(id, at))) by {
                if exists|at: int| at < n - 1 && a.is_node(id, at) {
                    let c2 = choose|at: int| at < n - 1 && a.is_node(id, at);
                    assert(a.nodes[c2].id < last.id);
                }
            }
        } else {
            assert((exists|at: int| at < n && a.is_node(id, at)) == (exists|at: int| at < n - 1 && a.is_node(id, at))) by {
                if exists|at: int| at < n && a.is_node(id, at) {
                    let c = choose|at: int| at < n && a.is_node(id, at);
                    assert(c < n - 1 && a.is_node(id, c));
                }
                if exists|at: int| at < n - 1 && a.is_node(id, at) {
                    let c = choose|at: int| at < n - 1 && a.is_node(id, at);
                    assert(c < n && a.is_node(id, c));
                }
            }
        }
    }
}

proof fn lemma_total_is_masked(a: AnalysisView, order: Seq<usize>)
    requires
        a.well_formed(),
        order.no_duplicates(),
    ensures
        total_size(a, order) == masked_size(a, order, a.nodes.len()),
    decreases order.len(),
{
    if order.len() == 0 {
        lemma_masked_none(a, order, a.nodes.len());
    } else {
        let d = order.drop_last();
        assert(d.no_duplicates());
        lemma_total_is_masked(a, d);
        assert(!d.contains(order.last())) by {
            if d.contains(order.last()) {
                let k = choose|k: int| 0 <= k < d.len() && d[k] == order.last();
                assert(order[k] == order[order.len() - 1]);
            }
        }
        lemma_masked_push(a, d, order.last(), a.nodes.len());
        assert(d.push(order.last()) =~= order);
        if a.has_node(order.last()) {
            let c = choose|at: int| a.is_node(order.last(), at);
            assert(c < a.nodes.len() && a.is_node(order.last(), c));
        }
    }
}

proof fn lemma_masked_none(a: AnalysisView, order: Seq<usize>, n: nat)
    requires
        order.len() == 0,
    ensures
        masked_size(a, order, n) == 0,
    decreases n,
{
    if n > 0 && n <= a.nodes.len() {
        lemma_masked_none(a, order, (n - 1) as nat);
    }
}

/// Different blocks share no instruction: together they hold no more than the program has.
pub proof fn lemma_total_bound(a: AnalysisView, order: Seq<usize>)
    requires
        a.well_formed(),
        order.no_duplicates(),
    ensures
        total_size(a, order) <= a.instructions.len(),
{
    lemma_total_is_masked(a, order);
    lemma_masked_bound(a, order, a.nodes.len());
    if a.nodes.len() > 0 {
        assert(a.nodes[a.nodes.len() - 1].end <= a.instructions.len());
    }
}

/// The entries of the functions that are blocks.
pub open spec fn function_blocks(a: AnalysisView, n: nat) -> Seq<usize>
    decreases n,
{
    if n == 0 || n > a.functions.len() {
        Seq::empty()
    } else {
        let before = function_blocks(a, (n - 1) as nat);
        if a.has_node(a.functions[n - 1].0) { before.push(a.functions[n - 1].0) } else { before }
    }
}

/// Where execution can start: the entry point, then the functions, which calls lead to.
pub open spec fn coverage_seeds(a: AnalysisView) -> Seq<usize> {
    push_new(
        if a.has_node(a.entrypoint) { seq![a.entrypoint] } else { Seq::empty() },
        function_blocks(a, a.functions.len()),
    )
}

/// The outcomes that a block contributes: its successors, where it ends in a conditional branch, of the
/// 32-bit or the 64-bit class.
pub open spec fn block_edges(a: AnalysisView, n: NodeView) -> nat {
    if n.start < n.end && conditional_branch(a.instructions[n.end - 1].opc) { n.destinations.len() } else { 0 }
}

/// The outcomes and the instructions of those of the first `n` blocks that `order` holds.
pub open spec fn reached_totals(a: AnalysisView, order: Seq<usize>, n: nat) -> (nat, nat)
    decreases n,
{
    if n == 0 || n > a.nodes.len() {
        (0, 0)
    } else {
        let before = reached_totals(a, order, (n - 1) as nat);
        let node = a.nodes[n - 1];
        if order.contains(node.id) {
            (before.0 + block_edges(a, node), before.1 + (node.end - node.start) as nat)
        } else {
            before
        }
    }
}

/// The outcomes of the conditional branches and the instructions in the part of the program that can be
/// reached from its entry point and its functions.
pub open spec fn coverage_totals(a: AnalysisView) -> (nat, nat) {
    reached_totals(a, bfs_order(a, coverage_seeds(a), false), a.nodes.len())
}

/// Of a program, no more instructions can be reached than it has, and no more outcomes than two for each.
pub proof fn lemma_totals_bound(a: AnalysisView, order: Seq<usize>, n: nat)
    requires
        a.well_formed(),
        n <= a.nodes.len(),
    ensures
        reached_totals(a, order, n).1 <= a.instructions.len(),
        reached_totals(a, order, n).0 <= 2 * a.instructions.len(),
        n > 0 ==> reached_totals(a, order, n).1 <= a.nodes[n - 1].end,
        n > 0 ==> reached_totals(a, order, n).0 <= 2 * a.nodes[n - 1].end,
    decreases n,
{
    if n > 0 {
        lemma_totals_bound(a, order, (n - 1) as nat);
        let node = a.nodes[n - 1];
        assert(node.start <= node.end <= a.instructions.len());
        assert(node.start < node.end ==> node.destinations.len() <= 2);
        if n > 1 {
            assert(a.nodes[n - 2].end <= a.nodes[n - 1].start);
        }
    }
}

/// The outcomes of the conditional branches and the instructions in the part of the program that can be
/// reached from its entry point and its functions.
pub fn program_totals(a: &ProgramAnalysis) -> (r: (usize, usize))
    requires
        a@.well_formed(),
        2 * a@.instructions.len() <= usize::MAX,
    ensures
        r.0 == coverage_totals(a@).0,
        r.1 == coverage_totals(a@).1,
{
    let mut entries: Vec<usize> = Vec::new();
    let mut i: usize = 0;
    while i < a.functions.len()
        invariant
            i <= a.functions@.len(),
            a@.well_formed(),
            entries@ == function_blocks(a@, i as nat),
        decreases a.functions.len() - i,
    {
        let pc: usize = a.functions[i].entry_pc;
        assert(a@.functions[i as int].0 == pc);
        if find_node(a, pc).is_some() {
            entries.push(pc);
        }
        i += 1;
    }
    let mut seeds: Vec<usize> = Vec::new();
    if find_node(a, a.entrypoint).is_some() {
        seeds.push(a.entrypoint);
        assert(seeds@ =~= seq![a@.entrypoint]);
    }
    proof {
        lemma_push_new(seeds@, entries@);
    }
    add_new(&mut seeds, &entries);
    let order = traverse(a, seeds, false);
    let mut edges: usize = 0;
    let mut instructions: usize = 0;
    let mut n: usize = 0;
    while n < a.nodes.len()
        invariant
            n <= a.nodes@.len(),
            a@.well_formed(),
            2 * a@.instructions.len() <= usize::MAX,
            (edges as nat, instructions as nat) == reached_totals(a@, order@, n as nat),
        decreases a.nodes.len() - n,
    {
        let node = &a.nodes[n];
        proof {
            assert(a@.nodes[n as int] == node@);
            lemma_totals_bound(a@, order@, n as nat);
            lemma_totals_bound(a@, order@, (n + 1) as nat);
        }
        if holds(&order, node.id) {
            instructions += node.end - node.start;
            if node.start < node.end {
                if is_conditional_branch_opcode(a.instructions[node.end - 1].opc) {
                    edges += node.destinations.len();
                }
            }
        }
        n += 1;
    }
    (edges, instructions)
}

/// The functions of a program, where it can be analysed.
pub fn extract_functions(program_data: &[u8]) -> (r: Option<Vec<FunctionInfo>>)
    ensures
        match r {
            Some(fs) => analyzed(program_data@) is Ok && analyzed(program_data@)->Ok_0.functions == Seq::new(
                fs@.len(),
                |i: int| (fs@[i].entry_pc, fs@[i].name@),
            ),
            None => analyzed(program_data@) is Err,
        },
{
    match analyze_elf(program_data) {
        Ok(a) => Some(a.functions),
        Err(_) => None,
    }
}

/// The totals of a program, where it can be analysed: the outcomes of its conditional branches and its
/// instructions, in the part that can be reached.
pub fn analyze_program(program_data: &[u8]) -> (r: Option<(usize, usize)>)
    ensures
        match r {
            Some(t) => analyzed(program_data@) is Ok && (t.0 as nat, t.1 as nat) == coverage_totals(
                analyzed(program_data@)->Ok_0,
            ),
            None => analyzed(program_data@) is Err,
        },
{
    assert(program_data@.len() == program_data.len());
    match analyze_elf(program_data) {
        Ok(a) => Some(program_totals(&a)),
        Err(_) => None,
    }
}

} // verus!
