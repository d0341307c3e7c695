//! The interactive coverage page: counts by function, and the control-flow graphs as JSON.
use vstd::prelude::*;
use std::collections::HashMap;
use crate::coverage::analysis::{analyze_elf, find_node, is_conditional_branch_opcode, traverse, CfgNode, ProgramAnalysis};
#[allow(unused_imports)]
use crate::coverage::analysis::{bfs_order, block_size, total_size, AnalysisView, NodeView};
use crate::coverage::page::render_page;
use crate::coverage::types::lookup_count;
#[allow(unused_imports)]
use crate::coverage::types::count_at;
use crate::lexical::text_less;
use crate::text::{copy_str, push_dec, push_dec_usize, push_dec_wide, push_escaped, push_hex, push_hex_padded, push_joined,
    replace_text};

verus! {

/// The counts of a function.
#[derive(Clone, Copy)]
pub struct CoverageStats {
    pub total_instructions: usize,
    pub hit_instructions: usize,
    pub total_branches: usize,
    pub hit_branches: usize,
    pub total_blocks: usize,
    pub hit_blocks: usize,
}

/// A function with its counts.
pub struct FunctionRow {
    pub name: String,
    pub entry_pc: usize,
    pub stats: CoverageStats,
}

/// A function with its counts, as a value.
pub struct RowView {
    pub name: Seq<char>,
    pub entry_pc: usize,
    pub stats: CoverageStats,
}

impl View for FunctionRow {
    type V = RowView;

    open spec fn view(&self) -> RowView {
        RowView { name: self.name@, entry_pc: self.entry_pc, stats: self.stats }
    }
}

pub open spec fn row_views(v: Seq<FunctionRow>) -> Seq<RowView> {
    v.map_values(|r: FunctionRow| r@)
}

/// The run that a page reports on.
pub struct CoverageWriteStats {
    pub run_time_secs: u64,
    pub executions: u64,
    pub edges_hit: usize,
    pub edges_total: usize,
    pub branches_hit: usize,
    pub branches_total: usize,
    pub instructions_hit: usize,
    pub instructions_total: usize,
}

/// The percentages that a page shows for the run, as texts.
pub struct StatPercents {
    pub edges: String,
    pub branches: String,
    pub instructions: String,
}

/// The blocks of a function with the program counters of their instructions.
pub struct BlockPcs {
    pub id: usize,
    pub pcs: Vec<usize>,
}

/// A function as the cached analysis keeps it.
pub struct CachedFunctionInfo {
    pub name: String,
    pub entry_pc: usize,
    pub total_instructions: usize,
    pub total_blocks: usize,
    pub instruction_pcs: Vec<usize>,
    pub blocks: Vec<BlockPcs>,
}

/// The control-flow graph of a function, as JSON.
pub struct FunctionGraph {
    pub name: String,
    pub json: String,
}

/// The analysis of a program, made once and used for every page.
pub struct CachedProgramAnalysis {
    pub program_name: String,
    pub functions: Vec<CachedFunctionInfo>,
    /// The graphs of the functions; of those with one name the last one counts.
    pub cfg_json: Vec<FunctionGraph>,
}

/// The functions of a program with their counts, and their graphs.
pub struct CoverageRows {
    pub rows: Vec<FunctionRow>,
    pub graphs: Vec<FunctionGraph>,
}

/// The name of a function, or one made from its entry where it has none.
pub open spec fn function_name(name: Seq<char>, entry_pc: usize) -> Seq<char> {
    if name.len() == 0 { "fn_"@ + crate::text::hex(entry_pc as nat) } else { name }
}

/// Of the first `n` blocks, the last one whose first instruction is at `pc`.
pub open spec fn entry_block(a: AnalysisView, pc: usize, n: nat) -> Option<usize>
    decreases n,
{
    if n == 0 || n > a.nodes.len() {
        None
    } else if a.nodes[n - 1].start < a.nodes[n - 1].end && a.instructions[a.nodes[n - 1].start as int].ptr == pc {
        Some(a.nodes[n - 1].id)
    } else {
        entry_block(a, pc, (n - 1) as nat)
    }
}

/// The instruction was executed.
pub open spec fn executed(hits: Map<usize, u64>, pc: usize) -> bool {
    count_at(hits, pc) > 0
}

/// How many instructions of the range were executed.
pub open spec fn range_hits(a: AnalysisView, hits: Map<usize, u64>, start: nat, end: nat) -> nat
    decreases end,
{
    if end <= start {
        0
    } else {
        range_hits(a, hits, start, (end - 1) as nat) + if executed(hits, a.instructions[end - 1].ptr) { 1nat } else { 0nat }
    }
}

/// How many instructions of the range are conditional branches, and how many of those were executed.
pub open spec fn range_branches(a: AnalysisView, hits: Map<usize, u64>, start: nat, end: nat) -> (nat, nat)
    decreases end,
{
    if end <= start {
        (0, 0)
    } else {
        let before = range_branches(a, hits, start, (end - 1) as nat);
        let insn = a.instructions[end - 1];
        if crate::coverage::analysis::conditional_branch(insn.opc) {
            (before.0 + 1, before.1 + if executed(hits, insn.ptr) { 1nat } else { 0nat })
        } else {
            before
        }
    }
}

/// The counts of the blocks together, as mathematical numbers.
pub struct Tally {
    pub instructions: nat,
    pub hit_instructions: nat,
    pub branches: nat,
    pub hit_branches: nat,
    pub blocks: nat,
    pub hit_blocks: nat,
}

pub open spec fn tally(a: AnalysisView, hits: Map<usize, u64>, order: Seq<usize>) -> Tally
    decreases order.len(),
{
    if order.len() == 0 {
        Tally { instructions: 0, hit_instructions: 0, branches: 0, hit_branches: 0, blocks: 0, hit_blocks: 0 }
    } else {
        let t = tally(a, hits, order.drop_last());
        if a.has_node(order.last()) {
            let n = a.node(order.last());
            let h = range_hits(a, hits, n.start as nat, n.end as nat);
            let b = range_branches(a, hits, n.start as nat, n.end as nat);
            Tally {
                instructions: t.instructions + block_size(a, order.last()),
                hit_instructions: t.hit_instructions + h,
                branches: t.branches + b.0,
                hit_branches: t.hit_branches + b.1,
                blocks: t.blocks + 1,
                hit_blocks: t.hit_blocks + if h > 0 { 1nat } else { 0nat },
            }
        } else {
            t
        }
    }
}

/// The counts as the page holds them.
pub open spec fn stats_of(t: Tally) -> CoverageStats {
    CoverageStats {
        total_instructions: t.instructions as usize,
        hit_instructions: t.hit_instructions as usize,
        total_branches: t.branches as usize,
        hit_branches: t.hit_branches as usize,
        total_blocks: t.blocks as usize,
        hit_blocks: t.hit_blocks as usize,
    }
}

/// The counts of the function that starts at `pc`: of the blocks that can be reached from its entry.
pub open spec fn function_stats(a: AnalysisView, hits: Map<usize, u64>, pc: usize) -> CoverageStats {
    match entry_block(a, pc, a.nodes.len()) {
        Some(entry) => stats_of(tally(a, hits, bfs_order(a, seq![entry], false))),
        None => stats_of(tally(a, hits, Seq::empty())),
    }
}

/// One row for each of the first `n` functions.
pub open spec fn plain_rows(a: AnalysisView, hits: Map<usize, u64>) -> Seq<RowView> {
    Seq::new(
        a.functions.len(),
        |i: int| RowView {
            name: function_name(a.functions[i].1, a.functions[i].0),
            entry_pc: a.functions[i].0,
            stats: function_stats(a, hits, a.functions[i].0),
        },
    )
}

pub open spec fn name_leq() -> spec_fn(RowView, RowView) -> bool {
    |x: RowView, y: RowView| !crate::lexical::text_lt(y.name, x.name)
}

/// The rows of a program by name.
pub open spec fn rows_of(a: AnalysisView, hits: Map<usize, u64>) -> Seq<RowView> {
    crate::sorting::stable_sorted(plain_rows(a, hits), name_leq())
}

/// The mnemonic of an operation code, for the common ones.
pub open spec fn opcode_name(opc: u8) -> Seq<char> {
    if opc == 0x05 { "ja"@ } else if opc == 0x07 || opc == 0x0f { "add64"@ } else if opc == 0x15 || opc == 0x1d { "jeq"@ }
    else if opc == 0x18 { "lddw"@ } else if opc == 0x25 || opc == 0x2d { "jgt"@ } else if opc == 0x55 || opc == 0x5d {
        "jne"@
    } else if opc == 0x61 { "ldxw"@ } else if opc == 0x63 { "stxw"@ } else if opc == 0x69 { "ldxh"@ }
    else if opc == 0x71 { "ldxb"@ } else if opc == 0x79 { "ldxdw"@ } else if opc == 0x7b { "stxdw"@ }
    else if opc == 0x85 { "call"@ } else if opc == 0x95 { "exit"@ } else if opc == 0xb7 || opc == 0xbf { "mov64"@ }
    else { "???"@ }
}

/// One instruction of a block as the graph shows it: a mark if it was executed, its program counter
/// and its mnemonic.
pub open spec fn insn_text(insn: crate::coverage::analysis::Insn, hits: Option<Map<usize, u64>>) -> Seq<char> {
    (if hits is Some && executed(hits->0, insn.ptr) { "+ "@ } else { "  "@ }) + crate::text::zero_padded(
        crate::text::hex(insn.ptr as nat),
        5,
    ) + ": "@ + opcode_name(insn.opc)
}

/// The instructions of a block that the graph shows, quoted: the first six.
pub open spec fn insn_items(a: AnalysisView, n: NodeView, hits: Option<Map<usize, u64>>) -> Seq<Seq<char>> {
    let shown = if n.end - n.start > 6 { 6 } else { n.end - n.start };
    Seq::new(
        shown as nat,
        |i: int| "\""@ + crate::text::escaped(insn_text(a.instructions[n.start + i], hits)) + "\""@,
    )
}

/// A block of the graph as JSON; the number of executed instructions is given where hits are known.
pub open spec fn node_item(a: AnalysisView, id: usize, hits: Option<Map<usize, u64>>) -> Seq<char> {
    let n = a.node(id);
    let counted = match hits {
        Some(h) => "{\"id\":"@ + crate::text::dec(id as nat) + ",\"hit\":"@ + crate::text::dec(
            range_hits(a, h, n.start as nat, n.end as nat),
        ),
        None => "{\"id\":"@ + crate::text::dec(id as nat),
    };
    counted + ",\"total\":"@ + crate::text::dec((n.end - n.start) as nat) + ",\"insns\":["@ + crate::text::joined(
        insn_items(a, n, hits),
        ","@,
    ) + "]}"@
}

/// Some instruction of the block was executed.
pub open spec fn block_hit(a: AnalysisView, id: usize, hits: Map<usize, u64>) -> bool {
    a.has_node(id) && range_hits(a, hits, a.node(id).start as nat, a.node(id).end as nat) > 0
}

/// An edge of the graph as JSON; where hits are known, whether its end was executed.
pub open spec fn edge_item(a: AnalysisView, from: usize, to: usize, hits: Option<Map<usize, u64>>) -> Seq<char> {
    let plain = "{\"from\":"@ + crate::text::dec(from as nat) + ",\"to\":"@ + crate::text::dec(to as nat);
    match hits {
        Some(h) => plain + (if block_hit(a, to, h) { ",\"hit\":true}"@ } else { ",\"hit\":false}"@ }),
        None => plain + "}"@,
    }
}

/// The block is known and holds instructions: the graph shows it.
pub open spec fn shown(a: AnalysisView, id: usize) -> bool {
    a.has_node(id) && a.node(id).start < a.node(id).end
}

pub open spec fn node_items(a: AnalysisView, order: Seq<usize>, hits: Option<Map<usize, u64>>) -> Seq<Seq<char>>
    decreases order.len(),
{
    if order.len() == 0 {
        Seq::empty()
    } else {
        let before = node_items(a, order.drop_last(), hits);
        if shown(a, order.last()) { before.push(node_item(a, order.last(), hits)) } else { before }
    }
}

pub open spec fn edges_from(a: AnalysisView, id: usize, hits: Option<Map<usize, u64>>) -> Seq<Seq<char>> {
    Seq::new(a.node(id).destinations.len(), |i: int| edge_item(a, id, a.node(id).destinations[i], hits))
}

pub open spec fn edge_items(a: AnalysisView, order: Seq<usize>, hits: Option<Map<usize, u64>>) -> Seq<Seq<char>>
    decreases order.len(),
{
    if order.len() == 0 {
        Seq::empty()
    } else {
        let before = edge_items(a, order.drop_last(), hits);
        if shown(a, order.last()) { before + edges_from(a, order.last(), hits) } else { before }
    }
}

/// The control-flow graph of the blocks that can be reached from `entry`, as JSON.
pub open spec fn graph_text(a: AnalysisView, entry: usize, hits: Option<Map<usize, u64>>) -> Seq<char> {
    let order = bfs_order(a, seq![entry], true);
    "{\"nodes\":["@ + crate::text::joined(node_items(a, order, hits), ","@) + "],\"edges\":["@ + crate::text::joined(
        edge_items(a, order, hits),
        ","@,
    ) + "]}"@
}

/// The mnemonic of an operation code, for the common ones.
fn mnemonic(opc: u8) -> (s: &'static str)
    ensures
        s@ == opcode_name(opc),
{
    match opc {
        0x05 => "ja",
        0x07 | 0x0f => "add64",
        0x15 | 0x1d => "jeq",
        0x18 => "lddw",
        0x25 | 0x2d => "jgt",
        0x55 | 0x5d => "jne",
        0x61 => "ldxw",
        0x63 => "stxw",
        0x69 => "ldxh",
        0x71 => "ldxb",
        0x79 => "ldxdw",
        0x7b => "stxdw",
        0x85 => "call",
        0x95 => "exit",
        0xb7 | 0xbf => "mov64",
        _ => "???",
    }
}

/// The name of a function, or one made from its entry where it has none.
fn name_or_entry(name: &String, entry_pc: usize) -> (s: String)
    ensures
        s@ == function_name(name@, entry_pc),
{
    if name.as_str().unicode_len() == 0 {
        let mut s = String::from_str("fn_");
        push_hex(&mut s, entry_pc as u64);
        s
    } else {
        name.clone()
    }
}

/// The block that starts at `pc`.
fn find_entry(a: &ProgramAnalysis, pc: usize) -> (r: Option<usize>)
    requires
        a@.well_formed(),
    ensures
        r == entry_block(a@, pc, a@.nodes.len()),
{
    let mut n: usize = a.nodes.len();
    while n > 0
        invariant
            n <= a.nodes@.len(),
            a@.well_formed(),
            entry_block(a@, pc, n as nat) == entry_block(a@, pc, a@.nodes.len()),
        decreases n,
    {
        let node = &a.nodes[n - 1];
        assert(a@.nodes[n - 1] == node@);
        if node.start < node.end && a.instructions[node.start].ptr == pc {
            return Some(node.id);
        }
        n -= 1;
    }
    None
}

pub open spec fn opt_hits(hits: Option<&HashMap<usize, u64>>) -> Option<Map<usize, u64>> {
    match hits {
        Some(h) => Some(h@),
        None => None,
    }
}

/// How many instructions of a block were executed.
fn count_block_hits(a: &ProgramAnalysis, node: &CfgNode, hits: &HashMap<usize, u64>) -> (n: usize)
    requires
        node.start <= node.end <= a.instructions@.len(),
    ensures
        n == range_hits(a@, hits@, node.start as nat, node.end as nat),
        n <= node.end - node.start,
{
    let mut n: usize = 0;
    let mut i: usize = node.start;
    while i < node.end
        invariant
            node.start <= i <= node.end <= a.instructions@.len(),
            n <= i - node.start,
            n == range_hits(a@, hits@, node.start as nat, i as nat),
        decreases node.end - i,
    {
        if lookup_count(hits, a.instructions[i].ptr) > 0 {
            n += 1;
        }
        i += 1;
    }
    n
}

/// How many conditional branches a block holds, and how many of them were executed.
fn count_block_branches(a: &ProgramAnalysis, node: &CfgNode, hits: &HashMap<usize, u64>) -> (r: (usize, usize))
    requires
        node.start <= node.end <= a.instructions@.len(),
    ensures
        (r.0 as nat, r.1 as nat) == range_branches(a@, hits@, node.start as nat, node.end as nat),
        r.0 <= node.end - node.start,
        r.1 <= r.0,
{
    let mut total: usize = 0;
    let mut hit: usize = 0;
    let mut i: usize = node.start;
    while i < node.end
        invariant
            node.start <= i <= node.end <= a.instructions@.len(),
            hit <= total <= i - node.start,
            (total as nat, hit as nat) == range_branches(a@, hits@, node.start as nat, i as nat),
        decreases node.end - i,
    {
        if is_conditional_branch_opcode(a.instructions[i].opc) {
            total += 1;
            if lookup_count(hits, a.instructions[i].ptr) > 0 {
                hit += 1;
            }
        }
        i += 1;
    }
    (total, hit)
}

proof fn lemma_total_take(a: AnalysisView, order: Seq<usize>, i: int)
    requires
        a.well_formed(),
        order.no_duplicates(),
        0 <= i <= order.len(),
    ensures
        total_size(a, order.take(i)) <= a.instructions.len(),
{
    assert(order.take(i).no_duplicates());
    crate::coverage::analysis::lemma_total_bound(a, order.take(i));
}

proof fn lemma_node_in_range(a: AnalysisView, id: usize)
    requires
        a.well_formed(),
        a.has_node(id),
    ensures
        a.node(id).start <= a.node(id).end <= a.instructions.len(),
{
    let at = choose|at: int| a.is_node(id, at);
    assert(a.is_node(id, at));
    assert(a.nodes[at] == a.node(id));
}

/// The counts of the blocks together.
fn tally_blocks(a: &ProgramAnalysis, hits: &HashMap<usize, u64>, order: &Vec<usize>) -> (s: CoverageStats)
    requires
        a@.well_formed(),
        order@.no_duplicates(),
    ensures
        s == stats_of(tally(a@, hits@, order@)),
        tally(a@, hits@, order@).hit_instructions <= tally(a@, hits@, order@).instructions <= a@.instructions.len(),
        tally(a@, hits@, order@).hit_blocks <= tally(a@, hits@, order@).blocks,
{
    let mut s = CoverageStats {
        total_instructions: 0,
        hit_instructions: 0,
        total_branches: 0,
        hit_branches: 0,
        total_blocks: 0,
        hit_blocks: 0,
    };
    let mut i: usize = 0;
    assert(order@.take(0) =~= Seq::<usize>::empty());
    while i < order.len()
        invariant
            i <= order@.len(),
            a@.well_formed(),
            order@.no_duplicates(),
            tally(a@, hits@, order@.take(i as int)) == (Tally {
                instructions: s.total_instructions as nat,
                hit_instructions: s.hit_instructions as nat,
                branches: s.total_branches as nat,
                hit_branches: s.hit_branches as nat,
                blocks: s.total_blocks as nat,
                hit_blocks: s.hit_blocks as nat,
            }),
            s.total_instructions == total_size(a@, order@.take(i as int)),
            s.hit_instructions <= s.total_instructions,
            s.total_branches <= s.total_instructions,
            s.hit_branches <= s.total_branches,
            s.total_blocks <= i,
            s.hit_blocks <= s.total_blocks,
        decreases order.len() - i,
    {
        proof {
            assert(order@.take(i + 1).drop_last() =~= order@.take(i as int));
            assert(order@.take(i + 1).last() == order@[i as int]);
            lemma_total_take(a@, order@, i + 1);
        }
        if let Some(at) = find_node(a, order[i]) {
            let node = &a.nodes[at];
            proof {
                lemma_node_in_range(a@, order@[i as int]);
                assert(a@.instructions.len() == a.instructions.len());
            }
            let h: usize = count_block_hits(a, node, hits);
            let b = count_block_branches(a, node, hits);
            s = CoverageStats {
                total_instructions: s.total_instructions + (node.end - node.start),
                hit_instructions: s.hit_instructions + h,
                total_branches: s.total_branches + b.0,
                hit_branches: s.hit_branches + b.1,
                total_blocks: s.total_blocks + 1,
                hit_blocks: s.hit_blocks + if h > 0 { 1 } else { 0 },
            };
        }
        i += 1;
    }
    assert(order@.take(i as int) =~= order@);
    proof {
        lemma_total_take(a@, order@, i as int);
    }
    s
}

fn singleton(id: usize) -> (v: Vec<usize>)
    ensures
        v@ == seq![id],
        v@.no_duplicates(),
{
    let mut v: Vec<usize> = Vec::new();
    v.push(id);
    assert(v@ =~= seq![id]);
    v
}

/// Puts a row behind those with a name that does not come after its own.
fn insert_row(rows: &mut Vec<FunctionRow>, row: FunctionRow)
    ensures
        row_views(final(rows)@) == crate::sorting::insert_sorted(row_views(old(rows)@), row@, name_leq()),
{
    let ghost v = row_views(rows@);
    let ghost r = row@;
    let mut p: usize = rows.len();
    while p > 0 && text_less(row.name.as_str(), rows[p - 1].name.as_str())
        invariant
            p <= rows@.len(),
            v == row_views(rows@),
            r == row@,
            forall|k: int| p <= k < rows@.len() ==> !name_leq()(#[trigger] v[k], r),
        decreases p,
    {
        p -= 1;
        assert(v[p as int] == rows@[p as int]@);
    }
    proof {
        if p > 0 {
            assert(v[p - 1] == rows@[p - 1]@);
        }
        crate::sorting::lemma_insert_at(v, r, name_leq(), p as int);
    }
    rows.insert(p, row);
    assert(row_views(rows@) =~= v.insert(p as int, r));
}

/// The functions of a program with their counts, by name.
pub fn coverage_rows(a: &ProgramAnalysis, hits: &HashMap<usize, u64>) -> (rows: Vec<FunctionRow>)
    requires
        a@.well_formed(),
    ensures
        row_views(rows@) == rows_of(a@, hits@),
{
    let mut rows: Vec<FunctionRow> = Vec::new();
    let ghost plain = plain_rows(a@, hits@);
    let mut i: usize = 0;
    assert(row_views(rows@) =~= crate::sorting::stable_sorted(plain.take(0), name_leq()));
    while i < a.functions.len()
        invariant
            i <= a.functions@.len(),
            a@.well_formed(),
            plain == plain_rows(a@, hits@),
            row_views(rows@) == crate::sorting::stable_sorted(plain.take(i as int), name_leq()),
        decreases a.functions.len() - i,
    {
        let pc: usize = a.functions[i].entry_pc;
        let stats = match find_entry(a, pc) {
            Some(entry) => {
                let order = traverse(a, singleton(entry), false);
                tally_blocks(a, hits, &order)
            },
            None => {
                let none: Vec<usize> = Vec::new();
                assert(none@ =~= Seq::<usize>::empty());
                tally_blocks(a, hits, &none)
            },
        };
        let row = FunctionRow { name: name_or_entry(&a.functions[i].name, pc), entry_pc: pc, stats };
        proof {
            assert(plain[i as int] == row@);
            assert(plain.take(i + 1).drop_last() =~= plain.take(i as int));
        }
        insert_row(&mut rows, row);
        i += 1;
    }
    assert(plain.take(i as int) =~= plain);
    rows
}

/// One instruction of a block as the graph shows it, quoted.
fn insn_json(a: &ProgramAnalysis, i: usize, hits: Option<&HashMap<usize, u64>>) -> (s: String)
    requires
        i < a.instructions@.len(),
    ensures
        s@ == "\""@ + crate::text::escaped(insn_text(a.instructions@[i as int], opt_hits(hits))) + "\""@,
{
    let insn = a.instructions[i];
    let mark = match hits {
        Some(h) => lookup_count(h, insn.ptr) > 0,
        None => false,
    };
    let mut t = if mark { String::from_str("+ ") } else { String::from_str("  ") };
    push_hex_padded(&mut t, insn.ptr as u64, 5);
    t.append(": ");
    t.append(mnemonic(insn.opc));
    let mut s = String::from_str("\"");
    push_escaped(&mut s, t.as_str());
    s.append("\"");
    s
}

/// A block of the graph as JSON.
fn node_json(a: &ProgramAnalysis, at: usize, hits: Option<&HashMap<usize, u64>>) -> (s: String)
    requires
        a@.well_formed(),
        at < a.nodes@.len(),
        a@.has_node(a.nodes@[at as int].id),
        a@.node(a.nodes@[at as int].id) == a.nodes@[at as int]@,
    ensures
        s@ == node_item(a@, a.nodes@[at as int].id, opt_hits(hits)),
{
    let node = &a.nodes[at];
    proof {
        lemma_node_in_range(a@, node.id);
    }
    let mut insns: Vec<String> = Vec::new();
    let ghost items = insn_items(a@, node@, opt_hits(hits));
    let shown_count: usize = if node.end - node.start > 6 { 6 } else { node.end - node.start };
    let mut i: usize = 0;
    assert(crate::text::texts(insns@) =~= items.take(0));
    while i < shown_count
        invariant
            i <= shown_count,
            shown_count == items.len(),
            node.start + shown_count <= node.end <= a.instructions@.len(),
            items == insn_items(a@, node@, opt_hits(hits)),
            crate::text::texts(insns@) == items.take(i as int),
        decreases shown_count - i,
    {
        let item = insn_json(a, node.start + i, hits);
        assert(item@ == items[i as int]);
        proof {
            crate::text::lemma_texts_push(insns@, item);
            assert(items.take(i + 1) =~= items.take(i as int).push(items[i as int]));
        }
        insns.push(item);
        i += 1;
    }
    assert(items.take(i as int) =~= items);
    let mut s = String::from_str("{\"id\":");
    push_dec_usize(&mut s, node.id);
    if let Some(h) = hits {
        s.append(",\"hit\":");
        push_dec_usize(&mut s, count_block_hits(a, node, h));
    }
    s.append(",\"total\":");
    push_dec_usize(&mut s, node.end - node.start);
    s.append(",\"insns\":[");
    push_joined(&mut s, &insns, ",");
    s.append("]}");
    s
}

/// An edge of the graph as JSON.
fn edge_json(a: &ProgramAnalysis, from: usize, to: usize, hits: Option<&HashMap<usize, u64>>) -> (s: String)
    requires
        a@.well_formed(),
    ensures
        s@ == edge_item(a@, from, to, opt_hits(hits)),
{
    let mut s = String::from_str("{\"from\":");
    push_dec_usize(&mut s, from);
    s.append(",\"to\":");
    push_dec_usize(&mut s, to);
    match hits {
        Some(h) => {
            let hit = match find_node(a, to) {
                Some(at) => {
                    proof {
                        lemma_node_in_range(a@, to);
                    }
                    count_block_hits(a, &a.nodes[at], h) > 0
                },
                None => false,
            };
            if hit {
                s.append(",\"hit\":true}");
            } else {
                s.append(",\"hit\":false}");
            }
        },
        None => {
            s.append("}");
        },
    }
    s
}

/// The control-flow graph of the blocks in `order`, as JSON.
fn write_graph(a: &ProgramAnalysis, order: &Vec<usize>, hits: Option<&HashMap<usize, u64>>) -> (s: String)
    requires
        a@.well_formed(),
    ensures
        s@ == "{\"nodes\":["@ + crate::text::joined(node_items(a@, order@, opt_hits(hits)), ","@) + "],\"edges\":["@
            + crate::text::joined(edge_items(a@, order@, opt_hits(hits)), ","@) + "]}"@,
{
    let ghost oh = opt_hits(hits);
    let mut nodes: Vec<String> = Vec::new();
    let mut edges: Vec<String> = Vec::new();
    let mut i: usize = 0;
    assert(crate::text::texts(nodes@) =~= node_items(a@, order@.take(0), oh));
    assert(crate::text::texts(edges@) =~= edge_items(a@, order@.take(0), oh));
    while i < order.len()
        invariant
            i <= order@.len(),
            a@.well_formed(),
            oh == opt_hits(hits),
            crate::text::texts(nodes@) == node_items(a@, order@.take(i as int), oh),
            crate::text::texts(edges@) == edge_items(a@, order@.take(i as int), oh),
        decreases order.len() - i,
    {
        let id: usize = order[i];
        proof {
            assert(order@.take(i + 1).drop_last() =~= order@.take(i as int));
            assert(order@.take(i + 1).last() == id);
        }
        if let Some(at) = find_node(a, id) {
            let node = &a.nodes[at];
            if node.start < node.end {
                let item = node_json(a, at, hits);
                proof {
                    crate::text::lemma_texts_push(nodes@, item);
                }
                nodes.push(item);
                let ghost before = crate::text::texts(edges@);
                let ghost from = edges_from(a@, id, oh);
                let mut k: usize = 0;
                assert(before =~= before + from.take(0));
                while k < node.destinations.len()
                    invariant
                        a@.well_formed(),
                        oh == opt_hits(hits),
                        a@.node(id) == node@,
                        k <= node.destinations@.len(),
                        from == edges_from(a@, id, oh),
                        crate::text::texts(edges@) == before + from.take(k as int),
                    decreases node.destinations.len() - k,
                {
                    let item = edge_json(a, id, node.destinations[k], hits);
                    assert(item@ == from[k as int]);
                    proof {
                        crate::text::lemma_texts_push(edges@, item);
                        assert(before + from.take(k + 1) =~= (before + from.take(k as int)).push(from[k as int]));
                    }
                    edges.push(item);
                    k += 1;
                }
                assert(from.take(k as int) =~= from);
            }
        }
        i += 1;
    }
    assert(order@.take(i as int) =~= order@);
    let mut s = String::from_str("{\"nodes\":[");
    push_joined(&mut s, &nodes, ",");
    s.append("],\"edges\":[");
    push_joined(&mut s, &edges, ",");
    s.append("]}");
    s
}

/// The control-flow graph of a function as JSON: the blocks that can be reached from its entry
/// breadth first, and the edges between them.
pub fn generate_function_cfg_json(a: &ProgramAnalysis, entry_node: usize, pc_hits: &HashMap<usize, u64>) -> (s: String)
    requires
        a@.well_formed(),
    ensures
        s@ == graph_text(a@, entry_node, Some(pc_hits@)),
{
    let order = traverse(a, singleton(entry_node), true);
    write_graph(a, &order, Some(pc_hits))
}

/// The statistics of the run, up to its duration.
pub const STATS_HEAD: &'static str = r#"<div id="stats-header">
            <div class="stat-row"><button id="refresh-btn" onclick="location.reload()">Refresh</button><div class="theme-selector"><button class="theme-btn" data-theme="neon" onclick="setTheme('neon')">Neon</button><button class="theme-btn" data-theme="cyber" onclick="setTheme('cyber')">Cyber</button><button class="theme-btn" data-theme="ocean" onclick="setTheme('ocean')">Ocean</button></div><span class="stat">Runtime: <b>"#;

/// The statistics of the run as the page shows them.
pub open spec fn statistics_text(st: CoverageWriteStats, pc: StatPercents) -> Seq<char> {
    STATS_HEAD@
        + crate::text::dec(st.run_time_secs as nat)
        + r#"s</b></span><span class="stat">Execs: <b>"#@
        + crate::text::dec(st.executions as nat)
        + r#"</b></span></div>
            <div class="stat-row"><span class="stat">Edges: <b>"#@
        + crate::text::dec(st.edges_hit as nat)
        + r#"/"#@
        + crate::text::dec(st.edges_total as nat)
        + r#"</b> ("#@
        + pc.edges@
        + r#"%)</span><span class="stat">Branches: <b>"#@
        + crate::text::dec(st.branches_hit as nat)
        + r#"/"#@
        + crate::text::dec(st.branches_total as nat)
        + r#"</b> ("#@
        + pc.branches@
        + r#"%)</span><span class="stat">Blocks: <b>"#@
        + crate::text::dec(st.instructions_hit as nat)
        + r#"/"#@
        + crate::text::dec(st.instructions_total as nat)
        + r#"</b> ("#@
        + pc.instructions@
        + r#"%)</span></div>
        </div>"#@
}

/// The statistics of the run as the page shows them.
pub fn statistics_html(st: &CoverageWriteStats, pc: &StatPercents) -> (s: String)
    ensures
        s@ == statistics_text(*st, *pc),
{
    let mut s = String::from_str(STATS_HEAD);
    push_dec(&mut s, st.run_time_secs);
    s.append(r#"s</b></span><span class="stat">Execs: <b>"#);
    push_dec(&mut s, st.executions);
    s.append(r#"</b></span></div>
            <div class="stat-row"><span class="stat">Edges: <b>"#);
    push_dec_usize(&mut s, st.edges_hit);
    s.append(r#"/"#);
    push_dec_usize(&mut s, st.edges_total);
    s.append(r#"</b> ("#);
    s.append(pc.edges.as_str());
    s.append(r#"%)</span><span class="stat">Branches: <b>"#);
    push_dec_usize(&mut s, st.branches_hit);
    s.append(r#"/"#);
    push_dec_usize(&mut s, st.branches_total);
    s.append(r#"</b> ("#);
    s.append(pc.branches.as_str());
    s.append(r#"%)</span><span class="stat">Blocks: <b>"#);
    push_dec_usize(&mut s, st.instructions_hit);
    s.append(r#"/"#);
    push_dec_usize(&mut s, st.instructions_total);
    s.append(r#"</b> ("#);
    s.append(pc.instructions.as_str());
    s.append(r#"%)</span></div>
        </div>"#);
    s
}

/// A function as an entry of the page's list; `pct` is the share of its instructions that was executed.
pub open spec fn row_item(row: RowView, pct: Seq<char>) -> Seq<char> {
    "{\"name\":\""@ + crate::text::escaped(row.name) + "\",\"pc\":"@ + crate::text::dec(row.entry_pc as nat)
        + ",\"hit\":"@ + crate::text::dec(row.stats.hit_instructions as nat) + ",\"total\":"@ + crate::text::dec(
        row.stats.total_instructions as nat,
    ) + ",\"pct\":"@ + pct + ",\"blocks_hit\":"@ + crate::text::dec(row.stats.hit_blocks as nat)
        + ",\"blocks_total\":"@ + crate::text::dec(row.stats.total_blocks as nat) + "}"@
}

pub open spec fn row_items(rows: Seq<RowView>, pcts: Seq<Seq<char>>) -> Seq<Seq<char>> {
    Seq::new(rows.len(), |i: int| row_item(rows[i], pcts[i]))
}

/// The counts of all functions summed up: executed and all instructions, executed and all blocks.
pub open spec fn row_sums(rows: Seq<RowView>) -> (nat, nat, nat, nat)
    decreases rows.len(),
{
    if rows.len() == 0 {
        (0, 0, 0, 0)
    } else {
        let b = row_sums(rows.drop_last());
        let s = rows.last().stats;
        (
            b.0 + s.hit_instructions as nat,
            b.1 + s.total_instructions as nat,
            b.2 + s.hit_blocks as nat,
            b.3 + s.total_blocks as nat,
        )
    }
}

/// The program as an entry of the page's list.
pub open spec fn program_item(name: Seq<char>, rows: Seq<RowView>, pcts: Seq<Seq<char>>) -> Seq<char> {
    let t = row_sums(rows);
    "{\"name\":\""@ + crate::text::escaped(name) + "\",\"hit\":"@ + crate::text::dec(t.0) + ",\"total\":"@
        + crate::text::dec(t.1) + ",\"blocks_hit\":"@ + crate::text::dec(t.2) + ",\"blocks_total\":"@
        + crate::text::dec(t.3) + ",\"functions\":["@ + crate::text::joined(row_items(rows, pcts), ","@) + "]}"@
}

/// A graph with the name of its function.
pub open spec fn named_graph(name: Seq<char>, json: Seq<char>) -> Seq<char> {
    "\""@ + crate::text::escaped(name) + "\": "@ + json
}

pub open spec fn graph_views(graphs: Seq<FunctionGraph>) -> Seq<(Seq<char>, Seq<char>)> {
    Seq::new(graphs.len(), |i: int| (graphs[i].name@, graphs[i].json@))
}

pub open spec fn graph_items(graphs: Seq<(Seq<char>, Seq<char>)>) -> Seq<Seq<char>> {
    Seq::new(graphs.len(), |i: int| named_graph(graphs[i].0, graphs[i].1))
}

/// A function of the list as JSON.
fn row_json(row: &FunctionRow, pct: &str) -> (s: String)
    ensures
        s@ == row_item(row@, pct@),
{
    let mut s = String::from_str("{\"name\":\"");
    push_escaped(&mut s, row.name.as_str());
    s.append("\",\"pc\":");
    push_dec_usize(&mut s, row.entry_pc);
    s.append(",\"hit\":");
    push_dec_usize(&mut s, row.stats.hit_instructions);
    s.append(",\"total\":");
    push_dec_usize(&mut s, row.stats.total_instructions);
    s.append(",\"pct\":");
    s.append(pct);
    s.append(",\"blocks_hit\":");
    push_dec_usize(&mut s, row.stats.hit_blocks);
    s.append(",\"blocks_total\":");
    push_dec_usize(&mut s, row.stats.total_blocks);
    s.append("}");
    s
}

/// The program of the list as JSON.
pub fn program_json(name: &str, rows: &Vec<FunctionRow>, pcts: &Vec<String>) -> (s: String)
    requires
        pcts@.len() == rows@.len(),
    ensures
        s@ == program_item(name@, row_views(rows@), crate::text::texts(pcts@)),
{
    let ghost v = row_views(rows@);
    let ghost pt = crate::text::texts(pcts@);
    let ghost all = row_items(v, pt);
    let mut items: Vec<String> = Vec::new();
    let mut hit: u128 = 0;
    let mut total: u128 = 0;
    let mut blocks_hit: u128 = 0;
    let mut blocks_total: u128 = 0;
    let mut i: usize = 0;
    assert(crate::text::texts(items@) =~= all.take(0));
    while i < rows.len()
        invariant
            i <= rows@.len(),
            pcts@.len() == rows@.len(),
            v == row_views(rows@),
            pt == crate::text::texts(pcts@),
            all == row_items(v, pt),
            crate::text::texts(items@) == all.take(i as int),
            (hit as nat, total as nat, blocks_hit as nat, blocks_total as nat) == row_sums(v.take(i as int)),
            hit <= i * 0xffff_ffff_ffff_ffff,
            total <= i * 0xffff_ffff_ffff_ffff,
            blocks_hit <= i * 0xffff_ffff_ffff_ffff,
            blocks_total <= i * 0xffff_ffff_ffff_ffff,
        decreases rows.len() - i,
    {
        let item = row_json(&rows[i], pcts[i].as_str());
        proof {
            assert(v[i as int] == rows@[i as int]@);
            assert(pt[i as int] == pcts@[i as int]@);
            assert(item@ == all[i as int]);
            crate::text::lemma_texts_push(items@, item);
            assert(all.take(i + 1) =~= all.take(i as int).push(all[i as int]));
            assert(v.take(i + 1).drop_last() =~= v.take(i as int));
            assert(v.take(i + 1).last() == v[i as int]);
        }
        items.push(item);
        hit = hit + rows[i].stats.hit_instructions as u128;
        total = total + rows[i].stats.total_instructions as u128;
        blocks_hit = blocks_hit + rows[i].stats.hit_blocks as u128;
        blocks_total = blocks_total + rows[i].stats.total_blocks as u128;
        i += 1;
    }
    assert(all.take(i as int) =~= all);
    assert(v.take(i as int) =~= v);
    let mut s = String::from_str("{\"name\":\"");
    push_escaped(&mut s, name);
    s.append("\",\"hit\":");
    push_dec_wide(&mut s, hit);
    s.append(",\"total\":");
    push_dec_wide(&mut s, total);
    s.append(",\"blocks_hit\":");
    push_dec_wide(&mut s, blocks_hit);
    s.append(",\"blocks_total\":");
    push_dec_wide(&mut s, blocks_total);
    s.append(",\"functions\":[");
    push_joined(&mut s, &items, ",");
    s.append("]}");
    s
}

/// The graphs with their names, separated by commas.
fn graphs_json(graphs: &Vec<FunctionGraph>) -> (s: String)
    ensures
        s@ == crate::text::joined(graph_items(graph_views(graphs@)), ","@),
{
    let ghost all = graph_items(graph_views(graphs@));
    let mut items: Vec<String> = Vec::new();
    let mut i: usize = 0;
    assert(crate::text::texts(items@) =~= all.take(0));
    while i < graphs.len()
        invariant
            i <= graphs@.len(),
            all == graph_items(graph_views(graphs@)),
            crate::text::texts(items@) == all.take(i as int),
        decreases graphs.len() - i,
    {
        let mut item = String::from_str("\"");
        push_escaped(&mut item, graphs[i].name.as_str());
        item.append("\": ");
        item.append(graphs[i].json.as_str());
        proof {
            assert(item@ == all[i as int]);
            crate::text::lemma_texts_push(items@, item);
            assert(all.take(i + 1) =~= all.take(i as int).push(all[i as int]));
        }
        items.push(item);
        i += 1;
    }
    assert(all.take(i as int) =~= all);
    let mut s = String::new();
    push_joined(&mut s, &items, ",");
    assert(s@ =~= crate::text::joined(all, ","@));
    s
}

/// The graphs of the functions that have an entry block, with their names.
pub open spec fn graphs_of(a: AnalysisView, rows: Seq<RowView>, hits: Option<Map<usize, u64>>) -> Seq<(Seq<char>, Seq<char>)>
    decreases rows.len(),
{
    if rows.len() == 0 {
        Seq::empty()
    } else {
        let before = graphs_of(a, rows.drop_last(), hits);
        match entry_block(a, rows.last().entry_pc, a.nodes.len()) {
            Some(entry) => before.push((rows.last().name, graph_text(a, entry, hits))),
            None => before,
        }
    }
}

/// The functions of an analysed program with their counts, by name, and their graphs.
pub fn measure(a: &ProgramAnalysis, pc_hits: &HashMap<usize, u64>) -> (r: CoverageRows)
    requires
        a@.well_formed(),
    ensures
        row_views(r.rows@) == rows_of(a@, pc_hits@),
        graph_views(r.graphs@) == graphs_of(a@, rows_of(a@, pc_hits@), Some(pc_hits@)),
{
    let rows = coverage_rows(a, pc_hits);
    let ghost v = row_views(rows@);
    let ghost oh = Some(pc_hits@);
    let mut graphs: Vec<FunctionGraph> = Vec::new();
    let mut i: usize = 0;
    assert(graph_views(graphs@) =~= graphs_of(a@, v.take(0), oh));
    while i < rows.len()
        invariant
            i <= rows@.len(),
            a@.well_formed(),
            v == row_views(rows@),
            oh == Some(pc_hits@),
            graph_views(graphs@) == graphs_of(a@, v.take(i as int), oh),
        decreases rows.len() - i,
    {
        proof {
            assert(v[i as int] == rows@[i as int]@);
            assert(v.take(i + 1).drop_last() =~= v.take(i as int));
            assert(v.take(i + 1).last() == v[i as int]);
        }
        if let Some(entry) = find_entry(a, rows[i].entry_pc) {
            let ghost before = graphs@;
            let graph = FunctionGraph {
                name: rows[i].name.clone(),
                json: generate_function_cfg_json(a, entry, pc_hits),
            };
            graphs.push(graph);
            assert(graph_views(graphs@) =~= graph_views(before).push((graph.name@, graph.json@)));
        }
        i += 1;
    }
    assert(v.take(i as int) =~= v);
    CoverageRows { rows, graphs }
}

/// The functions of a program with their counts, by name, and their graphs; the reason where the
/// program cannot be analysed.
pub fn measure_coverage(program_data: &[u8], pc_hits: &HashMap<usize, u64>) -> (r: Result<CoverageRows, String>)
    ensures
        match r {
            Ok(c) => crate::coverage::analysis::analyzed(program_data@) is Ok && ({
                let a = crate::coverage::analysis::analyzed(program_data@)->Ok_0;
                row_views(c.rows@) == rows_of(a, pc_hits@) && graph_views(c.graphs@) == graphs_of(
                    a,
                    rows_of(a, pc_hits@),
                    Some(pc_hits@),
                )
            }),
            Err(e) => crate::coverage::analysis::analyzed(program_data@) == Err::<AnalysisView, Seq<char>>(e@),
        },
{
    match analyze_elf(program_data) {
        Ok(a) => Ok(measure(&a, pc_hits)),
        Err(e) => Err(e),
    }
}

/// What the page says of the run; nothing where no statistics are given.
pub open spec fn header_text(stats: Option<(CoverageWriteStats, StatPercents)>) -> Seq<char> {
    match stats {
        Some((st, pc)) => statistics_text(st, pc),
        None => Seq::empty(),
    }
}

pub open spec fn stats_view(stats: Option<(&CoverageWriteStats, &StatPercents)>) -> Option<(CoverageWriteStats, StatPercents)> {
    match stats {
        Some((st, pc)) => Some((*st, *pc)),
        None => None,
    }
}

/// The coverage page of a program: the functions with their counts and graphs. It loads itself again
/// every five seconds. `percents` gives the share of executed instructions of each row as a text.
pub fn generate_coverage_html(
    program_name: &str,
    coverage: &CoverageRows,
    percents: &Vec<String>,
    stats: Option<(&CoverageWriteStats, &StatPercents)>,
) -> (page: String)
    requires
        percents@.len() == coverage.rows@.len(),
    ensures
        page@ == crate::coverage::page::page_text(
            true,
            program_name@,
            header_text(stats_view(stats)),
            program_item(program_name@, row_views(coverage.rows@), crate::text::texts(percents@)),
            crate::text::joined(graph_items(graph_views(coverage.graphs@)), ","@),
            "// Initial render\n"@,
        ),
{
    let header = match stats {
        Some((st, pc)) => statistics_html(st, pc),
        None => String::new(),
    };
    let programs = program_json(program_name, &coverage.rows, percents);
    let graphs = graphs_json(&coverage.graphs);
    render_page(true, program_name, header.as_str(), programs.as_str(), graphs.as_str(), "// Initial render\n")
}

/// The program counters of the instructions of a range.
pub open spec fn range_pcs(a: AnalysisView, start: nat, end: nat) -> Seq<usize> {
    Seq::new((end - start) as nat, |i: int| a.instructions[start + i].ptr)
}

/// The blocks in `order` that the graph shows, each with the program counters of its instructions.
pub open spec fn block_list(a: AnalysisView, order: Seq<usize>) -> Seq<(usize, Seq<usize>)>
    decreases order.len(),
{
    if order.len() == 0 {
        Seq::empty()
    } else {
        let before = block_list(a, order.drop_last());
        let n = a.node(order.last());
        if shown(a, order.last()) {
            before.push((order.last(), range_pcs(a, n.start as nat, n.end as nat)))
        } else {
            before
        }
    }
}

/// The program counters of the blocks, one after the other.
pub open spec fn all_pcs(blocks: Seq<(usize, Seq<usize>)>) -> Seq<usize>
    decreases blocks.len(),
{
    if blocks.len() == 0 {
        Seq::empty()
    } else {
        all_pcs(blocks.drop_last()) + blocks.last().1
    }
}

pub open spec fn block_views(blocks: Seq<BlockPcs>) -> Seq<(usize, Seq<usize>)> {
    Seq::new(blocks.len(), |i: int| (blocks[i].id, blocks[i].pcs@))
}

/// A function of the cached analysis, as a value.
pub struct CachedView {
    pub name: Seq<char>,
    pub entry_pc: usize,
    pub total_instructions: usize,
    pub total_blocks: usize,
    pub instruction_pcs: Seq<usize>,
    pub blocks: Seq<(usize, Seq<usize>)>,
}

impl View for CachedFunctionInfo {
    type V = CachedView;

    open spec fn view(&self) -> CachedView {
        CachedView {
            name: self.name@,
            entry_pc: self.entry_pc,
            total_instructions: self.total_instructions,
            total_blocks: self.total_blocks,
            instruction_pcs: self.instruction_pcs@,
            blocks: block_views(self.blocks@),
        }
    }
}

pub open spec fn cached_views(v: Seq<CachedFunctionInfo>) -> Seq<CachedView> {
    v.map_values(|f: CachedFunctionInfo| f@)
}

/// What the cached analysis keeps of the blocks of a function.
pub open spec fn cached_function(name: Seq<char>, entry_pc: usize, blocks: Seq<(usize, Seq<usize>)>) -> CachedView {
    CachedView {
        name,
        entry_pc,
        total_instructions: all_pcs(blocks).len() as usize,
        total_blocks: blocks.len() as usize,
        instruction_pcs: all_pcs(blocks),
        blocks,
    }
}

/// The blocks of the function that starts at `pc`.
pub open spec fn function_block_list(a: AnalysisView, pc: usize) -> Seq<(usize, Seq<usize>)> {
    match entry_block(a, pc, a.nodes.len()) {
        Some(entry) => block_list(a, bfs_order(a, seq![entry], true)),
        None => Seq::empty(),
    }
}

pub open spec fn plain_cached(a: AnalysisView) -> Seq<CachedView> {
    Seq::new(
        a.functions.len(),
        |i: int| cached_function(
            function_name(a.functions[i].1, a.functions[i].0),
            a.functions[i].0,
            function_block_list(a, a.functions[i].0),
        ),
    )
}

pub open spec fn cached_leq() -> spec_fn(CachedView, CachedView) -> bool {
    |x: CachedView, y: CachedView| !crate::lexical::text_lt(y.name, x.name)
}

/// The functions of the cached analysis, by name.
pub open spec fn cached_functions(a: AnalysisView) -> Seq<CachedView> {
    crate::sorting::stable_sorted(plain_cached(a), cached_leq())
}

/// The graphs of the functions that have an entry block, without hits, in the order of the analysis.
pub open spec fn cached_graphs(a: AnalysisView, n: nat) -> Seq<(Seq<char>, Seq<char>)>
    decreases n,
{
    if n == 0 || n > a.functions.len() {
        Seq::empty()
    } else {
        let before = cached_graphs(a, (n - 1) as nat);
        match entry_block(a, a.functions[n - 1].0, a.nodes.len()) {
            Some(entry) => before.push(
                (function_name(a.functions[n - 1].1, a.functions[n - 1].0), graph_text(a, entry, None)),
            ),
            None => before,
        }
    }
}

/// The blocks in `order` that the graph shows.
fn list_blocks(a: &ProgramAnalysis, order: &Vec<usize>) -> (r: (Vec<BlockPcs>, Vec<usize>))
    requires
        a@.well_formed(),
    ensures
        block_views(r.0@) == block_list(a@, order@),
        r.1@ == all_pcs(block_list(a@, order@)),
{
    let mut blocks: Vec<BlockPcs> = Vec::new();
    let mut pcs: Vec<usize> = Vec::new();
    let mut i: usize = 0;
    assert(block_views(blocks@) =~= block_list(a@, order@.take(0)));
    while i < order.len()
        invariant
            i <= order@.len(),
            a@.well_formed(),
            block_views(blocks@) == block_list(a@, order@.take(i as int)),
            pcs@ == all_pcs(block_list(a@, order@.take(i as int))),
        decreases order.len() - i,
    {
        let id: usize = order[i];
        proof {
            assert(order@.take(i + 1).drop_last() =~= order@.take(i as int));
            assert(order@.take(i + 1).last() == id);
        }
        if let Some(at) = find_node(a, id) {
            let node = &a.nodes[at];
            proof {
                lemma_node_in_range(a@, id);
            }
            if node.start < node.end {
                let ghost before_pcs = pcs@;
                let ghost before = blocks@;
                let mut own: Vec<usize> = Vec::new();
                let mut k: usize = node.start;
                while k < node.end
                    invariant
                        node.start <= k <= node.end <= a.instructions@.len(),
                        own@ == range_pcs(a@, node.start as nat, k as nat),
                        pcs@ == before_pcs + range_pcs(a@, node.start as nat, k as nat),
                    decreases node.end - k,
                {
                    own.push(a.instructions[k].ptr);
                    pcs.push(a.instructions[k].ptr);
                    assert(own@ =~= range_pcs(a@, node.start as nat, (k + 1) as nat));
                    assert(pcs@ =~= before_pcs + range_pcs(a@, node.start as nat, (k + 1) as nat));
                    k += 1;
                }
                blocks.push(BlockPcs { id, pcs: own });
                proof {
                    let item = (id, range_pcs(a@, node.start as nat, node.end as nat));
                    assert(block_views(blocks@) =~= block_views(before).push(item));
                    assert(block_list(a@, order@.take(i + 1)).drop_last() =~= block_list(a@, order@.take(i as int)));
                }
            }
        }
        i += 1;
    }
    assert(order@.take(i as int) =~= order@);
    (blocks, pcs)
}

/// Puts a function behind those with a name that does not come after its own.
fn insert_cached(fs: &mut Vec<CachedFunctionInfo>, f: CachedFunctionInfo)
    ensures
        cached_views(final(fs)@) == crate::sorting::insert_sorted(cached_views(old(fs)@), f@, cached_leq()),
{
    let ghost v = cached_views(fs@);
    let ghost r = f@;
    let mut p: usize = fs.len();
    while p > 0 && text_less(f.name.as_str(), fs[p - 1].name.as_str())
        invariant
            p <= fs@.len(),
            v == cached_views(fs@),
            r == f@,
            forall|k: int| p <= k < fs@.len() ==> !cached_leq()(#[trigger] v[k], r),
        decreases p,
    {
        p -= 1;
        assert(v[p as int] == fs@[p as int]@);
    }
    proof {
        if p > 0 {
            assert(v[p - 1] == fs@[p - 1]@);
        }
        crate::sorting::lemma_insert_at(v, r, cached_leq(), p as int);
    }
    fs.insert(p, f);
    assert(cached_views(fs@) =~= v.insert(p as int, r));
}

/// The cached analysis of an analysed program.
pub fn cache_analysis(program_name: &str, a: &ProgramAnalysis) -> (r: CachedProgramAnalysis)
    requires
        a@.well_formed(),
    ensures
        r.program_name@ == program_name@,
        cached_views(r.functions@) == cached_functions(a@),
        graph_views(r.cfg_json@) == cached_graphs(a@, a@.functions.len()),
{
    let mut functions: Vec<CachedFunctionInfo> = Vec::new();
    let mut graphs: Vec<FunctionGraph> = Vec::new();
    let ghost plain = plain_cached(a@);
    let mut i: usize = 0;
    assert(cached_views(functions@) =~= crate::sorting::stable_sorted(plain.take(0), cached_leq()));
    assert(graph_views(graphs@) =~= cached_graphs(a@, 0));
    while i < a.functions.len()
        invariant
            i <= a.functions@.len(),
            a@.well_formed(),
            plain == plain_cached(a@),
            cached_views(functions@) == crate::sorting::stable_sorted(plain.take(i as int), cached_leq()),
            graph_views(graphs@) == cached_graphs(a@, i as nat),
        decreases a.functions.len() - i,
    {
        let pc: usize = a.functions[i].entry_pc;
        let name = name_or_entry(&a.functions[i].name, pc);
        proof {
            assert(a@.functions[i as int] == (pc, a.functions@[i as int].name@));
        }
        let (blocks, pcs) = match find_entry(a, pc) {
            Some(entry) => {
                let order = traverse(a, singleton(entry), true);
                let ghost before = graphs@;
                let graph = FunctionGraph { name: name.clone(), json: write_graph(a, &order, None) };
                graphs.push(graph);
                assert(graph_views(graphs@) =~= graph_views(before).push((graph.name@, graph.json@)));
                list_blocks(a, &order)
            },
            None => {
                let none: Vec<BlockPcs> = Vec::new();
                let no_pcs: Vec<usize> = Vec::new();
                assert(block_views(none@) =~= Seq::<(usize, Seq<usize>)>::empty());
                assert(no_pcs@ =~= all_pcs(block_views(none@)));
                (none, no_pcs)
            },
        };
        let f = CachedFunctionInfo {
            name,
            entry_pc: pc,
            total_instructions: pcs.len(),
            total_blocks: blocks.len(),
            instruction_pcs: pcs,
            blocks,
        };
        proof {
            assert(f@ == plain[i as int]);
            assert(plain.take(i + 1).drop_last() =~= plain.take(i as int));
        }
        insert_cached(&mut functions, f);
        i += 1;
    }
    assert(plain.take(i as int) =~= plain);
    CachedProgramAnalysis { program_name: copy_str(program_name), functions, cfg_json: graphs }
}

/// The cached analysis of a program, where it can be analysed.
pub fn build_cached_analysis(program_name: &str, program_data: &[u8]) -> (r: Option<CachedProgramAnalysis>)
    ensures
        match r {
            Some(c) => crate::coverage::analysis::analyzed(program_data@) is Ok && ({
                let a = crate::coverage::analysis::analyzed(program_data@)->Ok_0;
                &&& c.program_name@ == program_name@
                &&& cached_views(c.functions@) == cached_functions(a)
                &&& graph_views(c.cfg_json@) == cached_graphs(a, a.functions.len())
            }),
            None => crate::coverage::analysis::analyzed(program_data@) is Err,
        },
{
    match analyze_elf(program_data) {
        Ok(a) => Some(cache_analysis(program_name, &a)),
        Err(_) => None,
    }
}

/// How many of the program counters were executed.
pub open spec fn pcs_hit(pcs: Seq<usize>, hits: Map<usize, u64>) -> nat
    decreases pcs.len(),
{
    if pcs.len() == 0 {
        0
    } else {
        pcs_hit(pcs.drop_last(), hits) + if executed(hits, pcs.last()) { 1nat } else { 0nat }
    }
}

/// How many of the blocks hold an instruction that was executed.
pub open spec fn blocks_hit(blocks: Seq<(usize, Seq<usize>)>, hits: Map<usize, u64>) -> nat
    decreases blocks.len(),
{
    if blocks.len() == 0 {
        0
    } else {
        blocks_hit(blocks.drop_last(), hits) + if pcs_hit(blocks.last().1, hits) > 0 { 1nat } else { 0nat }
    }
}

/// A function of the cached analysis with its counts. Branches are not counted there.
pub open spec fn cached_row(f: CachedView, hits: Map<usize, u64>) -> RowView {
    RowView {
        name: f.name,
        entry_pc: f.entry_pc,
        stats: CoverageStats {
            total_instructions: f.total_instructions,
            hit_instructions: pcs_hit(f.instruction_pcs, hits) as usize,
            total_branches: 0,
            hit_branches: 0,
            total_blocks: f.total_blocks,
            hit_blocks: blocks_hit(f.blocks, hits) as usize,
        },
    }
}

fn count_pcs(pcs: &Vec<usize>, hits: &HashMap<usize, u64>) -> (n: usize)
    ensures
        n == pcs_hit(pcs@, hits@),
        n <= pcs@.len(),
{
    let mut n: usize = 0;
    let mut i: usize = 0;
    while i < pcs.len()
        invariant
            i <= pcs@.len(),
            n <= i,
            n == pcs_hit(pcs@.take(i as int), hits@),
        decreases pcs.len() - i,
    {
        assert(pcs@.take(i + 1).drop_last() =~= pcs@.take(i as int));
        if lookup_count(hits, pcs[i]) > 0 {
            n += 1;
        }
        i += 1;
    }
    assert(pcs@.take(i as int) =~= pcs@);
    n
}

fn count_blocks(blocks: &Vec<BlockPcs>, hits: &HashMap<usize, u64>) -> (n: usize)
    ensures
        n == blocks_hit(block_views(blocks@), hits@),
{
    let ghost v = block_views(blocks@);
    let mut n: usize = 0;
    let mut i: usize = 0;
    while i < blocks.len()
        invariant
            i <= blocks@.len(),
            n <= i,
            v == block_views(blocks@),
            n == blocks_hit(v.take(i as int), hits@),
        decreases blocks.len() - i,
    {
        assert(v.take(i + 1).drop_last() =~= v.take(i as int));
        assert(v.take(i + 1).last() == v[i as int]);
        if count_pcs(&blocks[i].pcs, hits) > 0 {
            n += 1;
        }
        i += 1;
    }
    assert(v.take(i as int) =~= v);
    n
}

/// The functions of the cached analysis with their counts, in its order.
pub fn cached_rows(cached: &CachedProgramAnalysis, pc_hits: &HashMap<usize, u64>) -> (rows: Vec<FunctionRow>)
    ensures
        rows@.len() == cached.functions@.len(),
        row_views(rows@) == cached_views(cached.functions@).map_values(|f: CachedView| cached_row(f, pc_hits@)),
{
    let mut rows: Vec<FunctionRow> = Vec::new();
    let mut i: usize = 0;
    while i < cached.functions.len()
        invariant
            i <= cached.functions@.len(),
            rows@.len() == i,
            forall|k: int| 0 <= k < i ==> (#[trigger] rows@[k])@ == cached_row(cached.functions@[k]@, pc_hits@),
        decreases cached.functions.len() - i,
    {
        let f = &cached.functions[i];
        let stats = CoverageStats {
            total_instructions: f.total_instructions,
            hit_instructions: count_pcs(&f.instruction_pcs, pc_hits),
            total_branches: 0,
            hit_branches: 0,
            total_blocks: f.total_blocks,
            hit_blocks: count_blocks(&f.blocks, pc_hits),
        };
        rows.push(FunctionRow { name: f.name.clone(), entry_pc: f.entry_pc, stats });
        i += 1;
    }
    assert(row_views(rows@) =~= cached_views(cached.functions@).map_values(|f: CachedView| cached_row(f, pc_hits@)));
    rows
}

/// The last of the graphs with this name.
pub open spec fn graph_named(graphs: Seq<(Seq<char>, Seq<char>)>, name: Seq<char>) -> Option<Seq<char>>
    decreases graphs.len(),
{
    if graphs.len() == 0 {
        None
    } else if graphs.last().0 == name {
        Some(graphs.last().1)
    } else {
        graph_named(graphs.drop_last(), name)
    }
}

fn find_graph<'a>(graphs: &'a Vec<FunctionGraph>, name: &String) -> (r: Option<&'a String>)
    ensures
        match r {
            Some(json) => graph_named(graph_views(graphs@), name@) == Some(json@),
            None => graph_named(graph_views(graphs@), name@) is None,
        },
{
    let ghost v = graph_views(graphs@);
    let mut n: usize = graphs.len();
    assert(v.take(n as int) =~= v);
    while n > 0
        invariant
            n <= graphs@.len(),
            v == graph_views(graphs@),
            graph_named(v.take(n as int), name@) == graph_named(v, name@),
        decreases n,
    {
        assert(v.take(n as int).drop_last() =~= v.take(n - 1));
        assert(v.take(n as int).last() == v[n - 1]);
        if graphs[n - 1].name == *name {
            return Some(&graphs[n - 1].json);
        }
        n -= 1;
    }
    None
}

/// No later block has the id of block `i`.
pub open spec fn last_of_id(blocks: Seq<(usize, Seq<usize>)>, i: int) -> bool {
    forall|j: int| i < j < blocks.len() ==> (#[trigger] blocks[j]).0 != blocks[i].0
}

/// The graph with the executed instructions of the first `k` blocks written in.
pub open spec fn with_node_hits(json: Seq<char>, blocks: Seq<(usize, Seq<usize>)>, hits: Map<usize, u64>, k: nat) -> Seq<char>
    decreases k,
{
    if k == 0 {
        json
    } else {
        let before = with_node_hits(json, blocks, hits, (k - 1) as nat);
        let id = crate::text::dec(blocks[k - 1].0 as nat);
        if last_of_id(blocks, k - 1) {
            crate::text::replaced(
                before,
                "\"id\":"@ + id + ",\"total\":"@,
                "\"id\":"@ + id + ",\"hit\":"@ + crate::text::dec(pcs_hit(blocks[k - 1].1, hits)) + ",\"total\":"@,
            )
        } else {
            before
        }
    }
}

/// The graph with whether they were taken written to the edges into the first `k` blocks.
pub open spec fn with_edge_hits(json: Seq<char>, blocks: Seq<(usize, Seq<usize>)>, hits: Map<usize, u64>, k: nat) -> Seq<char>
    decreases k,
{
    if k == 0 {
        json
    } else {
        let before = with_edge_hits(json, blocks, hits, (k - 1) as nat);
        let id = crate::text::dec(blocks[k - 1].0 as nat);
        if last_of_id(blocks, k - 1) {
            crate::text::replaced(
                before,
                "\"to\":"@ + id + "}"@,
                "\"to\":"@ + id + (if pcs_hit(blocks[k - 1].1, hits) > 0 { ",\"hit\":true}"@ } else { ",\"hit\":false}"@ }),
            )
        } else {
            before
        }
    }
}

/// The cached graph with the hits written in.
pub open spec fn graph_with_hits(json: Seq<char>, blocks: Seq<(usize, Seq<usize>)>, hits: Map<usize, u64>) -> Seq<char> {
    with_edge_hits(with_node_hits(json, blocks, hits, blocks.len()), blocks, hits, blocks.len())
}

fn is_last_of_id(blocks: &Vec<BlockPcs>, i: usize) -> (r: bool)
    requires
        i < blocks.len(),
    ensures
        r == last_of_id(block_views(blocks@), i as int),
{
    let ghost v = block_views(blocks@);
    let mut j: usize = i + 1;
    while j < blocks.len()
        invariant
            i < j <= blocks@.len(),
            v == block_views(blocks@),
            forall|k: int| i < k < j ==> (#[trigger] v[k]).0 != v[i as int].0,
        decreases blocks.len() - j,
    {
        if blocks[j].id == blocks[i].id {
            assert(v[j as int].0 == v[i as int].0);
            return false;
        }
        j += 1;
    }
    true
}

/// Writes the hits into a cached graph: to each block how many of its instructions were executed, to
/// each edge whether the block it leads to was.
pub fn add_hit_counts_to_cfg(cached_cfg: &str, blocks: &Vec<BlockPcs>, pc_hits: &HashMap<usize, u64>) -> (s: String)
    ensures
        s@ == graph_with_hits(cached_cfg@, block_views(blocks@), pc_hits@),
{
    let ghost v = block_views(blocks@);
    let mut s = copy_str(cached_cfg);
    let mut i: usize = 0;
    while i < blocks.len()
        invariant
            i <= blocks@.len(),
            v == block_views(blocks@),
            s@ == with_node_hits(cached_cfg@, v, pc_hits@, i as nat),
        decreases blocks.len() - i,
    {
        if is_last_of_id(blocks, i) {
            let mut pat = String::from_str("\"id\":");
            push_dec_usize(&mut pat, blocks[i].id);
            pat.append(",\"total\":");
            let mut rep = String::from_str("\"id\":");
            push_dec_usize(&mut rep, blocks[i].id);
            rep.append(",\"hit\":");
            push_dec_usize(&mut rep, count_pcs(&blocks[i].pcs, pc_hits));
            rep.append(",\"total\":");
            proof {
                reveal_strlit(",\"total\":");
                assert(v[i as int] == (blocks@[i as int].id, blocks@[i as int].pcs@));
            }
            s = replace_text(s.as_str(), pat.as_str(), rep.as_str());
        }
        i += 1;
    }
    let ghost mid = s@;
    let mut k: usize = 0;
    while k < blocks.len()
        invariant
            k <= blocks@.len(),
            v == block_views(blocks@),
            s@ == with_edge_hits(mid, v, pc_hits@, k as nat),
        decreases blocks.len() - k,
    {
        if is_last_of_id(blocks, k) {
            let mut pat = String::from_str("\"to\":");
            push_dec_usize(&mut pat, blocks[k].id);
            pat.append("}");
            let mut rep = String::from_str("\"to\":");
            push_dec_usize(&mut rep, blocks[k].id);
            if count_pcs(&blocks[k].pcs, pc_hits) > 0 {
                rep.append(",\"hit\":true}");
            } else {
                rep.append(",\"hit\":false}");
            }
            proof {
                reveal_strlit("}");
                assert(v[k as int] == (blocks@[k as int].id, blocks@[k as int].pcs@));
            }
            s = replace_text(s.as_str(), pat.as_str(), rep.as_str());
        }
        k += 1;
    }
    assert(v.len() == blocks@.len());
    s
}

/// The graphs of the cached functions that have one, with the hits written in.
pub open spec fn cached_page_graphs(
    fs: Seq<CachedView>,
    graphs: Seq<(Seq<char>, Seq<char>)>,
    hits: Map<usize, u64>,
) -> Seq<(Seq<char>, Seq<char>)>
    decreases fs.len(),
{
    if fs.len() == 0 {
        Seq::empty()
    } else {
        let before = cached_page_graphs(fs.drop_last(), graphs, hits);
        match graph_named(graphs, fs.last().name) {
            Some(json) => before.push((fs.last().name, graph_with_hits(json, fs.last().blocks, hits))),
            None => before,
        }
    }
}

/// The coverage page of a program from its cached analysis. `percents` gives the share of executed
/// instructions of each function as a text.
pub fn generate_coverage_html_cached(
    cached: &CachedProgramAnalysis,
    pc_hits: &HashMap<usize, u64>,
    percents: &Vec<String>,
    stats: Option<(&CoverageWriteStats, &StatPercents)>,
) -> (page: String)
    requires
        percents@.len() == cached.functions@.len(),
    ensures
        page@ == crate::coverage::page::page_text(
            false,
            cached.program_name@,
            header_text(stats_view(stats)),
            program_item(
                cached.program_name@,
                cached_views(cached.functions@).map_values(|f: CachedView| cached_row(f, pc_hits@)),
                crate::text::texts(percents@),
            ),
            crate::text::joined(
                graph_items(
                    cached_page_graphs(cached_views(cached.functions@), graph_views(cached.cfg_json@), pc_hits@),
                ),
                ","@,
            ),
            Seq::empty(),
        ),
{
    let header = match stats {
        Some((st, pc)) => statistics_html(st, pc),
        None => String::new(),
    };
    let rows = cached_rows(cached, pc_hits);
    let name = cached.program_name.as_str();
    let programs = program_json(name, &rows, percents);
    let ghost v = cached_views(cached.functions@);
    let ghost g = graph_views(cached.cfg_json@);
    let mut graphs: Vec<FunctionGraph> = Vec::new();
    let mut i: usize = 0;
    assert(graph_views(graphs@) =~= cached_page_graphs(v.take(0), g, pc_hits@));
    while i < cached.functions.len()
        invariant
            i <= cached.functions@.len(),
            v == cached_views(cached.functions@),
            g == graph_views(cached.cfg_json@),
            graph_views(graphs@) == cached_page_graphs(v.take(i as int), g, pc_hits@),
        decreases cached.functions.len() - i,
    {
        let f = &cached.functions[i];
        proof {
            assert(v[i as int] == f@);
            assert(v.take(i + 1).drop_last() =~= v.take(i as int));
            assert(v.take(i + 1).last() == v[i as int]);
        }
        if let Some(json) = find_graph(&cached.cfg_json, &f.name) {
            let ghost before = graphs@;
            let graph = FunctionGraph {
                name: f.name.clone(),
                json: add_hit_counts_to_cfg(json.as_str(), &f.blocks, pc_hits),
            };
            graphs.push(graph);
            assert(graph_views(graphs@) =~= graph_views(before).push((graph.name@, graph.json@)));
        }
        i += 1;
    }
    assert(v.take(i as int) =~= v);
    let graphs_text = graphs_json(&graphs);
    proof {
        reveal_strlit("");
        assert(""@ =~= Seq::<char>::empty());
    }
    render_page(false, name, header.as_str(), programs.as_str(), graphs_text.as_str(), "")
}

proof fn lemma_pcs_hit_range(a: AnalysisView, hits: Map<usize, u64>, start: nat, end: nat)
    requires
        start <= end <= a.instructions.len(),
    ensures
        pcs_hit(range_pcs(a, start, end), hits) == range_hits(a, hits, start, end),
    decreases end,
{
    let pcs = range_pcs(a, start, end);
    if start < end {
        lemma_pcs_hit_range(a, hits, start, (end - 1) as nat);
        assert(pcs.drop_last() =~= range_pcs(a, start, (end - 1) as nat));
    }
}

proof fn lemma_pcs_hit_sum(a: Seq<usize>, b: Seq<usize>, hits: Map<usize, u64>)
    ensures
        pcs_hit(a + b, hits) == pcs_hit(a, hits) + pcs_hit(b, hits),
    decreases b.len(),
{
    if b.len() == 0 {
        assert(a + b =~= a);
    } else {
        lemma_pcs_hit_sum(a, b.drop_last(), hits);
        assert((a + b).drop_last() =~= a + b.drop_last());
    }
}

proof fn lemma_tally_blocks(a: AnalysisView, hits: Map<usize, u64>, order: Seq<usize>)
    requires
        a.well_formed(),
        crate::coverage::analysis::none_empty(a, order),
    ensures
        tally(a, hits, order).instructions == all_pcs(block_list(a, order)).len(),
        tally(a, hits, order).hit_instructions == pcs_hit(all_pcs(block_list(a, order)), hits),
        tally(a, hits, order).blocks == block_list(a, order).len(),
        tally(a, hits, order).hit_blocks == blocks_hit(block_list(a, order), hits),
    decreases order.len(),
{
    if order.len() > 0 {
        let d = order.drop_last();
        lemma_tally_blocks(a, hits, d);
        if a.has_node(order.last()) {
            lemma_node_in_range(a, order.last());
            let n = a.node(order.last());
            let own = range_pcs(a, n.start as nat, n.end as nat);
            lemma_pcs_hit_range(a, hits, n.start as nat, n.end as nat);
            lemma_pcs_hit_sum(all_pcs(block_list(a, d)), own, hits);
            assert(block_list(a, order).drop_last() =~= block_list(a, d));
        }
    }
}

proof fn lemma_entry_holds_code(a: AnalysisView, pc: usize, n: nat)
    requires
        a.well_formed(),
    ensures
        match entry_block(a, pc, n) {
            Some(entry) => a.has_node(entry) && a.node(entry).start < a.node(entry).end,
            None => true,
        },
    decreases n,
{
    if n > 0 && n <= a.nodes.len() {
        lemma_entry_holds_code(a, pc, (n - 1) as nat);
        assert(a.is_node(a.nodes[n - 1].id, n - 1));
        crate::coverage::analysis::lemma_one_node(a, a.nodes[n - 1].id, n - 1);
    }
}

/// The cached analysis counts what the direct one counts: the instructions and the blocks of a function,
/// and how many of them were executed. Of branches it counts none.
pub proof fn lemma_cached_counts(a: AnalysisView, hits: Map<usize, u64>, name: Seq<char>, pc: usize)
    requires
        a.well_formed(),
    ensures
        cached_row(cached_function(name, pc, function_block_list(a, pc)), hits).stats == (CoverageStats {
            total_branches: 0,
            hit_branches: 0,
            ..function_stats(a, hits, pc)
        }),
{
    match entry_block(a, pc, a.nodes.len()) {
        Some(entry) => {
            lemma_entry_holds_code(a, pc, a.nodes.len());
            crate::coverage::analysis::lemma_same_order(a, seq![entry]);
            lemma_tally_blocks(a, hits, bfs_order(a, seq![entry], true));
        },
        None => {
            lemma_tally_blocks(a, hits, Seq::empty());
        },
    }
}

proof fn lemma_range_within(a: AnalysisView, hits: Map<usize, u64>, start: nat, end: nat)
    requires
        start <= end,
    ensures
        range_hits(a, hits, start, end) <= end - start,
        range_branches(a, hits, start, end).1 <= range_branches(a, hits, start, end).0 <= end - start,
    decreases end,
{
    if start < end {
        lemma_range_within(a, hits, start, (end - 1) as nat);
    }
}

/// Of instructions, branches and blocks no more were executed than there are.
pub proof fn lemma_tally_within(a: AnalysisView, hits: Map<usize, u64>, order: Seq<usize>)
    requires
        a.well_formed(),
    ensures
        tally(a, hits, order).hit_instructions <= tally(a, hits, order).instructions,
        tally(a, hits, order).hit_branches <= tally(a, hits, order).branches <= tally(a, hits, order).instructions,
        tally(a, hits, order).hit_blocks <= tally(a, hits, order).blocks,
    decreases order.len(),
{
    if order.len() > 0 {
        lemma_tally_within(a, hits, order.drop_last());
        if a.has_node(order.last()) {
            lemma_node_in_range(a, order.last());
            let n = a.node(order.last());
            lemma_range_within(a, hits, n.start as nat, n.end as nat);
        }
    }
}

} // verus!
