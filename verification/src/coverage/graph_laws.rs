//! What the graphs of a page say of the blocks they are made from.
use vstd::prelude::*;
#[allow(unused_imports)]
use crate::coverage::analysis::{bfs_order, AnalysisView};
#[allow(unused_imports)]
use crate::coverage::html::{
    all_pcs, block_list, cached_function, cached_functions, cached_graphs, cached_leq, cached_page_graphs, edge_item,
    edge_items, edges_from, entry_block, graph_named, graph_text, graph_with_hits, graphs_of, named_graph, node_item,
    node_items, opcode_name, plain_cached, range_pcs, shown, statistics_text, with_edge_hits, with_node_hits, CachedView,
    RowView, StatPercents,
};
#[allow(unused_imports)]
use crate::coverage::html_laws::{lemma_entry, lemma_found_starts, lemma_pcs_hit, starts_at};
#[allow(unused_imports)]
use crate::coverage::html::CoverageWriteStats;
#[allow(unused_imports)]
use crate::text::{begins_with, dec, escaped, joined, replaced};

verus! {

/// The id is that of a block with instructions.
pub open spec fn holds_instructions(a: AnalysisView, id: usize) -> bool {
    exists|at: int|
        0 <= at < a.nodes.len() && (#[trigger] a.nodes[at]).id == id && a.nodes[at].start < a.nodes[at].end
}

proof fn lemma_shown(a: AnalysisView, id: usize)
    requires
        a.well_formed(),
    ensures
        shown(a, id) == holds_instructions(a, id),
{
    if a.has_node(id) {
        let at = choose|at: int| a.is_node(id, at);
        assert(a.nodes[at].id == id);
    }
    if holds_instructions(a, id) {
        let at = choose|at: int|
            0 <= at < a.nodes.len() && (#[trigger] a.nodes[at]).id == id && a.nodes[at].start < a.nodes[at].end;
        assert(a.is_node(id, at));
        crate::coverage::analysis::lemma_one_node(a, id, at);
    }
}

proof fn lemma_nodes_listed(a: AnalysisView, order: Seq<usize>, hits: Option<Map<usize, u64>>)
    requires
        a.well_formed(),
    ensures
        node_items(a, order, hits) == order.filter(|id: usize| holds_instructions(a, id)).map_values(
            |id: usize| node_item(a, id, hits),
        ),
    decreases order.len(),
{
    reveal(Seq::filter);
    let keep = |id: usize| holds_instructions(a, id);
    let item = |id: usize| node_item(a, id, hits);
    if order.len() > 0 {
        lemma_nodes_listed(a, order.drop_last(), hits);
        lemma_shown(a, order.last());
        let sub = order.drop_last().filter(keep);
        assert(order.filter(keep) == if keep(order.last()) { sub.push(order.last()) } else { sub });
    }
    assert(node_items(a, order, hits) =~= order.filter(keep).map_values(item));
}

proof fn lemma_edges_listed(a: AnalysisView, order: Seq<usize>, hits: Option<Map<usize, u64>>)
    requires
        a.well_formed(),
    ensures
        edge_items(a, order, hits) == order.filter(|id: usize| holds_instructions(a, id)).map_values(
            |id: usize| a.node(id).destinations.map_values(|to: usize| edge_item(a, id, to, hits)),
        ).flatten_alt(),
    decreases order.len(),
{
    reveal(Seq::filter);
    let keep = |id: usize| holds_instructions(a, id);
    let items = |id: usize| a.node(id).destinations.map_values(|to: usize| edge_item(a, id, to, hits));
    let lists = order.filter(keep).map_values(items);
    if order.len() > 0 {
        lemma_edges_listed(a, order.drop_last(), hits);
        lemma_shown(a, order.last());
        let sub = order.drop_last().filter(keep);
        assert(order.filter(keep) == if keep(order.last()) { sub.push(order.last()) } else { sub });
        if keep(order.last()) {
            let own = items(order.last());
            assert(own =~= edges_from(a, order.last(), hits));
            assert(lists =~= sub.map_values(items).push(own));
            assert(lists.drop_last() =~= sub.map_values(items));
        } else {
            assert(lists =~= sub.map_values(items));
        }
    } else {
        assert(lists =~= Seq::<Seq<Seq<char>>>::empty());
    }
}

/// A graph shows the blocks with instructions that can be reached from the entry, in the order in which they are found,
/// and the edges from each of them to the blocks that can follow it.
pub proof fn lemma_graph_shown(a: AnalysisView, entry: usize, hits: Option<Map<usize, u64>>)
    requires
        a.well_formed(),
    ensures
        ({
            let ids = bfs_order(a, seq![entry], true).filter(|id: usize| holds_instructions(a, id));
            graph_text(a, entry, hits) == "{\"nodes\":["@ + joined(ids.map_values(|id: usize| node_item(a, id, hits)), ","@)
                + "],\"edges\":["@ + joined(
                ids.map_values(|id: usize| a.node(id).destinations.map_values(|to: usize| edge_item(a, id, to, hits))).flatten_alt(),
                ","@,
            ) + "]}"@
        }),
{
    let order = bfs_order(a, seq![entry], true);
    lemma_nodes_listed(a, order, hits);
    lemma_edges_listed(a, order, hits);
}

/// Where a function starts: at the last block with instructions whose first one has its program counter.
pub proof fn lemma_entry_is(a: AnalysisView, pc: usize, at: int)
    ensures
        starts_at(a, pc, at) ==> entry_block(a, pc, a.nodes.len()) == Some(a.nodes[at].id),
        (forall|b: int| !#[trigger] starts_at(a, pc, b)) ==> entry_block(a, pc, a.nodes.len()) is None,
{
    if starts_at(a, pc, at) {
        lemma_entry(a, pc, a.nodes.len(), at);
    }
    if forall|b: int| !#[trigger] starts_at(a, pc, b) {
        lemma_found_starts(a, pc, a.nodes.len());
    }
}

/// The graphs of the rows: one for each row whose function starts at some block, under the name of the row, in the order
/// of the rows.
pub proof fn lemma_graphs_listed(a: AnalysisView, rows: Seq<RowView>, hits: Option<Map<usize, u64>>)
    ensures
        graphs_of(a, rows, hits) == rows.filter(|r: RowView| entry_block(a, r.entry_pc, a.nodes.len()) is Some).map_values(
            |r: RowView| (r.name, graph_text(a, entry_block(a, r.entry_pc, a.nodes.len())->0, hits)),
        ),
    decreases rows.len(),
{
    reveal(Seq::filter);
    let keep = |r: RowView| entry_block(a, r.entry_pc, a.nodes.len()) is Some;
    let item = |r: RowView| (r.name, graph_text(a, entry_block(a, r.entry_pc, a.nodes.len())->0, hits));
    if rows.len() > 0 {
        lemma_graphs_listed(a, rows.drop_last(), hits);
        let sub = rows.drop_last().filter(keep);
        assert(rows.filter(keep) == if keep(rows.last()) { sub.push(rows.last()) } else { sub });
    }
    assert(graphs_of(a, rows, hits) =~= rows.filter(keep).map_values(item));
}

/// The graphs that are kept: one for each function that starts at some block, under its name, without counts.
pub proof fn lemma_kept_graphs(a: AnalysisView, n: nat)
    requires
        n <= a.functions.len(),
    ensures
        cached_graphs(a, n) == a.functions.take(n as int).filter(
            |f: (usize, Seq<char>)| entry_block(a, f.0, a.nodes.len()) is Some,
        ).map_values(
            |f: (usize, Seq<char>)|
                (
                    if f.1.len() == 0 { "fn_"@ + crate::text::hex(f.0 as nat) } else { f.1 },
                    graph_text(a, entry_block(a, f.0, a.nodes.len())->0, None),
                ),
        ),
    decreases n,
{
    reveal(Seq::filter);
    let keep = |f: (usize, Seq<char>)| entry_block(a, f.0, a.nodes.len()) is Some;
    let item = |f: (usize, Seq<char>)|
        (
            if f.1.len() == 0 { "fn_"@ + crate::text::hex(f.0 as nat) } else { f.1 },
            graph_text(a, entry_block(a, f.0, a.nodes.len())->0, None),
        );
    let s = a.functions.take(n as int);
    if n > 0 {
        lemma_kept_graphs(a, (n - 1) as nat);
        assert(s.drop_last() =~= a.functions.take(n - 1));
        let sub = s.drop_last().filter(keep);
        assert(s.filter(keep) == if keep(s.last()) { sub.push(s.last()) } else { sub });
    }
    assert(cached_graphs(a, n) =~= s.filter(keep).map_values(item));
}

/// The blocks that are kept of a function: those with instructions that can be reached from its entry, in the order in
/// which they are found, each with its id and the program counters of its instructions.
pub proof fn lemma_kept_blocks(a: AnalysisView, order: Seq<usize>)
    requires
        a.well_formed(),
    ensures
        block_list(a, order) == order.filter(|id: usize| holds_instructions(a, id)).map_values(
            |id: usize|
                (
                    id,
                    Seq::new((a.node(id).end - a.node(id).start) as nat, |i: int| a.instructions[a.node(id).start + i].ptr),
                ),
        ),
    decreases order.len(),
{
    reveal(Seq::filter);
    let keep = |id: usize| holds_instructions(a, id);
    let item = |id: usize|
        (
            id,
            Seq::new((a.node(id).end - a.node(id).start) as nat, |i: int| a.instructions[a.node(id).start + i].ptr),
        );
    if order.len() > 0 {
        lemma_kept_blocks(a, order.drop_last());
        lemma_shown(a, order.last());
        let sub = order.drop_last().filter(keep);
        let l = order.last();
        assert(order.filter(keep) == if keep(l) { sub.push(l) } else { sub });
        assert(range_pcs(a, a.node(l).start as nat, a.node(l).end as nat) =~= item(l).1);
    }
    assert(block_list(a, order) =~= order.filter(keep).map_values(item));
}

proof fn lemma_all_pcs(blocks: Seq<(usize, Seq<usize>)>)
    ensures
        all_pcs(blocks) == blocks.map_values(|b: (usize, Seq<usize>)| b.1).flatten_alt(),
    decreases blocks.len(),
{
    let pcs = |b: (usize, Seq<usize>)| b.1;
    if blocks.len() > 0 {
        lemma_all_pcs(blocks.drop_last());
        assert(blocks.map_values(pcs).drop_last() =~= blocks.drop_last().map_values(pcs));
    } else {
        assert(blocks.map_values(pcs) =~= Seq::<Seq<usize>>::empty());
    }
}

/// What is kept of a function: its name and its entry, its blocks and the program counters of all of them, and how many
/// there are of both.
pub proof fn lemma_kept_function(name: Seq<char>, entry_pc: usize, blocks: Seq<(usize, Seq<usize>)>)
    ensures
        ({
            let f = cached_function(name, entry_pc, blocks);
            &&& f.name == name && f.entry_pc == entry_pc && f.blocks == blocks
            &&& f.instruction_pcs == blocks.map_values(|b: (usize, Seq<usize>)| b.1).flatten_alt()
            &&& blocks.len() <= usize::MAX ==> f.total_blocks == blocks.len()
            &&& f.instruction_pcs.len() <= usize::MAX ==> f.total_instructions == f.instruction_pcs.len()
        }),
{
    lemma_all_pcs(blocks);
}

proof fn lemma_cached_order()
    ensures
        crate::sorting::total_preorder(cached_leq()),
{
    let leq = cached_leq();
    assert forall|x: CachedView, y: CachedView| #![trigger leq(x, y)] leq(x, y) || leq(y, x) by {
        crate::lexical::lemma_text_order(x.name, y.name, x.name);
    }
    assert forall|x: CachedView, y: CachedView, z: CachedView| #![trigger leq(x, y), leq(y, z)] leq(x, y) && leq(y, z) implies leq(
        x,
        z,
    ) by {
        crate::lexical::lemma_text_order(x.name, y.name, z.name);
        crate::lexical::lemma_text_order(z.name, y.name, x.name);
        crate::lexical::lemma_text_order(z.name, x.name, y.name);
        crate::lexical::lemma_text_order(y.name, z.name, x.name);
        crate::lexical::lemma_text_order(y.name, x.name, z.name);
        crate::lexical::lemma_text_order(x.name, z.name, y.name);
    }
}

/// The functions that are kept: one for each of the program, with its own name or else one made from its entry, in the
/// order of the names.
pub proof fn lemma_kept_functions(a: AnalysisView)
    ensures
        cached_functions(a).to_multiset() == Seq::new(
            a.functions.len(),
            |i: int|
                cached_function(
                    if a.functions[i].1.len() == 0 { "fn_"@ + crate::text::hex(a.functions[i].0 as nat) } else { a.functions[i].1 },
                    a.functions[i].0,
                    match entry_block(a, a.functions[i].0, a.nodes.len()) {
                        Some(entry) => block_list(a, bfs_order(a, seq![entry], true)),
                        None => Seq::empty(),
                    },
                ),
        ).to_multiset(),
        forall|i: int, j: int|
            0 <= i < j < cached_functions(a).len() ==> !crate::lexical::text_lt(
                (#[trigger] cached_functions(a)[j]).name,
                (#[trigger] cached_functions(a)[i]).name,
            ),
{
    let plain = plain_cached(a);
    assert(plain =~= Seq::new(
        a.functions.len(),
        |i: int|
            cached_function(
                if a.functions[i].1.len() == 0 { "fn_"@ + crate::text::hex(a.functions[i].0 as nat) } else { a.functions[i].1 },
                a.functions[i].0,
                match entry_block(a, a.functions[i].0, a.nodes.len()) {
                    Some(entry) => block_list(a, bfs_order(a, seq![entry], true)),
                    None => Seq::empty(),
                },
            ),
    ));
    lemma_cached_order();
    crate::sorting::lemma_sorted_permutes(plain, cached_leq());
    crate::sorting::lemma_sorted_in_order(plain, cached_leq());
    let r = cached_functions(a);
    assert forall|i: int, j: int| 0 <= i < j < r.len() implies !crate::lexical::text_lt(
        (#[trigger] r[j]).name,
        (#[trigger] r[i]).name,
    ) by {
        assert(cached_leq()(r[i], r[j]));
    }
}

/// The graph that is found under a name is the last that is kept under it.
pub proof fn lemma_graph_found(graphs: Seq<(Seq<char>, Seq<char>)>, name: Seq<char>)
    ensures
        (forall|i: int| 0 <= i < graphs.len() ==> (#[trigger] graphs[i]).0 != name) ==> graph_named(graphs, name) is None,
        forall|i: int|
            0 <= i < graphs.len() && (#[trigger] graphs[i]).0 == name && (forall|j: int|
                i < j < graphs.len() ==> (#[trigger] graphs[j]).0 != name) ==> graph_named(graphs, name) == Some(graphs[i].1),
    decreases graphs.len(),
{
    if graphs.len() > 0 {
        let d = graphs.drop_last();
        lemma_graph_found(d, name);
        assert(graphs[graphs.len() - 1] == graphs.last());
        if forall|i: int| 0 <= i < graphs.len() ==> (#[trigger] graphs[i]).0 != name {
            assert forall|i: int| 0 <= i < d.len() implies (#[trigger] d[i]).0 != name by {
                assert(d[i] == graphs[i]);
            }
        }
        assert forall|i: int|
            0 <= i < graphs.len() && (#[trigger] graphs[i]).0 == name && (forall|j: int|
                i < j < graphs.len() ==> (#[trigger] graphs[j]).0 != name) implies graph_named(graphs, name) == Some(graphs[i].1) by {
            if i < d.len() {
                assert(d[i] == graphs[i]);
                assert(graphs[graphs.len() - 1].0 != name);
                assert forall|j: int| i < j < d.len() implies (#[trigger] d[j]).0 != name by {
                    assert(d[j] == graphs[j]);
                }
            }
        }
    }
}

/// The graphs of a page that is made from what is kept: one for each function of which a graph is kept under its name,
/// with the counts written into it, in the order of the functions.
pub proof fn lemma_page_graphs(fs: Seq<CachedView>, graphs: Seq<(Seq<char>, Seq<char>)>, hits: Map<usize, u64>)
    ensures
        cached_page_graphs(fs, graphs, hits) == fs.filter(|f: CachedView| graph_named(graphs, f.name) is Some).map_values(
            |f: CachedView| (f.name, graph_with_hits(graph_named(graphs, f.name)->0, f.blocks, hits)),
        ),
    decreases fs.len(),
{
    reveal(Seq::filter);
    let keep = |f: CachedView| graph_named(graphs, f.name) is Some;
    let item = |f: CachedView| (f.name, graph_with_hits(graph_named(graphs, f.name)->0, f.blocks, hits));
    if fs.len() > 0 {
        lemma_page_graphs(fs.drop_last(), graphs, hits);
        let sub = fs.drop_last().filter(keep);
        assert(fs.filter(keep) == if keep(fs.last()) { sub.push(fs.last()) } else { sub });
    }
    assert(cached_page_graphs(fs, graphs, hits) =~= fs.filter(keep).map_values(item));
}

/// The counts are written into a graph block by block, first into the nodes and then into the edges. Behind the id of a
/// node comes how many of its program counters have a count above zero, and behind the target of an edge whether
/// some of its program counters have one. Of blocks with the same id the last counts.
pub proof fn lemma_counts_written(json: Seq<char>, blocks: Seq<(usize, Seq<usize>)>, hits: Map<usize, u64>, k: nat)
    requires
        k < blocks.len(),
    ensures
        with_node_hits(json, blocks, hits, 0) == json,
        with_edge_hits(json, blocks, hits, 0) == json,
        graph_with_hits(json, blocks, hits) == with_edge_hits(
            with_node_hits(json, blocks, hits, blocks.len()),
            blocks,
            hits,
            blocks.len(),
        ),
        ({
            let id = dec(blocks[k as int].0 as nat);
            let n = blocks[k as int].1.filter(|pc: usize| hits.contains_key(pc) && hits[pc] > 0).len();
            let last = forall|j: int| k < j < blocks.len() ==> (#[trigger] blocks[j]).0 != blocks[k as int].0;
            &&& with_node_hits(json, blocks, hits, k + 1) == if last {
                replaced(
                    with_node_hits(json, blocks, hits, k),
                    "\"id\":"@ + id + ",\"total\":"@,
                    "\"id\":"@ + id + ",\"hit\":"@ + dec(n) + ",\"total\":"@,
                )
            } else {
                with_node_hits(json, blocks, hits, k)
            }
            &&& with_edge_hits(json, blocks, hits, k + 1) == if last {
                replaced(
                    with_edge_hits(json, blocks, hits, k),
                    "\"to\":"@ + id + "}"@,
                    "\"to\":"@ + id + if n > 0 { ",\"hit\":true}"@ } else { ",\"hit\":false}"@ },
                )
            } else {
                with_edge_hits(json, blocks, hits, k)
            }
        }),
{
    lemma_pcs_hit(blocks[k as int].1, hits);
}

/// A graph stands on the page under its name.
pub proof fn lemma_graph_is_named(name: Seq<char>, json: Seq<char>)
    ensures
        named_graph(name, json) == "\""@ + escaped(name) + "\": "@ + json,
{
}

/// Replacing leaves a text without the pattern as it is.
pub proof fn lemma_nothing_replaced(text: Seq<char>, pat: Seq<char>, rep: Seq<char>)
    requires
        pat.len() > 0,
        forall|i: int| 0 <= i <= text.len() - pat.len() ==> #[trigger] text.subrange(i, i + pat.len()) != pat,
    ensures
        replaced(text, pat, rep) == text,
    decreases text.len(),
{
    if text.len() > 0 {
        let t = text.skip(1);
        if begins_with(text, pat) {
            assert(text.subrange(0, 0int + pat.len()) =~= pat);
        }
        assert forall|i: int| 0 <= i <= t.len() - pat.len() implies #[trigger] t.subrange(i, i + pat.len()) != pat by {
            assert(t.subrange(i, i + pat.len()) =~= text.subrange(i + 1, i + 1 + pat.len()));
        }
        lemma_nothing_replaced(t, pat, rep);
        assert(seq![text[0]] + t =~= text);
    }
}

/// Replacing puts the replacement where the pattern stands first, and goes on behind it.
pub proof fn lemma_first_replaced(before: Seq<char>, rest: Seq<char>, pat: Seq<char>, rep: Seq<char>)
    requires
        pat.len() > 0,
        forall|i: int| 0 <= i < before.len() ==> #[trigger] (before + pat + rest).subrange(i, i + pat.len()) != pat,
    ensures
        replaced(before + pat + rest, pat, rep) == before + rep + replaced(rest, pat, rep),
    decreases before.len(),
{
    let text = before + pat + rest;
    if before.len() == 0 {
        assert(text.take(pat.len() as int) =~= pat);
        assert(text.skip(pat.len() as int) =~= rest);
        assert(begins_with(text, pat));
        assert(before + rep =~= rep);
    } else {
        let b = before.skip(1);
        if begins_with(text, pat) {
            assert(text.subrange(0, 0int + pat.len()) =~= pat);
        }
        assert(text.skip(1) =~= b + pat + rest);
        assert forall|i: int| 0 <= i < b.len() implies #[trigger] (b + pat + rest).subrange(i, i + pat.len()) != pat by {
            assert((b + pat + rest).subrange(i, i + pat.len()) =~= text.subrange(i + 1, i + 1 + pat.len()));
        }
        lemma_first_replaced(b, rest, pat, rep);
        assert(seq![text[0]] + (b + rep + replaced(rest, pat, rep)) =~= before + rep + replaced(rest, pat, rep));
    }
}

/// The mnemonics: those of the instructions that are known, and a mark for all others.
pub proof fn lemma_mnemonics(opc: u8)
    ensures
        (opc == 0x05) ==> opcode_name(opc) == "ja"@,
        (opc == 0x07 || opc == 0x0f) ==> opcode_name(opc) == "add64"@,
        (opc == 0x15 || opc == 0x1d) ==> opcode_name(opc) == "jeq"@,
        (opc == 0x18) ==> opcode_name(opc) == "lddw"@,
        (opc == 0x25 || opc == 0x2d) ==> opcode_name(opc) == "jgt"@,
        (opc == 0x55 || opc == 0x5d) ==> opcode_name(opc) == "jne"@,
        (opc == 0x61) ==> opcode_name(opc) == "ldxw"@,
        (opc == 0x63) ==> opcode_name(opc) == "stxw"@,
        (opc == 0x69) ==> opcode_name(opc) == "ldxh"@,
        (opc == 0x71) ==> opcode_name(opc) == "ldxb"@,
        (opc == 0x79) ==> opcode_name(opc) == "ldxdw"@,
        (opc == 0x7b) ==> opcode_name(opc) == "stxdw"@,
        (opc == 0x85) ==> opcode_name(opc) == "call"@,
        (opc == 0x95) ==> opcode_name(opc) == "exit"@,
        (opc == 0xb7 || opc == 0xbf) ==> opcode_name(opc) == "mov64"@,
        (opc != 0x05 && opc != 0x07 && opc != 0x0f && opc != 0x15 && opc != 0x1d && opc != 0x18 && opc != 0x25 && opc != 0x2d && opc != 0x55 && opc != 0x5d && opc != 0x61 && opc != 0x63 && opc != 0x69 && opc != 0x71 && opc != 0x79 && opc != 0x7b && opc != 0x85 && opc != 0x95 && opc != 0xb7 && opc != 0xbf) ==> opcode_name(opc) == "???"@,
{
}

/// A page has the name of the program in its title and above its list, the statistics in front of that, then the data of
/// the programs and of the graphs, and at the end the note. It asks to be loaded again only where that is wanted.
pub proof fn lemma_page_made_of(refresh: bool, name: Seq<char>, statistics: Seq<char>, programs: Seq<char>, graphs: Seq<char>, note: Seq<char>)
    ensures
        ({
            let head = if refresh {
                crate::coverage::page::PAGE_HEAD@ + crate::coverage::page::PAGE_REFRESH@
            } else {
                crate::coverage::page::PAGE_HEAD@
            };
            let front = head + crate::coverage::page::PAGE_TITLE@ + name + crate::coverage::page::PAGE_STYLE@ + statistics;
            let middle = crate::coverage::page::PAGE_SIDEBAR@ + name + crate::coverage::page::PAGE_BODY@ + programs;
            let back = crate::coverage::page::PAGE_DATA@ + graphs + crate::coverage::page::PAGE_SCRIPT@ + note
                + crate::coverage::page::PAGE_START@;
            crate::coverage::page::page_text(refresh, name, statistics, programs, graphs, note) == front + middle + back
        }),
{
    let head = if refresh {
        crate::coverage::page::PAGE_HEAD@ + crate::coverage::page::PAGE_REFRESH@
    } else {
        crate::coverage::page::PAGE_HEAD@
    };
    let front = head + crate::coverage::page::PAGE_TITLE@ + name + crate::coverage::page::PAGE_STYLE@ + statistics;
    let middle = crate::coverage::page::PAGE_SIDEBAR@ + name + crate::coverage::page::PAGE_BODY@ + programs;
    let back = crate::coverage::page::PAGE_DATA@ + graphs + crate::coverage::page::PAGE_SCRIPT@ + note
        + crate::coverage::page::PAGE_START@;
    assert(crate::coverage::page::page_text(refresh, name, statistics, programs, graphs, note) =~= front + middle + back);
}

/// The statistics of a page: how long it ran and how many executions there were, and of edges, branches and
/// blocks, how many were hit, how many there are, and the share.
pub proof fn lemma_statistics_shown(st: CoverageWriteStats, pc: StatPercents) -> (r: (Seq<char>, Seq<char>, Seq<char>, Seq<char>, Seq<char>))
    ensures
        statistics_text(st, pc) == r.0 + dec(st.run_time_secs as nat) + "s</b>"@ + r.1 + "Execs: <b>"@ + dec(st.executions as nat)
            + "</b>"@ + r.2 + "Edges: <b>"@ + dec(st.edges_hit as nat) + "/"@ + dec(st.edges_total as nat) + "</b> ("@ + pc.edges@
            + "%)"@ + r.3 + "Branches: <b>"@ + dec(st.branches_hit as nat) + "/"@ + dec(st.branches_total as nat) + "</b> ("@
            + pc.branches@ + "%)"@ + r.4 + "Blocks: <b>"@ + dec(st.instructions_hit as nat) + "/"@ + dec(
            st.instructions_total as nat,
        ) + "</b> ("@ + pc.instructions@ + "%)"@ + "</span></div>\n        </div>"@,
{
    reveal_strlit("s</b>");
    reveal_strlit("Execs: <b>");
    reveal_strlit("</b>");
    reveal_strlit("Edges: <b>");
    reveal_strlit("</b> (");
    reveal_strlit("%)");
    reveal_strlit("Branches: <b>");
    reveal_strlit("Blocks: <b>");
    reveal_strlit("</span></div>\n        </div>");
    reveal_strlit(r#"s</b></span><span class="stat">Execs: <b>"#);
    reveal_strlit(r#"</b></span></div>
            <div class="stat-row"><span class="stat">Edges: <b>"#);
    reveal_strlit(r#"/"#);
    reveal_strlit(r#"</b> ("#);
    reveal_strlit(r#"%)</span><span class="stat">Branches: <b>"#);
    reveal_strlit(r#"%)</span><span class="stat">Blocks: <b>"#);
    reveal_strlit(r#"%)</span></div>
        </div>"#);
    reveal_strlit(r#"</span><span class="stat">"#);
    reveal_strlit(r#"</span></div>
            <div class="stat-row"><span class="stat">"#);
    reveal_strlit(r#"</span><span class="stat">"#);
    reveal_strlit(r#"</span><span class="stat">"#);
    let r1 = r#"</span><span class="stat">"#@;
    let r2 = r#"</span></div>
            <div class="stat-row"><span class="stat">"#@;
    let r3 = r#"</span><span class="stat">"#@;
    let r4 = r#"</span><span class="stat">"#@;
    assert(r#"s</b></span><span class="stat">Execs: <b>"#@ =~= "s</b>"@ + r1 + "Execs: <b>"@);
    assert(r#"</b></span></div>
            <div class="stat-row"><span class="stat">Edges: <b>"#@ =~= "</b>"@ + r2 + "Edges: <b>"@);
    assert(r#"%)</span><span class="stat">Branches: <b>"#@ =~= "%)"@ + r3 + "Branches: <b>"@);
    assert(r#"%)</span><span class="stat">Blocks: <b>"#@ =~= "%)"@ + r4 + "Blocks: <b>"@);
    assert(r#"%)</span></div>
        </div>"#@ =~= "%)"@ + "</span></div>\n        </div>"@);
    assert(statistics_text(st, pc) =~= crate::coverage::html::STATS_HEAD@ + dec(st.run_time_secs as nat) + "s</b>"@ + r1 + "Execs: <b>"@ + dec(st.executions as nat)
            + "</b>"@ + r2 + "Edges: <b>"@ + dec(st.edges_hit as nat) + "/"@ + dec(st.edges_total as nat) + "</b> ("@ + pc.edges@
            + "%)"@ + r3 + "Branches: <b>"@ + dec(st.branches_hit as nat) + "/"@ + dec(st.branches_total as nat) + "</b> ("@
            + pc.branches@ + "%)"@ + r4 + "Blocks: <b>"@ + dec(st.instructions_hit as nat) + "/"@ + dec(
            st.instructions_total as nat,
        ) + "</b> ("@ + pc.instructions@ + "%)"@ + "</span></div>\n        </div>"@);
    (crate::coverage::html::STATS_HEAD@, r1, r2, r3, r4)
}

} // verus!
