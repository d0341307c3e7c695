//! What the coverage page says of the instructions and blocks that were executed.
use vstd::prelude::*;
#[allow(unused_imports)]
use crate::coverage::analysis::{bfs_order, lemma_one_node, reachable, AnalysisView};
#[allow(unused_imports)]
use crate::coverage::html::{
    blocks_hit, cached_row, entry_block, function_stats, pcs_hit, plain_rows, program_item, range_branches, range_hits,
    row_items, row_sums, rows_of, tally, CachedView, RowView,
};
#[allow(unused_imports)]
use crate::coverage::page::page_text;
#[allow(unused_imports)]
use crate::text::{dec, escaped, hex, joined};

verus! {

/// The instruction at this index has a count above zero.
pub open spec fn ran(a: AnalysisView, hits: Map<usize, u64>, i: int) -> bool {
    hits.contains_key(a.instructions[i].ptr) && hits[a.instructions[i].ptr] > 0
}

/// The instruction at this index is a jump that depends on a condition: of the class of 32-bit jumps, or of the
/// class of 64-bit jumps without the plain jump, the two calls and the exit.
pub open spec fn branches_at(a: AnalysisView, i: int) -> bool {
    let opc = a.instructions[i].opc;
    opc % 8 == 6 || (opc % 8 == 5 && opc != 0x05 && opc != 0x85 && opc != 0x8d && opc != 0x95)
}

/// The indexes of the instructions of the blocks with these ids.
spec fn indexes(a: AnalysisView, order: Seq<usize>) -> Set<int> {
    Set::new(
        |i: int|
            exists|b: int|
                0 <= b < a.nodes.len() && order.contains((#[trigger] a.nodes[b]).id) && a.nodes[b].start <= i
                    < a.nodes[b].end,
    )
}

/// The positions of the blocks with these ids.
spec fn places(a: AnalysisView, order: Seq<usize>) -> Set<int> {
    Set::new(|b: int| 0 <= b < a.nodes.len() && order.contains((#[trigger] a.nodes[b]).id))
}

proof fn lemma_range_sets(a: AnalysisView, hits: Map<usize, u64>, start: nat, end: nat)
    requires
        start <= end,
    ensures
        vstd::set_lib::set_int_range(start as int, end as int).finite(),
        vstd::set_lib::set_int_range(start as int, end as int).len() == end - start,
        range_hits(a, hits, start, end) == vstd::set_lib::set_int_range(start as int, end as int).filter(
            |i: int| ran(a, hits, i),
        ).len(),
        range_branches(a, hits, start, end).0 == vstd::set_lib::set_int_range(start as int, end as int).filter(
            |i: int| branches_at(a, i),
        ).len(),
        range_branches(a, hits, start, end).1 == vstd::set_lib::set_int_range(start as int, end as int).filter(
            |i: int| branches_at(a, i) && ran(a, hits, i),
        ).len(),
        vstd::set_lib::set_int_range(start as int, end as int).filter(|i: int| ran(a, hits, i)).finite(),
        vstd::set_lib::set_int_range(start as int, end as int).filter(|i: int| branches_at(a, i)).finite(),
        vstd::set_lib::set_int_range(start as int, end as int).filter(|i: int| branches_at(a, i) && ran(a, hits, i)).finite(),
    decreases end,
{
    let p = |i: int| ran(a, hits, i);
    let q = |i: int| branches_at(a, i);
    let r = |i: int| branches_at(a, i) && ran(a, hits, i);
    let s = vstd::set_lib::set_int_range(start as int, end as int);
    vstd::set_lib::lemma_int_range(start as int, end as int);
    if start == end {
        assert(s.filter(p) =~= Set::empty());
        assert(s.filter(q) =~= Set::empty());
        assert(s.filter(r) =~= Set::empty());
    } else {
        let last = end - 1;
        lemma_range_sets(a, hits, start, last as nat);
        let d = vstd::set_lib::set_int_range(start as int, last);
        if p(last) {
            assert(s.filter(p) =~= d.filter(p).insert(last));
        } else {
            assert(s.filter(p) =~= d.filter(p));
        }
        if q(last) {
            assert(s.filter(q) =~= d.filter(q).insert(last));
        } else {
            assert(s.filter(q) =~= d.filter(q));
        }
        if r(last) {
            assert(s.filter(r) =~= d.filter(r).insert(last));
        } else {
            assert(s.filter(r) =~= d.filter(r));
        }
    }
}

/// Two finite sets without a common member hold together as many that satisfy `p` as each for itself.
proof fn lemma_two_parts(x: Set<int>, y: Set<int>, p: spec_fn(int) -> bool)
    requires
        x.finite(),
        y.finite(),
        x.disjoint(y),
    ensures
        x.union(y).filter(p).len() == x.filter(p).len() + y.filter(p).len(),
        x.union(y).len() == x.len() + y.len(),
        x.union(y).finite(),
{
    x.lemma_len_filter(p);
    y.lemma_len_filter(p);
    assert(x.union(y).filter(p) =~= x.filter(p).union(y.filter(p)));
    assert(x.filter(p).disjoint(y.filter(p)));
    vstd::set_lib::lemma_set_disjoint_lens(x.filter(p), y.filter(p));
    vstd::set_lib::lemma_set_disjoint_lens(x, y);
}

proof fn lemma_tally_is(a: AnalysisView, hits: Map<usize, u64>, order: Seq<usize>)
    requires
        a.well_formed(),
        order.no_duplicates(),
    ensures
        indexes(a, order).finite(),
        places(a, order).finite(),
        tally(a, hits, order).instructions == indexes(a, order).len(),
        tally(a, hits, order).hit_instructions == indexes(a, order).filter(|i: int| ran(a, hits, i)).len(),
        tally(a, hits, order).branches == indexes(a, order).filter(|i: int| branches_at(a, i)).len(),
        tally(a, hits, order).hit_branches == indexes(a, order).filter(|i: int| branches_at(a, i) && ran(a, hits, i)).len(),
        tally(a, hits, order).blocks == places(a, order).len(),
        tally(a, hits, order).hit_blocks == places(a, order).filter(
            |b: int| exists|i: int| a.nodes[b].start <= i < a.nodes[b].end && ran(a, hits, i),
        ).len(),
    decreases order.len(),
{
    let p = |i: int| ran(a, hits, i);
    let q = |i: int| branches_at(a, i);
    let r = |i: int| branches_at(a, i) && ran(a, hits, i);
    let h = |b: int| exists|i: int| a.nodes[b].start <= i < a.nodes[b].end && ran(a, hits, i);
    if order.len() == 0 {
        let none = Set::<int>::empty();
        assert(indexes(a, order) =~= none);
        assert(places(a, order) =~= none);
        assert(none.filter(p) =~= none);
        assert(none.filter(q) =~= none);
        assert(none.filter(r) =~= none);
        assert(none.filter(h) =~= none);
    } else {
        let d = order.drop_last();
        let id = order.last();
        lemma_tally_is(a, hits, d);
        assert(order =~= d.push(id));
        assert(!d.contains(id)) by {
            if d.contains(id) {
                let k = choose|k: int| 0 <= k < d.len() && d[k] == id;
                assert(order[k] == order[order.len() - 1]);
            }
        }
        assert forall|x: usize| order.contains(x) <==> d.contains(x) || x == id by {
            if order.contains(x) {
                let k = choose|k: int| 0 <= k < order.len() && order[k] == x;
                if k < d.len() {
                    assert(d[k] == x);
                }
            }
            if d.contains(x) {
                let k = choose|k: int| 0 <= k < d.len() && d[k] == x;
                assert(order[k] == x);
            }
            assert(order[order.len() - 1] == id);
        }
        if a.has_node(id) {
            let at = choose|at: int| a.is_node(id, at);
            let n = a.nodes[at];
            lemma_one_node(a, id, at);
            assert(a.node(id) == n);
            let own = vstd::set_lib::set_int_range(n.start as int, n.end as int);
            lemma_range_sets(a, hits, n.start as nat, n.end as nat);
            let before = indexes(a, d);
            assert(indexes(a, order) =~= before.union(own)) by {
                assert forall|i: int| indexes(a, order).contains(i) <==> before.contains(i) || own.contains(i) by {
                    if indexes(a, order).contains(i) {
                        let b = choose|b: int|
                            0 <= b < a.nodes.len() && order.contains((#[trigger] a.nodes[b]).id) && a.nodes[b].start <= i
                                < a.nodes[b].end;
                        if a.nodes[b].id == id {
                            assert(a.is_node(id, b));
                            lemma_one_node(a, id, b);
                        }
                    }
                    if before.contains(i) {
                        let b = choose|b: int|
                            0 <= b < a.nodes.len() && d.contains((#[trigger] a.nodes[b]).id) && a.nodes[b].start <= i
                                < a.nodes[b].end;
                        assert(order.contains(a.nodes[b].id));
                    }
                    if own.contains(i) {
                        assert(order.contains(a.nodes[at].id));
                    }
                }
            }
            assert(before.disjoint(own)) by {
                assert forall|i: int| before.contains(i) && own.contains(i) implies false by {
                    let b = choose|b: int|
                        0 <= b < a.nodes.len() && d.contains((#[trigger] a.nodes[b]).id) && a.nodes[b].start <= i
                            < a.nodes[b].end;
                    if b < at {
                        assert(a.nodes[b].end <= a.nodes[at].start);
                    } else if at < b {
                        assert(a.nodes[at].end <= a.nodes[b].start);
                    }
                }
            }
            lemma_two_parts(before, own, p);
            lemma_two_parts(before, own, q);
            lemma_two_parts(before, own, r);
            assert forall|b: int| a.is_node(id, b) implies b == at by {
                if b < at {
                    assert(a.nodes[b].id < a.nodes[at].id);
                } else if at < b {
                    assert(a.nodes[at].id < a.nodes[b].id);
                }
            }
            assert(places(a, order) =~= places(a, d).insert(at)) by {
                assert forall|b: int| places(a, order).contains(b) <==> places(a, d).contains(b) || b == at by {
                    if places(a, order).contains(b) && !places(a, d).contains(b) {
                        assert(a.is_node(id, b));
                    }
                    if b == at {
                        assert(order.contains(a.nodes[b].id));
                    }
                }
            }
            assert(!places(a, d).contains(at));
            assert(h(at) <==> range_hits(a, hits, n.start as nat, n.end as nat) > 0) by {
                if h(at) {
                    let i = choose|i: int| a.nodes[at].start <= i < a.nodes[at].end && ran(a, hits, i);
                    assert(own.filter(p).contains(i));
                    assert(own.filter(p).len() > 0) by {
                        if own.filter(p).len() == 0 {
                            assert(own.filter(p) =~= Set::empty());
                        }
                    }
                } else {
                    assert(own.filter(p) =~= Set::empty()) by {
                        assert forall|i: int| !own.filter(p).contains(i) by {
                            if own.filter(p).contains(i) {
                                assert(a.nodes[at].start <= i < a.nodes[at].end && ran(a, hits, i));
                            }
                        }
                    }
                }
            }
            places(a, d).lemma_len_filter(h);
            if h(at) {
                assert(places(a, order).filter(h) =~= places(a, d).filter(h).insert(at));
            } else {
                assert(places(a, order).filter(h) =~= places(a, d).filter(h));
            }
        } else {
            assert(indexes(a, order) =~= indexes(a, d)) by {
                assert forall|i: int| indexes(a, order).contains(i) <==> indexes(a, d).contains(i) by {
                    if indexes(a, order).contains(i) {
                        let b = choose|b: int|
                            0 <= b < a.nodes.len() && order.contains((#[trigger] a.nodes[b]).id) && a.nodes[b].start <= i
                                < a.nodes[b].end;
                        if a.nodes[b].id == id {
                            assert(a.is_node(id, b));
                        }
                        assert(d.contains(a.nodes[b].id));
                    }
                    if indexes(a, d).contains(i) {
                        let b = choose|b: int|
                            0 <= b < a.nodes.len() && d.contains((#[trigger] a.nodes[b]).id) && a.nodes[b].start <= i
                                < a.nodes[b].end;
                        assert(order.contains(a.nodes[b].id));
                    }
                }
            }
            assert(places(a, order) =~= places(a, d)) by {
                assert forall|b: int| places(a, order).contains(b) <==> places(a, d).contains(b) by {
                    if places(a, order).contains(b) && a.nodes[b].id == id {
                        assert(a.is_node(id, b));
                    }
                }
            }
        }
    }
}

/// The block at `at` is where the function at `pc` starts: its first instruction has that program counter, and
/// that of no later block has.
pub open spec fn starts_at(a: AnalysisView, pc: usize, at: int) -> bool {
    &&& 0 <= at < a.nodes.len() && a.nodes[at].start < a.nodes[at].end && a.instructions[a.nodes[at].start as int].ptr == pc
    &&& forall|b: int|
        at < b < a.nodes.len() ==> !((#[trigger] a.nodes[b]).start < a.nodes[b].end && a.instructions[a.nodes[b].start as int].ptr
            == pc)
}

pub(crate) proof fn lemma_entry(a: AnalysisView, pc: usize, n: nat, at: int)
    requires
        0 <= at < n <= a.nodes.len(),
        a.nodes[at].start < a.nodes[at].end && a.instructions[a.nodes[at].start as int].ptr == pc,
        forall|b: int|
            at < b < n ==> !((#[trigger] a.nodes[b]).start < a.nodes[b].end && a.instructions[a.nodes[b].start as int].ptr
                == pc),
    ensures
        entry_block(a, pc, n) == Some(a.nodes[at].id),
    decreases n,
{
    if at < n - 1 {
        assert(!(a.nodes[n - 1].start < a.nodes[n - 1].end && a.instructions[a.nodes[n - 1].start as int].ptr == pc));
        lemma_entry(a, pc, (n - 1) as nat, at);
    }
}

/// The counts of a function: of the instructions in the blocks that can be reached from the one where it starts,
/// how many there are, how many have a count above zero, how many are conditional branches and how many of
/// those have a count above zero; and of these blocks, how many there are and how many hold an instruction
/// with a count above zero.
pub proof fn lemma_function_counts(a: AnalysisView, hits: Map<usize, u64>, pc: usize, at: int)
    requires
        a.well_formed(),
        a.nodes.len() <= usize::MAX,
        starts_at(a, pc, at),
    ensures
        ({
            let code = Set::new(
                |i: int|
                    exists|b: int|
                        0 <= b < a.nodes.len() && reachable(a, seq![a.nodes[at].id], false, (#[trigger] a.nodes[b]).id)
                            && a.nodes[b].start <= i < a.nodes[b].end,
            );
            let blocks = Set::new(
                |b: int| 0 <= b < a.nodes.len() && reachable(a, seq![a.nodes[at].id], false, (#[trigger] a.nodes[b]).id),
            );
            let s = function_stats(a, hits, pc);
            &&& code.finite() && blocks.finite()
            &&& s.total_instructions == code.len()
            &&& s.hit_instructions == code.filter(|i: int| ran(a, hits, i)).len()
            &&& s.total_branches == code.filter(|i: int| branches_at(a, i)).len()
            &&& s.hit_branches == code.filter(|i: int| branches_at(a, i) && ran(a, hits, i)).len()
            &&& s.total_blocks == blocks.len()
            &&& s.hit_blocks == blocks.filter(
                |b: int| exists|i: int| a.nodes[b].start <= i < a.nodes[b].end && ran(a, hits, i),
            ).len()
        }),
{
    let seeds = seq![a.nodes[at].id];
    let order = bfs_order(a, seeds, false);
    let code = Set::new(
        |i: int|
            exists|b: int|
                0 <= b < a.nodes.len() && reachable(a, seq![a.nodes[at].id], false, (#[trigger] a.nodes[b]).id)
                    && a.nodes[b].start <= i < a.nodes[b].end,
    );
    let blocks = Set::new(
        |b: int| 0 <= b < a.nodes.len() && reachable(a, seq![a.nodes[at].id], false, (#[trigger] a.nodes[b]).id),
    );
    lemma_entry(a, pc, a.nodes.len(), at);
    crate::coverage::analysis::lemma_order_reaches(a, seeds, false);
    lemma_tally_is(a, hits, order);
    assert(indexes(a, order) =~= code) by {
        assert forall|i: int| indexes(a, order).contains(i) <==> code.contains(i) by {
            if indexes(a, order).contains(i) {
                let b = choose|b: int|
                    0 <= b < a.nodes.len() && order.contains((#[trigger] a.nodes[b]).id) && a.nodes[b].start <= i
                        < a.nodes[b].end;
                assert(reachable(a, seq![a.nodes[at].id], false, a.nodes[b].id));
            }
            if code.contains(i) {
                let b = choose|b: int|
                    0 <= b < a.nodes.len() && reachable(a, seq![a.nodes[at].id], false, (#[trigger] a.nodes[b]).id)
                        && a.nodes[b].start <= i < a.nodes[b].end;
                assert(order.contains(a.nodes[b].id));
            }
        }
    }
    assert(places(a, order) =~= blocks);
    crate::coverage::html::lemma_tally_within(a, hits, order);
    let all = vstd::set_lib::set_int_range(0, usize::MAX as int);
    vstd::set_lib::lemma_int_range(0, usize::MAX as int);
    assert(code.subset_of(all));
    vstd::set_lib::lemma_len_subset(code, all);
    let spots = vstd::set_lib::set_int_range(0, a.nodes.len() as int);
    vstd::set_lib::lemma_int_range(0, a.nodes.len() as int);
    assert(blocks.subset_of(spots));
    vstd::set_lib::lemma_len_subset(blocks, spots);
}

/// A function with no block to start at has no instructions.
pub proof fn lemma_no_function_counts(a: AnalysisView, hits: Map<usize, u64>, pc: usize)
    requires
        forall|at: int| !#[trigger] starts_at(a, pc, at),
    ensures
        function_stats(a, hits, pc).total_instructions == 0,
        function_stats(a, hits, pc).hit_instructions == 0,
        function_stats(a, hits, pc).total_branches == 0,
        function_stats(a, hits, pc).hit_branches == 0,
        function_stats(a, hits, pc).total_blocks == 0,
        function_stats(a, hits, pc).hit_blocks == 0,
{
    lemma_found_starts(a, pc, a.nodes.len());
}

pub(crate) proof fn lemma_found_starts(a: AnalysisView, pc: usize, n: nat)
    requires
        n <= a.nodes.len(),
        forall|b: int|
            n <= b < a.nodes.len() ==> !((#[trigger] a.nodes[b]).start < a.nodes[b].end
                && a.instructions[a.nodes[b].start as int].ptr == pc),
    ensures
        entry_block(a, pc, n) is Some ==> exists|at: int| #[trigger] starts_at(a, pc, at),
    decreases n,
{
    if n > 0 {
        if a.nodes[n - 1].start < a.nodes[n - 1].end && a.instructions[a.nodes[n - 1].start as int].ptr == pc {
            assert(starts_at(a, pc, n - 1));
        } else {
            lemma_found_starts(a, pc, (n - 1) as nat);
        }
    }
}

/// The rows of a program: one for each of its functions, with its own name or else one made from its entry, its
/// entry and its counts, in the order of the names.
pub proof fn lemma_rows_are(a: AnalysisView, hits: Map<usize, u64>)
    ensures
        rows_of(a, hits).to_multiset() == Seq::new(
            a.functions.len(),
            |i: int|
                RowView {
                    name: if a.functions[i].1.len() > 0 {
                        a.functions[i].1
                    } else {
                        "fn_"@ + hex(a.functions[i].0 as nat)
                    },
                    entry_pc: a.functions[i].0,
                    stats: function_stats(a, hits, a.functions[i].0),
                },
        ).to_multiset(),
        rows_of(a, hits).len() == a.functions.len(),
        forall|i: int, j: int|
            0 <= i < j < rows_of(a, hits).len() ==> !crate::lexical::text_lt(
                (#[trigger] rows_of(a, hits)[j]).name,
                (#[trigger] rows_of(a, hits)[i]).name,
            ),
{
    let plain = Seq::new(
        a.functions.len(),
        |i: int|
            RowView {
                name: if a.functions[i].1.len() > 0 {
                    a.functions[i].1
                } else {
                    "fn_"@ + hex(a.functions[i].0 as nat)
                },
                entry_pc: a.functions[i].0,
                stats: function_stats(a, hits, a.functions[i].0),
            },
    );
    assert(plain =~= plain_rows(a, hits));
    let leq = crate::coverage::html::name_leq();
    crate::sorting::lemma_sorted_permutes(plain, leq);
    assert(crate::sorting::total_preorder(leq)) by {
        assert forall|x: RowView, y: RowView| #![trigger leq(x, y)] leq(x, y) || leq(y, x) by {
            crate::lexical::lemma_text_order(x.name, y.name, x.name);
        }
        assert forall|x: RowView, y: RowView, z: RowView| #![trigger leq(x, y), leq(y, z)] leq(x, y) && leq(y, z) implies leq(
            x,
            z,
        ) by {
            crate::lexical::lemma_text_order(x.name, y.name, z.name);
            crate::lexical::lemma_text_order(z.name, y.name, x.name);
            crate::lexical::lemma_text_order(z.name, x.name, y.name);
            crate::lexical::lemma_text_order(y.name, z.name, x.name);
            crate::lexical::lemma_text_order(y.name, x.name, z.name);
            crate::lexical::lemma_text_order(x.name, z.name, y.name);
        }
    }
    crate::sorting::lemma_sorted_in_order(plain, leq);
    let r = rows_of(a, hits);
    assert forall|i: int, j: int| 0 <= i < j < r.len() implies !crate::lexical::text_lt(
        (#[trigger] r[j]).name,
        (#[trigger] r[i]).name,
    ) by {
        assert(leq(r[i], r[j]));
    }
}

proof fn lemma_joined_part(parts: Seq<Seq<char>>, sep: Seq<char>, i: int) -> (r: (Seq<char>, Seq<char>))
    requires
        0 <= i < parts.len(),
    ensures
        joined(parts, sep) == r.0 + parts[i] + r.1,
    decreases parts.len(),
{
    let none = Seq::<char>::empty();
    if parts.len() == 1 {
        assert(joined(parts, sep) =~= none + parts[i] + none);
        (none, none)
    } else if i == parts.len() - 1 {
        assert(joined(parts, sep) =~= (joined(parts.drop_last(), sep) + sep) + parts[i] + none);
        (joined(parts.drop_last(), sep) + sep, none)
    } else {
        let (x, y) = lemma_joined_part(parts.drop_last(), sep, i);
        assert(joined(parts, sep) =~= x + parts[i] + (y + sep + parts.last()));
        (x, y + sep + parts.last())
    }
}

/// Every row is shown on the page: its name, its entry, how many of its instructions were executed and how many
/// there are, the share that is given for it, and the same of its blocks.
pub proof fn lemma_row_shown(
    refresh: bool,
    program_name: Seq<char>,
    header: Seq<char>,
    rows: Seq<RowView>,
    pcts: Seq<Seq<char>>,
    graphs: Seq<char>,
    note: Seq<char>,
    i: int,
) -> (r: (Seq<char>, Seq<char>))
    requires
        pcts.len() == rows.len(),
        0 <= i < rows.len(),
    ensures
        page_text(refresh, program_name, header, program_item(program_name, rows, pcts), graphs, note) == r.0 + (
        "{\"name\":\""@ + escaped(rows[i].name) + "\",\"pc\":"@ + dec(rows[i].entry_pc as nat) + ",\"hit\":"@ + dec(
            rows[i].stats.hit_instructions as nat,
        ) + ",\"total\":"@ + dec(rows[i].stats.total_instructions as nat) + ",\"pct\":"@ + pcts[i] + ",\"blocks_hit\":"@
            + dec(rows[i].stats.hit_blocks as nat) + ",\"blocks_total\":"@ + dec(rows[i].stats.total_blocks as nat) + "}"@)
            + r.1,
{
    let items = row_items(rows, pcts);
    let (x, y) = lemma_joined_part(items, ","@, i);
    let t = row_sums(rows);
    let head = "{\"name\":\""@ + escaped(program_name) + "\",\"hit\":"@ + dec(t.0) + ",\"total\":"@ + dec(t.1)
        + ",\"blocks_hit\":"@ + dec(t.2) + ",\"blocks_total\":"@ + dec(t.3) + ",\"functions\":["@;
    assert(program_item(program_name, rows, pcts) =~= (head + x) + items[i] + (y + "]}"@));
    lemma_in_page(refresh, program_name, header, head + x, items[i], y + "]}"@, graphs, note)
}

proof fn lemma_in_page(
    refresh: bool,
    program_name: Seq<char>,
    header: Seq<char>,
    x: Seq<char>,
    item: Seq<char>,
    y: Seq<char>,
    graphs: Seq<char>,
    note: Seq<char>,
) -> (r: (Seq<char>, Seq<char>))
    ensures
        page_text(refresh, program_name, header, x + item + y, graphs, note) == r.0 + item + r.1,
{
    let a = crate::coverage::page::PAGE_HEAD@ + (if refresh { crate::coverage::page::PAGE_REFRESH@ } else { Seq::empty() })
        + crate::coverage::page::PAGE_TITLE@ + program_name + crate::coverage::page::PAGE_STYLE@ + header
        + crate::coverage::page::PAGE_SIDEBAR@ + program_name + crate::coverage::page::PAGE_BODY@;
    let b = crate::coverage::page::PAGE_DATA@ + graphs + crate::coverage::page::PAGE_SCRIPT@ + note
        + crate::coverage::page::PAGE_START@;
    assert(page_text(refresh, program_name, header, x + item + y, graphs, note) =~= a + (x + item + y) + b);
    assert(a + (x + item + y) + b =~= (a + x) + item + (y + b));
    (a + x, y + b)
}

proof fn lemma_sums(rows: Seq<RowView>)
    ensures
        row_sums(rows).0 == rows.fold_left(0nat, |sum: nat, r: RowView| sum + r.stats.hit_instructions as nat),
        row_sums(rows).1 == rows.fold_left(0nat, |sum: nat, r: RowView| sum + r.stats.total_instructions as nat),
        row_sums(rows).2 == rows.fold_left(0nat, |sum: nat, r: RowView| sum + r.stats.hit_blocks as nat),
        row_sums(rows).3 == rows.fold_left(0nat, |sum: nat, r: RowView| sum + r.stats.total_blocks as nat),
    decreases rows.len(),
{
    if rows.len() > 0 {
        lemma_sums(rows.drop_last());
    }
}

/// The program is shown on the page with the sums over all its rows: the instructions that were executed and
/// all of them, the blocks that were executed and all of them.
pub proof fn lemma_program_shown(
    refresh: bool,
    program_name: Seq<char>,
    header: Seq<char>,
    rows: Seq<RowView>,
    pcts: Seq<Seq<char>>,
    graphs: Seq<char>,
    note: Seq<char>,
) -> (r: (Seq<char>, Seq<char>))
    ensures
        page_text(refresh, program_name, header, program_item(program_name, rows, pcts), graphs, note) == r.0 + (
        "{\"name\":\""@ + escaped(program_name) + "\",\"hit\":"@ + dec(
            rows.fold_left(0nat, |sum: nat, r: RowView| sum + r.stats.hit_instructions as nat),
        ) + ",\"total\":"@ + dec(rows.fold_left(0nat, |sum: nat, r: RowView| sum + r.stats.total_instructions as nat))
            + ",\"blocks_hit\":"@ + dec(rows.fold_left(0nat, |sum: nat, r: RowView| sum + r.stats.hit_blocks as nat))
            + ",\"blocks_total\":"@ + dec(rows.fold_left(0nat, |sum: nat, r: RowView| sum + r.stats.total_blocks as nat))
            + ",\"functions\":["@) + r.1,
{
    lemma_sums(rows);
    let t = row_sums(rows);
    let head = "{\"name\":\""@ + escaped(program_name) + "\",\"hit\":"@ + dec(t.0) + ",\"total\":"@ + dec(t.1)
        + ",\"blocks_hit\":"@ + dec(t.2) + ",\"blocks_total\":"@ + dec(t.3) + ",\"functions\":["@;
    let rest = joined(row_items(rows, pcts), ","@) + "]}"@;
    let none = Seq::<char>::empty();
    assert(program_item(program_name, rows, pcts) =~= none + head + rest);
    lemma_in_page(refresh, program_name, header, none, head, rest, graphs, note)
}

pub(crate) proof fn lemma_pcs_hit(pcs: Seq<usize>, hits: Map<usize, u64>)
    ensures
        pcs_hit(pcs, hits) == pcs.filter(|pc: usize| hits.contains_key(pc) && hits[pc] > 0).len(),
    decreases pcs.len(),
{
    reveal(Seq::filter);
    if pcs.len() > 0 {
        lemma_pcs_hit(pcs.drop_last(), hits);
    }
}

proof fn lemma_blocks_hit(blocks: Seq<(usize, Seq<usize>)>, hits: Map<usize, u64>)
    ensures
        blocks_hit(blocks, hits) == blocks.filter(
            |b: (usize, Seq<usize>)| exists|pc: usize| #[trigger] b.1.contains(pc) && hits.contains_key(pc) && hits[pc] > 0,
        ).len(),
    decreases blocks.len(),
{
    reveal(Seq::filter);
    if blocks.len() > 0 {
        lemma_blocks_hit(blocks.drop_last(), hits);
        let pcs = blocks.last().1;
        let p = |pc: usize| hits.contains_key(pc) && hits[pc] > 0;
        lemma_pcs_hit(pcs, hits);
        if exists|pc: usize| #[trigger] pcs.contains(pc) && hits.contains_key(pc) && hits[pc] > 0 {
            let pc = choose|pc: usize| #[trigger] pcs.contains(pc) && hits.contains_key(pc) && hits[pc] > 0;
            let i = choose|i: int| 0 <= i < pcs.len() && pcs[i] == pc;
            pcs.lemma_filter_contains(p, i);
            assert(pcs.filter(p).contains(pcs[i]));
        } else {
            assert forall|i: int| 0 <= i < pcs.len() implies !p(#[trigger] pcs[i]) by {
                assert(pcs.contains(pcs[i]));
            }
            pcs.lemma_all_neg_filter_empty(p);
        }
    }
}

/// A function of the cached analysis is shown with the name, the entry and the totals that are kept of it, and
/// with how many of its program counters have a count above zero, and how many of its blocks hold one that
/// has.
pub proof fn lemma_cached_row_counts(f: CachedView, hits: Map<usize, u64>)
    requires
        f.instruction_pcs.len() <= usize::MAX,
        f.blocks.len() <= usize::MAX,
    ensures
        ({
            let r = cached_row(f, hits);
            &&& r.name == f.name && r.entry_pc == f.entry_pc
            &&& r.stats.total_instructions == f.total_instructions && r.stats.total_blocks == f.total_blocks
            &&& r.stats.hit_instructions == f.instruction_pcs.filter(
                |pc: usize| hits.contains_key(pc) && hits[pc] > 0,
            ).len()
            &&& r.stats.hit_blocks == f.blocks.filter(
                |b: (usize, Seq<usize>)| exists|pc: usize| #[trigger] b.1.contains(pc) && hits.contains_key(pc) && hits[pc] > 0,
            ).len()
        }),
{
    lemma_pcs_hit(f.instruction_pcs, hits);
    lemma_blocks_hit(f.blocks, hits);
    f.instruction_pcs.lemma_filter_len(|pc: usize| hits.contains_key(pc) && hits[pc] > 0);
    f.blocks.lemma_filter_len(
        |b: (usize, Seq<usize>)| exists|pc: usize| #[trigger] b.1.contains(pc) && hits.contains_key(pc) && hits[pc] > 0,
    );
}

/// A block of a graph: its number, how many of its instructions have a count above zero where counts are given,
/// how many it has, and the first six of them, each with a mark where it has a count above zero, its program
/// counter and its mnemonic.
pub proof fn lemma_node_shown(a: AnalysisView, hits: Map<usize, u64>, at: int)
    requires
        a.well_formed(),
        0 <= at < a.nodes.len(),
    ensures
        ({
            let n = a.nodes[at];
            let shown = if n.end - n.start < 6 { n.end - n.start } else { 6 };
            let rest = |h: Option<Map<usize, u64>>|
                ",\"total\":"@ + dec((n.end - n.start) as nat) + ",\"insns\":["@ + joined(
                    Seq::new(
                        shown as nat,
                        |i: int|
                            "\""@ + escaped(
                                (if h is Some && ran(a, h->0, n.start + i) {
                                    "+ "@
                                } else {
                                    "  "@
                                }) + crate::text::zero_padded(hex(a.instructions[n.start + i].ptr as nat), 5) + ": "@
                                    + crate::coverage::html::opcode_name(a.instructions[n.start + i].opc),
                            ) + "\""@,
                    ),
                    ","@,
                ) + "]}"@;
            &&& crate::coverage::html::node_item(a, n.id, Some(hits)) == "{\"id\":"@ + dec(n.id as nat) + ",\"hit\":"@ + dec(
                vstd::set_lib::set_int_range(n.start as int, n.end as int).filter(|i: int| ran(a, hits, i)).len(),
            ) + rest(Some(hits))
            &&& crate::coverage::html::node_item(a, n.id, None) == "{\"id\":"@ + dec(n.id as nat) + rest(None)
        }),
{
    let n = a.nodes[at];
    assert(a.is_node(n.id, at));
    lemma_one_node(a, n.id, at);
    lemma_range_sets(a, hits, n.start as nat, n.end as nat);
    let shown = if n.end - n.start < 6 { n.end - n.start } else { 6 };
    let items = |h: Option<Map<usize, u64>>|
        Seq::new(
            shown as nat,
            |i: int|
                "\""@ + escaped(
                    (if h is Some && ran(a, h->0, n.start + i) {
                        "+ "@
                    } else {
                        "  "@
                    }) + crate::text::zero_padded(hex(a.instructions[n.start + i].ptr as nat), 5) + ": "@
                        + crate::coverage::html::opcode_name(a.instructions[n.start + i].opc),
                ) + "\""@,
        );
    assert(items(Some(hits)) =~= crate::coverage::html::insn_items(a, n, Some(hits)));
    assert(items(None) =~= crate::coverage::html::insn_items(a, n, None));
    let tail = |h: Option<Map<usize, u64>>|
        ",\"total\":"@ + dec((n.end - n.start) as nat) + ",\"insns\":["@ + joined(items(h), ","@) + "]}"@;
    assert(crate::coverage::html::node_item(a, n.id, Some(hits)) =~= "{\"id\":"@ + dec(n.id as nat) + ",\"hit\":"@ + dec(
        range_hits(a, hits, n.start as nat, n.end as nat),
    ) + tail(Some(hits)));
    assert(crate::coverage::html::node_item(a, n.id, None) =~= "{\"id\":"@ + dec(n.id as nat) + tail(None));
}

/// An edge of a graph: from where and to where, and where counts are given, whether the block that it leads to
/// holds an instruction with a count above zero.
pub proof fn lemma_edge_shown(a: AnalysisView, hits: Map<usize, u64>, from: usize, to: usize)
    requires
        a.well_formed(),
    ensures
        crate::coverage::html::edge_item(a, from, to, None) == "{\"from\":"@ + dec(from as nat) + ",\"to\":"@ + dec(to as nat)
            + "}"@,
        crate::coverage::html::edge_item(a, from, to, Some(hits)) == "{\"from\":"@ + dec(from as nat) + ",\"to\":"@ + dec(
            to as nat,
        ) + (if exists|b: int, i: int|
            0 <= b < a.nodes.len() && (#[trigger] a.nodes[b]).id == to && a.nodes[b].start <= i < a.nodes[b].end
                && #[trigger] ran(a, hits, i) {
            ",\"hit\":true}"@
        } else {
            ",\"hit\":false}"@
        }),
{
    if a.has_node(to) {
        let at = choose|at: int| a.is_node(to, at);
        lemma_one_node(a, to, at);
        let n = a.nodes[at];
        lemma_range_sets(a, hits, n.start as nat, n.end as nat);
        let own = vstd::set_lib::set_int_range(n.start as int, n.end as int);
        let p = |i: int| ran(a, hits, i);
        if exists|b: int, i: int|
            0 <= b < a.nodes.len() && (#[trigger] a.nodes[b]).id == to && a.nodes[b].start <= i < a.nodes[b].end
                && #[trigger] ran(a, hits, i) {
            let (b, i) = choose|b: int, i: int|
                0 <= b < a.nodes.len() && (#[trigger] a.nodes[b]).id == to && a.nodes[b].start <= i < a.nodes[b].end
                    && #[trigger] ran(a, hits, i);
            assert(a.is_node(to, b));
            lemma_one_node(a, to, b);
            assert(own.filter(p).contains(i));
            if own.filter(p).len() == 0 {
                assert(own.filter(p) =~= Set::empty());
            }
        } else {
            assert forall|i: int| !own.filter(p).contains(i) by {
                if own.filter(p).contains(i) {
                    assert(a.nodes[at].id == to);
                    assert(ran(a, hits, i));
                }
            }
            assert(own.filter(p) =~= Set::empty());
        }
    } else {
        if exists|b: int, i: int|
            0 <= b < a.nodes.len() && (#[trigger] a.nodes[b]).id == to && a.nodes[b].start <= i < a.nodes[b].end
                && #[trigger] ran(a, hits, i) {
            let (b, i) = choose|b: int, i: int|
                0 <= b < a.nodes.len() && (#[trigger] a.nodes[b]).id == to && a.nodes[b].start <= i < a.nodes[b].end
                    && #[trigger] ran(a, hits, i);
            assert(a.is_node(to, b));
        }
    }
}

} // verus!
