//! What the map from code to source says of the debug information it is made from, and how much code a program has.
use vstd::prelude::*;
#[allow(unused_imports)]
use crate::coverage::analysis::{
    bfs_order, conditional_branch, coverage_seeds, coverage_totals, function_blocks, lemma_order_reaches, push_new,
    reachable, reached_totals, AnalysisView, NodeView,
};
#[allow(unused_imports)]
use crate::coverage::dwarf::{
    chain_name, chain_places, frame_names, frame_places, in_text, pc_at, resolve, row_counts, symbol_names, with_rows,
    with_symbols, FrameView, LineRowView, Place, ResolvedPath,
};

verus! {

/// The address lies in the text, in the instruction of eight bytes at `pc`.
pub open spec fn lies_at(text_address: u64, text_size: u64, address: u64, pc: usize) -> bool {
    text_address <= address && address < text_address + text_size && 8 * pc <= address - text_address < 8 * pc + 8
}

/// The instruction of an address in the text is the one whose eight bytes it lies in.
pub proof fn lemma_instruction_of(text_address: u64, text_size: u64, address: u64, pc: usize)
    requires
        text_size / 8 <= usize::MAX,
    ensures
        in_text(text_address, text_size, address) && pc_at(text_address, address) == pc <==> lies_at(
            text_address,
            text_size,
            address,
            pc,
        ),
{
    if in_text(text_address, text_size, address) {
        let n = address - text_address;
        assert(0 <= n / 8 <= text_size / 8);
    }
}

/// The places of a chain of frames are those of its frames that name a file and a line, in their order.
pub proof fn lemma_chain_places(chain: Seq<FrameView>, paths: Seq<ResolvedPath>)
    ensures
        chain_places(chain, paths) == chain.filter(|f: FrameView| f.file is Some && f.line is Some).map_values(
            |f: FrameView| (resolve(paths, f.file->0), f.line->0),
        ),
    decreases chain.len(),
{
    reveal(Seq::filter);
    let keep = |f: FrameView| f.file is Some && f.line is Some;
    let place = |f: FrameView| (resolve(paths, f.file->0), f.line->0);
    if chain.len() > 0 {
        lemma_chain_places(chain.drop_last(), paths);
        let sub = chain.drop_last().filter(keep);
        assert(chain.filter(keep) == if keep(chain.last()) { sub.push(chain.last()) } else { sub });
    }
    assert(chain_places(chain, paths) =~= chain.filter(keep).map_values(place));
}

/// A chain of frames is named after its first frame that is in a function, by that function's name, or by the instruction
/// where it has none.
pub proof fn lemma_chain_name(chain: Seq<FrameView>, pc: usize)
    ensures
        (forall|i: int| 0 <= i < chain.len() ==> !(#[trigger] chain[i]).in_function) ==> chain_name(chain, pc) is None,
        forall|i: int|
            0 <= i < chain.len() && (#[trigger] chain[i]).in_function && (forall|j: int|
                0 <= j < i ==> !(#[trigger] chain[j]).in_function) ==> chain_name(chain, pc) == Some(
                if chain[i].name is Some { chain[i].name->0 } else { "fn_"@ + crate::text::dec(pc as nat) },
            ),
    decreases chain.len(),
{
    if chain.len() > 0 && !chain[0].in_function {
        let t = chain.skip(1);
        lemma_chain_name(t, pc);
        if forall|i: int| 0 <= i < chain.len() ==> !(#[trigger] chain[i]).in_function {
            assert forall|i: int| 0 <= i < t.len() implies !(#[trigger] t[i]).in_function by {
                assert(t[i] == chain[i + 1]);
            }
        }
        assert forall|i: int|
            0 <= i < chain.len() && (#[trigger] chain[i]).in_function && (forall|j: int|
                0 <= j < i ==> !(#[trigger] chain[j]).in_function) implies chain_name(chain, pc) == Some(
            if chain[i].name is Some { chain[i].name->0 } else { "fn_"@ + crate::text::dec(pc as nat) },
        ) by {
            assert(t[i - 1] == chain[i]);
            assert forall|j: int| 0 <= j < i - 1 implies !(#[trigger] t[j]).in_function by {
                assert(t[j] == chain[j + 1]);
            }
        }
    }
}

/// A name of the debug information stands for the first path that is given for it, or for itself where none is.
pub proof fn lemma_resolved(paths: Seq<ResolvedPath>, name: Seq<char>)
    ensures
        (forall|i: int| 0 <= i < paths.len() ==> (#[trigger] paths[i]).name@ != name) ==> resolve(paths, name) == name,
        forall|i: int|
            0 <= i < paths.len() && (#[trigger] paths[i]).name@ == name && (forall|j: int|
                0 <= j < i ==> (#[trigger] paths[j]).name@ != name) ==> resolve(paths, name) == paths[i].path@,
    decreases paths.len(),
{
    if paths.len() > 0 && paths[0].name@ != name {
        let t = paths.skip(1);
        lemma_resolved(t, name);
        if forall|i: int| 0 <= i < paths.len() ==> (#[trigger] paths[i]).name@ != name {
            assert forall|i: int| 0 <= i < t.len() implies (#[trigger] t[i]).name@ != name by {
                assert(t[i] == paths[i + 1]);
            }
        }
        assert forall|i: int|
            0 <= i < paths.len() && (#[trigger] paths[i]).name@ == name && (forall|j: int|
                0 <= j < i ==> (#[trigger] paths[j]).name@ != name) implies resolve(paths, name) == paths[i].path@ by {
            assert(t[i - 1] == paths[i]);
            assert forall|j: int| 0 <= j < i - 1 implies (#[trigger] t[j]).name@ != name by {
                assert(t[j] == paths[j + 1]);
            }
        }
    }
}

/// The frames give an instruction places just where its chain has some, and then those. They name an instruction just
/// where its chain has places and a name, with the last of the places.
pub proof fn lemma_frames_mapped(chains: Seq<Seq<FrameView>>, paths: Seq<ResolvedPath>, n: nat, pc: usize)
    requires
        n <= chains.len(),
        chains.len() <= usize::MAX,
    ensures
        ({
            let places = chain_places(chains[pc as int], paths);
            let name = chain_name(chains[pc as int], pc);
            &&& frame_places(chains, paths, n).contains_key(pc) <==> pc < n && places.len() > 0
            &&& frame_places(chains, paths, n).contains_key(pc) ==> frame_places(chains, paths, n)[pc] == places
            &&& frame_names(chains, paths, n).contains_key(pc) <==> pc < n && places.len() > 0 && name is Some
            &&& frame_names(chains, paths, n).contains_key(pc) ==> frame_names(chains, paths, n)[pc] == (
                name->0,
                places[places.len() - 1],
            )
        }),
    decreases n,
{
    if n > 0 {
        lemma_frames_mapped(chains, paths, (n - 1) as nat, pc);
        if pc == n - 1 {
            assert((n - 1) as usize == pc);
        } else {
            assert((n - 1) as usize != pc);
        }
    }
}

/// A row gives an instruction a place: it names a file and a line, and its address lies in the instruction.
pub open spec fn row_gives(text_address: u64, text_size: u64, row: LineRowView, paths: Seq<ResolvedPath>, pc: usize, p: Place) -> bool {
    row.file is Some && row.line is Some && lies_at(text_address, text_size, row.address, pc) && p == (
        resolve(paths, row.file->0),
        row.line->0,
    )
}

/// The rows of the line table add to what is known of an instruction: what was known stays, in its order and in front,
/// and a place is known just where it was, or some row gives it. An instruction is mapped just where some place of
/// it is known, or it was mapped.
pub proof fn lemma_rows_mapped(
    places: Map<usize, Seq<Place>>,
    text_address: u64,
    text_size: u64,
    rows: Seq<LineRowView>,
    paths: Seq<ResolvedPath>,
    pc: usize,
)
    requires
        text_size / 8 <= usize::MAX,
    ensures
        ({
            let now = with_rows(places, text_address, text_size, rows, paths);
            &&& places.contains_key(pc) ==> now.contains_key(pc) && places[pc].is_prefix_of(now[pc])
            &&& now.contains_key(pc) <==> places.contains_key(pc) || exists|i: int, p: Place|
                0 <= i < rows.len() && #[trigger] row_gives(text_address, text_size, rows[i], paths, pc, p)
            &&& now.contains_key(pc) ==> forall|p: Place| #[trigger]
                now[pc].contains(p) <==> (places.contains_key(pc) && places[pc].contains(p)) || exists|i: int|
                    0 <= i < rows.len() && #[trigger] row_gives(text_address, text_size, rows[i], paths, pc, p)
            &&& now.contains_key(pc) && (places.contains_key(pc) ==> places[pc].no_duplicates()) ==> now[pc].no_duplicates()
        }),
    decreases rows.len(),
{
    let now = with_rows(places, text_address, text_size, rows, paths);
    if rows.len() > 0 {
        let d = rows.drop_last();
        let r = rows.last();
        let before = with_rows(places, text_address, text_size, d, paths);
        lemma_rows_mapped(places, text_address, text_size, d, paths, pc);
        lemma_instruction_of(text_address, text_size, r.address, pc);
        assert(rows[rows.len() - 1] == r);
        assert forall|i: int| 0 <= i < d.len() implies d[i] == rows[i] by {}
        let given = (resolve(paths, r.file->0), r.line->0);
        let gives = row_counts(text_address, text_size, r) && pc_at(text_address, r.address) == pc;
        assert forall|p: Place| #[trigger] row_gives(text_address, text_size, r, paths, pc, p) <==> gives && p == given by {}
        assert forall|p: Place|
            (exists|i: int| 0 <= i < rows.len() && #[trigger] row_gives(text_address, text_size, rows[i], paths, pc, p)) <==> (
            exists|i: int| 0 <= i < d.len() && #[trigger] row_gives(text_address, text_size, d[i], paths, pc, p)) || (gives
                && #[trigger] same_place(p, given)) by {
            if exists|i: int| 0 <= i < rows.len() && #[trigger] row_gives(text_address, text_size, rows[i], paths, pc, p) {
                let i = choose|i: int| 0 <= i < rows.len() && #[trigger] row_gives(text_address, text_size, rows[i], paths, pc, p);
                if i < d.len() {
                    assert(row_gives(text_address, text_size, d[i], paths, pc, p));
                }
            }
            if exists|i: int| 0 <= i < d.len() && #[trigger] row_gives(text_address, text_size, d[i], paths, pc, p) {
                let i = choose|i: int| 0 <= i < d.len() && #[trigger] row_gives(text_address, text_size, d[i], paths, pc, p);
                assert(row_gives(text_address, text_size, rows[i], paths, pc, p));
            }
            if gives && same_place(p, given) {
                assert(row_gives(text_address, text_size, rows[rows.len() - 1], paths, pc, p));
            }
        }
        if exists|i: int, p: Place|
            0 <= i < rows.len() && #[trigger] row_gives(text_address, text_size, rows[i], paths, pc, p) {
            let (i, p) = choose|i: int, p: Place|
                0 <= i < rows.len() && #[trigger] row_gives(text_address, text_size, rows[i], paths, pc, p);
            if i < d.len() {
                assert(row_gives(text_address, text_size, d[i], paths, pc, p));
            } else {
                assert(gives);
            }
        }
        if exists|i: int, p: Place| 0 <= i < d.len() && #[trigger] row_gives(text_address, text_size, d[i], paths, pc, p) {
            let (i, p) = choose|i: int, p: Place|
                0 <= i < d.len() && #[trigger] row_gives(text_address, text_size, d[i], paths, pc, p);
            assert(row_gives(text_address, text_size, rows[i], paths, pc, p));
        }
        if gives {
            assert(row_gives(text_address, text_size, rows[rows.len() - 1], paths, pc, given));
            let have = if before.contains_key(pc) { before[pc] } else { Seq::empty() };
            if have.contains(given) {
                assert(now == before);
            } else {
                assert(now[pc] == have.push(given));
                assert(have.is_prefix_of(now[pc]));
                assert forall|p: Place| #[trigger] now[pc].contains(p) <==> have.contains(p) || same_place(p, given) by {
                    if have.contains(p) {
                        let i = choose|i: int| 0 <= i < have.len() && have[i] == p;
                        assert(now[pc][i] == p);
                    }
                    if p == given {
                        assert(now[pc][have.len() as int] == p);
                    }
                    if now[pc].contains(p) {
                        let i = choose|i: int| 0 <= i < now[pc].len() && now[pc][i] == p;
                        if i < have.len() {
                            assert(have[i] == p);
                        }
                    }
                }
                if places.contains_key(pc) {
                    assert(places[pc].is_prefix_of(now[pc])) by {
                        assert(now[pc].subrange(0, places[pc].len() as int) =~= have.subrange(0, places[pc].len() as int));
                    }
                }
            }
        } else {
            assert(now.contains_key(pc) == before.contains_key(pc));
            assert(now.contains_key(pc) ==> now[pc] == before[pc]);
        }
    } else if places.contains_key(pc) {
        assert(places[pc].subrange(0, places[pc].len() as int) =~= places[pc]);
    }
}

spec fn same_place(p: Place, q: Place) -> bool {
    p == q
}

/// The symbols add names of functions: a name stays, and an instruction without one that has places gets that of the
/// first symbol whose address lies in it, with the last of the places.
pub proof fn lemma_symbols_mapped(
    names: Map<usize, (Seq<char>, Place)>,
    places: Map<usize, Seq<Place>>,
    text_address: u64,
    text_size: u64,
    symbols: Seq<(u64, Seq<char>)>,
    pc: usize,
)
    requires
        text_size / 8 <= usize::MAX,
    ensures
        ({
            let now = with_symbols(names, places, text_address, text_size, symbols);
            let open = !names.contains_key(pc) && places.contains_key(pc) && places[pc].len() > 0;
            &&& names.contains_key(pc) ==> now.contains_key(pc) && now[pc] == names[pc]
            &&& !names.contains_key(pc) && !open ==> !now.contains_key(pc)
            &&& open && (forall|i: int|
                0 <= i < symbols.len() ==> !lies_at(text_address, text_size, (#[trigger] symbols[i]).0, pc)) ==> !now.contains_key(
                pc,
            )
            &&& open ==> forall|i: int|
                0 <= i < symbols.len() && lies_at(text_address, text_size, (#[trigger] symbols[i]).0, pc) && (forall|j: int|
                    0 <= j < i ==> !lies_at(text_address, text_size, (#[trigger] symbols[j]).0, pc)) ==> now.contains_key(pc)
                    && now[pc] == (symbols[i].1, places[pc][places[pc].len() - 1])
        }),
    decreases symbols.len(),
{
    if symbols.len() > 0 {
        let d = symbols.drop_last();
        let l = symbols.last();
        lemma_symbols_mapped(names, places, text_address, text_size, d, pc);
        lemma_instruction_of(text_address, text_size, l.0, pc);
        let before = with_symbols(names, places, text_address, text_size, d);
        let now = with_symbols(names, places, text_address, text_size, symbols);
        assert(symbols[symbols.len() - 1] == l);
        assert forall|i: int| 0 <= i < d.len() implies d[i] == symbols[i] by {}
        let open = !names.contains_key(pc) && places.contains_key(pc) && places[pc].len() > 0;
        if open {
            if forall|i: int| 0 <= i < symbols.len() ==> !lies_at(text_address, text_size, (#[trigger] symbols[i]).0, pc) {
                assert forall|i: int| 0 <= i < d.len() implies !lies_at(text_address, text_size, (#[trigger] d[i]).0, pc) by {
                    assert(d[i] == symbols[i]);
                }
                assert(!lies_at(text_address, text_size, symbols[symbols.len() - 1].0, pc));
            }
            assert forall|i: int|
                0 <= i < symbols.len() && lies_at(text_address, text_size, (#[trigger] symbols[i]).0, pc) && (forall|j: int|
                    0 <= j < i ==> !lies_at(text_address, text_size, (#[trigger] symbols[j]).0, pc)) implies now.contains_key(pc)
                && now[pc] == (symbols[i].1, places[pc][places[pc].len() - 1]) by {
                assert forall|j: int| 0 <= j < i && j < d.len() implies !lies_at(text_address, text_size, (#[trigger] d[j]).0, pc) by {
                    assert(d[j] == symbols[j]);
                }
                if i < d.len() {
                    assert(d[i] == symbols[i]);
                } else {
                    assert(!before.contains_key(pc));
                }
            }
        }
    }
}

/// A symbol names the instruction at `pc`: it is one of the text, has a name, and its address lies in the instruction.
pub open spec fn symbol_gives(text_address: u64, text_size: u64, s: (bool, u64, Option<Seq<char>>), pc: usize) -> bool {
    s.0 && s.2 is Some && s.2->0.len() > 0 && lies_at(text_address, text_size, s.1, pc)
}

/// The names that the symbols alone give: an instruction is named just where some symbol names it, after the first.
pub proof fn lemma_symbol_names(symbols: Seq<(bool, u64, Option<Seq<char>>)>, text_address: u64, text_size: u64, pc: usize)
    requires
        text_size / 8 <= usize::MAX,
    ensures
        ({
            let now = symbol_names(symbols, text_address, text_size);
            &&& (forall|i: int| 0 <= i < symbols.len() ==> !symbol_gives(text_address, text_size, #[trigger] symbols[i], pc))
                ==> !now.contains_key(pc)
            &&& forall|i: int|
                0 <= i < symbols.len() && symbol_gives(text_address, text_size, #[trigger] symbols[i], pc) && (forall|j: int|
                    0 <= j < i ==> !symbol_gives(text_address, text_size, #[trigger] symbols[j], pc)) ==> now.contains_key(pc)
                    && now[pc] == crate::coverage::dwarf::demangled(symbols[i].2->0)
        }),
    decreases symbols.len(),
{
    if symbols.len() > 0 {
        let d = symbols.drop_last();
        let l = symbols.last();
        lemma_symbol_names(d, text_address, text_size, pc);
        lemma_instruction_of(text_address, text_size, l.1, pc);
        let before = symbol_names(d, text_address, text_size);
        let now = symbol_names(symbols, text_address, text_size);
        assert(symbols[symbols.len() - 1] == l);
        assert forall|i: int| 0 <= i < d.len() implies d[i] == symbols[i] by {}
        if forall|i: int| 0 <= i < symbols.len() ==> !symbol_gives(text_address, text_size, #[trigger] symbols[i], pc) {
            assert forall|i: int| 0 <= i < d.len() implies !symbol_gives(text_address, text_size, #[trigger] d[i], pc) by {
                assert(d[i] == symbols[i]);
            }
            assert(!symbol_gives(text_address, text_size, symbols[symbols.len() - 1], pc));
        }
        assert forall|i: int|
            0 <= i < symbols.len() && symbol_gives(text_address, text_size, #[trigger] symbols[i], pc) && (forall|j: int|
                0 <= j < i ==> !symbol_gives(text_address, text_size, #[trigger] symbols[j], pc)) implies now.contains_key(pc)
            && now[pc] == crate::coverage::dwarf::demangled(symbols[i].2->0) by {
            assert forall|j: int| 0 <= j < i && j < d.len() implies !symbol_gives(text_address, text_size, #[trigger] d[j], pc) by {
                assert(d[j] == symbols[j]);
            }
            if i < d.len() {
                assert(d[i] == symbols[i]);
            } else {
                assert(!before.contains_key(pc));
            }
        }
    }
}

proof fn lemma_pushed(order: Seq<usize>, more: Seq<usize>)
    ensures
        forall|x: usize| #[trigger] push_new(order, more).contains(x) <==> order.contains(x) || more.contains(x),
        order.no_duplicates() ==> push_new(order, more).no_duplicates(),
    decreases more.len(),
{
    if more.len() > 0 {
        let d = more.drop_last();
        lemma_pushed(order, d);
        let before = push_new(order, d);
        let now = push_new(order, more);
        assert forall|x: usize| #[trigger] now.contains(x) <==> order.contains(x) || more.contains(x) by {
            if before.contains(x) {
                let i = choose|i: int| 0 <= i < before.len() && before[i] == x;
                assert(now[i] == x);
                if d.contains(x) {
                    let j = choose|j: int| 0 <= j < d.len() && d[j] == x;
                    assert(more[j] == x);
                }
            }
            if now.contains(x) {
                let i = choose|i: int| 0 <= i < now.len() && now[i] == x;
                if i < before.len() {
                    assert(before[i] == x);
                } else {
                    assert(more[more.len() - 1] == x);
                }
            }
            if more.contains(x) {
                let j = choose|j: int| 0 <= j < more.len() && more[j] == x;
                if j < d.len() {
                    assert(d[j] == x);
                } else if !before.contains(x) {
                    assert(now[before.len() as int] == x);
                }
            }
        }
    }
}

proof fn lemma_function_entries(a: AnalysisView, n: nat)
    requires
        n <= a.functions.len(),
    ensures
        forall|x: usize| #[trigger]
            function_blocks(a, n).contains(x) <==> a.has_node(x) && exists|i: int| 0 <= i < n && (#[trigger] a.functions[i]).0 == x,
    decreases n,
{
    if n > 0 {
        lemma_function_entries(a, (n - 1) as nat);
        let before = function_blocks(a, (n - 1) as nat);
        let now = function_blocks(a, n);
        assert forall|x: usize| #[trigger] now.contains(x) <==> a.has_node(x) && exists|i: int|
            0 <= i < n && (#[trigger] a.functions[i]).0 == x by {
            if before.contains(x) {
                let i = choose|i: int| 0 <= i < before.len() && before[i] == x;
                assert(now[i] == x);
            }
            if now.contains(x) {
                let i = choose|i: int| 0 <= i < now.len() && now[i] == x;
                if i < before.len() {
                    assert(before[i] == x);
                } else {
                    assert(a.functions[n - 1].0 == x);
                }
            }
            if a.has_node(x) && a.functions[n - 1].0 == x {
                assert(now[before.len() as int] == x);
            }
        }
    }
}

/// Code is looked for from the entry of the program and from those of its functions, where they are blocks.
pub proof fn lemma_seeds(a: AnalysisView, x: usize)
    ensures
        coverage_seeds(a).contains(x) <==> a.has_node(x) && (x == a.entrypoint || exists|i: int|
            0 <= i < a.functions.len() && (#[trigger] a.functions[i]).0 == x),
        coverage_seeds(a).no_duplicates(),
{
    let first = if a.has_node(a.entrypoint) { seq![a.entrypoint] } else { Seq::empty() };
    lemma_pushed(first, function_blocks(a, a.functions.len()));
    lemma_function_entries(a, a.functions.len());
    if a.has_node(a.entrypoint) {
        assert(first[0] == a.entrypoint);
    }
}

proof fn lemma_totals_folded(a: AnalysisView, order: Seq<usize>, n: nat)
    requires
        n <= a.nodes.len(),
        forall|id: usize| #[trigger] order.contains(id) <==> reachable(a, coverage_seeds(a), false, id),
        forall|i: int| 0 <= i < a.nodes.len() ==> (#[trigger] a.nodes[i]).start <= a.nodes[i].end,
    ensures
        reached_totals(a, order, n).0 == a.nodes.take(n as int).fold_left(
            0int,
            |t: int, b: NodeView|
                if reachable(a, coverage_seeds(a), false, b.id) && b.start < b.end && conditional_branch(
                    a.instructions[b.end - 1].opc,
                ) {
                    t + b.destinations.len()
                } else {
                    t
                },
        ),
        reached_totals(a, order, n).1 == a.nodes.take(n as int).fold_left(
            0int,
            |t: int, b: NodeView| if reachable(a, coverage_seeds(a), false, b.id) { t + (b.end - b.start) } else { t },
        ),
    decreases n,
{
    if n > 0 {
        lemma_totals_folded(a, order, (n - 1) as nat);
        assert(a.nodes.take(n as int).drop_last() =~= a.nodes.take(n - 1));
        assert(a.nodes.take(n as int).last() == a.nodes[n - 1]);
    }
}

/// How much there is to cover in a program: the blocks that can be reached count, with all of their instructions, and
/// with their ways out where they end in a conditional jump.
pub proof fn lemma_totals(a: AnalysisView)
    requires
        a.well_formed(),
    ensures
        coverage_totals(a).0 == a.nodes.fold_left(
            0int,
            |t: int, b: NodeView|
                if reachable(a, coverage_seeds(a), false, b.id) && b.start < b.end && conditional_branch(
                    a.instructions[b.end - 1].opc,
                ) {
                    t + b.destinations.len()
                } else {
                    t
                },
        ),
        coverage_totals(a).1 == a.nodes.fold_left(
            0int,
            |t: int, b: NodeView| if reachable(a, coverage_seeds(a), false, b.id) { t + (b.end - b.start) } else { t },
        ),
{
    let seeds = coverage_seeds(a);
    lemma_seeds(a, a.entrypoint);
    lemma_order_reaches(a, seeds, false);
    lemma_totals_folded(a, bfs_order(a, seeds, false), a.nodes.len());
    assert(a.nodes.take(a.nodes.len() as int) =~= a.nodes);
}

/// An instruction is a conditional branch just where its class is that of jumps and it is none of the jump, the calls
/// and the exit, or where its class is that of 32 bit jumps.
pub proof fn lemma_branches(opcode: u8)
    ensures
        conditional_branch(opcode) <==> opcode & 7 == 6 || (opcode & 7 == 5 && opcode != 0x05 && opcode != 0x85 && opcode != 0x8d
            && opcode != 0x95),
{
    assert(opcode & 7 == opcode % 8) by (bit_vector);
}

} // verus!
