//! What the records of source files say of the counts they are made from.
use vstd::prelude::*;
#[allow(unused_imports)]
use crate::coverage::fill::{between, gap_filled, gap_line, gaps_filled, lead_filled, lead_line, leads_filled, white_space};
#[allow(unused_imports)]
use crate::coverage::lcov_laws::{lemma_counted, lemma_listed};
#[allow(unused_imports)]
use crate::coverage::source_lcov::{
    base_counts, branch_leq, entry_of, file_branches, file_entries, file_record, first_by_name, functions_hit, has_name,
    last_block, line_leq, line_total, lines_hit, listed_functions, loc_total, located, locations, record_of,
    source_branch_lines, source_da_lines, source_fn_lines, source_fnda_lines, source_of, source_outcomes_hit, BranchEntry,
    EntryView, SourceText,
};
#[allow(unused_imports)]
use crate::coverage::types::{BranchOutcomes, DwarfSourceMap, FunctionInfo, SourceLocation};
#[allow(unused_imports)]
use crate::order::listing;
#[allow(unused_imports)]
use crate::sorting::stable_sorted;
#[allow(unused_imports)]
use crate::text::dec;

verus! {

proof fn lemma_loc_sum(locs: Seq<SourceLocation>, file: Seq<char>, line: usize, h: nat)
    ensures
        loc_total(locs, file, line, h) == h * locs.filter(
            |l: SourceLocation| l.file@ == file && l.line as usize == line,
        ).len(),
    decreases locs.len(),
{
    reveal(Seq::filter);
    if locs.len() > 0 {
        lemma_loc_sum(locs.drop_last(), file, line, h);
        let n = locs.drop_last().filter(|l: SourceLocation| l.file@ == file && l.line as usize == line).len();
        assert(h * (n + 1) == h * n + h) by (nonlinear_arith);
    } else {
        assert(h * 0 == 0) by (nonlinear_arith);
    }
}

/// The hits on a line of a file are the sum over the program counters of their hits, each once for every of
/// its locations on that line.
pub proof fn lemma_line_sum(
    pcs: Seq<usize>,
    hits: Map<usize, u64>,
    map: Map<usize, Vec<SourceLocation>>,
    file: Seq<char>,
    line: usize,
)
    requires
        forall|i: int| 0 <= i < pcs.len() ==> hits.contains_key(#[trigger] pcs[i]),
    ensures
        line_total(pcs, hits, map, file, line) == pcs.fold_left(
            0nat,
            |sum: nat, pc: usize|
                sum + hits[pc] as nat * (if map.contains_key(pc) {
                    map[pc]@.filter(|l: SourceLocation| l.file@ == file && l.line as usize == line).len()
                } else {
                    0nat
                }),
        ),
    decreases pcs.len(),
{
    reveal(Seq::filter);
    if pcs.len() > 0 {
        let d = pcs.drop_last();
        assert forall|i: int| 0 <= i < d.len() implies hits.contains_key(#[trigger] d[i]) by {
            assert(d[i] == pcs[i]);
        }
        lemma_line_sum(d, hits, map, file, line);
        let pc = pcs.last();
        assert(hits.contains_key(pcs[pcs.len() - 1]));
        lemma_loc_sum(locations(map, pc), file, line, hits[pc] as nat);
        let h = hits[pc] as nat;
        assert(h * 0 == 0) by (nonlinear_arith);
    }
}

/// What a report says of a function that lies in `file`: the name and the place that the debug information has
/// for its entry, or else its own name and the outermost location of its entry, and the hits of its entry.
pub open spec fn tells_of(e: EntryView, f: FunctionInfo, hits: Map<usize, u64>, map: DwarfSourceMap, file: Seq<char>) -> bool {
    let pc = f.entry_pc;
    &&& e.hits == (if hits.contains_key(pc) { hits[pc] } else { 0 })
    &&& if map.fn_map@.contains_key(pc) {
        map.fn_map@[pc].1.file@ == file && e.line == map.fn_map@[pc].1.line && e.name == map.fn_map@[pc].0@
    } else {
        &&& map.pc_map@.contains_key(pc) && map.pc_map@[pc]@.len() > 0
        &&& map.pc_map@[pc]@[map.pc_map@[pc]@.len() - 1].file@ == file
        &&& e.line == map.pc_map@[pc]@[map.pc_map@[pc]@.len() - 1].line
        &&& e.name == if f.name@.len() > 0 { f.name@ } else { "fn_"@ + dec(pc as nat) }
    }
}

proof fn lemma_entries_are(functions: Seq<FunctionInfo>, hits: Map<usize, u64>, map: DwarfSourceMap, file: Seq<char>)
    ensures
        forall|e: EntryView| #[trigger]
            file_entries(functions, hits, map, file).contains(e) <==> exists|k: int|
                0 <= k < functions.len() && tells_of(e, #[trigger] functions[k], hits, map, file),
    decreases functions.len(),
{
    let all = file_entries(functions, hits, map, file);
    if functions.len() > 0 {
        let d = functions.drop_last();
        let before = file_entries(d, hits, map, file);
        let f = functions.last();
        lemma_entries_are(d, hits, map, file);
        assert forall|e: EntryView| tells_of(e, f, hits, map, file) <==> entry_of(f, hits, map) == Some((file, e)) by {
            if tells_of(e, f, hits, map, file) {
                let g = (entry_of(f, hits, map)->0).1;
                assert(g.name =~= e.name);
            }
        }
        assert forall|e: EntryView| #[trigger] all.contains(e) <==> exists|k: int|
            0 <= k < functions.len() && tells_of(e, #[trigger] functions[k], hits, map, file) by {
            if all.contains(e) {
                let i = choose|i: int| 0 <= i < all.len() && all[i] == e;
                if i < before.len() {
                    assert(before[i] == e);
                    assert(before.contains(e));
                    let k = choose|k: int| 0 <= k < d.len() && tells_of(e, #[trigger] d[k], hits, map, file);
                    assert(functions[k] == d[k]);
                } else {
                    assert(tells_of(e, functions[functions.len() - 1], hits, map, file));
                }
            }
            if exists|k: int| 0 <= k < functions.len() && tells_of(e, #[trigger] functions[k], hits, map, file) {
                let k = choose|k: int| 0 <= k < functions.len() && tells_of(e, #[trigger] functions[k], hits, map, file);
                if k < d.len() {
                    assert(d[k] == functions[k]);
                    assert(before.contains(e));
                    let i = choose|i: int| 0 <= i < before.len() && before[i] == e;
                    assert(all[i] == e);
                } else {
                    assert(all[all.len() - 1] == e);
                }
            }
        }
    }
}

/// The name of `e` is listed, at its line or above.
spec fn at_or_above(r: Seq<EntryView>, e: EntryView) -> bool {
    exists|i: int| 0 <= i < r.len() && (#[trigger] r[i]).name == e.name && r[i].line <= e.line
}

proof fn lemma_first_names(s: Seq<EntryView>)
    requires
        forall|i: int, j: int| 0 <= i < j < s.len() ==> (#[trigger] s[i]).line <= (#[trigger] s[j]).line,
    ensures
        forall|i: int| 0 <= i < first_by_name(s).len() ==> s.contains(#[trigger] first_by_name(s)[i]),
        forall|i: int, j: int|
            0 <= i < j < first_by_name(s).len() ==> (#[trigger] first_by_name(s)[i]).line <= (#[trigger] first_by_name(
                s,
            )[j]).line && first_by_name(s)[i].name != first_by_name(s)[j].name,
        forall|k: int| 0 <= k < s.len() ==> at_or_above(first_by_name(s), #[trigger] s[k]),
    decreases s.len(),
{
    let r = first_by_name(s);
    if s.len() > 0 {
        let d = s.drop_last();
        let q = first_by_name(d);
        let x = s.last();
        assert forall|i: int, j: int| 0 <= i < j < d.len() implies (#[trigger] d[i]).line <= (#[trigger] d[j]).line by {
            assert(s[i].line <= s[j].line);
        }
        lemma_first_names(d);
        assert(has_name(d, x.name) ==> r == q);
        assert(!has_name(d, x.name) ==> r == q.push(x));
        assert forall|i: int| 0 <= i < r.len() implies s.contains(#[trigger] r[i]) by {
            if i < q.len() {
                assert(d.contains(q[i]));
                let k = choose|k: int| 0 <= k < d.len() && d[k] == q[i];
                assert(s[k] == r[i]);
            } else {
                assert(s[s.len() - 1] == r[i]);
            }
        }
        assert forall|i: int, j: int| 0 <= i < j < r.len() implies (#[trigger] r[i]).line <= (#[trigger] r[j]).line
            && r[i].name != r[j].name by {
            if j == q.len() {
                assert(d.contains(q[i]));
                let k = choose|k: int| 0 <= k < d.len() && d[k] == q[i];
                assert(s[k].line <= s[s.len() - 1].line);
                assert(d[k].name == q[i].name);
            } else {
                assert(q[i].line <= q[j].line && q[i].name != q[j].name);
            }
        }
        assert forall|k: int| 0 <= k < s.len() implies at_or_above(r, #[trigger] s[k]) by {
            let m = if k < d.len() {
                k
            } else {
                choose|m: int| 0 <= m < d.len() && (#[trigger] d[m]).name == x.name
            };
            if k < d.len() || has_name(d, x.name) {
                assert(at_or_above(q, d[m]));
                let i = choose|i: int| 0 <= i < q.len() && (#[trigger] q[i]).name == d[m].name && q[i].line <= d[m].line;
                if m < k {
                    assert(s[m].line <= s[k].line);
                }
                assert(r[i] == q[i]);
            } else {
                assert(r[q.len() as int] == x);
            }
        }
    }
}

/// The functions that the record of a file lists: each is one that lies in the file, they come by line, no name
/// comes twice, and of every function that lies in the file the name is listed, at its line or above.
pub proof fn lemma_functions_listed(
    functions: Seq<FunctionInfo>,
    hits: Map<usize, u64>,
    map: DwarfSourceMap,
    file: Seq<char>,
)
    ensures
        ({
            let r = listed_functions(functions, hits, map, file);
            &&& forall|i: int|
                0 <= i < r.len() ==> exists|k: int|
                    0 <= k < functions.len() && tells_of(#[trigger] r[i], #[trigger] functions[k], hits, map, file)
            &&& forall|i: int, j: int|
                0 <= i < j < r.len() ==> (#[trigger] r[i]).line <= (#[trigger] r[j]).line && r[i].name != r[j].name
            &&& forall|k: int, e: EntryView|
                0 <= k < functions.len() && #[trigger] tells_of(e, functions[k], hits, map, file) ==> exists|i: int|
                    0 <= i < r.len() && (#[trigger] r[i]).name == e.name && r[i].line <= e.line
        }),
{
    broadcast use vstd::seq_lib::group_to_multiset_ensures;

    let all = file_entries(functions, hits, map, file);
    let s = stable_sorted(all, line_leq());
    let r = listed_functions(functions, hits, map, file);
    lemma_entries_are(functions, hits, map, file);
    crate::sorting::lemma_sorted_permutes(all, line_leq());
    crate::sorting::lemma_sorted_in_order(all, line_leq());
    assert forall|i: int, j: int| 0 <= i < j < s.len() implies (#[trigger] s[i]).line <= (#[trigger] s[j]).line by {
        assert(line_leq()(s[i], s[j]));
    }
    assert forall|e: EntryView| s.contains(e) <==> all.contains(e) by {
        assert(s.to_multiset().count(e) == all.to_multiset().count(e));
    }
    lemma_first_names(s);
    assert forall|i: int| 0 <= i < r.len() implies exists|k: int|
        0 <= k < functions.len() && tells_of(#[trigger] r[i], #[trigger] functions[k], hits, map, file) by {
        assert(s.contains(r[i]));
        assert(all.contains(r[i]));
        let k = choose|k: int| 0 <= k < functions.len() && tells_of(r[i], #[trigger] functions[k], hits, map, file);
        assert(tells_of(r[i], functions[k], hits, map, file));
    }
    assert forall|k: int, e: EntryView|
        0 <= k < functions.len() && #[trigger] tells_of(e, functions[k], hits, map, file) implies exists|i: int|
        0 <= i < r.len() && (#[trigger] r[i]).name == e.name && r[i].line <= e.line by {
        assert(all.contains(e));
        assert(s.contains(e));
        let m = choose|m: int| 0 <= m < s.len() && s[m] == e;
        assert(at_or_above(r, s[m]));
    }
}

/// The members of a finite set that stand next to each other in its listing are those with no member between.
proof fn lemma_neighbours(dom: Set<usize>, a: usize, b: usize)
    requires
        dom.finite(),
        dom.contains(a),
        dom.contains(b),
        a < b,
        forall|k: usize| a < k < b ==> !dom.contains(k),
    ensures
        exists|w: int| 0 <= w < listing(dom).len() - 1 && #[trigger] listing(dom)[w] == a && listing(dom)[w + 1] == b,
{
    let keys = listing(dom);
    lemma_listed(dom);
    assert(keys.to_set().contains(a) && keys.to_set().contains(b));
    let w = choose|w: int| 0 <= w < keys.len() && keys[w] == a;
    let v = choose|v: int| 0 <= v < keys.len() && keys[v] == b;
    assert(w < v);
    if w + 1 < v {
        assert(keys.to_set().contains(keys[w + 1]));
        assert(keys[w] < keys[w + 1] && keys[w + 1] < keys[v]);
    }
    assert(keys[w + 1] == b);
}

proof fn lemma_no_member_between(dom: Set<usize>, w: int, k: usize)
    requires
        dom.finite(),
        0 <= w < listing(dom).len() - 1,
        listing(dom)[w] < k < listing(dom)[w + 1],
    ensures
        !dom.contains(k),
{
    let keys = listing(dom);
    lemma_listed(dom);
    if dom.contains(k) {
        assert(keys.to_set().contains(k));
        let i = choose|i: int| 0 <= i < keys.len() && keys[i] == k;
        if i <= w {
            assert(i == w || keys[i] < keys[w]);
        } else {
            assert(i == w + 1 || keys[w + 1] < keys[i]);
        }
    }
}

/// The source shows a line of nothing but white space there.
pub open spec fn shows_blank(source: Option<Seq<Seq<char>>>, line: int) -> bool {
    source is Some && 1 <= line <= source->0.len() && forall|i: int|
        0 <= i < source->0[line - 1].len() ==> white_space(#[trigger] source->0[line - 1][i])
}

/// The source shows a line there whose first characters behind white space are two slashes.
pub open spec fn shows_comment(source: Option<Seq<Seq<char>>>, line: int) -> bool {
    source is Some && 1 <= line <= source->0.len() && exists|i: int|
        #![trigger source->0[line - 1][i]]
        0 <= i < source->0[line - 1].len() - 1 && source->0[line - 1][i] == '/' && source->0[line - 1][i + 1] == '/'
            && forall|j: int| 0 <= j < i ==> white_space(#[trigger] source->0[line - 1][j])
}

/// `line` lies in a gap between the counted lines `a` and `b`: nothing between them is counted, they are at most
/// ten lines apart, both were hit, and from `a` on down to `line` there is no blank line, and `line` itself is
/// no comment.
pub open spec fn in_gap(counts: Map<usize, u64>, source: Option<Seq<Seq<char>>>, a: usize, b: usize, line: usize) -> bool {
    &&& a < line < b
    &&& counts.contains_key(a) && counts.contains_key(b)
    &&& forall|k: usize| a < k < b ==> !counts.contains_key(k)
    &&& b - a - 1 <= 10
    &&& counts[a] > 0 && counts[b] > 0
    &&& !shows_comment(source, line as int)
    &&& forall|l: int| a < l <= line ==> !#[trigger] shows_blank(source, l)
}

proof fn lemma_gap_at(counts: Map<usize, u64>, source: Option<Seq<Seq<char>>>, w: int, line: usize)
    requires
        counts.dom().finite(),
        gap_filled(listing(counts.dom()), counts, source, w, line),
    ensures
        in_gap(counts, source, listing(counts.dom())[w], listing(counts.dom())[w + 1], line),
{
    let keys = listing(counts.dom());
    lemma_listed(counts.dom());
    assert(keys.to_set().contains(keys[w]) && keys.to_set().contains(keys[w + 1]));
    assert forall|k: usize| keys[w] < k < keys[w + 1] implies !counts.contains_key(k) by {
        lemma_no_member_between(counts.dom(), w, k);
    }
    assert forall|l: int| keys[w] < l <= line implies !#[trigger] shows_blank(source, l) by {
        assert(!crate::coverage::fill::blank_at(source, l));
    }
    assert(!crate::coverage::fill::comment_at(source, line as int));
}

proof fn lemma_in_gap_at(counts: Map<usize, u64>, source: Option<Seq<Seq<char>>>, a: usize, b: usize, line: usize)
    requires
        counts.dom().finite(),
        in_gap(counts, source, a, b, line),
    ensures
        exists|w: int|
            #![trigger listing(counts.dom())[w]]
            gap_filled(listing(counts.dom()), counts, source, w, line) && listing(counts.dom())[w] == a && listing(
                counts.dom(),
            )[w + 1] == b,
{
    let keys = listing(counts.dom());
    lemma_neighbours(counts.dom(), a, b);
    let w = choose|w: int| 0 <= w < keys.len() - 1 && #[trigger] keys[w] == a && keys[w + 1] == b;
    assert forall|l: int| keys[w] < l <= line implies !#[trigger] crate::coverage::fill::blank_at(source, l) by {
        assert(!shows_blank(source, l));
    }
    assert(!shows_comment(source, line as int));
    assert(between(keys, w, line));
    assert(gap_filled(keys, counts, source, w, line));
}

/// Filling gaps: the counted lines keep their counts, and just the lines in a gap are counted besides, each with
/// the smaller count of the two lines around the gap.
pub proof fn lemma_gaps_filled(counts: Map<usize, u64>, source: Option<Seq<Seq<char>>>, line: usize)
    requires
        counts.dom().finite(),
    ensures
        counts.contains_key(line) ==> gaps_filled(counts, source).contains_key(line) && gaps_filled(counts, source)[line]
            == counts[line],
        gaps_filled(counts, source).contains_key(line) <==> counts.contains_key(line) || exists|a: usize, b: usize|
            in_gap(counts, source, a, b, line),
        forall|a: usize, b: usize| #[trigger]
            in_gap(counts, source, a, b, line) ==> gaps_filled(counts, source)[line] == if counts[a] < counts[b] {
                counts[a]
            } else {
                counts[b]
            },
{
    let keys = listing(counts.dom());
    lemma_listed(counts.dom());
    if gap_line(keys, counts, source, line) {
        let w = choose|w: int| gap_filled(keys, counts, source, w, line);
        lemma_gap_at(counts, source, w, line);
    }
    assert forall|a: usize, b: usize| #[trigger] in_gap(counts, source, a, b, line) implies gaps_filled(
        counts,
        source,
    ).contains_key(line) && gaps_filled(counts, source)[line] == if counts[a] < counts[b] {
        counts[a]
    } else {
        counts[b]
    } by {
        lemma_in_gap_at(counts, source, a, b, line);
        let v = choose|v: int|
            #![trigger keys[v]]
            gap_filled(keys, counts, source, v, line) && keys[v] == a && keys[v + 1] == b;
        assert(gap_filled(keys, counts, source, v, line));
        let w = choose|w: int| gap_filled(keys, counts, source, w, line);
        if v < w {
            assert(keys[v + 1] <= keys[w]);
        }
        if w < v {
            assert(keys[w + 1] <= keys[v]);
        }
        assert(v == w);
        assert(line <= usize::MAX);
    }
}

/// `line` leads up to the counted line `k`, which was hit: it stands at most ten lines above it, nothing from it
/// on down to `k` is counted, the source reaches down to the line above `k`, and it is neither blank nor a
/// comment.
pub open spec fn leads_to(counts: Map<usize, u64>, source: Option<Seq<Seq<char>>>, k: usize, line: usize) -> bool {
    &&& counts.contains_key(k) && counts[k] > 0
    &&& 1 <= line < k && k - line <= 10
    &&& forall|l: usize| line <= l < k ==> !counts.contains_key(l)
    &&& source is Some && k - 1 <= source->0.len()
    &&& !shows_blank(source, line as int)
    &&& !shows_comment(source, line as int)
}

proof fn lemma_lead_at(counts: Map<usize, u64>, source: Option<Seq<Seq<char>>>, d: int, line: usize)
    requires
        counts.dom().finite(),
        lead_filled(listing(counts.dom()), counts, source, d, line),
    ensures
        leads_to(counts, source, listing(counts.dom())[d], line),
{
    let keys = listing(counts.dom());
    lemma_listed(counts.dom());
    assert(keys.to_set().contains(keys[d]));
    assert forall|l: usize| line <= l < keys[d] implies !counts.contains_key(l) by {
        if counts.contains_key(l) {
            assert(keys.to_set().contains(l));
            let i = choose|i: int| 0 <= i < keys.len() && keys[i] == l;
            if i < d {
                assert(i == d - 1 || keys[i] < keys[d - 1]);
            } else {
                assert(i == d || keys[d] < keys[i]);
            }
        }
    }
    assert(!crate::coverage::fill::blank_at(source, line as int));
    assert(!crate::coverage::fill::comment_at(source, line as int));
}

proof fn lemma_leads_at(counts: Map<usize, u64>, source: Option<Seq<Seq<char>>>, k: usize, line: usize)
    requires
        counts.dom().finite(),
        leads_to(counts, source, k, line),
    ensures
        exists|d: int|
            #![trigger listing(counts.dom())[d]]
            lead_filled(listing(counts.dom()), counts, source, d, line) && listing(counts.dom())[d] == k,
{
    let keys = listing(counts.dom());
    lemma_listed(counts.dom());
    assert(keys.to_set().contains(k));
    let d = choose|d: int| 0 <= d < keys.len() && keys[d] == k;
    if d > 0 {
        assert(keys.to_set().contains(keys[d - 1]));
        assert(keys[d - 1] < keys[d]);
    }
    assert(!crate::coverage::fill::blank_at(source, line as int));
    assert(!crate::coverage::fill::comment_at(source, line as int));
    assert(lead_filled(keys, counts, source, d, line));
}

/// Filling the lines that lead up to counted ones: the counted lines keep their counts, and just the leading
/// lines are counted besides, each with the count of the line that it leads up to.
pub proof fn lemma_leads_filled(counts: Map<usize, u64>, source: Option<Seq<Seq<char>>>, line: usize)
    requires
        counts.dom().finite(),
    ensures
        counts.contains_key(line) ==> leads_filled(counts, source).contains_key(line) && leads_filled(counts, source)[line]
            == counts[line],
        leads_filled(counts, source).contains_key(line) <==> counts.contains_key(line) || exists|k: usize|
            leads_to(counts, source, k, line),
        forall|k: usize| #[trigger]
            leads_to(counts, source, k, line) ==> leads_filled(counts, source)[line] == counts[k],
{
    let keys = listing(counts.dom());
    lemma_listed(counts.dom());
    let n = keys.len() as int;
    if lead_line(keys, counts, source, n, 0, line) {
        let d = choose|d: int| (d < n || (d == n && 0 <= line)) && #[trigger] lead_filled(keys, counts, source, d, line);
        lemma_lead_at(counts, source, d, line);
    }
    assert forall|k: usize| #[trigger] leads_to(counts, source, k, line) implies leads_filled(counts, source).contains_key(
        line,
    ) && leads_filled(counts, source)[line] == counts[k] by {
        lemma_leads_at(counts, source, k, line);
        let v = choose|v: int| #![trigger keys[v]] lead_filled(keys, counts, source, v, line) && keys[v] == k;
        assert(lead_filled(keys, counts, source, v, line));
        assert(lead_line(keys, counts, source, n, 0, line));
        let d = choose|d: int| lead_filled(keys, counts, source, d, line);
        lemma_lead_at(counts, source, d, line);
        assert(keys.to_set().contains(keys[d]));
        assert(keys[d] == k) by {
            if keys[d] < k {
                assert(!counts.contains_key(keys[d]));
            }
        }
    }
}

proof fn lemma_branches_are(
    pcs: Seq<usize>,
    taken: Map<usize, u64>,
    not_taken: Map<usize, u64>,
    map: Map<usize, Vec<SourceLocation>>,
    file: Seq<char>,
)
    ensures
        ({
            let kept = pcs.filter(|pc: usize| map.contains_key(pc) && map[pc]@.len() > 0 && map[pc]@[0].file@ == file);
            let r = file_branches(pcs, taken, not_taken, map, file);
            &&& r.len() == kept.len()
            &&& forall|i: int|
                0 <= i < r.len() ==> {
                    &&& (#[trigger] r[i]).line == map[kept[i]]@[0].line
                    &&& r[i].taken == if taken.contains_key(kept[i]) { taken[kept[i]] } else { 0 }
                    &&& r[i].not_taken == if not_taken.contains_key(kept[i]) { not_taken[kept[i]] } else { 0 }
                }
        }),
    decreases pcs.len(),
{
    reveal(Seq::filter);
    if pcs.len() > 0 {
        lemma_branches_are(pcs.drop_last(), taken, not_taken, map, file);
    }
}

/// The branches that the record of a file lists: one for each branch with a recorded outcome whose innermost
/// location lies in the file, on the line of that location, with the count of the taken outcome as taken and
/// that of the other as not taken. There are no others.
pub proof fn lemma_branch_counts(outcomes: BranchOutcomes, map: Map<usize, Vec<SourceLocation>>, file: Seq<char>)
    requires
        outcomes.taken@.dom().finite(),
        outcomes.not_taken@.dom().finite(),
    ensures
        ({
            let r = file_branches(listing(outcomes.branches()), outcomes.taken@, outcomes.not_taken@, map, file);
            let taken = outcomes.taken@;
            let not_taken = outcomes.not_taken@;
            exists|kept: Seq<usize>|
                {
                    &&& #[trigger] kept.to_set() == taken.dom().union(not_taken.dom()).filter(
                        |pc: usize| map.contains_key(pc) && map[pc]@.len() > 0 && map[pc]@[0].file@ == file,
                    )
                    &&& kept.no_duplicates()
                    &&& r.len() == kept.len()
                    &&& forall|i: int|
                        0 <= i < r.len() ==> {
                            &&& (#[trigger] r[i]).line == map[kept[i]]@[0].line
                            &&& r[i].taken == if taken.contains_key(kept[i]) { taken[kept[i]] } else { 0 }
                            &&& r[i].not_taken == if not_taken.contains_key(kept[i]) { not_taken[kept[i]] } else { 0 }
                        }
                }
        }),
{
    let p = |pc: usize| map.contains_key(pc) && map[pc]@.len() > 0 && map[pc]@[0].file@ == file;
    let pcs = listing(outcomes.branches());
    let kept = pcs.filter(p);
    lemma_listed(outcomes.branches());
    lemma_branches_are(pcs, outcomes.taken@, outcomes.not_taken@, map, file);
    lemma_filtered(pcs, p);
    assert(kept.to_set() =~= outcomes.taken@.dom().union(outcomes.not_taken@.dom()).filter(p));
}

/// The members of a list that satisfy `p`, each once where it comes once.
proof fn lemma_filtered(s: Seq<usize>, p: spec_fn(usize) -> bool)
    requires
        s.no_duplicates(),
    ensures
        s.filter(p).no_duplicates(),
        s.filter(p).to_set() == s.to_set().filter(p),
    decreases s.len(),
{
    reveal(Seq::filter);
    if s.len() > 0 {
        let d = s.drop_last();
        lemma_filtered(d, p);
        let r = d.filter(p);
        assert(s =~= d.push(s.last()));
        assert forall|x: usize| s.contains(x) <==> d.contains(x) || x == s.last() by {
            if s.contains(x) {
                let i = choose|i: int| 0 <= i < s.len() && s[i] == x;
                if i < d.len() {
                    assert(d[i] == x);
                }
            }
            if d.contains(x) {
                let i = choose|i: int| 0 <= i < d.len() && d[i] == x;
                assert(s[i] == x);
            }
            assert(s[s.len() - 1] == s.last());
        }
        assert(!d.contains(s.last())) by {
            if d.contains(s.last()) {
                let i = choose|i: int| 0 <= i < d.len() && d[i] == s.last();
                assert(s[i] == s[s.len() - 1]);
            }
        }
        assert forall|x: usize| r.contains(x) <==> d.contains(x) && p(x) by {
            assert(r.to_set().contains(x) <==> d.to_set().filter(p).contains(x));
        }
        if p(s.last()) {
            let q = r.push(s.last());
            assert(!r.contains(s.last()));
            assert forall|x: usize| q.contains(x) <==> r.contains(x) || x == s.last() by {
                if q.contains(x) {
                    let i = choose|i: int| 0 <= i < q.len() && q[i] == x;
                    if i < r.len() {
                        assert(r[i] == x);
                    }
                }
                if r.contains(x) {
                    let i = choose|i: int| 0 <= i < r.len() && r[i] == x;
                    assert(q[i] == x);
                }
                assert(q[r.len() as int] == s.last());
            }
            assert forall|i: int, j: int| 0 <= i < q.len() && 0 <= j < q.len() && i != j implies q[i] != q[j] by {
                if i < r.len() && j < r.len() {
                    assert(r[i] != r[j]);
                } else if i < r.len() {
                    assert(r.contains(r[i]));
                } else if j < r.len() {
                    assert(r.contains(r[j]));
                }
            }
            assert(s.filter(p) == q);
        }
        assert(s.filter(p).to_set() =~= s.to_set().filter(p));
    } else {
        assert(s.filter(p).to_set() =~= s.to_set().filter(p));
    }
}

proof fn lemma_last_block(s: Seq<BranchEntry>, line: u32)
    requires
        s.len() > 0,
        s.last().line == line,
        forall|i: int, j: int| 0 <= i < j < s.len() ==> (#[trigger] s[i]).line <= (#[trigger] s[j]).line,
    ensures
        last_block(s) == s.drop_last().filter(|b: BranchEntry| b.line == line).len(),
    decreases s.len(),
{
    reveal(Seq::filter);
    let d = s.drop_last();
    let p = |b: BranchEntry| b.line == line;
    if s.len() >= 2 {
        if d.last().line == line {
            assert forall|i: int, j: int| 0 <= i < j < d.len() implies (#[trigger] d[i]).line <= (#[trigger] d[j]).line by {
                assert(s[i].line <= s[j].line);
            }
            lemma_last_block(d, line);
        } else {
            assert(s[s.len() - 2].line < line) by {
                assert(s[s.len() - 2].line <= s[s.len() - 1].line);
            }
            assert forall|i: int| 0 <= i < d.len() implies !p(#[trigger] d[i]) by {
                assert(s[i].line <= s[s.len() - 2].line);
            }
            d.lemma_all_neg_filter_empty(p);
        }
    }
}

proof fn lemma_brda_items(brs: Seq<BranchEntry>)
    requires
        forall|i: int, j: int| 0 <= i < j < brs.len() ==> (#[trigger] brs[i]).line <= (#[trigger] brs[j]).line,
    ensures
        source_branch_lines(brs) == Seq::new(
            brs.len(),
            |i: int|
                "BRDA:"@ + dec(brs[i].line as nat) + ","@ + dec(
                    brs.take(i).filter(|b: BranchEntry| b.line == brs[i].line).len(),
                ) + ",0,"@ + (if brs[i].taken != 0 {
                    dec(brs[i].taken as nat)
                } else {
                    "-"@
                }) + "\nBRDA:"@ + dec(brs[i].line as nat) + ","@ + dec(
                    brs.take(i).filter(|b: BranchEntry| b.line == brs[i].line).len(),
                ) + ",1,"@ + (if brs[i].not_taken != 0 {
                    dec(brs[i].not_taken as nat)
                } else {
                    "-"@
                }) + "\n"@,
        ).flatten_alt(),
    decreases brs.len(),
{
    let a = Seq::new(
            brs.len(),
            |i: int|
                "BRDA:"@ + dec(brs[i].line as nat) + ","@ + dec(
                    brs.take(i).filter(|b: BranchEntry| b.line == brs[i].line).len(),
                ) + ",0,"@ + (if brs[i].taken != 0 {
                    dec(brs[i].taken as nat)
                } else {
                    "-"@
                }) + "\nBRDA:"@ + dec(brs[i].line as nat) + ","@ + dec(
                    brs.take(i).filter(|b: BranchEntry| b.line == brs[i].line).len(),
                ) + ",1,"@ + (if brs[i].not_taken != 0 {
                    dec(brs[i].not_taken as nat)
                } else {
                    "-"@
                }) + "\n"@,
        );
    if brs.len() > 0 {
        let d = brs.drop_last();
        assert forall|i: int, j: int| 0 <= i < j < d.len() implies (#[trigger] d[i]).line <= (#[trigger] d[j]).line by {
            assert(brs[i].line <= brs[j].line);
        }
        lemma_brda_items(d);
        let da = Seq::new(
            d.len(),
            |i: int|
                "BRDA:"@ + dec(d[i].line as nat) + ","@ + dec(
                    d.take(i).filter(|b: BranchEntry| b.line == d[i].line).len(),
                ) + ",0,"@ + (if d[i].taken != 0 {
                    dec(d[i].taken as nat)
                } else {
                    "-"@
                }) + "\nBRDA:"@ + dec(d[i].line as nat) + ","@ + dec(
                    d.take(i).filter(|b: BranchEntry| b.line == d[i].line).len(),
                ) + ",1,"@ + (if d[i].not_taken != 0 {
                    dec(d[i].not_taken as nat)
                } else {
                    "-"@
                }) + "\n"@,
        );
        assert forall|i: int| 0 <= i < d.len() implies #[trigger] brs.take(i) == d.take(i) by {
            assert(brs.take(i) =~= d.take(i));
        }
        assert forall|i: int| 0 <= i < d.len() implies a[i] == da[i] by {
            assert(brs.take(i) == d.take(i));
            assert(brs[i] == d[i]);
        }
        assert(brs.take(brs.len() - 1) =~= d);
        lemma_last_block(brs, brs.last().line);
        assert(a.drop_last() =~= da);
        assert(source_branch_lines(brs) =~= da.flatten_alt() + a.last());
    }
    assert(source_branch_lines(brs) =~= a.flatten_alt());
}

proof fn lemma_fn_items(entries: Seq<EntryView>)
    ensures
        source_fn_lines(entries) == Seq::new(
            entries.len(),
            |i: int|
                "FN:"@ + dec(entries[i].line as nat) + ","@ + entries[i].name + "\n"@,
        ).flatten_alt(),
    decreases entries.len(),
{
    let a = Seq::new(
            entries.len(),
            |i: int|
                "FN:"@ + dec(entries[i].line as nat) + ","@ + entries[i].name + "\n"@,
        );
    if entries.len() > 0 {
        let d = entries.drop_last();
        lemma_fn_items(d);
        let da = Seq::new(
            d.len(),
            |i: int|
                "FN:"@ + dec(d[i].line as nat) + ","@ + d[i].name + "\n"@,
        );
        assert(a.drop_last() =~= da);
        assert(source_fn_lines(entries) =~= da.flatten_alt() + a.last());
    }
    assert(source_fn_lines(entries) =~= a.flatten_alt());
}

proof fn lemma_fnda_items(entries: Seq<EntryView>)
    ensures
        source_fnda_lines(entries) == Seq::new(
            entries.len(),
            |i: int|
                "FNDA:"@ + dec(entries[i].hits as nat) + ","@ + entries[i].name + "\n"@,
        ).flatten_alt(),
    decreases entries.len(),
{
    let a = Seq::new(
            entries.len(),
            |i: int|
                "FNDA:"@ + dec(entries[i].hits as nat) + ","@ + entries[i].name + "\n"@,
        );
    if entries.len() > 0 {
        let d = entries.drop_last();
        lemma_fnda_items(d);
        let da = Seq::new(
            d.len(),
            |i: int|
                "FNDA:"@ + dec(d[i].hits as nat) + ","@ + d[i].name + "\n"@,
        );
        assert(a.drop_last() =~= da);
        assert(source_fnda_lines(entries) =~= da.flatten_alt() + a.last());
    }
    assert(source_fnda_lines(entries) =~= a.flatten_alt());
}

proof fn lemma_da_items(lines: Seq<usize>, counts: Map<usize, u64>)
    requires
        forall|i: int| 0 <= i < lines.len() ==> counts.contains_key(#[trigger] lines[i]),
    ensures
        source_da_lines(lines, counts) == Seq::new(
            lines.len(),
            |i: int|
                "DA:"@ + dec(lines[i] as nat) + ","@ + dec(counts[lines[i]] as nat) + "\n"@,
        ).flatten_alt(),
    decreases lines.len(),
{
    let a = Seq::new(
            lines.len(),
            |i: int|
                "DA:"@ + dec(lines[i] as nat) + ","@ + dec(counts[lines[i]] as nat) + "\n"@,
        );
    if lines.len() > 0 {
        let d = lines.drop_last();
        assert forall|i: int| 0 <= i < d.len() implies counts.contains_key(#[trigger] d[i]) by {
            assert(d[i] == lines[i]);
        }
        assert(counts.contains_key(lines[lines.len() - 1]));
        lemma_da_items(d, counts);
        let da = Seq::new(
            d.len(),
            |i: int|
                "DA:"@ + dec(d[i] as nat) + ","@ + dec(counts[d[i]] as nat) + "\n"@,
        );
        assert(a.drop_last() =~= da);
        assert(source_da_lines(lines, counts) =~= da.flatten_alt() + a.last());
    }
    assert(source_da_lines(lines, counts) =~= a.flatten_alt());
}

proof fn lemma_source_totals(entries: Seq<EntryView>, brs: Seq<BranchEntry>, lines: Seq<usize>, counts: Map<usize, u64>)
    requires
        forall|i: int| 0 <= i < lines.len() ==> counts.contains_key(#[trigger] lines[i]),
    ensures
        functions_hit(entries) == entries.filter(|e: EntryView| e.hits > 0).len(),
        source_outcomes_hit(brs) == brs.filter(|b: BranchEntry| b.taken > 0).len() + brs.filter(
            |b: BranchEntry| b.not_taken > 0,
        ).len(),
        lines_hit(lines, counts) == lines.filter(|l: usize| counts[l] > 0).len(),
    decreases entries.len() + brs.len() + lines.len(),
{
    reveal(Seq::filter);
    if entries.len() > 0 {
        lemma_source_totals(entries.drop_last(), brs, lines, counts);
    }
    if brs.len() > 0 {
        lemma_source_totals(entries, brs.drop_last(), lines, counts);
    }
    if lines.len() > 0 {
        let d = lines.drop_last();
        assert forall|i: int| 0 <= i < d.len() implies counts.contains_key(#[trigger] d[i]) by {
            assert(d[i] == lines[i]);
        }
        assert(counts.contains_key(lines[lines.len() - 1]));
        lemma_source_totals(entries, brs, d, counts);
    }
}

/// The record of a file, line by line: every function with its line and again with its hits; every counted line
/// with its count, in increasing order; every branch in two lines, the first for taken, the second for not
/// taken, numbered among the branches of its line. The totals are how many functions are listed and how many
/// of them were entered, how many lines are counted and how many of those were hit, two outcomes for each
/// branch, and the outcomes that happened.
pub proof fn lemma_file_record_says(
    file: Seq<char>,
    entries: Seq<EntryView>,
    counts: Map<usize, u64>,
    brs: Seq<BranchEntry>,
)
    requires
        counts.dom().finite(),
        forall|i: int, j: int| 0 <= i < j < brs.len() ==> (#[trigger] brs[i]).line <= (#[trigger] brs[j]).line,
    ensures
        exists|lines: Seq<usize>|
            {
                &&& #[trigger] lines.to_set() == counts.dom()
                &&& forall|i: int, j: int| 0 <= i < j < lines.len() ==> lines[i] < lines[j]
                &&& file_record(file, entries, counts, brs) == "TN:fuzzer\nSF:"@ + file + "\n"@ + Seq::new(
            entries.len(),
            |i: int|
                "FN:"@ + dec(entries[i].line as nat) + ","@ + entries[i].name + "\n"@,
        ).flatten_alt() + Seq::new(
            entries.len(),
            |i: int|
                "FNDA:"@ + dec(entries[i].hits as nat) + ","@ + entries[i].name + "\n"@,
        ).flatten_alt() + "FNF:"@ + dec(entries.len()) + "\nFNH:"@ + dec(
                    entries.filter(|e: EntryView| e.hits > 0).len(),
                ) + "\n"@ + Seq::new(
            lines.len(),
            |i: int|
                "DA:"@ + dec(lines[i] as nat) + ","@ + dec(counts[lines[i]] as nat) + "\n"@,
        ).flatten_alt() + "LF:"@ + dec(counts.dom().len()) + "\nLH:"@ + dec(
                    counts.dom().filter(|l: usize| counts[l] > 0).len(),
                ) + "\n"@ + Seq::new(
            brs.len(),
            |i: int|
                "BRDA:"@ + dec(brs[i].line as nat) + ","@ + dec(
                    brs.take(i).filter(|b: BranchEntry| b.line == brs[i].line).len(),
                ) + ",0,"@ + (if brs[i].taken != 0 {
                    dec(brs[i].taken as nat)
                } else {
                    "-"@
                }) + "\nBRDA:"@ + dec(brs[i].line as nat) + ","@ + dec(
                    brs.take(i).filter(|b: BranchEntry| b.line == brs[i].line).len(),
                ) + ",1,"@ + (if brs[i].not_taken != 0 {
                    dec(brs[i].not_taken as nat)
                } else {
                    "-"@
                }) + "\n"@,
        ).flatten_alt() + "BRF:"@ + dec(2 * brs.len()) + "\nBRH:"@ + dec(
                    brs.filter(|b: BranchEntry| b.taken > 0).len() + brs.filter(|b: BranchEntry| b.not_taken > 0).len(),
                ) + "\nend_of_record\n"@
            },
{
    let lines = listing(counts.dom());
    lemma_listed(counts.dom());
    assert forall|i: int| 0 <= i < lines.len() implies counts.contains_key(#[trigger] lines[i]) by {
        assert(lines.to_set().contains(lines[i]));
    }
    lemma_counted(lines, |l: usize| counts[l] > 0);
    lemma_source_totals(entries, brs, lines, counts);
    lemma_fn_items(entries);
    lemma_fnda_items(entries);
    lemma_da_items(lines, counts);
    lemma_brda_items(brs);
    assert(lines.to_set() == counts.dom());
}

/// Some list of executable lines of the file holds the line.
pub open spec fn has_code(map: DwarfSourceMap, file: Seq<char>, line: usize) -> bool {
    exists|i: int, j: int|
        0 <= i < map.executable_lines@.len() && map.executable_lines@[i].file@ == file && 0 <= j
            < map.executable_lines@[i].lines@.len() && #[trigger] map.executable_lines@[i].lines@[j] == line
}

/// A program counter with a count has a location on the line of the file.
pub open spec fn is_counted(hits: Map<usize, u64>, map: DwarfSourceMap, file: Seq<char>, line: usize) -> bool {
    exists|pc: usize, j: int|
        hits.contains_key(pc) && map.pc_map@.contains_key(pc) && 0 <= j < map.pc_map@[pc]@.len()
            && (#[trigger] map.pc_map@[pc]@[j]).file@ == file && map.pc_map@[pc]@[j].line as usize == line
}

/// The lines of a file that are counted before any is filled: those that hold code, those that a hit falls on,
/// and those of the listed functions. Each has the sum of the hits that fall on it.
pub proof fn lemma_base_counts(hits: Map<usize, u64>, map: DwarfSourceMap, entries: Seq<EntryView>, file: Seq<char>, line: usize)
    requires
        hits.dom().finite(),
    ensures
        ({
            let base = base_counts(listing(hits.dom()), hits, map, entries, file);
            &&& base.contains_key(line) <==> has_code(map, file, line) || is_counted(hits, map, file, line) || exists|i: int|
                0 <= i < entries.len() && (#[trigger] entries[i]).line as usize == line
            &&& base.contains_key(line) ==> base[line] == listing(hits.dom()).fold_left(
                0nat,
                |sum: nat, pc: usize|
                    sum + hits[pc] as nat * (if map.pc_map@.contains_key(pc) {
                        map.pc_map@[pc]@.filter(|l: SourceLocation| l.file@ == file && l.line as usize == line).len()
                    } else {
                        0nat
                    }),
            ) as u64
        }),
{
    let pcs = listing(hits.dom());
    let m = map.pc_map@;
    lemma_listed(hits.dom());
    assert forall|i: int| 0 <= i < pcs.len() implies hits.contains_key(#[trigger] pcs[i]) by {
        assert(pcs.to_set().contains(pcs[i]));
    }
    lemma_line_sum(pcs, hits, m, file, line);
    if crate::coverage::source_lcov::line_seen(pcs, m, file, line) {
        let (i, j) = choose|i: int, j: int|
            0 <= i < pcs.len() && 0 <= j < locations(m, pcs[i]).len() && located(
                #[trigger] locations(m, pcs[i])[j],
                file,
                line,
            );
        assert(hits.contains_key(pcs[i]));
        assert(m[pcs[i]]@[j].file@ == file);
    }
    if is_counted(hits, map, file, line) {
        let (pc, j) = choose|pc: usize, j: int|
            hits.contains_key(pc) && m.contains_key(pc) && 0 <= j < m[pc]@.len() && (#[trigger] m[pc]@[j]).file@ == file
                && m[pc]@[j].line as usize == line;
        assert(pcs.to_set().contains(pc));
        let i = choose|i: int| 0 <= i < pcs.len() && pcs[i] == pc;
        assert(located(locations(m, pcs[i])[j], file, line));
    }
    if crate::coverage::source_lcov::entry_at(entries, line) {
        let i = choose|i: int| 0 <= i < entries.len() && (#[trigger] entries[i]).line == line;
        assert(entries[i].line as usize == line);
    }
    if crate::coverage::source_lcov::executable(map, file, line) {
        let (i, j) = choose|i: int, j: int|
            0 <= i < map.executable_lines@.len() && map.executable_lines@[i].file@ == file && 0 <= j
                < map.executable_lines@[i].lines@.len() && #[trigger] map.executable_lines@[i].lines@[j] == line;
        assert(map.executable_lines@[i].lines@[j] == line);
    }
    if has_code(map, file, line) {
        let (i, j) = choose|i: int, j: int|
            0 <= i < map.executable_lines@.len() && map.executable_lines@[i].file@ == file && 0 <= j
                < map.executable_lines@[i].lines@.len() && #[trigger] map.executable_lines@[i].lines@[j] == line;
        assert(map.executable_lines@[i].lines@[j] == line);
    }
}

/// The lines of the first readable source with this path.
proof fn lemma_source_found(sources: Seq<SourceText>, file: Seq<char>)
    ensures
        match source_of(sources, file) {
            Some(lines) => exists|i: int|
                0 <= i < sources.len() && (#[trigger] sources[i]).file@ == file && lines == crate::text::texts(
                    sources[i].lines@,
                ) && forall|j: int| 0 <= j < i ==> (#[trigger] sources[j]).file@ != file,
            None => forall|j: int| 0 <= j < sources.len() ==> (#[trigger] sources[j]).file@ != file,
        },
    decreases sources.len(),
{
    if sources.len() > 0 && sources[0].file@ != file {
        let rest = sources.skip(1);
        lemma_source_found(rest, file);
        match source_of(sources, file) {
            Some(lines) => {
                let i = choose|i: int|
                    0 <= i < rest.len() && (#[trigger] rest[i]).file@ == file && lines == crate::text::texts(rest[i].lines@)
                        && forall|j: int| 0 <= j < i ==> (#[trigger] rest[j]).file@ != file;
                assert(sources[i + 1] == rest[i]);
                assert forall|j: int| 0 <= j < i + 1 implies (#[trigger] sources[j]).file@ != file by {
                    if j > 0 {
                        assert(rest[j - 1] == sources[j]);
                    }
                }
            },
            None => {
                assert forall|j: int| 0 <= j < sources.len() implies (#[trigger] sources[j]).file@ != file by {
                    if j > 0 {
                        assert(rest[j - 1] == sources[j]);
                    }
                }
            },
        }
    }
}

/// What the record of a file is made from: the functions that lie in it, the counts of its lines with gaps and
/// leading lines filled by its source, where one of its path could be read, and its branches by line.
pub proof fn lemma_record_made_of(
    hits: Map<usize, u64>,
    outcomes: BranchOutcomes,
    map: DwarfSourceMap,
    functions: Seq<FunctionInfo>,
    sources: Seq<SourceText>,
    file: Seq<char>,
)
    requires
        hits.dom().finite(),
        outcomes.taken@.dom().finite(),
        outcomes.not_taken@.dom().finite(),
    ensures
        ({
            let entries = listed_functions(functions, hits, map, file);
            exists|
                source: Option<Seq<Seq<char>>>,
                base: Map<usize, u64>,
                closed: Map<usize, u64>,
                counts: Map<usize, u64>,
                found: Seq<BranchEntry>,
                brs: Seq<BranchEntry>,
            |
                #![trigger file_record(file, entries, counts, brs), gaps_filled(base, source), leads_filled(closed, source), found.to_multiset()]
                {
                    &&& record_of(hits, outcomes, map, functions, sources, file) == file_record(file, entries, counts, brs)
                    &&& match source {
                        Some(lines) => exists|i: int|
                            0 <= i < sources.len() && (#[trigger] sources[i]).file@ == file && lines == crate::text::texts(
                                sources[i].lines@,
                            ) && forall|j: int| 0 <= j < i ==> (#[trigger] sources[j]).file@ != file,
                        None => forall|j: int| 0 <= j < sources.len() ==> (#[trigger] sources[j]).file@ != file,
                    }
                    &&& base == base_counts(listing(hits.dom()), hits, map, entries, file)
                    &&& closed == gaps_filled(base, source)
                    &&& counts == leads_filled(closed, source)
                    &&& counts.dom().finite()
                    &&& found == file_branches(
                        listing(outcomes.branches()),
                        outcomes.taken@,
                        outcomes.not_taken@,
                        map.pc_map@,
                        file,
                    )
                    &&& brs.to_multiset() == found.to_multiset()
                    &&& forall|i: int, j: int| 0 <= i < j < brs.len() ==> (#[trigger] brs[i]).line <= (#[trigger] brs[j]).line
                }
        }),
{
    let entries = listed_functions(functions, hits, map, file);
    let source = source_of(sources, file);
    let base = base_counts(listing(hits.dom()), hits, map, entries, file);
    let closed = gaps_filled(base, source);
    let counts = leads_filled(closed, source);
    let found = file_branches(listing(outcomes.branches()), outcomes.taken@, outcomes.not_taken@, map.pc_map@, file);
    let brs = stable_sorted(found, branch_leq());
    lemma_source_found(sources, file);
    crate::sorting::lemma_sorted_permutes(found, branch_leq());
    crate::sorting::lemma_sorted_in_order(found, branch_leq());
    assert forall|i: int, j: int| 0 <= i < j < brs.len() implies (#[trigger] brs[i]).line <= (#[trigger] brs[j]).line by {
        assert(branch_leq()(brs[i], brs[j]));
    }
    broadcast use vstd::set_lib::full_set_properties;

    vstd::set_lib::lemma_set_subset_finite(Set::<usize>::full(), counts.dom());
    assert(found.to_multiset() == brs.to_multiset());
    assert(record_of(hits, outcomes, map, functions, sources, file) == file_record(file, entries, counts, brs));
}

proof fn lemma_piece(pieces: Seq<Seq<char>>, i: int)
    requires
        0 <= i < pieces.len(),
    ensures
        exists|before: Seq<char>, after: Seq<char>| pieces.flatten_alt() == #[trigger] (before + pieces[i] + after),
    decreases pieces.len(),
{
    let d = pieces.drop_last();
    if i == pieces.len() - 1 {
        let none = Seq::<char>::empty();
        assert(pieces.flatten_alt() =~= d.flatten_alt() + pieces[i] + none);
    } else {
        lemma_piece(d, i);
        let (before, after) = choose|before: Seq<char>, after: Seq<char>|
            d.flatten_alt() == #[trigger] (before + d[i] + after);
        assert(pieces.flatten_alt() =~= before + pieces[i] + (after + pieces.last()));
    }
}

/// The branch stands among the branches of the file of its innermost location, with its counts.
proof fn lemma_branch_found(outcomes: BranchOutcomes, m: Map<usize, Vec<SourceLocation>>, pc: usize) -> (x: int)
    requires
        outcomes.taken@.dom().finite(),
        outcomes.not_taken@.dom().finite(),
        outcomes.taken@.contains_key(pc) || outcomes.not_taken@.contains_key(pc),
        m.contains_key(pc),
        m[pc]@.len() > 0,
    ensures
        ({
            let file = m[pc]@[0].file@;
            let taken = outcomes.taken@;
            let not_taken = outcomes.not_taken@;
            let brs = stable_sorted(file_branches(listing(outcomes.branches()), taken, not_taken, m, file), branch_leq());
            &&& 0 <= x < brs.len()
            &&& brs[x].line == m[pc]@[0].line
            &&& brs[x].taken == if taken.contains_key(pc) { taken[pc] } else { 0 }
            &&& brs[x].not_taken == if not_taken.contains_key(pc) { not_taken[pc] } else { 0 }
            &&& (forall|q: usize|
                q != pc && (taken.contains_key(q) || not_taken.contains_key(q)) && m.contains_key(q) && m[q]@.len() > 0 ==> (
                #[trigger] m[q]@[0]).file@ != file) ==> x == 0
        }),
{
    broadcast use vstd::seq_lib::group_to_multiset_ensures;

    let file = m[pc]@[0].file@;
    let taken = outcomes.taken@;
    let not_taken = outcomes.not_taken@;
    let found = file_branches(listing(outcomes.branches()), taken, not_taken, m, file);
    let brs = stable_sorted(found, branch_leq());
    let p = |pc: usize| m.contains_key(pc) && m[pc]@.len() > 0 && m[pc]@[0].file@ == file;
    crate::sorting::lemma_sorted_permutes(found, branch_leq());
    lemma_branch_counts(outcomes, m, file);
    let kept = choose|kept: Seq<usize>|
        {
            &&& #[trigger] kept.to_set() == taken.dom().union(not_taken.dom()).filter(p)
            &&& kept.no_duplicates()
            &&& found.len() == kept.len()
            &&& forall|i: int|
                0 <= i < found.len() ==> {
                    &&& (#[trigger] found[i]).line == m[kept[i]]@[0].line
                    &&& found[i].taken == if taken.contains_key(kept[i]) { taken[kept[i]] } else { 0 }
                    &&& found[i].not_taken == if not_taken.contains_key(kept[i]) { not_taken[kept[i]] } else { 0 }
                }
        };
    assert(kept.to_set().contains(pc));
    let k = choose|k: int| 0 <= k < kept.len() && kept[k] == pc;
    assert(found.contains(found[k]));
    assert(brs.to_multiset().count(found[k]) > 0);
    assert(brs.contains(found[k]));
    let x = choose|x: int| 0 <= x < brs.len() && brs[x] == found[k];
    if forall|q: usize|
        q != pc && (taken.contains_key(q) || not_taken.contains_key(q)) && m.contains_key(q) && m[q]@.len() > 0 ==> (
        #[trigger] m[q]@[0]).file@ != file {
        assert forall|i: int| 0 <= i < kept.len() implies kept[i] == pc by {
            assert(kept.to_set().contains(kept[i]));
            assert(m[kept[i]]@[0].file@ == file);
        }
        if kept.len() > 1 {
            assert(kept[0] == pc && kept[1] == pc);
        }
        assert(x == 0);
    }
    x
}

proof fn lemma_in_record(
    hits: Map<usize, u64>,
    outcomes: BranchOutcomes,
    map: DwarfSourceMap,
    functions: Seq<FunctionInfo>,
    sources: Seq<SourceText>,
    file: Seq<char>,
    front: Seq<char>,
    item: Seq<char>,
    rest: Seq<char>,
) -> (r: (Seq<char>, Seq<char>))
    requires
        source_branch_lines(
            stable_sorted(
                file_branches(listing(outcomes.branches()), outcomes.taken@, outcomes.not_taken@, map.pc_map@, file),
                branch_leq(),
            ),
        ) == front + item + rest,
    ensures
        record_of(hits, outcomes, map, functions, sources, file) == r.0 + item + r.1,
{
    let entries = listed_functions(functions, hits, map, file);
    let source = source_of(sources, file);
    let base = base_counts(listing(hits.dom()), hits, map, entries, file);
    let counts = leads_filled(gaps_filled(base, source), source);
    let found = file_branches(listing(outcomes.branches()), outcomes.taken@, outcomes.not_taken@, map.pc_map@, file);
    let brs = stable_sorted(found, branch_leq());
    let lines = listing(counts.dom());
    let head = "TN:fuzzer\nSF:"@ + file + "\n"@ + source_fn_lines(entries) + source_fnda_lines(entries) + "FNF:"@ + dec(
        entries.len(),
    ) + "\nFNH:"@ + dec(functions_hit(entries)) + "\n"@ + source_da_lines(lines, counts) + "LF:"@ + dec(lines.len())
        + "\nLH:"@ + dec(lines_hit(lines, counts)) + "\n"@;
    let tail = "BRF:"@ + dec(brs.len() * 2) + "\nBRH:"@ + dec(source_outcomes_hit(brs)) + "\nend_of_record\n"@;
    assert(file_record(file, entries, counts, brs) =~= head + (front + item + rest) + tail);
    assert(head + (front + item + rest) + tail =~= (head + front) + item + (rest + tail));
    (head + front, rest + tail)
}

/// Every branch with a recorded outcome is shown in the record of the file of its innermost location: on the line
/// of that location, first how often it was taken, then how often it was not. Where it is the only branch of
/// the file, it has the number zero.
pub proof fn lemma_branch_shown(
    hits: Map<usize, u64>,
    outcomes: BranchOutcomes,
    map: DwarfSourceMap,
    functions: Seq<FunctionInfo>,
    sources: Seq<SourceText>,
    pc: usize,
) -> (r: (Seq<char>, Seq<char>, nat))
    requires
        hits.dom().finite(),
        outcomes.taken@.dom().finite(),
        outcomes.not_taken@.dom().finite(),
        outcomes.taken@.contains_key(pc) || outcomes.not_taken@.contains_key(pc),
        map.pc_map@.contains_key(pc),
        map.pc_map@[pc]@.len() > 0,
    ensures
        ({
            let place = map.pc_map@[pc]@[0];
            let taken = outcomes.taken@;
            let not_taken = outcomes.not_taken@;
            let shown_taken = if taken.contains_key(pc) && taken[pc] != 0 { dec(taken[pc] as nat) } else { "-"@ };
            let shown_not = if not_taken.contains_key(pc) && not_taken[pc] != 0 { dec(not_taken[pc] as nat) } else { "-"@ };
            let (before, after, block) = r;
            &&& record_of(hits, outcomes, map, functions, sources, place.file@) == before + ("BRDA:"@ + dec(place.line as nat)
                + ","@ + dec(block) + ",0,"@ + shown_taken + "\nBRDA:"@ + dec(place.line as nat) + ","@ + dec(block)
                + ",1,"@ + shown_not + "\n"@) + after
            &&& (forall|q: usize|
                q != pc && (taken.contains_key(q) || not_taken.contains_key(q)) && map.pc_map@.contains_key(q)
                    && map.pc_map@[q]@.len() > 0 ==> (#[trigger] map.pc_map@[q]@[0]).file@ != place.file@) ==> block == 0
        }),
{
    let file = map.pc_map@[pc]@[0].file@;
    let m = map.pc_map@;
    let found = file_branches(listing(outcomes.branches()), outcomes.taken@, outcomes.not_taken@, m, file);
    let brs = stable_sorted(found, branch_leq());
    crate::sorting::lemma_sorted_in_order(found, branch_leq());
    assert forall|i: int, j: int| 0 <= i < j < brs.len() implies (#[trigger] brs[i]).line <= (#[trigger] brs[j]).line by {
        assert(branch_leq()(brs[i], brs[j]));
    }
    let x = lemma_branch_found(outcomes, m, pc);
    let block = brs.take(x).filter(|b: BranchEntry| b.line == brs[x].line).len();
    let items = Seq::new(
            brs.len(),
            |i: int|
                "BRDA:"@ + dec(brs[i].line as nat) + ","@ + dec(
                    brs.take(i).filter(|b: BranchEntry| b.line == brs[i].line).len(),
                ) + ",0,"@ + (if brs[i].taken != 0 {
                    dec(brs[i].taken as nat)
                } else {
                    "-"@
                }) + "\nBRDA:"@ + dec(brs[i].line as nat) + ","@ + dec(
                    brs.take(i).filter(|b: BranchEntry| b.line == brs[i].line).len(),
                ) + ",1,"@ + (if brs[i].not_taken != 0 {
                    dec(brs[i].not_taken as nat)
                } else {
                    "-"@
                }) + "\n"@,
        );
    lemma_brda_items(brs);
    lemma_piece(items, x);
    let (front, rest) = choose|front: Seq<char>, rest: Seq<char>|
        items.flatten_alt() == #[trigger] (front + items[x] + rest);
    let (before, after) = lemma_in_record(hits, outcomes, map, functions, sources, file, front, items[x], rest);
    reveal(Seq::filter);
    assert(x == 0 ==> block == 0);
    let taken = outcomes.taken@;
    let not_taken = outcomes.not_taken@;
    let line = m[pc]@[0].line as nat;
    let shown_taken = if taken.contains_key(pc) && taken[pc] != 0 { dec(taken[pc] as nat) } else { "-"@ };
    let shown_not = if not_taken.contains_key(pc) && not_taken[pc] != 0 { dec(not_taken[pc] as nat) } else { "-"@ };
    let item = "BRDA:"@ + dec(line) + ","@ + dec(block) + ",0,"@ + shown_taken + "\nBRDA:"@ + dec(line) + ","@ + dec(block)
        + ",1,"@ + shown_not + "\n"@;
    assert(items[x] == item);
    assert(record_of(hits, outcomes, map, functions, sources, file) == before + item + after);
    (before, after, block)
}

proof fn lemma_records(
    hits: Map<usize, u64>,
    outcomes: BranchOutcomes,
    map: DwarfSourceMap,
    functions: Seq<FunctionInfo>,
    sources: Seq<SourceText>,
    files: Seq<Seq<char>>,
)
    ensures
        crate::coverage::source_lcov::records_of(hits, outcomes, map, functions, sources, files) == Seq::new(
            files.len(),
            |i: int| record_of(hits, outcomes, map, functions, sources, files[i]),
        ).flatten_alt(),
    decreases files.len(),
{
    let a = Seq::new(files.len(), |i: int| record_of(hits, outcomes, map, functions, sources, files[i]));
    if files.len() > 0 {
        let d = files.drop_last();
        lemma_records(hits, outcomes, map, functions, sources, d);
        let b = Seq::new(d.len(), |i: int| record_of(hits, outcomes, map, functions, sources, d[i]));
        assert(a.drop_last() =~= b);
    }
}

/// The text holds `part` somewhere.
pub open spec fn holds_part(text: Seq<char>, part: Seq<char>) -> bool {
    exists|i: int| 0 <= i && i + part.len() <= text.len() && #[trigger] text.subrange(i, i + part.len()) == part
}

/// What is written: one record for each of some files, in dictionary order and none twice. The files are those
/// that a counted program counter or the innermost location of a branch falls into, but for what is not the
/// user's own: a path that begins with `src/`, an absolute path into a registry, a toolchain, the platform
/// tools or the home of a runner, and an absolute path that does not begin with the root, where that is known.
pub proof fn lemma_written_files(
    hits: Map<usize, u64>,
    outcomes: BranchOutcomes,
    map: DwarfSourceMap,
    functions: Seq<FunctionInfo>,
    sources: Seq<SourceText>,
    root: Option<Seq<char>>,
    text: Seq<char>,
    count: usize,
)
    requires
        hits.dom().finite(),
        outcomes.taken@.dom().finite(),
        outcomes.not_taken@.dom().finite(),
        crate::coverage::source_lcov::lcov_written(hits, outcomes, map, functions, sources, root, text, count),
    ensures
        exists|files: Seq<Seq<char>>|
            {
                &&& text == Seq::new(
                    files.len(),
                    |i: int| record_of(hits, outcomes, map, functions, sources, files[i]),
                ).flatten_alt()
                &&& files.len() == count
                &&& forall|i: int, j: int|
                    0 <= i < j < files.len() ==> crate::lexical::text_lt(#[trigger] files[i], #[trigger] files[j])
                &&& forall|f: Seq<char>| #[trigger]
                    files.contains(f) <==> {
                        &&& ((exists|pc: usize, j: int|
                            hits.contains_key(pc) && map.pc_map@.contains_key(pc) && 0 <= j < map.pc_map@[pc]@.len() && (
                            #[trigger] map.pc_map@[pc]@[j]).file@ == f) || (exists|pc: usize|
                            outcomes.branches().contains(pc) && map.pc_map@.contains_key(pc) && map.pc_map@[pc]@.len() > 0
                                && (#[trigger] map.pc_map@[pc])@[0].file@ == f))
                        &&& if f.len() > 0 && f[0] == '/' {
                            &&& !holds_part(f, "/.cargo/registry/"@) && !holds_part(f, "/.rustup/toolchains/"@)
                            &&& !holds_part(f, "/platform-tools/"@) && !holds_part(f, "/Users/runner/"@) && !holds_part(
                                f,
                                "/home/runner/"@,
                            )
                            &&& root matches Some(r) ==> r.len() <= f.len() && f.take(r.len() as int) == r
                        } else {
                            !(f.len() >= 4 && f[0] == 's' && f[1] == 'r' && f[2] == 'c' && f[3] == '/')
                        }
                    }
            },
{
    let hp = listing(hits.dom());
    let bp = listing(outcomes.branches());
    let m = map.pc_map@;
    let files = choose|files: Seq<Seq<char>>| #[trigger]
        crate::coverage::source_lcov::lists_files(files, hp, bp, m, root) && count == files.len() && text
            == crate::coverage::source_lcov::records_of(hits, outcomes, map, functions, sources, files);
    lemma_records(hits, outcomes, map, functions, sources, files);
    lemma_listed(hits.dom());
    lemma_listed(outcomes.branches());
    reveal_strlit("/");
    reveal_strlit("src/");
    assert forall|f: Seq<char>| #[trigger] files.contains(f) <==> {
        &&& ((exists|pc: usize, j: int|
            hits.contains_key(pc) && m.contains_key(pc) && 0 <= j < m[pc]@.len() && (#[trigger] m[pc]@[j]).file@ == f) || (
        exists|pc: usize|
            outcomes.branches().contains(pc) && m.contains_key(pc) && m[pc]@.len() > 0 && (#[trigger] m[pc])@[0].file@ == f))
        &&& if f.len() > 0 && f[0] == '/' {
            &&& !holds_part(f, "/.cargo/registry/"@) && !holds_part(f, "/.rustup/toolchains/"@)
            &&& !holds_part(f, "/platform-tools/"@) && !holds_part(f, "/Users/runner/"@) && !holds_part(f, "/home/runner/"@)
            &&& root matches Some(r) ==> r.len() <= f.len() && f.take(r.len() as int) == r
        } else {
            !(f.len() >= 4 && f[0] == 's' && f[1] == 'r' && f[2] == 'c' && f[3] == '/')
        }
    } by {
        lemma_touched(hits, outcomes, m, f);
        lemma_user_source(f, root);
    }
}

proof fn lemma_part(text: Seq<char>, part: Seq<char>)
    ensures
        crate::text::contains_text(text, part) == holds_part(text, part),
        crate::text::begins_with(text, part) == (part.len() <= text.len() && text.take(part.len() as int) == part),
{
    if crate::text::contains_text(text, part) {
        let at = choose|at: int| crate::text::occurs_at(text, part, at);
        assert(text.subrange(at, at + part.len()) =~= part);
    }
    if holds_part(text, part) {
        let i = choose|i: int| 0 <= i && i + part.len() <= text.len() && #[trigger] text.subrange(i, i + part.len()) == part;
        assert(crate::text::occurs_at(text, part, i));
    }
    assert(text.subrange(0, part.len() as int) =~= text.take(part.len() as int));
}

/// Which paths are the user's own.
pub proof fn lemma_user_source(f: Seq<char>, root: Option<Seq<char>>)
    ensures
        crate::coverage::source_lcov::user_source(f, root) == if f.len() > 0 && f[0] == '/' {
            &&& !holds_part(f, "/.cargo/registry/"@) && !holds_part(f, "/.rustup/toolchains/"@)
            &&& !holds_part(f, "/platform-tools/"@) && !holds_part(f, "/Users/runner/"@) && !holds_part(f, "/home/runner/"@)
            &&& root matches Some(r) ==> r.len() <= f.len() && f.take(r.len() as int) == r
        } else {
            !(f.len() >= 4 && f[0] == 's' && f[1] == 'r' && f[2] == 'c' && f[3] == '/')
        },
{
    reveal_strlit("/");
    reveal_strlit("src/");
    lemma_part(f, "/"@);
    lemma_part(f, "src/"@);
    lemma_part(f, "/.cargo/registry/"@);
    lemma_part(f, "/.rustup/toolchains/"@);
    lemma_part(f, "/platform-tools/"@);
    lemma_part(f, "/Users/runner/"@);
    lemma_part(f, "/home/runner/"@);
    if root is Some {
        lemma_part(f, root->0);
    }
    if f.len() > 0 {
        assert(f.take(1) =~= "/"@ <==> f[0] == '/') by {
            if f.take(1) == "/"@ {
                assert(f.take(1)[0] == f[0]);
            }
        }
    }
    if f.len() >= 4 {
        assert(f.take(4) =~= "src/"@ <==> (f[0] == 's' && f[1] == 'r' && f[2] == 'c' && f[3] == '/')) by {
            if f.take(4) == "src/"@ {
                assert(f.take(4)[0] == f[0] && f.take(4)[1] == f[1] && f.take(4)[2] == f[2] && f.take(4)[3] == f[3]);
            }
        }
    }
}

proof fn lemma_touched(hits: Map<usize, u64>, outcomes: BranchOutcomes, m: Map<usize, Vec<SourceLocation>>, f: Seq<char>)
    requires
        hits.dom().finite(),
        outcomes.taken@.dom().finite(),
        outcomes.not_taken@.dom().finite(),
    ensures
        crate::coverage::source_lcov::touched(listing(hits.dom()), listing(outcomes.branches()), m, f) <==> ((exists|
            pc: usize,
            j: int,
        |
            hits.contains_key(pc) && m.contains_key(pc) && 0 <= j < m[pc]@.len() && (#[trigger] m[pc]@[j]).file@ == f) || (
        exists|pc: usize|
            outcomes.branches().contains(pc) && m.contains_key(pc) && m[pc]@.len() > 0 && (#[trigger] m[pc])@[0].file@ == f)),
{
    let hp = listing(hits.dom());
    let bp = listing(outcomes.branches());
    lemma_listed(hits.dom());
    lemma_listed(outcomes.branches());
    if exists|i: int, j: int|
        0 <= i < hp.len() && 0 <= j < locations(m, hp[i]).len() && (#[trigger] locations(m, hp[i])[j]).file@ == f {
        let (i, j) = choose|i: int, j: int|
            0 <= i < hp.len() && 0 <= j < locations(m, hp[i]).len() && (#[trigger] locations(m, hp[i])[j]).file@ == f;
        assert(hp.to_set().contains(hp[i]));
        assert(m[hp[i]]@[j].file@ == f);
    }
    if exists|i: int| 0 <= i < bp.len() && (#[trigger] locations(m, bp[i])).len() > 0 && locations(m, bp[i])[0].file@ == f {
        let i = choose|i: int|
            0 <= i < bp.len() && (#[trigger] locations(m, bp[i])).len() > 0 && locations(m, bp[i])[0].file@ == f;
        assert(bp.to_set().contains(bp[i]));
        assert(m[bp[i]]@[0].file@ == f);
    }
    if exists|pc: usize, j: int|
        hits.contains_key(pc) && m.contains_key(pc) && 0 <= j < m[pc]@.len() && (#[trigger] m[pc]@[j]).file@ == f {
        let (pc, j) = choose|pc: usize, j: int|
            hits.contains_key(pc) && m.contains_key(pc) && 0 <= j < m[pc]@.len() && (#[trigger] m[pc]@[j]).file@ == f;
        assert(hp.to_set().contains(pc));
        let i = choose|i: int| 0 <= i < hp.len() && hp[i] == pc;
        assert(locations(m, hp[i])[j].file@ == f);
    }
    if exists|pc: usize|
        outcomes.branches().contains(pc) && m.contains_key(pc) && m[pc]@.len() > 0 && (#[trigger] m[pc])@[0].file@ == f {
        let pc = choose|pc: usize|
            outcomes.branches().contains(pc) && m.contains_key(pc) && m[pc]@.len() > 0 && (#[trigger] m[pc])@[0].file@ == f;
        assert(bp.to_set().contains(pc));
        let i = choose|i: int| 0 <= i < bp.len() && bp[i] == pc;
        assert(locations(m, bp[i]).len() > 0);
    }
}

} // verus!
