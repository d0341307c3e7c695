//! LCOV records at the level of source lines.
use vstd::prelude::*;
use std::collections::{BTreeMap, HashMap};
use crate::coverage::fill::{fill_gaps, fill_leads, table_keys};
use crate::coverage::lcov::{branch_lines, sorted_branches};
use crate::coverage::types::{lookup_count, BranchOutcomes, DwarfSourceMap, FunctionInfo};
#[allow(unused_imports)]
use crate::coverage::types::SourceLocation;
#[allow(unused_imports)]
use crate::coverage::types::count_at;
use crate::lexical::text_less;
use crate::order::sorted_keys;
use crate::text::{
    chars_of, copy_str, find_from, has_text, push_dec, push_dec_usize, split_text, starts_with, string_of, strip_end,
};
#[allow(unused_imports)]
use crate::text::{lemma_texts_push, parts_between, texts, without_end};

verus! {

/// The lines of a source file that could be read.
pub struct SourceText {
    pub file: String,
    pub lines: Vec<String>,
}

/// A line without the carriage return that stands in front of a line feed.
pub open spec fn without_return(line: Seq<char>) -> Seq<char> {
    match without_end(line, "\r"@) {
        Some(l) => l,
        None => line,
    }
}

/// The first of some lines, each of which a line feed follows.
pub open spec fn ended_lines(parts: Seq<Seq<char>>) -> Seq<Seq<char>> {
    Seq::new(parts.len(), |i: int| without_return(parts[i]))
}

/// The lines of a text: what stands between line feeds, and behind the last where something does.
pub open spec fn text_lines(text: Seq<char>) -> Seq<Seq<char>> {
    let parts = parts_between(text, "\n"@);
    let ended = ended_lines(parts.drop_last());
    if parts.last().len() == 0 { ended } else { ended.push(parts.last()) }
}

impl SourceText {
    /// The source file with this text.
    pub fn new(file: &str, text: &str) -> (r: SourceText)
        ensures
            r.file@ == file@,
            texts(r.lines@) == text_lines(text@),
    {
        proof {
            reveal_strlit("\n");
            crate::text::lemma_parts_nonempty(text@, "\n"@);
        }
        let parts = split_text(text, "\n");
        let ghost all = texts(parts@);
        assert(all.len() == parts@.len());
        let mut lines: Vec<String> = Vec::new();
        let mut i: usize = 0;
        assert(texts(lines@) =~= ended_lines(all.take(0)));
        while i < parts.len() - 1
            invariant
                i <= parts@.len() - 1,
                all == texts(parts@),
                all.len() == parts@.len(),
                texts(lines@) == ended_lines(all.take(i as int)),
            decreases parts.len() - i,
        {
            let ghost before = lines@;
            let line = match strip_end(parts[i].as_str(), "\r") {
                Some(l) => l,
                None => copy_str(parts[i].as_str()),
            };
            proof {
                lemma_texts_push(before, line);
                assert(all[i as int] == parts@[i as int]@);
                assert(ended_lines(all.take(i + 1)) =~= ended_lines(all.take(i as int)).push(line@));
            }
            lines.push(line);
            i += 1;
        }
        assert(all.take(i as int) =~= all.drop_last());
        let last = copy_str(parts[i].as_str());
        assert(all.last() == last@);
        if last.as_str().unicode_len() > 0 {
            proof {
                lemma_texts_push(lines@, last);
            }
            lines.push(last);
        }
        SourceText { file: copy_str(file), lines }
    }
}

/// A function as a report lists it.
pub struct FunctionEntry {
    pub line: u32,
    pub name: String,
    pub hits: u64,
}

/// What a [`FunctionEntry`] says.
pub struct EntryView {
    pub line: u32,
    pub name: Seq<char>,
    pub hits: u64,
}

impl View for FunctionEntry {
    type V = EntryView;

    open spec fn view(&self) -> EntryView {
        EntryView { line: self.line, name: self.name@, hits: self.hits }
    }
}

/// A branch at a source line, with the counts of its two outcomes.
#[derive(Clone, Copy)]
pub struct BranchEntry {
    pub line: u32,
    pub taken: u64,
    pub not_taken: u64,
}

/// The location is `line` of `file`.
pub open spec fn located(loc: SourceLocation, file: Seq<char>, line: usize) -> bool {
    loc.file@ == file && loc.line == line
}

/// `h` for each of the locations that is `line` of `file`.
pub open spec fn loc_total(locs: Seq<SourceLocation>, file: Seq<char>, line: usize, h: nat) -> nat
    decreases locs.len(),
{
    if locs.len() == 0 {
        0
    } else {
        loc_total(locs.drop_last(), file, line, h) + if located(locs.last(), file, line) { h } else { 0nat }
    }
}

/// The locations of a program counter, none where the map does not know it.
pub open spec fn locations(map: Map<usize, Vec<SourceLocation>>, pc: usize) -> Seq<SourceLocation> {
    if map.contains_key(pc) { map[pc]@ } else { Seq::empty() }
}

/// The hits of the program counters `pcs` that fall on `line` of `file`: a program counter counts
/// once for each of its locations there.
pub open spec fn line_total(
    pcs: Seq<usize>,
    hits: Map<usize, u64>,
    map: Map<usize, Vec<SourceLocation>>,
    file: Seq<char>,
    line: usize,
) -> nat
    decreases pcs.len(),
{
    if pcs.len() == 0 {
        0
    } else {
        line_total(pcs.drop_last(), hits, map, file, line) + loc_total(
            locations(map, pcs.last()),
            file,
            line,
            count_at(hits, pcs.last()) as nat,
        )
    }
}

/// Some of the program counters `pcs` has a location on `line` of `file`.
pub open spec fn line_seen(
    pcs: Seq<usize>,
    map: Map<usize, Vec<SourceLocation>>,
    file: Seq<char>,
    line: usize,
) -> bool {
    exists|i: int, j: int| 0 <= i < pcs.len() && 0 <= j < locations(map, pcs[i]).len()
        && located(#[trigger] locations(map, pcs[i])[j], file, line)
}

/// The function, its name and its place, as the report gives them: from the debug information where
/// that names a function at its entry, else from the outermost location of its entry.
pub open spec fn entry_of(
    func: FunctionInfo,
    hits: Map<usize, u64>,
    map: DwarfSourceMap,
) -> Option<(Seq<char>, EntryView)> {
    let h = count_at(hits, func.entry_pc);
    if map.fn_map@.contains_key(func.entry_pc) {
        let known = map.fn_map@[func.entry_pc];
        Some((known.1.file@, EntryView { line: known.1.line, name: known.0@, hits: h }))
    } else if locations(map.pc_map@, func.entry_pc).len() > 0 {
        let loc = locations(map.pc_map@, func.entry_pc).last();
        let name = if func.name@.len() == 0 {
            "fn_"@ + crate::text::dec(func.entry_pc as nat)
        } else {
            func.name@
        };
        Some((loc.file@, EntryView { line: loc.line, name, hits: h }))
    } else {
        None
    }
}

/// The functions that lie in `file`, in the order given.
pub open spec fn file_entries(
    functions: Seq<FunctionInfo>,
    hits: Map<usize, u64>,
    map: DwarfSourceMap,
    file: Seq<char>,
) -> Seq<EntryView>
    decreases functions.len(),
{
    if functions.len() == 0 {
        Seq::empty()
    } else {
        let before = file_entries(functions.drop_last(), hits, map, file);
        match entry_of(functions.last(), hits, map) {
            Some((f, e)) => if f == file { before.push(e) } else { before },
            None => before,
        }
    }
}

pub open spec fn line_leq() -> spec_fn(EntryView, EntryView) -> bool {
    |a: EntryView, b: EntryView| a.line <= b.line
}

/// Some member of `s` has this name.
pub open spec fn has_name(s: Seq<EntryView>, name: Seq<char>) -> bool {
    exists|i: int| 0 <= i < s.len() && (#[trigger] s[i]).name == name
}

/// Of the members with one name, the first.
pub open spec fn first_by_name(s: Seq<EntryView>) -> Seq<EntryView>
    decreases s.len(),
{
    if s.len() == 0 {
        s
    } else {
        let before = first_by_name(s.drop_last());
        if has_name(s.drop_last(), s.last().name) { before } else { before.push(s.last()) }
    }
}

/// The functions that the record of `file` lists.
pub open spec fn listed_functions(
    functions: Seq<FunctionInfo>,
    hits: Map<usize, u64>,
    map: DwarfSourceMap,
    file: Seq<char>,
) -> Seq<EntryView> {
    first_by_name(crate::sorting::stable_sorted(file_entries(functions, hits, map, file), line_leq()))
}

pub open spec fn views(v: Seq<FunctionEntry>) -> Seq<EntryView> {
    v.map_values(|e: FunctionEntry| e@)
}

/// The compiler made code for `line` of `file`.
pub open spec fn executable(map: DwarfSourceMap, file: Seq<char>, line: usize) -> bool {
    exists|i: int, j: int| 0 <= i < map.executable_lines@.len() && map.executable_lines@[i].file@ == file
        && 0 <= j < map.executable_lines@[i].lines@.len() && #[trigger] map.executable_lines@[i].lines@[j] == line
}

pub open spec fn entry_at(entries: Seq<EntryView>, line: usize) -> bool {
    exists|i: int| 0 <= i < entries.len() && (#[trigger] entries[i]).line == line
}

/// The counts of the lines of `file` that carry code: what was hit, zero where nothing was.
pub open spec fn base_counts(
    pcs: Seq<usize>,
    hits: Map<usize, u64>,
    map: DwarfSourceMap,
    entries: Seq<EntryView>,
    file: Seq<char>,
) -> Map<usize, u64> {
    Map::new(
        |line: usize| executable(map, file, line) || line_seen(pcs, map.pc_map@, file, line) || entry_at(entries, line),
        |line: usize| line_total(pcs, hits, map.pc_map@, file, line) as u64,
    )
}

/// The branches whose innermost location lies in `file`, by program counter.
pub open spec fn file_branches(
    pcs: Seq<usize>,
    taken: Map<usize, u64>,
    not_taken: Map<usize, u64>,
    map: Map<usize, Vec<SourceLocation>>,
    file: Seq<char>,
) -> Seq<BranchEntry>
    decreases pcs.len(),
{
    if pcs.len() == 0 {
        Seq::empty()
    } else {
        let before = file_branches(pcs.drop_last(), taken, not_taken, map, file);
        let locs = locations(map, pcs.last());
        if locs.len() > 0 && locs[0].file@ == file {
            before.push(
                BranchEntry {
                    line: locs[0].line,
                    taken: count_at(taken, pcs.last()),
                    not_taken: count_at(not_taken, pcs.last()),
                },
            )
        } else {
            before
        }
    }
}

pub open spec fn branch_leq() -> spec_fn(BranchEntry, BranchEntry) -> bool {
    |a: BranchEntry, b: BranchEntry| a.line <= b.line
}

/// The number of the last branch among those on its line, counted from zero.
pub open spec fn last_block(branches: Seq<BranchEntry>) -> nat
    decreases branches.len(),
{
    if branches.len() < 2 || branches[branches.len() - 2].line != branches.last().line {
        0
    } else {
        last_block(branches.drop_last()) + 1
    }
}

pub open spec fn source_branch_lines(branches: Seq<BranchEntry>) -> Seq<char>
    decreases branches.len(),
{
    if branches.len() == 0 {
        Seq::empty()
    } else {
        let b = branches.last();
        source_branch_lines(branches.drop_last()) + crate::coverage::lcov::branch_item(
            b.line as nat,
            last_block(branches),
            b.taken,
            b.not_taken,
        )
    }
}

pub open spec fn source_outcomes_hit(branches: Seq<BranchEntry>) -> nat
    decreases branches.len(),
{
    if branches.len() == 0 {
        0
    } else {
        source_outcomes_hit(branches.drop_last()) + (if branches.last().taken > 0 { 1nat } else { 0nat })
            + (if branches.last().not_taken > 0 { 1nat } else { 0nat })
    }
}

pub open spec fn source_fn_lines(entries: Seq<EntryView>) -> Seq<char>
    decreases entries.len(),
{
    if entries.len() == 0 {
        Seq::empty()
    } else {
        source_fn_lines(entries.drop_last()) + ("FN:"@ + crate::text::dec(entries.last().line as nat) + ","@
            + entries.last().name + "\n"@)
    }
}

pub open spec fn source_fnda_lines(entries: Seq<EntryView>) -> Seq<char>
    decreases entries.len(),
{
    if entries.len() == 0 {
        Seq::empty()
    } else {
        source_fnda_lines(entries.drop_last()) + ("FNDA:"@ + crate::text::dec(entries.last().hits as nat) + ","@
            + entries.last().name + "\n"@)
    }
}

pub open spec fn functions_hit(entries: Seq<EntryView>) -> nat
    decreases entries.len(),
{
    if entries.len() == 0 {
        0
    } else {
        functions_hit(entries.drop_last()) + if entries.last().hits > 0 { 1nat } else { 0nat }
    }
}

pub open spec fn source_da_lines(lines: Seq<usize>, counts: Map<usize, u64>) -> Seq<char>
    decreases lines.len(),
{
    if lines.len() == 0 {
        Seq::empty()
    } else {
        source_da_lines(lines.drop_last(), counts) + ("DA:"@ + crate::text::dec(lines.last() as nat) + ","@
            + crate::text::dec(count_at(counts, lines.last()) as nat) + "\n"@)
    }
}

pub open spec fn lines_hit(lines: Seq<usize>, counts: Map<usize, u64>) -> nat
    decreases lines.len(),
{
    if lines.len() == 0 {
        0
    } else {
        lines_hit(lines.drop_last(), counts) + if count_at(counts, lines.last()) > 0 { 1nat } else { 0nat }
    }
}

/// The record of one source file.
pub open spec fn file_record(
    file: Seq<char>,
    entries: Seq<EntryView>,
    counts: Map<usize, u64>,
    branches: Seq<BranchEntry>,
) -> Seq<char> {
    let lines = crate::order::listing(counts.dom());
    "TN:fuzzer\nSF:"@ + file + "\n"@ + source_fn_lines(entries) + source_fnda_lines(entries) + "FNF:"@
        + crate::text::dec(entries.len()) + "\nFNH:"@ + crate::text::dec(functions_hit(entries)) + "\n"@
        + source_da_lines(lines, counts) + "LF:"@ + crate::text::dec(lines.len()) + "\nLH:"@ + crate::text::dec(
        lines_hit(lines, counts),
    ) + "\n"@ + source_branch_lines(branches) + "BRF:"@ + crate::text::dec(branches.len() * 2) + "\nBRH:"@
        + crate::text::dec(source_outcomes_hit(branches)) + "\nend_of_record\n"@
}

/// The lines of `file`, where its source could be read.
pub open spec fn source_of(sources: Seq<SourceText>, file: Seq<char>) -> Option<Seq<Seq<char>>>
    decreases sources.len(),
{
    if sources.len() == 0 {
        None
    } else if sources[0].file@ == file {
        Some(crate::text::texts(sources[0].lines@))
    } else {
        source_of(sources.skip(1), file)
    }
}

/// The record of one source file, from the measurements.
pub open spec fn record_of(
    hits: Map<usize, u64>,
    outcomes: BranchOutcomes,
    map: DwarfSourceMap,
    functions: Seq<FunctionInfo>,
    sources: Seq<SourceText>,
    file: Seq<char>,
) -> Seq<char> {
    let entries = listed_functions(functions, hits, map, file);
    let base = base_counts(crate::order::listing(hits.dom()), hits, map, entries, file);
    let source = source_of(sources, file);
    let counts = crate::coverage::fill::leads_filled(crate::coverage::fill::gaps_filled(base, source), source);
    let branches = crate::sorting::stable_sorted(
        file_branches(crate::order::listing(outcomes.branches()), outcomes.taken@, outcomes.not_taken@, map.pc_map@, file),
        branch_leq(),
    );
    file_record(file, entries, counts, branches)
}

/// The records of several source files.
pub open spec fn records_of(
    hits: Map<usize, u64>,
    outcomes: BranchOutcomes,
    map: DwarfSourceMap,
    functions: Seq<FunctionInfo>,
    sources: Seq<SourceText>,
    files: Seq<Seq<char>>,
) -> Seq<char>
    decreases files.len(),
{
    if files.len() == 0 {
        Seq::empty()
    } else {
        records_of(hits, outcomes, map, functions, sources, files.drop_last()) + record_of(
            hits,
            outcomes,
            map,
            functions,
            sources,
            files.last(),
        )
    }
}

/// `file` is the user's own source: not of the standard library, of the platform tools or of a
/// dependency, and inside the workspace where that is known.
pub open spec fn user_source(file: Seq<char>, root: Option<Seq<char>>) -> bool {
    if crate::text::begins_with(file, "/"@) {
        if crate::text::contains_text(file, "/.cargo/registry/"@) || crate::text::contains_text(
            file,
            "/.rustup/toolchains/"@,
        ) || crate::text::contains_text(file, "/platform-tools/"@) || crate::text::contains_text(
            file,
            "/Users/runner/"@,
        ) || crate::text::contains_text(file, "/home/runner/"@) {
            false
        } else if root is Some {
            crate::text::begins_with(file, root->0)
        } else {
            true
        }
    } else {
        !crate::text::begins_with(file, "src/"@)
    }
}

/// A hit or the innermost location of a branch falls into `file`.
pub open spec fn touched(
    hit_pcs: Seq<usize>,
    branch_pcs: Seq<usize>,
    map: Map<usize, Vec<SourceLocation>>,
    file: Seq<char>,
) -> bool {
    ||| exists|i: int, j: int| 0 <= i < hit_pcs.len() && 0 <= j < locations(map, hit_pcs[i]).len()
        && (#[trigger] locations(map, hit_pcs[i])[j]).file@ == file
    ||| exists|i: int| 0 <= i < branch_pcs.len() && (#[trigger] locations(map, branch_pcs[i])).len() > 0
        && locations(map, branch_pcs[i])[0].file@ == file
}

/// `files` in dictionary order, without repetition.
pub open spec fn increasing_texts(files: Seq<Seq<char>>) -> bool {
    forall|i: int, j: int| 0 <= i < j < files.len() ==> crate::lexical::text_lt(#[trigger] files[i], #[trigger] files[j])
}

/// `files` are the user's source files that were touched, in dictionary order.
pub open spec fn lists_files(
    files: Seq<Seq<char>>,
    hit_pcs: Seq<usize>,
    branch_pcs: Seq<usize>,
    map: Map<usize, Vec<SourceLocation>>,
    root: Option<Seq<char>>,
) -> bool {
    &&& increasing_texts(files)
    &&& forall|f: Seq<char>| #[trigger] files.contains(f) <==> user_source(f, root) && touched(hit_pcs, branch_pcs, map, f)
}

pub open spec fn opt_text(s: Option<&str>) -> Option<Seq<char>> {
    match s {
        Some(t) => Some(t@),
        None => None,
    }
}

/// There is only one list of the touched files.
pub proof fn lemma_file_list_unique(
    a: Seq<Seq<char>>,
    b: Seq<Seq<char>>,
    hit_pcs: Seq<usize>,
    branch_pcs: Seq<usize>,
    map: Map<usize, Vec<SourceLocation>>,
    root: Option<Seq<char>>,
)
    requires
        lists_files(a, hit_pcs, branch_pcs, map, root),
        lists_files(b, hit_pcs, branch_pcs, map, root),
    ensures
        a == b,
{
    assert forall|f: Seq<char>| a.contains(f) <==> b.contains(f) by {
    }
    lemma_increasing_unique(a, b);
}

proof fn lemma_increasing_unique(a: Seq<Seq<char>>, b: Seq<Seq<char>>)
    requires
        increasing_texts(a),
        increasing_texts(b),
        forall|f: Seq<char>| a.contains(f) <==> b.contains(f),
    ensures
        a == b,
    decreases a.len(),
{
    if a.len() == 0 {
        if b.len() > 0 {
            assert(b.contains(b[0]));
        }
        assert(a =~= b);
    } else {
        assert(a.contains(a[0]));
        assert(b.len() > 0);
        let la = a.last();
        let lb = b.last();
        assert(a.contains(la));
        assert(b.contains(la));
        assert(b.contains(lb));
        assert(a.contains(lb));
        let i = choose|i: int| 0 <= i < b.len() && b[i] == la;
        let j = choose|j: int| 0 <= j < a.len() && a[j] == lb;
        crate::lexical::lemma_text_order(la, lb, la);
        if i < b.len() - 1 && j < a.len() - 1 {
            assert(crate::lexical::text_lt(b[i], b[b.len() - 1]));
            assert(crate::lexical::text_lt(a[j], a[a.len() - 1]));
        }
        assert(la == lb);
        let da = a.drop_last();
        let db = b.drop_last();
        assert forall|f: Seq<char>| da.contains(f) <==> db.contains(f) by {
            if da.contains(f) {
                let x = choose|x: int| 0 <= x < da.len() && da[x] == f;
                assert(a[x] == f);
                assert(crate::lexical::text_lt(a[x], a[a.len() - 1]));
                crate::lexical::lemma_text_order(f, la, f);
                assert(a.contains(f));
                let y = choose|y: int| 0 <= y < b.len() && b[y] == f;
                assert(y < b.len() - 1);
                assert(db[y] == f);
            }
            if db.contains(f) {
                let x = choose|x: int| 0 <= x < db.len() && db[x] == f;
                assert(b[x] == f);
                assert(crate::lexical::text_lt(b[x], b[b.len() - 1]));
                crate::lexical::lemma_text_order(f, lb, f);
                assert(b.contains(f));
                let y = choose|y: int| 0 <= y < a.len() && a[y] == f;
                assert(y < a.len() - 1);
                assert(da[y] == f);
            }
        }
        assert(increasing_texts(da)) by {
            assert forall|x: int, y: int| 0 <= x < y < da.len() implies crate::lexical::text_lt(
                #[trigger] da[x],
                #[trigger] da[y],
            ) by {
                assert(crate::lexical::text_lt(a[x], a[y]));
            }
        }
        assert(increasing_texts(db)) by {
            assert forall|x: int, y: int| 0 <= x < y < db.len() implies crate::lexical::text_lt(
                #[trigger] db[x],
                #[trigger] db[y],
            ) by {
                assert(crate::lexical::text_lt(b[x], b[y]));
            }
        }
        lemma_increasing_unique(da, db);
        assert(a =~= da.push(la));
        assert(b =~= db.push(lb));
    }
}

proof fn lemma_loc_prefix(locs: Seq<SourceLocation>, j: int, file: Seq<char>, line: usize, h: nat)
    requires
        0 <= j <= locs.len(),
    ensures
        loc_total(locs.take(j), file, line, h) <= loc_total(locs, file, line, h),
    decreases locs.len(),
{
    if j == locs.len() {
        assert(locs.take(j) =~= locs);
    } else {
        lemma_loc_prefix(locs.drop_last(), j, file, line, h);
        assert(locs.drop_last().take(j) =~= locs.take(j));
    }
}

proof fn lemma_total_prefix(
    pcs: Seq<usize>,
    i: int,
    hits: Map<usize, u64>,
    map: Map<usize, Vec<SourceLocation>>,
    file: Seq<char>,
    line: usize,
)
    requires
        0 <= i <= pcs.len(),
    ensures
        line_total(pcs.take(i), hits, map, file, line) <= line_total(pcs, hits, map, file, line),
    decreases pcs.len(),
{
    if i == pcs.len() {
        assert(pcs.take(i) =~= pcs);
    } else {
        lemma_total_prefix(pcs.drop_last(), i, hits, map, file, line);
        assert(pcs.drop_last().take(i) =~= pcs.take(i));
    }
}

proof fn lemma_loc_unseen(locs: Seq<SourceLocation>, file: Seq<char>, line: usize, h: nat)
    requires
        forall|j: int| 0 <= j < locs.len() ==> !located(#[trigger] locs[j], file, line),
    ensures
        loc_total(locs, file, line, h) == 0,
    decreases locs.len(),
{
    if locs.len() > 0 {
        assert(!located(locs[locs.len() - 1], file, line));
        lemma_loc_unseen(locs.drop_last(), file, line, h);
    }
}

/// A line that no program counter is located at has no hits.
pub proof fn lemma_unseen_is_zero(
    pcs: Seq<usize>,
    hits: Map<usize, u64>,
    map: Map<usize, Vec<SourceLocation>>,
    file: Seq<char>,
    line: usize,
)
    requires
        !line_seen(pcs, map, file, line),
    ensures
        line_total(pcs, hits, map, file, line) == 0,
    decreases pcs.len(),
{
    if pcs.len() > 0 {
        let d = pcs.drop_last();
        assert(!line_seen(d, map, file, line)) by {
            if line_seen(d, map, file, line) {
                let (i, j) = choose|i: int, j: int| 0 <= i < d.len() && 0 <= j < locations(map, d[i]).len()
                    && located(#[trigger] locations(map, d[i])[j], file, line);
                assert(d[i] == pcs[i]);
                assert(located(locations(map, pcs[i])[j], file, line));
            }
        }
        lemma_unseen_is_zero(d, hits, map, file, line);
        let locs = locations(map, pcs.last());
        assert forall|j: int| 0 <= j < locs.len() implies !located(#[trigger] locs[j], file, line) by {
            assert(locs == locations(map, pcs[pcs.len() - 1]));
        }
        lemma_loc_unseen(locs, file, line, count_at(hits, pcs.last()) as nat);
    }
}

/// Some of the first `j` locations is `line` of `file`.
spec fn loc_seen(locs: Seq<SourceLocation>, j: int, file: Seq<char>, line: usize) -> bool {
    exists|k: int| 0 <= k < j && located(#[trigger] locs[k], file, line)
}

/// What the table holds after the first `i` program counters and the first `j` locations of the next.
spec fn counted(
    table: Map<usize, u64>,
    pcs: Seq<usize>,
    hits: Map<usize, u64>,
    map: Map<usize, Vec<SourceLocation>>,
    file: Seq<char>,
    i: int,
    locs: Seq<SourceLocation>,
    h: nat,
    j: int,
) -> bool {
    &&& forall|line: usize| #[trigger] table.contains_key(line) <==> line_seen(pcs.take(i), map, file, line)
        || loc_seen(locs, j, file, line)
    &&& forall|line: usize| #[trigger] table.contains_key(line) ==> table[line] == line_total(
        pcs.take(i),
        hits,
        map,
        file,
        line,
    ) + loc_total(locs.take(j), file, line, h)
}

proof fn lemma_counted_step(
    table: Map<usize, u64>,
    pcs: Seq<usize>,
    hits: Map<usize, u64>,
    map: Map<usize, Vec<SourceLocation>>,
    file: Seq<char>,
    i: int,
    locs: Seq<SourceLocation>,
    h: nat,
    j: int,
)
    requires
        counted(table, pcs, hits, map, file, i, locs, h, j),
        0 <= i < pcs.len(),
        0 <= j < locs.len(),
    ensures
        ({
            let line = locs[j].line as usize;
            let before = if table.contains_key(line) { table[line] as nat } else { 0nat };
            let total = line_total(pcs.take(i), hits, map, file, line) + loc_total(locs.take(j + 1), file, line, h);
            &&& locs[j].file@ == file ==> total == before + h
            &&& locs[j].file@ == file && total <= u64::MAX ==> counted(
                table.insert(line, total as u64),
                pcs,
                hits,
                map,
                file,
                i,
                locs,
                h,
                j + 1,
            )
            &&& locs[j].file@ != file ==> counted(table, pcs, hits, map, file, i, locs, h, j + 1)
        }),
{
    let line = locs[j].line as usize;
    assert(locs.take(j + 1).drop_last() =~= locs.take(j));
    assert(locs.take(j + 1).last() == locs[j]);
    assert forall|l: usize| loc_seen(locs, j + 1, file, l) <==> (loc_seen(locs, j, file, l) || located(locs[j], file, l)) by {
        if loc_seen(locs, j + 1, file, l) {
            let k = choose|k: int| 0 <= k < j + 1 && located(#[trigger] locs[k], file, l);
            if k < j {
                assert(loc_seen(locs, j, file, l));
            }
        }
        if loc_seen(locs, j, file, l) {
            let k = choose|k: int| 0 <= k < j && located(#[trigger] locs[k], file, l);
            assert(0 <= k < j + 1 && located(locs[k], file, l));
        }
    }
    if !table.contains_key(line) {
        assert(!line_seen(pcs.take(i), map, file, line));
        lemma_unseen_is_zero(pcs.take(i), hits, map, file, line);
        assert(!loc_seen(locs, j, file, line));
        assert forall|k: int| 0 <= k < locs.take(j).len() implies !located(#[trigger] locs.take(j)[k], file, line) by {
            assert(locs.take(j)[k] == locs[k]);
        }
        lemma_loc_unseen(locs.take(j), file, line, h);
    }
}

proof fn lemma_counted_next(
    table: Map<usize, u64>,
    pcs: Seq<usize>,
    hits: Map<usize, u64>,
    map: Map<usize, Vec<SourceLocation>>,
    file: Seq<char>,
    i: int,
)
    requires
        0 <= i < pcs.len(),
        counted(
            table,
            pcs,
            hits,
            map,
            file,
            i,
            locations(map, pcs[i]),
            count_at(hits, pcs[i]) as nat,
            locations(map, pcs[i]).len() as int,
        ),
    ensures
        counted(table, pcs, hits, map, file, i + 1, Seq::empty(), 0, 0),
{
    let locs = locations(map, pcs[i]);
    assert(pcs.take(i + 1).drop_last() =~= pcs.take(i));
    assert(pcs.take(i + 1).last() == pcs[i]);
    assert(locs.take(locs.len() as int) =~= locs);
    let none = Seq::<SourceLocation>::empty();
    assert(none.take(0) =~= none);
    assert forall|line: usize| line_seen(pcs.take(i + 1), map, file, line) <==> (line_seen(pcs.take(i), map, file, line)
        || loc_seen(locs, locs.len() as int, file, line)) by {
        let p = pcs.take(i + 1);
        let q = pcs.take(i);
        if line_seen(p, map, file, line) {
            let (x, y) = choose|x: int, y: int| 0 <= x < p.len() && 0 <= y < locations(map, p[x]).len()
                && located(#[trigger] locations(map, p[x])[y], file, line);
            if x < i {
                assert(q[x] == p[x]);
                assert(located(locations(map, q[x])[y], file, line));
            } else {
                assert(located(locs[y], file, line));
            }
        }
        if line_seen(q, map, file, line) {
            let (x, y) = choose|x: int, y: int| 0 <= x < q.len() && 0 <= y < locations(map, q[x]).len()
                && located(#[trigger] locations(map, q[x])[y], file, line);
            assert(q[x] == p[x]);
            assert(located(locations(map, p[x])[y], file, line));
        }
        if loc_seen(locs, locs.len() as int, file, line) {
            let y = choose|y: int| 0 <= y < locs.len() && located(#[trigger] locs[y], file, line);
            assert(p[i] == pcs[i]);
            assert(located(locations(map, p[i])[y], file, line));
        }
    }
}

/// The hits of each line of `file`.
fn count_hits(
    pcs: &Vec<usize>,
    hits: &HashMap<usize, u64>,
    map: &DwarfSourceMap,
    file: &String,
) -> (table: BTreeMap<usize, u64>)
    requires
        forall|line: usize| #[trigger] line_total(pcs@, hits@, map.pc_map@, file@, line) <= u64::MAX,
    ensures
        counted(table@, pcs@, hits@, map.pc_map@, file@, pcs@.len() as int, Seq::empty(), 0, 0),
{
    broadcast use vstd::std_specs::hash::group_hash_axioms;
    broadcast use vstd::std_specs::btree::group_btree_axioms;
    let mut table: BTreeMap<usize, u64> = BTreeMap::new();
    let mut i: usize = 0;
    while i < pcs.len()
        invariant
            i <= pcs@.len(),
            forall|line: usize| #[trigger] line_total(pcs@, hits@, map.pc_map@, file@, line) <= u64::MAX,
            counted(table@, pcs@, hits@, map.pc_map@, file@, i as int, Seq::empty(), 0, 0),
        decreases pcs.len() - i,
    {
        broadcast use vstd::std_specs::hash::group_hash_axioms;
        broadcast use vstd::std_specs::btree::group_btree_axioms;
        let pc: usize = pcs[i];
        let h: u64 = lookup_count(hits, pc);
        let ghost ls = locations(map.pc_map@, pc);
        proof {
            let none = Seq::<SourceLocation>::empty();
            assert(none.take(0) =~= none);
            assert(ls.take(0) =~= none);
            assert(counted(table@, pcs@, hits@, map.pc_map@, file@, i as int, ls, h as nat, 0));
        }
        if let Some(locs) = map.pc_map.get(&pc) {
            let mut j: usize = 0;
            while j < locs.len()
                invariant
                    j <= locs@.len(),
                    i < pcs@.len(),
                    pc == pcs@[i as int],
                    ls == locs@,
                    ls == locations(map.pc_map@, pc),
                    h == count_at(hits@, pc),
                    forall|line: usize| #[trigger] line_total(pcs@, hits@, map.pc_map@, file@, line) <= u64::MAX,
                    counted(table@, pcs@, hits@, map.pc_map@, file@, i as int, ls, h as nat, j as int),
                decreases locs.len() - j,
            {
                broadcast use vstd::std_specs::btree::group_btree_axioms;
                let line: usize = locs[j].line as usize;
                proof {
                    lemma_counted_step(table@, pcs@, hits@, map.pc_map@, file@, i as int, ls, h as nat, j as int);
                    assert(pcs@.take(i + 1).drop_last() =~= pcs@.take(i as int));
                    lemma_total_prefix(pcs@, i + 1, hits@, map.pc_map@, file@, line);
                    lemma_loc_prefix(ls, j + 1, file@, line, h as nat);
                    assert(line_total(pcs@, hits@, map.pc_map@, file@, line) <= u64::MAX);
                }
                if locs[j].file == *file {
                    let before: u64 = match table.get(&line) {
                        Some(n) => *n,
                        None => 0,
                    };
                    table.insert(line, before + h);
                }
                j += 1;
            }
        }
        proof {
            lemma_counted_next(table@, pcs@, hits@, map.pc_map@, file@, i as int);
        }
        i += 1;
    }
    table
}

/// The counts of the lines of `file` that carry code.
fn count_lines(
    pcs: &Vec<usize>,
    hits: &HashMap<usize, u64>,
    map: &DwarfSourceMap,
    entries: &Vec<FunctionEntry>,
    file: &String,
) -> (table: BTreeMap<usize, u64>)
    requires
        forall|line: usize| #[trigger] line_total(pcs@, hits@, map.pc_map@, file@, line) <= u64::MAX,
    ensures
        table@ == base_counts(pcs@, hits@, *map, views(entries@), file@),
{
    broadcast use vstd::std_specs::btree::group_btree_axioms;
    let mut table = count_hits(pcs, hits, map, file);
    let ghost seen = table@;
    let ghost none = Seq::<SourceLocation>::empty();
    proof {
        assert(pcs@.take(pcs@.len() as int) =~= pcs@);
        assert(none.take(0) =~= none);
        assert forall|line: usize| seen.contains_key(line) <==> line_seen(pcs@, map.pc_map@, file@, line) by {
        }
    }
    let mut i: usize = 0;
    while i < map.executable_lines.len()
        invariant
            i <= map.executable_lines@.len(),
            forall|line: usize| #[trigger] table@.contains_key(line) <==> seen.contains_key(line) || exec_before(
                *map,
                file@,
                line,
                i as int,
                0,
            ),
            forall|line: usize| #[trigger] table@.contains_key(line) ==> table@[line] == (if seen.contains_key(line) {
                seen[line]
            } else {
                0
            }),
        decreases map.executable_lines.len() - i,
    {
        broadcast use vstd::std_specs::btree::group_btree_axioms;
        if map.executable_lines[i].file == *file {
            let lines = &map.executable_lines[i].lines;
            let mut j: usize = 0;
            while j < lines.len()
                invariant
                    i < map.executable_lines@.len(),
                    map.executable_lines@[i as int].file@ == file@,
                    lines@ == map.executable_lines@[i as int].lines@,
                    j <= lines@.len(),
                    forall|line: usize| #[trigger] table@.contains_key(line) <==> seen.contains_key(line) || exec_before(
                        *map,
                        file@,
                        line,
                        i as int,
                        j as int,
                    ),
                    forall|line: usize| #[trigger] table@.contains_key(line) ==> table@[line] == (if seen.contains_key(
                        line,
                    ) {
                        seen[line]
                    } else {
                        0
                    }),
                decreases lines.len() - j,
            {
                broadcast use vstd::std_specs::btree::group_btree_axioms;
                let line: usize = lines[j] as usize;
                if !table.contains_key(&line) {
                    table.insert(line, 0);
                }
                proof {
                    assert forall|l: usize| exec_before(*map, file@, l, i as int, j + 1) <==> (#[trigger] exec_before(
                        *map,
                        file@,
                        l,
                        i as int,
                        j as int,
                    ) || l == line) by {
                        lemma_exec_step(*map, file@, l, i as int, j as int);
                    }
                }
                j += 1;
            }
        }
        proof {
            let n = if map.executable_lines@[i as int].file@ == file@ {
                map.executable_lines@[i as int].lines@.len() as int
            } else {
                0
            };
            assert forall|l: usize| exec_before(*map, file@, l, i + 1, 0) <==> #[trigger] exec_before(
                *map,
                file@,
                l,
                i as int,
                n,
            ) by {
                lemma_exec_next(*map, file@, l, i as int);
            }
        }
        i += 1;
    }
    proof {
        assert forall|l: usize| exec_before(*map, file@, l, map.executable_lines@.len() as int, 0) <==> executable(
            *map,
            file@,
            l,
        ) by {
            lemma_exec_all(*map, file@, l);
        }
    }
    let mut k: usize = 0;
    while k < entries.len()
        invariant
            k <= entries@.len(),
            forall|line: usize| #[trigger] table@.contains_key(line) <==> seen.contains_key(line) || executable(
                *map,
                file@,
                line,
            ) || entry_at(views(entries@).take(k as int), line),
            forall|line: usize| #[trigger] table@.contains_key(line) ==> table@[line] == (if seen.contains_key(line) {
                seen[line]
            } else {
                0
            }),
        decreases entries.len() - k,
    {
        broadcast use vstd::std_specs::btree::group_btree_axioms;
        let line: usize = entries[k].line as usize;
        if !table.contains_key(&line) {
            table.insert(line, 0);
        }
        proof {
            let e = views(entries@);
            assert(e[k as int] == entries@[k as int]@);
            assert forall|l: usize| entry_at(e.take(k + 1), l) <==> (entry_at(e.take(k as int), l) || l == line) by {
                if entry_at(e.take(k + 1), l) {
                    let x = choose|x: int| 0 <= x < e.take(k + 1).len() && (#[trigger] e.take(k + 1)[x]).line == l;
                    if x < k {
                        assert(e.take(k as int)[x] == e.take(k + 1)[x]);
                    }
                }
                if entry_at(e.take(k as int), l) {
                    let x = choose|x: int| 0 <= x < e.take(k as int).len() && (#[trigger] e.take(k as int)[x]).line == l;
                    assert(e.take(k as int)[x] == e.take(k + 1)[x]);
                }
                if l == line {
                    assert(e.take(k + 1)[k as int].line == l);
                }
            }
        }
        k += 1;
    }
    proof {
        assert(views(entries@).take(k as int) =~= views(entries@));
        let base = base_counts(pcs@, hits@, *map, views(entries@), file@);
        assert forall|line: usize| table@.contains_key(line) implies #[trigger] table@[line] == base[line] by {
            if !seen.contains_key(line) {
                lemma_unseen_is_zero(pcs@, hits@, map.pc_map@, file@, line);
            }
        }
        assert(table@ =~= base);
    }
    table
}

/// `line` stands in one of the first `i` lists of executable lines of `file`, or among the first `j`
/// lines of the next one.
spec fn exec_before(map: DwarfSourceMap, file: Seq<char>, line: usize, i: int, j: int) -> bool {
    exists|x: int, y: int| 0 <= x < map.executable_lines@.len() && map.executable_lines@[x].file@ == file && 0 <= y
        < map.executable_lines@[x].lines@.len() && (x < i || (x == i && y < j))
        && #[trigger] map.executable_lines@[x].lines@[y] == line
}

proof fn lemma_exec_step(map: DwarfSourceMap, file: Seq<char>, line: usize, i: int, j: int)
    requires
        0 <= i < map.executable_lines@.len(),
        map.executable_lines@[i].file@ == file,
        0 <= j < map.executable_lines@[i].lines@.len(),
    ensures
        exec_before(map, file, line, i, j + 1) <==> (exec_before(map, file, line, i, j)
            || line == map.executable_lines@[i].lines@[j]),
{
    if exec_before(map, file, line, i, j + 1) && line != map.executable_lines@[i].lines@[j] {
        let (x, y) = choose|x: int, y: int| 0 <= x < map.executable_lines@.len() && map.executable_lines@[x].file@ == file
            && 0 <= y < map.executable_lines@[x].lines@.len() && (x < i || (x == i && y < j + 1))
            && #[trigger] map.executable_lines@[x].lines@[y] == line;
        assert(x < i || (x == i && y < j));
    }
    if exec_before(map, file, line, i, j) {
        let (x, y) = choose|x: int, y: int| 0 <= x < map.executable_lines@.len() && map.executable_lines@[x].file@ == file
            && 0 <= y < map.executable_lines@[x].lines@.len() && (x < i || (x == i && y < j))
            && #[trigger] map.executable_lines@[x].lines@[y] == line;
        assert(x < i || (x == i && y < j + 1));
    }
}

proof fn lemma_exec_next(map: DwarfSourceMap, file: Seq<char>, line: usize, i: int)
    requires
        0 <= i < map.executable_lines@.len(),
    ensures
        exec_before(map, file, line, i + 1, 0) <==> exec_before(
            map,
            file,
            line,
            i,
            (if map.executable_lines@[i].file@ == file { map.executable_lines@[i].lines@.len() as int } else { 0 }),
        ),
{
    let n = if map.executable_lines@[i].file@ == file { map.executable_lines@[i].lines@.len() as int } else { 0 };
    if exec_before(map, file, line, i + 1, 0) {
        let (x, y) = choose|x: int, y: int| 0 <= x < map.executable_lines@.len() && map.executable_lines@[x].file@ == file
            && 0 <= y < map.executable_lines@[x].lines@.len() && (x < i + 1 || (x == i + 1 && y < 0))
            && #[trigger] map.executable_lines@[x].lines@[y] == line;
        assert(x < i || (x == i && y < n));
    }
    if exec_before(map, file, line, i, n) {
        let (x, y) = choose|x: int, y: int| 0 <= x < map.executable_lines@.len() && map.executable_lines@[x].file@ == file
            && 0 <= y < map.executable_lines@[x].lines@.len() && (x < i || (x == i && y < n))
            && #[trigger] map.executable_lines@[x].lines@[y] == line;
        assert(x < i + 1 || (x == i + 1 && y < 0));
    }
}

proof fn lemma_exec_all(map: DwarfSourceMap, file: Seq<char>, line: usize)
    ensures
        exec_before(map, file, line, map.executable_lines@.len() as int, 0) <==> executable(map, file, line),
{
    let n = map.executable_lines@.len() as int;
    if exec_before(map, file, line, n, 0) {
        let (x, y) = choose|x: int, y: int| 0 <= x < map.executable_lines@.len() && map.executable_lines@[x].file@ == file
            && 0 <= y < map.executable_lines@[x].lines@.len() && (x < n || (x == n && y < 0))
            && #[trigger] map.executable_lines@[x].lines@[y] == line;
        assert(map.executable_lines@[x].lines@[y] == line);
    }
    if executable(map, file, line) {
        let (x, y) = choose|x: int, y: int| 0 <= x < map.executable_lines@.len() && map.executable_lines@[x].file@ == file
            && 0 <= y < map.executable_lines@[x].lines@.len() && #[trigger] map.executable_lines@[x].lines@[y] == line;
        assert(x < n || (x == n && y < 0));
    }
}

/// The function as the report gives it, where it can be placed, and the file it lies in.
fn make_entry(func: &FunctionInfo, hits: &HashMap<usize, u64>, map: &DwarfSourceMap) -> (r: Option<(String, FunctionEntry)>)
    ensures
        match r {
            Some((file, entry)) => entry_of(*func, hits@, *map) == Some((file@, entry@)),
            None => entry_of(*func, hits@, *map) is None,
        },
{
    broadcast use vstd::std_specs::hash::group_hash_axioms;
    let h: u64 = lookup_count(hits, func.entry_pc);
    if let Some(known) = map.fn_map.get(&func.entry_pc) {
        return Some((
            known.1.file.clone(),
            FunctionEntry { line: known.1.line, name: known.0.clone(), hits: h },
        ));
    }
    if let Some(locs) = map.pc_map.get(&func.entry_pc) {
        if locs.len() > 0 {
            let loc = &locs[locs.len() - 1];
            let name = if func.name.as_str().unicode_len() == 0 {
                let mut n = String::from_str("fn_");
                push_dec_usize(&mut n, func.entry_pc);
                n
            } else {
                func.name.clone()
            };
            return Some((loc.file.clone(), FunctionEntry { line: loc.line, name, hits: h }));
        }
    }
    None
}

/// The functions that lie in `file`, by line.
fn entries_by_line(
    functions: &[FunctionInfo],
    hits: &HashMap<usize, u64>,
    map: &DwarfSourceMap,
    file: &String,
) -> (r: Vec<FunctionEntry>)
    ensures
        views(r@) == crate::sorting::stable_sorted(file_entries(functions@, hits@, *map, file@), line_leq()),
{
    let mut r: Vec<FunctionEntry> = Vec::new();
    let mut i: usize = 0;
    assert(views(r@) =~= crate::sorting::stable_sorted(file_entries(functions@.take(0), hits@, *map, file@), line_leq()));
    while i < functions.len()
        invariant
            i <= functions@.len(),
            views(r@) == crate::sorting::stable_sorted(
                file_entries(functions@.take(i as int), hits@, *map, file@),
                line_leq(),
            ),
        decreases functions.len() - i,
    {
        assert(functions@.take(i + 1).drop_last() =~= functions@.take(i as int));
        let ghost before = file_entries(functions@.take(i as int), hits@, *map, file@);
        if let Some((f, entry)) = make_entry(&functions[i], hits, map) {
            if f == *file {
                let mut p: usize = r.len();
                while p > 0 && r[p - 1].line > entry.line
                    invariant
                        p <= r@.len(),
                        forall|k: int| p <= k < r@.len() ==> !line_leq()(#[trigger] views(r@)[k], entry@),
                    decreases p,
                {
                    p -= 1;
                    assert(views(r@)[p as int] == r@[p as int]@);
                }
                proof {
                    if p > 0 {
                        assert(views(r@)[p - 1] == r@[p - 1]@);
                    }
                    crate::sorting::lemma_insert_at(views(r@), entry@, line_leq(), p as int);
                    assert(before.push(entry@).drop_last() =~= before);
                }
                let ghost old_r = r@;
                let ghost e = entry@;
                r.insert(p, entry);
                assert(views(r@) =~= views(old_r).insert(p as int, e));
            }
        }
        i += 1;
    }
    assert(functions@.take(i as int) =~= functions@);
    r
}

/// The functions that the record of `file` lists.
fn list_functions(
    functions: &[FunctionInfo],
    hits: &HashMap<usize, u64>,
    map: &DwarfSourceMap,
    file: &String,
) -> (r: Vec<FunctionEntry>)
    ensures
        views(r@) == listed_functions(functions@, hits@, *map, file@),
{
    let all = entries_by_line(functions, hits, map, file);
    let ghost va = views(all@);
    let mut r: Vec<FunctionEntry> = Vec::new();
    let mut i: usize = 0;
    assert(views(r@) =~= first_by_name(va.take(0)));
    while i < all.len()
        invariant
            i <= all@.len(),
            va == views(all@),
            views(r@) == first_by_name(va.take(i as int)),
            forall|n: Seq<char>| has_name(va.take(i as int), n) <==> #[trigger] has_name(views(r@), n),
        decreases all.len() - i,
    {
        let mut known = false;
        let mut k: usize = 0;
        while k < r.len()
            invariant
                k <= r@.len(),
                i < all@.len(),
                known == has_name(views(r@).take(k as int), all@[i as int].name@),
            decreases r.len() - k,
        {
            let same = r[k].name == all[i].name;
            proof {
                lemma_has_name_step(views(r@), k as int, all@[i as int].name@);
                assert(views(r@)[k as int] == r@[k as int]@);
            }
            if same {
                known = true;
            }
            k += 1;
        }
        assert(views(r@).take(k as int) =~= views(r@));
        let ghost before = r@;
        proof {
            assert(va[i as int] == all@[i as int]@);
            assert(va.take(i + 1).drop_last() =~= va.take(i as int));
            assert(va.take(i + 1).last() == va[i as int]);
        }
        if !known {
            let entry = FunctionEntry { line: all[i].line, name: all[i].name.clone(), hits: all[i].hits };
            r.push(entry);
            assert(views(r@) =~= views(before).push(va[i as int]));
        }
        proof {
            assert forall|n: Seq<char>| has_name(va.take(i + 1), n) <==> #[trigger] has_name(views(r@), n) by {
                lemma_has_name_step(va, i as int, n);
                if !known {
                    lemma_has_name_push(views(before), va[i as int], n);
                }
            }
        }
        i += 1;
    }
    assert(va.take(i as int) =~= va);
    r
}

proof fn lemma_has_name_step(s: Seq<EntryView>, k: int, name: Seq<char>)
    requires
        0 <= k < s.len(),
    ensures
        has_name(s.take(k + 1), name) <==> (has_name(s.take(k), name) || s[k].name == name),
{
    if has_name(s.take(k + 1), name) {
        let x = choose|x: int| 0 <= x < s.take(k + 1).len() && (#[trigger] s.take(k + 1)[x]).name == name;
        if x < k {
            assert(s.take(k)[x] == s.take(k + 1)[x]);
        }
    }
    if has_name(s.take(k), name) {
        let x = choose|x: int| 0 <= x < s.take(k).len() && (#[trigger] s.take(k)[x]).name == name;
        assert(s.take(k)[x] == s.take(k + 1)[x]);
    }
    if s[k].name == name {
        assert(s.take(k + 1)[k].name == name);
    }
}

proof fn lemma_has_name_push(s: Seq<EntryView>, e: EntryView, name: Seq<char>)
    ensures
        has_name(s.push(e), name) <==> (has_name(s, name) || e.name == name),
{
    let t = s.push(e);
    if has_name(t, name) {
        let x = choose|x: int| 0 <= x < t.len() && (#[trigger] t[x]).name == name;
        if x < s.len() {
            assert(s[x] == t[x]);
        }
    }
    if has_name(s, name) {
        let x = choose|x: int| 0 <= x < s.len() && (#[trigger] s[x]).name == name;
        assert(s[x] == t[x]);
    }
    if e.name == name {
        assert(t[s.len() as int].name == name);
    }
}

/// The branches whose innermost location lies in `file`, by line.
fn list_branches(
    pcs: &Vec<usize>,
    outcomes: &BranchOutcomes,
    map: &DwarfSourceMap,
    file: &String,
) -> (r: Vec<BranchEntry>)
    ensures
        r@ == crate::sorting::stable_sorted(
            file_branches(pcs@, outcomes.taken@, outcomes.not_taken@, map.pc_map@, file@),
            branch_leq(),
        ),
        r@.len() <= pcs@.len(),
{
    broadcast use vstd::std_specs::hash::group_hash_axioms;
    let mut r: Vec<BranchEntry> = Vec::new();
    let mut i: usize = 0;
    while i < pcs.len()
        invariant
            i <= pcs@.len(),
            r@.len() <= i,
            r@ == crate::sorting::stable_sorted(
                file_branches(pcs@.take(i as int), outcomes.taken@, outcomes.not_taken@, map.pc_map@, file@),
                branch_leq(),
            ),
        decreases pcs.len() - i,
    {
        broadcast use vstd::std_specs::hash::group_hash_axioms;
        let pc: usize = pcs[i];
        assert(pcs@.take(i + 1).drop_last() =~= pcs@.take(i as int));
        let ghost before = file_branches(pcs@.take(i as int), outcomes.taken@, outcomes.not_taken@, map.pc_map@, file@);
        if let Some(locs) = map.pc_map.get(&pc) {
            if locs.len() > 0 && locs[0].file == *file {
                let entry = BranchEntry {
                    line: locs[0].line,
                    taken: lookup_count(&outcomes.taken, pc),
                    not_taken: lookup_count(&outcomes.not_taken, pc),
                };
                let mut p: usize = r.len();
                while p > 0 && r[p - 1].line > entry.line
                    invariant
                        p <= r@.len(),
                        forall|k: int| p <= k < r@.len() ==> !branch_leq()(#[trigger] r@[k], entry),
                    decreases p,
                {
                    p -= 1;
                }
                proof {
                    crate::sorting::lemma_insert_at(r@, entry, branch_leq(), p as int);
                    assert(before.push(entry).drop_last() =~= before);
                }
                r.insert(p, entry);
            }
        }
        i += 1;
    }
    assert(pcs@.take(i as int) =~= pcs@);
    r
}

/// Appends the function sections and returns how many functions were hit.
fn push_entries(s: &mut String, entries: &Vec<FunctionEntry>) -> (n: usize)
    ensures
        final(s)@ == old(s)@ + source_fn_lines(views(entries@)) + source_fnda_lines(views(entries@)),
        n == functions_hit(views(entries@)),
{
    let ghost v = views(entries@);
    let mut i: usize = 0;
    while i < entries.len()
        invariant
            i <= entries@.len(),
            v == views(entries@),
            s@ == old(s)@ + source_fn_lines(v.take(i as int)),
        decreases entries.len() - i,
    {
        let mut item = String::from_str("FN:");
        push_dec(&mut item, entries[i].line as u64);
        item.append(",");
        item.append(entries[i].name.as_str());
        item.append("\n");
        s.append(item.as_str());
        proof {
            assert(v[i as int] == entries@[i as int]@);
            assert(v.take(i + 1).drop_last() =~= v.take(i as int));
            assert(s@ =~= old(s)@ + source_fn_lines(v.take(i + 1)));
        }
        i += 1;
    }
    assert(v.take(i as int) =~= v);
    let ghost mid = s@;
    let mut n: usize = 0;
    let mut j: usize = 0;
    while j < entries.len()
        invariant
            j <= entries@.len(),
            n <= j,
            v == views(entries@),
            s@ == mid + source_fnda_lines(v.take(j as int)),
            n == functions_hit(v.take(j as int)),
        decreases entries.len() - j,
    {
        let mut item = String::from_str("FNDA:");
        push_dec(&mut item, entries[j].hits);
        item.append(",");
        item.append(entries[j].name.as_str());
        item.append("\n");
        s.append(item.as_str());
        proof {
            assert(v[j as int] == entries@[j as int]@);
            assert(v.take(j + 1).drop_last() =~= v.take(j as int));
            assert(s@ =~= mid + source_fnda_lines(v.take(j + 1)));
        }
        if entries[j].hits > 0 {
            n += 1;
        }
        j += 1;
    }
    assert(v.take(j as int) =~= v);
    n
}

/// Appends one line for each counted source line and returns how many of them were hit.
fn push_counts(s: &mut String, lines: &Vec<usize>, counts: &BTreeMap<usize, u64>) -> (n: usize)
    ensures
        final(s)@ == old(s)@ + source_da_lines(lines@, counts@),
        n == lines_hit(lines@, counts@),
{
    broadcast use vstd::std_specs::btree::group_btree_axioms;
    let mut n: usize = 0;
    let mut i: usize = 0;
    while i < lines.len()
        invariant
            i <= lines@.len(),
            n <= i,
            s@ == old(s)@ + source_da_lines(lines@.take(i as int), counts@),
            n == lines_hit(lines@.take(i as int), counts@),
        decreases lines.len() - i,
    {
        broadcast use vstd::std_specs::btree::group_btree_axioms;
        let count: u64 = match counts.get(&lines[i]) {
            Some(c) => *c,
            None => 0,
        };
        let mut item = String::from_str("DA:");
        push_dec_usize(&mut item, lines[i]);
        item.append(",");
        push_dec(&mut item, count);
        item.append("\n");
        s.append(item.as_str());
        assert(lines@.take(i + 1).drop_last() =~= lines@.take(i as int));
        assert(s@ =~= old(s)@ + source_da_lines(lines@.take(i + 1), counts@));
        if count > 0 {
            n += 1;
        }
        i += 1;
    }
    assert(lines@.take(i as int) =~= lines@);
    n
}

/// Appends two lines for each branch and returns how many outcomes happened.
fn push_branches(s: &mut String, branches: &Vec<BranchEntry>) -> (n: u64)
    requires
        2 * branches@.len() <= u64::MAX,
    ensures
        final(s)@ == old(s)@ + source_branch_lines(branches@),
        n == source_outcomes_hit(branches@),
{
    let mut n: u64 = 0;
    let mut i: usize = 0;
    let mut block: u64 = 0;
    while i < branches.len()
        invariant
            i <= branches@.len(),
            2 * branches@.len() <= u64::MAX,
            n <= 2 * i,
            block <= i,
            i > 0 ==> block == last_block(branches@.take(i as int)),
            s@ == old(s)@ + source_branch_lines(branches@.take(i as int)),
            n == source_outcomes_hit(branches@.take(i as int)),
        decreases branches.len() - i,
    {
        let b = branches[i];
        let ghost now = branches@.take(i + 1);
        assert(now.drop_last() =~= branches@.take(i as int));
        if i > 0 && branches[i - 1].line == b.line {
            assert(now[now.len() - 2] == branches@[i - 1]);
            block += 1;
        } else {
            if i > 0 {
                assert(now[now.len() - 2] == branches@[i - 1]);
            }
            block = 0;
        }
        assert(block == last_block(now));
        let item = branch_lines(b.line as u64, block, b.taken, b.not_taken);
        s.append(item.as_str());
        assert(s@ =~= old(s)@ + source_branch_lines(now));
        if b.taken > 0 {
            n += 1;
        }
        if b.not_taken > 0 {
            n += 1;
        }
        i += 1;
    }
    assert(branches@.take(i as int) =~= branches@);
    n
}

/// The record of one source file.
fn write_record(
    file: &str,
    entries: &Vec<FunctionEntry>,
    counts: &BTreeMap<usize, u64>,
    branches: &Vec<BranchEntry>,
) -> (s: String)
    requires
        2 * branches@.len() <= u64::MAX,
    ensures
        s@ == file_record(file@, views(entries@), counts@, branches@),
{
    let lines = table_keys(counts);
    let mut s = String::from_str("TN:fuzzer\nSF:");
    s.append(file);
    s.append("\n");
    let hit: usize = push_entries(&mut s, entries);
    s.append("FNF:");
    push_dec_usize(&mut s, entries.len());
    s.append("\nFNH:");
    push_dec_usize(&mut s, hit);
    s.append("\n");
    let covered: usize = push_counts(&mut s, &lines, counts);
    s.append("LF:");
    push_dec_usize(&mut s, lines.len());
    s.append("\nLH:");
    push_dec_usize(&mut s, covered);
    s.append("\n");
    let outcomes: u64 = push_branches(&mut s, branches);
    s.append("BRF:");
    push_dec(&mut s, branches.len() as u64 * 2);
    s.append("\nBRH:");
    push_dec(&mut s, outcomes);
    s.append("\nend_of_record\n");
    assert(views(entries@).len() == entries@.len());
    s
}

/// The lines of `file`, where its source could be read.
fn find_source<'a>(sources: &'a Vec<SourceText>, file: &String) -> (r: Option<&'a Vec<String>>)
    ensures
        crate::coverage::fill::source_view(r) == source_of(sources@, file@),
{
    let mut i: usize = 0;
    assert(sources@.skip(0) =~= sources@);
    while i < sources.len()
        invariant
            i <= sources@.len(),
            source_of(sources@.skip(i as int), file@) == source_of(sources@, file@),
        decreases sources.len() - i,
    {
        assert(sources@.skip(i as int).skip(1) =~= sources@.skip(i + 1));
        if sources[i].file == *file {
            return Some(&sources[i].lines);
        }
        i += 1;
    }
    None
}

/// Whether `file` is the user's own source.
pub fn is_user_source(file: &str, root: Option<&str>) -> (r: bool)
    ensures
        r == user_source(file@, opt_text(root)),
{
    if starts_with(file, "/") {
        if has_text(file, "/.cargo/registry/") || has_text(file, "/.rustup/toolchains/") || has_text(
            file,
            "/platform-tools/",
        ) || has_text(file, "/Users/runner/") || has_text(file, "/home/runner/") {
            return false;
        }
        match root {
            Some(r) => starts_with(file, r),
            None => true,
        }
    } else {
        !starts_with(file, "src/")
    }
}

/// The workspace that a symbols file belongs to: what stands before the first `/target/` of its path.
pub fn workspace_root(symbols_path: &str) -> (r: Option<String>)
    ensures
        match r {
            Some(root) => exists|at: int| #[trigger] crate::text::occurs_at(symbols_path@, "/target/"@, at)
                && root@ == symbols_path@.take(at)
                && forall|j: int| 0 <= j < at ==> !#[trigger] crate::text::occurs_at(symbols_path@, "/target/"@, j),
            None => !crate::text::contains_text(symbols_path@, "/target/"@),
        },
{
    let path = chars_of(symbols_path);
    let pat = chars_of("/target/");
    match find_from(&path, &pat, 0) {
        Some(at) => {
            let root = string_of(&path, 0, at);
            assert(path@.subrange(0, at as int) =~= symbols_path@.take(at as int));
            Some(root)
        },
        None => {
            assert(forall|at: int| !crate::text::occurs_at(symbols_path@, "/target/"@, at));
            None
        },
    }
}

/// Puts `file` in its place, unless it is there.
fn insert_file(files: &mut Vec<String>, file: &String)
    requires
        increasing_texts(crate::text::texts(old(files)@)),
    ensures
        increasing_texts(crate::text::texts(final(files)@)),
        forall|f: Seq<char>| #[trigger] crate::text::texts(final(files)@).contains(f) <==> crate::text::texts(
            old(files)@,
        ).contains(f) || f == file@,
{
    let ghost t = crate::text::texts(files@);
    let mut p: usize = 0;
    while p < files.len() && text_less(files[p].as_str(), file.as_str())
        invariant
            p <= files@.len(),
            t == crate::text::texts(files@),
            forall|k: int| 0 <= k < p ==> crate::lexical::text_lt(#[trigger] t[k], file@),
        decreases files.len() - p,
    {
        assert(t[p as int] == files@[p as int]@);
        p += 1;
    }
    if p < files.len() && files[p] == *file {
        assert(t[p as int] == files@[p as int]@);
        assert(t.contains(file@));
        return;
    }
    proof {
        assert forall|k: int| p <= k < t.len() implies crate::lexical::text_lt(file@, #[trigger] t[k]) by {
            assert(t[p as int] == files@[p as int]@);
            crate::lexical::lemma_text_order(file@, t[p as int], t[k]);
            if k > p {
                assert(crate::lexical::text_lt(t[p as int], t[k]));
            }
        }
    }
    files.insert(p, file.clone());
    proof {
        let n = crate::text::texts(files@);
        assert(n =~= t.insert(p as int, file@));
        assert forall|i: int, j: int| 0 <= i < j < n.len() implies crate::lexical::text_lt(#[trigger] n[i], #[trigger] n[j]) by {
            if i < p && j < p {
                assert(crate::lexical::text_lt(t[i], t[j]));
            } else if i < p && j == p {
                assert(crate::lexical::text_lt(t[i], file@));
            } else if i < p && j > p {
                assert(crate::lexical::text_lt(t[i], t[j - 1]));
            } else if i == p && j > p {
                assert(crate::lexical::text_lt(file@, t[j - 1]));
            } else {
                assert(crate::lexical::text_lt(t[i - 1], t[j - 1]));
            }
        }
        assert forall|f: Seq<char>| #[trigger] n.contains(f) <==> t.contains(f) || f == file@ by {
            if n.contains(f) {
                let i = choose|i: int| 0 <= i < n.len() && n[i] == f;
                if i < p {
                    assert(t[i] == f);
                } else if i > p {
                    assert(t[i - 1] == f);
                }
            }
            if t.contains(f) {
                let i = choose|i: int| 0 <= i < t.len() && t[i] == f;
                if i < p {
                    assert(n[i] == f);
                } else {
                    assert(n[i + 1] == f);
                }
            }
            if f == file@ {
                assert(n[p as int] == f);
            }
        }
    }
}

/// A hit of the first `i` program counters, or of the first `j` locations of the next, falls into `f`.
spec fn hit_before(pcs: Seq<usize>, map: Map<usize, Vec<SourceLocation>>, i: int, j: int, f: Seq<char>) -> bool {
    exists|x: int, y: int| 0 <= x < pcs.len() && 0 <= y < locations(map, pcs[x]).len() && (x < i || (x == i && y < j))
        && (#[trigger] locations(map, pcs[x])[y]).file@ == f
}

/// A branch among the first `i` lies in `f`.
spec fn branch_before(pcs: Seq<usize>, map: Map<usize, Vec<SourceLocation>>, i: int, f: Seq<char>) -> bool {
    exists|x: int| 0 <= x < pcs.len() && x < i && (#[trigger] locations(map, pcs[x])).len() > 0
        && locations(map, pcs[x])[0].file@ == f
}

proof fn lemma_hit_step(pcs: Seq<usize>, map: Map<usize, Vec<SourceLocation>>, i: int, j: int, f: Seq<char>)
    requires
        0 <= i < pcs.len(),
        0 <= j < locations(map, pcs[i]).len(),
    ensures
        hit_before(pcs, map, i, j + 1, f) <==> (hit_before(pcs, map, i, j, f) || locations(map, pcs[i])[j].file@ == f),
{
    if hit_before(pcs, map, i, j + 1, f) {
        let (x, y) = choose|x: int, y: int| 0 <= x < pcs.len() && 0 <= y < locations(map, pcs[x]).len()
            && (x < i || (x == i && y < j + 1)) && (#[trigger] locations(map, pcs[x])[y]).file@ == f;
        if !(x == i && y == j) {
            assert(x < i || (x == i && y < j));
        }
    }
    if hit_before(pcs, map, i, j, f) {
        let (x, y) = choose|x: int, y: int| 0 <= x < pcs.len() && 0 <= y < locations(map, pcs[x]).len()
            && (x < i || (x == i && y < j)) && (#[trigger] locations(map, pcs[x])[y]).file@ == f;
        assert(x < i || (x == i && y < j + 1));
    }
}

proof fn lemma_hit_next(pcs: Seq<usize>, map: Map<usize, Vec<SourceLocation>>, i: int, f: Seq<char>)
    requires
        0 <= i < pcs.len(),
    ensures
        hit_before(pcs, map, i + 1, 0, f) <==> hit_before(pcs, map, i, locations(map, pcs[i]).len() as int, f),
{
    let n = locations(map, pcs[i]).len() as int;
    if hit_before(pcs, map, i + 1, 0, f) {
        let (x, y) = choose|x: int, y: int| 0 <= x < pcs.len() && 0 <= y < locations(map, pcs[x]).len()
            && (x < i + 1 || (x == i + 1 && y < 0)) && (#[trigger] locations(map, pcs[x])[y]).file@ == f;
        assert(x < i || (x == i && y < n));
    }
    if hit_before(pcs, map, i, n, f) {
        let (x, y) = choose|x: int, y: int| 0 <= x < pcs.len() && 0 <= y < locations(map, pcs[x]).len()
            && (x < i || (x == i && y < n)) && (#[trigger] locations(map, pcs[x])[y]).file@ == f;
        assert(x < i + 1 || (x == i + 1 && y < 0));
    }
}

proof fn lemma_branch_step(pcs: Seq<usize>, map: Map<usize, Vec<SourceLocation>>, i: int, f: Seq<char>)
    requires
        0 <= i < pcs.len(),
    ensures
        branch_before(pcs, map, i + 1, f) <==> (branch_before(pcs, map, i, f) || (locations(map, pcs[i]).len() > 0
            && locations(map, pcs[i])[0].file@ == f)),
{
    if branch_before(pcs, map, i + 1, f) {
        let x = choose|x: int| 0 <= x < pcs.len() && x < i + 1 && (#[trigger] locations(map, pcs[x])).len() > 0
            && locations(map, pcs[x])[0].file@ == f;
        if x < i {
            assert(branch_before(pcs, map, i, f));
        }
    }
    if branch_before(pcs, map, i, f) {
        let x = choose|x: int| 0 <= x < pcs.len() && x < i && (#[trigger] locations(map, pcs[x])).len() > 0
            && locations(map, pcs[x])[0].file@ == f;
        assert(x < i + 1);
    }
}

/// The user's source files that were touched, in dictionary order.
fn touched_files(
    hit_pcs: &Vec<usize>,
    branch_pcs: &Vec<usize>,
    map: &DwarfSourceMap,
    root: Option<&str>,
) -> (files: Vec<String>)
    ensures
        lists_files(crate::text::texts(files@), hit_pcs@, branch_pcs@, map.pc_map@, opt_text(root)),
{
    broadcast use vstd::std_specs::hash::group_hash_axioms;
    let mut files: Vec<String> = Vec::new();
    let ghost r = opt_text(root);
    let mut i: usize = 0;
    while i < hit_pcs.len()
        invariant
            i <= hit_pcs@.len(),
            r == opt_text(root),
            increasing_texts(crate::text::texts(files@)),
            forall|f: Seq<char>| #[trigger] crate::text::texts(files@).contains(f) <==> user_source(f, r) && hit_before(
                hit_pcs@,
                map.pc_map@,
                i as int,
                0,
                f,
            ),
        decreases hit_pcs.len() - i,
    {
        broadcast use vstd::std_specs::hash::group_hash_axioms;
        let pc: usize = hit_pcs[i];
        if let Some(locs) = map.pc_map.get(&pc) {
            let mut j: usize = 0;
            while j < locs.len()
                invariant
                    i < hit_pcs@.len(),
                    pc == hit_pcs@[i as int],
                    locs@ == locations(map.pc_map@, pc),
                    j <= locs@.len(),
                    r == opt_text(root),
                    increasing_texts(crate::text::texts(files@)),
                    forall|f: Seq<char>| #[trigger] crate::text::texts(files@).contains(f) <==> user_source(f, r)
                        && hit_before(hit_pcs@, map.pc_map@, i as int, j as int, f),
                decreases locs.len() - j,
            {
                if is_user_source(locs[j].file.as_str(), root) {
                    insert_file(&mut files, &locs[j].file);
                }
                proof {
                    assert forall|f: Seq<char>| #[trigger] crate::text::texts(files@).contains(f) <==> user_source(f, r)
                        && hit_before(hit_pcs@, map.pc_map@, i as int, j + 1, f) by {
                        lemma_hit_step(hit_pcs@, map.pc_map@, i as int, j as int, f);
                    }
                }
                j += 1;
            }
        }
        proof {
            assert forall|f: Seq<char>| #[trigger] crate::text::texts(files@).contains(f) <==> user_source(f, r)
                && hit_before(hit_pcs@, map.pc_map@, i + 1, 0, f) by {
                lemma_hit_next(hit_pcs@, map.pc_map@, i as int, f);
            }
        }
        i += 1;
    }
    let mut k: usize = 0;
    while k < branch_pcs.len()
        invariant
            k <= branch_pcs@.len(),
            r == opt_text(root),
            increasing_texts(crate::text::texts(files@)),
            forall|f: Seq<char>| #[trigger] crate::text::texts(files@).contains(f) <==> user_source(f, r) && (hit_before(
                hit_pcs@,
                map.pc_map@,
                hit_pcs@.len() as int,
                0,
                f,
            ) || branch_before(branch_pcs@, map.pc_map@, k as int, f)),
        decreases branch_pcs.len() - k,
    {
        broadcast use vstd::std_specs::hash::group_hash_axioms;
        let pc: usize = branch_pcs[k];
        if let Some(locs) = map.pc_map.get(&pc) {
            if locs.len() > 0 && is_user_source(locs[0].file.as_str(), root) {
                insert_file(&mut files, &locs[0].file);
            }
        }
        proof {
            assert forall|f: Seq<char>| #[trigger] crate::text::texts(files@).contains(f) <==> user_source(f, r) && (
            hit_before(hit_pcs@, map.pc_map@, hit_pcs@.len() as int, 0, f) || branch_before(
                branch_pcs@,
                map.pc_map@,
                k + 1,
                f,
            )) by {
                lemma_branch_step(branch_pcs@, map.pc_map@, k as int, f);
            }
        }
        k += 1;
    }
    proof {
        assert forall|f: Seq<char>| #[trigger] crate::text::texts(files@).contains(f) <==> user_source(f, r) && touched(
            hit_pcs@,
            branch_pcs@,
            map.pc_map@,
            f,
        ) by {
            let n = hit_pcs@.len() as int;
            let m = map.pc_map@;
            if hit_before(hit_pcs@, m, n, 0, f) {
                let (x, y) = choose|x: int, y: int| 0 <= x < hit_pcs@.len() && 0 <= y < locations(m, hit_pcs@[x]).len()
                    && (x < n || (x == n && y < 0)) && (#[trigger] locations(m, hit_pcs@[x])[y]).file@ == f;
                assert(locations(m, hit_pcs@[x])[y].file@ == f);
            }
            if branch_before(branch_pcs@, m, branch_pcs@.len() as int, f) {
                let x = choose|x: int| 0 <= x < branch_pcs@.len() && x < branch_pcs@.len() as int && (#[trigger] locations(
                    m,
                    branch_pcs@[x],
                )).len() > 0 && locations(m, branch_pcs@[x])[0].file@ == f;
                assert(locations(m, branch_pcs@[x]).len() > 0);
            }
            if touched(hit_pcs@, branch_pcs@, m, f) {
                if exists|x: int, y: int| 0 <= x < hit_pcs@.len() && 0 <= y < locations(m, hit_pcs@[x]).len()
                    && (#[trigger] locations(m, hit_pcs@[x])[y]).file@ == f {
                    let (x, y) = choose|x: int, y: int| 0 <= x < hit_pcs@.len() && 0 <= y < locations(m, hit_pcs@[x]).len()
                        && (#[trigger] locations(m, hit_pcs@[x])[y]).file@ == f;
                    assert(x < n || (x == n && y < 0));
                } else {
                    let x = choose|x: int| 0 <= x < branch_pcs@.len() && (#[trigger] locations(m, branch_pcs@[x])).len() > 0
                        && locations(m, branch_pcs@[x])[0].file@ == f;
                    assert(x < branch_pcs@.len() as int);
                }
            }
        }
    }
    files
}

/// The user's source files that the record covers, in dictionary order: those that a hit or a
/// branch falls into.
pub fn covered_files(
    pc_hits: &HashMap<usize, u64>,
    branch_outcomes: &BranchOutcomes,
    source_map: &DwarfSourceMap,
    root: Option<&str>,
) -> (files: Vec<String>)
    ensures
        lists_files(
            crate::text::texts(files@),
            crate::order::listing(pc_hits@.dom()),
            crate::order::listing(branch_outcomes.branches()),
            source_map.pc_map@,
            opt_text(root),
        ),
{
    let hit_pcs = sorted_keys(pc_hits);
    let branch_pcs = sorted_branches(branch_outcomes);
    touched_files(&hit_pcs, &branch_pcs, source_map, root)
}

/// The text is the records of the files that were touched, one after the other, and so many they are.
pub open spec fn lcov_written(
    hits: Map<usize, u64>,
    outcomes: BranchOutcomes,
    map: DwarfSourceMap,
    functions: Seq<FunctionInfo>,
    sources: Seq<SourceText>,
    root: Option<Seq<char>>,
    text: Seq<char>,
    count: usize,
) -> bool {
    exists|files: Seq<Seq<char>>| #[trigger] lists_files(
        files,
        crate::order::listing(hits.dom()),
        crate::order::listing(outcomes.branches()),
        map.pc_map@,
        root,
    ) && count == files.len() && text == records_of(hits, outcomes, map, functions, sources, files)
}

/// LCOV records of the user's source files, one after the other, and how many there are.
///
/// The hits of all program counters at a line are summed up. `sources` holds the files whose text
/// could be read; it decides which uncounted lines get a count from their neighbours. `root` is the
/// workspace, where it is known: an absolute path outside it is no source of the user.
pub fn generate_source_lcov(
    pc_hits: &HashMap<usize, u64>,
    branch_outcomes: &BranchOutcomes,
    source_map: &DwarfSourceMap,
    functions: &[FunctionInfo],
    sources: &Vec<SourceText>,
    root: Option<&str>,
) -> (r: (String, usize))
    requires
        2 * branch_outcomes.branches().len() <= u64::MAX,
        forall|file: Seq<char>, line: usize| #[trigger] line_total(
            crate::order::listing(pc_hits@.dom()),
            pc_hits@,
            source_map.pc_map@,
            file,
            line,
        ) <= u64::MAX,
    ensures
        lcov_written(pc_hits@, *branch_outcomes, *source_map, functions@, sources@, opt_text(root), r.0@, r.1),
{
    let hit_pcs = sorted_keys(pc_hits);
    let branch_pcs = sorted_branches(branch_outcomes);
    let files = touched_files(&hit_pcs, &branch_pcs, source_map, root);
    let ghost t = crate::text::texts(files@);
    proof {
        crate::order::lemma_listing_len(branch_pcs@, branch_outcomes.branches());
    }
    let mut s = String::new();
    let mut i: usize = 0;
    assert(s@ =~= records_of(pc_hits@, *branch_outcomes, *source_map, functions@, sources@, t.take(0)));
    while i < files.len()
        invariant
            i <= files@.len(),
            t == crate::text::texts(files@),
            hit_pcs@ == crate::order::listing(pc_hits@.dom()),
            branch_pcs@ == crate::order::listing(branch_outcomes.branches()),
            2 * branch_pcs@.len() <= u64::MAX,
            forall|file: Seq<char>, line: usize| #[trigger] line_total(
                hit_pcs@,
                pc_hits@,
                source_map.pc_map@,
                file,
                line,
            ) <= u64::MAX,
            s@ == records_of(pc_hits@, *branch_outcomes, *source_map, functions@, sources@, t.take(i as int)),
        decreases files.len() - i,
    {
        let file = &files[i];
        let entries = list_functions(functions, pc_hits, source_map, file);
        let mut counts = count_lines(&hit_pcs, pc_hits, source_map, &entries, file);
        let source = find_source(sources, file);
        fill_gaps(&mut counts, source);
        fill_leads(&mut counts, source);
        let branches = list_branches(&branch_pcs, branch_outcomes, source_map, file);
        let record = write_record(file.as_str(), &entries, &counts, &branches);
        s.append(record.as_str());
        proof {
            assert(t[i as int] == files@[i as int]@);
            assert(t.take(i + 1).drop_last() =~= t.take(i as int));
        }
        i += 1;
    }
    assert(t.take(i as int) =~= t);
    (s, files.len())
}

proof fn lemma_total_kept(
    pcs: Seq<usize>,
    hits: Map<usize, u64>,
    map: Map<usize, Vec<SourceLocation>>,
    pc: usize,
    n: u64,
    file: Seq<char>,
    line: usize,
)
    requires
        !map.contains_key(pc),
    ensures
        line_total(pcs, hits.insert(pc, n), map, file, line) == line_total(pcs, hits, map, file, line),
    decreases pcs.len(),
{
    if pcs.len() > 0 {
        lemma_total_kept(pcs.drop_last(), hits, map, pc, n, file, line);
    }
}

proof fn lemma_total_with_member(
    pcs: Seq<usize>,
    hits: Map<usize, u64>,
    map: Map<usize, Vec<SourceLocation>>,
    pc: usize,
    file: Seq<char>,
    line: usize,
)
    requires
        !map.contains_key(pc),
    ensures
        line_total(crate::order::with_member(pcs, pc), hits, map, file, line) == line_total(pcs, hits, map, file, line),
    decreases pcs.len(),
{
    let r = crate::order::with_member(pcs, pc);
    if pcs.len() == 0 || pcs.last() < pc {
        assert(r.drop_last() =~= pcs);
    } else {
        lemma_total_with_member(pcs.drop_last(), hits, map, pc, file, line);
        assert(r.drop_last() =~= crate::order::with_member(pcs.drop_last(), pc));
        assert(r.last() == pcs.last());
    }
}

/// What the hits of a listing say of files and lines depends only on the counters that have locations.
proof fn lemma_same_places(a: Seq<usize>, b: Seq<usize>, map: Map<usize, Vec<SourceLocation>>)
    requires
        forall|x: usize| map.contains_key(x) ==> (#[trigger] a.contains(x) <==> b.contains(x)),
    ensures
        forall|file: Seq<char>, line: usize| #[trigger] line_seen(a, map, file, line) ==> line_seen(b, map, file, line),
        forall|branches: Seq<usize>, file: Seq<char>| #[trigger]
            touched(a, branches, map, file) ==> touched(b, branches, map, file),
{
    assert forall|file: Seq<char>, line: usize| #[trigger] line_seen(a, map, file, line) implies line_seen(b, map, file, line) by {
        let (i, j) = choose|i: int, j: int| 0 <= i < a.len() && 0 <= j < locations(map, a[i]).len()
            && located(#[trigger] locations(map, a[i])[j], file, line);
        assert(a.contains(a[i]));
        let k = choose|k: int| 0 <= k < b.len() && b[k] == a[i];
        assert(located(locations(map, b[k])[j], file, line));
    }
    assert forall|branches: Seq<usize>, file: Seq<char>| #[trigger] touched(a, branches, map, file) implies touched(
        b,
        branches,
        map,
        file,
    ) by {
        if exists|i: int, j: int| 0 <= i < a.len() && 0 <= j < locations(map, a[i]).len()
            && (#[trigger] locations(map, a[i])[j]).file@ == file {
            let (i, j) = choose|i: int, j: int| 0 <= i < a.len() && 0 <= j < locations(map, a[i]).len()
                && (#[trigger] locations(map, a[i])[j]).file@ == file;
            assert(a.contains(a[i]));
            let k = choose|k: int| 0 <= k < b.len() && b[k] == a[i];
            assert(locations(map, b[k])[j].file@ == file);
        }
    }
}

proof fn lemma_entries_kept(
    functions: Seq<FunctionInfo>,
    hits: Map<usize, u64>,
    map: DwarfSourceMap,
    pc: usize,
    n: u64,
    file: Seq<char>,
)
    requires
        !map.pc_map@.contains_key(pc),
        !map.fn_map@.contains_key(pc),
    ensures
        file_entries(functions, hits.insert(pc, n), map, file) == file_entries(functions, hits, map, file),
    decreases functions.len(),
{
    if functions.len() > 0 {
        lemma_entries_kept(functions.drop_last(), hits, map, pc, n, file);
        assert(entry_of(functions.last(), hits.insert(pc, n), map) == entry_of(functions.last(), hits, map));
    }
}

/// Hits on a program counter that the debug information does not resolve are passed over: they change
/// neither which files are listed nor what is written of them.
pub proof fn lemma_unresolved_passed_over(
    hits: Map<usize, u64>,
    pc: usize,
    n: u64,
    outcomes: BranchOutcomes,
    map: DwarfSourceMap,
    functions: Seq<FunctionInfo>,
    sources: Seq<SourceText>,
    files: Seq<Seq<char>>,
    root: Option<Seq<char>>,
)
    requires
        hits.dom().finite(),
        !map.pc_map@.contains_key(pc),
        !map.fn_map@.contains_key(pc),
    ensures
        lists_files(
            files,
            crate::order::listing(hits.insert(pc, n).dom()),
            crate::order::listing(outcomes.branches()),
            map.pc_map@,
            root,
        ) <==> lists_files(
            files,
            crate::order::listing(hits.dom()),
            crate::order::listing(outcomes.branches()),
            map.pc_map@,
            root,
        ),
        records_of(hits.insert(pc, n), outcomes, map, functions, sources, files) == records_of(
            hits,
            outcomes,
            map,
            functions,
            sources,
            files,
        ),
        forall|file: Seq<char>, line: usize| #[trigger]
            line_total(crate::order::listing(hits.insert(pc, n).dom()), hits.insert(pc, n), map.pc_map@, file, line)
                == line_total(crate::order::listing(hits.dom()), hits, map.pc_map@, file, line),
    decreases files.len(),
{
    let more = hits.insert(pc, n);
    let a = crate::order::listing(hits.dom());
    let b = crate::order::listing(more.dom());
    let m = map.pc_map@;
    crate::order::lemma_has_listing(hits.dom());
    if hits.contains_key(pc) {
        assert(more.dom() =~= hits.dom());
    } else {
        assert(more.dom() =~= hits.dom().insert(pc));
        crate::order::lemma_listing_insert(hits.dom(), pc);
    }
    assert(forall|x: usize| b.contains(x) <==> more.dom().contains(x));
    assert(forall|x: usize| a.contains(x) <==> hits.dom().contains(x));
    lemma_same_places(a, b, m);
    lemma_same_places(b, a, m);
    assert forall|file: Seq<char>, line: usize| #[trigger] line_total(b, more, m, file, line) == line_total(
        a,
        hits,
        m,
        file,
        line,
    ) by {
        lemma_total_kept(b, hits, m, pc, n, file, line);
        if !hits.contains_key(pc) {
            lemma_total_with_member(a, hits, m, pc, file, line);
        }
    }
    if files.len() > 0 {
        lemma_unresolved_passed_over(hits, pc, n, outcomes, map, functions, sources, files.drop_last(), root);
        let file = files.last();
        lemma_entries_kept(functions, hits, map, pc, n, file);
        let entries = listed_functions(functions, hits, map, file);
        assert(base_counts(b, more, map, entries, file) =~= base_counts(a, hits, map, entries, file));
        assert(record_of(more, outcomes, map, functions, sources, file) == record_of(
            hits,
            outcomes,
            map,
            functions,
            sources,
            file,
        ));
    }
}

/// Hits on a program counter that the debug information does not resolve leave the records as they are,
/// letter for letter.
pub proof fn lemma_unresolved_same_records(
    hits: Map<usize, u64>,
    pc: usize,
    n: u64,
    outcomes: BranchOutcomes,
    map: DwarfSourceMap,
    functions: Seq<FunctionInfo>,
    sources: Seq<SourceText>,
    root: Option<Seq<char>>,
    without: (Seq<char>, usize),
    with: (Seq<char>, usize),
)
    requires
        hits.dom().finite(),
        !map.pc_map@.contains_key(pc),
        !map.fn_map@.contains_key(pc),
        lcov_written(hits, outcomes, map, functions, sources, root, without.0, without.1),
        lcov_written(hits.insert(pc, n), outcomes, map, functions, sources, root, with.0, with.1),
    ensures
        with == without,
{
    let branch_pcs = crate::order::listing(outcomes.branches());
    let pcs = crate::order::listing(hits.dom());
    let more_pcs = crate::order::listing(hits.insert(pc, n).dom());
    let files = choose|files: Seq<Seq<char>>| #[trigger]
        lists_files(files, pcs, branch_pcs, map.pc_map@, root) && without.1 == files.len() && without.0 == records_of(
            hits,
            outcomes,
            map,
            functions,
            sources,
            files,
        );
    let more = choose|files: Seq<Seq<char>>| #[trigger]
        lists_files(files, more_pcs, branch_pcs, map.pc_map@, root) && with.1 == files.len() && with.0 == records_of(
            hits.insert(pc, n),
            outcomes,
            map,
            functions,
            sources,
            files,
        );
    lemma_unresolved_passed_over(hits, pc, n, outcomes, map, functions, sources, more, root);
    lemma_file_list_unique(files, more, pcs, branch_pcs, map.pc_map@, root);
}

} // verus!
