//! LCOV records at the level of program counters.
use vstd::prelude::*;
use std::collections::HashMap;
use crate::coverage::types::{BranchOutcomes, FunctionInfo};
#[allow(unused_imports)]
use crate::coverage::types::{count_at, lookup_count};
use crate::order::{sort_distinct, sorted_keys};
use crate::text::{push_dec, push_dec_usize};

verus! {

/// Functions in the order of their entry.
pub open spec fn entry_leq() -> spec_fn(FunctionInfo, FunctionInfo) -> bool {
    |a: FunctionInfo, b: FunctionInfo| a.entry_pc <= b.entry_pc
}

/// The functions by entry, those with one entry in the order given.
pub open spec fn by_entry(functions: Seq<FunctionInfo>) -> Seq<FunctionInfo> {
    crate::sorting::stable_sorted(functions, entry_leq())
}

/// The name a report gives to a function: the symbol at its entry, else its own name, else a name
/// made from its entry.
pub open spec fn display_name(f: FunctionInfo, symbols: Option<Map<usize, String>>) -> Seq<char> {
    if symbols is Some && symbols->0.contains_key(f.entry_pc) {
        symbols->0[f.entry_pc]@
    } else if f.name@.len() == 0 {
        "fn_"@ + crate::text::dec(f.entry_pc as nat)
    } else {
        f.name@
    }
}

/// What the symbol table says, where there is one.
pub open spec fn symbol_view(symbols: Option<&HashMap<usize, String>>) -> Option<Map<usize, String>> {
    match symbols {
        Some(m) => Some(m@),
        None => None,
    }
}

/// One line for each function: its line number, which is its entry counted from one, and its name.
pub open spec fn fn_lines(fs: Seq<FunctionInfo>, symbols: Option<Map<usize, String>>) -> Seq<char>
    decreases fs.len(),
{
    if fs.len() == 0 {
        Seq::empty()
    } else {
        fn_lines(fs.drop_last(), symbols) + "FN:"@ + crate::text::dec((fs.last().entry_pc + 1) as nat)
            + ","@ + display_name(fs.last(), symbols) + "\n"@
    }
}

/// One line for each function: how often its entry was hit, and its name.
pub open spec fn fnda_lines(
    fs: Seq<FunctionInfo>,
    symbols: Option<Map<usize, String>>,
    hits: Map<usize, u64>,
) -> Seq<char>
    decreases fs.len(),
{
    if fs.len() == 0 {
        Seq::empty()
    } else {
        fnda_lines(fs.drop_last(), symbols, hits) + "FNDA:"@ + crate::text::dec(
            count_at(hits, fs.last().entry_pc) as nat,
        ) + ","@ + display_name(fs.last(), symbols) + "\n"@
    }
}

/// How many of the functions had their entry hit.
pub open spec fn entries_hit(fs: Seq<FunctionInfo>, hits: Map<usize, u64>) -> nat
    decreases fs.len(),
{
    if fs.len() == 0 {
        0
    } else {
        entries_hit(fs.drop_last(), hits) + if count_at(hits, fs.last().entry_pc) > 0 { 1nat } else { 0nat }
    }
}

/// One line for each program counter, counted from one, with its hits.
pub open spec fn da_lines(pcs: Seq<usize>, hits: Map<usize, u64>) -> Seq<char>
    decreases pcs.len(),
{
    if pcs.len() == 0 {
        Seq::empty()
    } else {
        da_lines(pcs.drop_last(), hits) + "DA:"@ + crate::text::dec((pcs.last() + 1) as nat) + ","@
            + crate::text::dec(count_at(hits, pcs.last()) as nat) + "\n"@
    }
}

/// A branch count in a report: a dash where the outcome never happened.
pub open spec fn outcome_text(count: u64) -> Seq<char> {
    if count > 0 { crate::text::dec(count as nat) } else { "-"@ }
}

/// The two lines of one branch: its line, its number, the outcome and how often that happened.
pub open spec fn branch_item(line: nat, block: nat, taken: u64, not_taken: u64) -> Seq<char> {
    "BRDA:"@ + crate::text::dec(line) + ","@ + crate::text::dec(block) + ",0,"@ + outcome_text(taken) + "\nBRDA:"@
        + crate::text::dec(line) + ","@ + crate::text::dec(block) + ",1,"@ + outcome_text(not_taken) + "\n"@
}

/// Two lines for each branch, one for each outcome; the branches are numbered from zero.
pub open spec fn brda_lines(pcs: Seq<usize>, taken: Map<usize, u64>, not_taken: Map<usize, u64>) -> Seq<char>
    decreases pcs.len(),
{
    if pcs.len() == 0 {
        Seq::empty()
    } else {
        brda_lines(pcs.drop_last(), taken, not_taken) + branch_item(
            (pcs.last() + 1) as nat,
            (pcs.len() - 1) as nat,
            count_at(taken, pcs.last()),
            count_at(not_taken, pcs.last()),
        )
    }
}

/// How many outcomes of the branches happened.
pub open spec fn outcomes_hit(pcs: Seq<usize>, taken: Map<usize, u64>, not_taken: Map<usize, u64>) -> nat
    decreases pcs.len(),
{
    if pcs.len() == 0 {
        0
    } else {
        outcomes_hit(pcs.drop_last(), taken, not_taken)
            + (if count_at(taken, pcs.last()) > 0 { 1nat } else { 0nat })
            + (if count_at(not_taken, pcs.last()) > 0 { 1nat } else { 0nat })
    }
}

/// The LCOV record of a program at the level of program counters.
pub open spec fn bytecode_record(
    program_name: Seq<char>,
    hits: Map<usize, u64>,
    taken: Map<usize, u64>,
    not_taken: Map<usize, u64>,
    functions: Seq<FunctionInfo>,
    total_instructions: nat,
    total_branches: nat,
    symbols: Option<Map<usize, String>>,
) -> Seq<char> {
    let fs = by_entry(functions);
    let branches = crate::order::listing(taken.dom().union(not_taken.dom()));
    "TN:fuzzer\nSF:"@ + program_name + ".bpf\n"@ + fn_lines(fs, symbols) + fnda_lines(fs, symbols, hits)
        + "FNF:"@ + crate::text::dec(functions.len()) + "\nFNH:"@ + crate::text::dec(entries_hit(fs, hits))
        + "\n"@ + da_lines(crate::order::listing(hits.dom()), hits) + "LF:"@ + crate::text::dec(
        total_instructions,
    ) + "\nLH:"@ + crate::text::dec(hits.dom().len()) + "\n"@ + brda_lines(branches, taken, not_taken)
        + "BRF:"@ + crate::text::dec(total_branches * 2) + "\nBRH:"@ + crate::text::dec(
        outcomes_hit(branches, taken, not_taken),
    ) + "\nend_of_record\n"@
}

/// The functions by entry.
pub fn sort_by_entry(functions: &[FunctionInfo]) -> (r: Vec<FunctionInfo>)
    ensures
        r@ == by_entry(functions@),
        r@.len() == functions@.len(),
        forall|i: int| 0 <= i < r@.len() ==> functions@.contains(#[trigger] r@[i]),
{
    let mut r: Vec<FunctionInfo> = Vec::new();
    let mut i: usize = 0;
    while i < functions.len()
        invariant
            i <= functions@.len(),
            r@ == by_entry(functions@.take(i as int)),
            r@.len() == i,
            forall|k: int| 0 <= k < r@.len() ==> functions@.contains(#[trigger] r@[k]),
        decreases functions.len() - i,
    {
        let f = functions[i].copy();
        let mut p: usize = r.len();
        while p > 0 && r[p - 1].entry_pc > f.entry_pc
            invariant
                p <= r@.len(),
                forall|k: int| p <= k < r@.len() ==> !entry_leq()(#[trigger] r@[k], f),
            decreases p,
        {
            p -= 1;
        }
        proof {
            crate::sorting::lemma_insert_at(r@, f, entry_leq(), p as int);
            assert(functions@.take(i + 1).drop_last() =~= functions@.take(i as int));
            assert(functions@[i as int] == f);
        }
        let ghost before = r@;
        r.insert(p, f);
        proof {
            assert forall|k: int| 0 <= k < r@.len() implies functions@.contains(#[trigger] r@[k]) by {
                if k < p {
                    assert(r@[k] == before[k]);
                } else if k > p {
                    assert(r@[k] == before[k - 1]);
                }
            }
        }
        i += 1;
    }
    assert(functions@.take(i as int) =~= functions@);
    r
}

/// Appends the name that the report gives to a function.
fn push_display_name(s: &mut String, f: &FunctionInfo, symbols: Option<&HashMap<usize, String>>)
    ensures
        final(s)@ == old(s)@ + display_name(*f, symbol_view(symbols)),
{
    broadcast use vstd::std_specs::hash::group_hash_axioms;
    if let Some(m) = symbols {
        if let Some(name) = m.get(&f.entry_pc) {
            s.append(name.as_str());
            return;
        }
    }
    if f.name.as_str().unicode_len() == 0 {
        s.append("fn_");
        push_dec_usize(s, f.entry_pc);
        assert(s@ =~= old(s)@ + display_name(*f, symbol_view(symbols)));
    } else {
        s.append(f.name.as_str());
    }
}

fn push_outcome(s: &mut String, count: u64)
    ensures
        final(s)@ == old(s)@ + outcome_text(count),
{
    if count > 0 {
        push_dec(s, count);
    } else {
        s.append("-");
    }
}

/// Appends the function sections and returns how many functions had their entry hit.
fn push_functions(
    s: &mut String,
    fs: &Vec<FunctionInfo>,
    symbols: Option<&HashMap<usize, String>>,
    hits: &HashMap<usize, u64>,
) -> (n: usize)
    requires
        forall|i: int| 0 <= i < fs@.len() ==> (#[trigger] fs@[i]).entry_pc < usize::MAX,
    ensures
        final(s)@ == old(s)@ + fn_lines(fs@, symbol_view(symbols)) + fnda_lines(fs@, symbol_view(symbols), hits@),
        n == entries_hit(fs@, hits@),
{
    let ghost sym = symbol_view(symbols);
    let mut i: usize = 0;
    while i < fs.len()
        invariant
            i <= fs@.len(),
            sym == symbol_view(symbols),
            forall|k: int| 0 <= k < fs@.len() ==> (#[trigger] fs@[k]).entry_pc < usize::MAX,
            s@ == old(s)@ + fn_lines(fs@.take(i as int), sym),
        decreases fs.len() - i,
    {
        s.append("FN:");
        push_dec_usize(s, fs[i].entry_pc + 1);
        s.append(",");
        push_display_name(s, &fs[i], symbols);
        s.append("\n");
        assert(fs@.take(i + 1).drop_last() =~= fs@.take(i as int));
        assert(s@ =~= old(s)@ + fn_lines(fs@.take(i + 1), sym));
        i += 1;
    }
    assert(fs@.take(i as int) =~= fs@);
    let ghost mid = s@;
    let mut n: usize = 0;
    let mut j: usize = 0;
    while j < fs.len()
        invariant
            j <= fs@.len(),
            n <= j,
            sym == symbol_view(symbols),
            s@ == mid + fnda_lines(fs@.take(j as int), sym, hits@),
            n == entries_hit(fs@.take(j as int), hits@),
        decreases fs.len() - j,
    {
        let count: u64 = lookup_count(hits, fs[j].entry_pc);
        s.append("FNDA:");
        push_dec(s, count);
        s.append(",");
        push_display_name(s, &fs[j], symbols);
        s.append("\n");
        if count > 0 {
            n += 1;
        }
        assert(fs@.take(j + 1).drop_last() =~= fs@.take(j as int));
        assert(s@ =~= mid + fnda_lines(fs@.take(j + 1), sym, hits@));
        j += 1;
    }
    assert(fs@.take(j as int) =~= fs@);
    n
}

/// Appends one line for each program counter that has a count.
fn push_line_data(s: &mut String, pcs: &Vec<usize>, hits: &HashMap<usize, u64>)
    requires
        forall|i: int| 0 <= i < pcs@.len() ==> #[trigger] pcs@[i] < usize::MAX,
    ensures
        final(s)@ == old(s)@ + da_lines(pcs@, hits@),
{
    let mut i: usize = 0;
    while i < pcs.len()
        invariant
            i <= pcs@.len(),
            forall|k: int| 0 <= k < pcs@.len() ==> #[trigger] pcs@[k] < usize::MAX,
            s@ == old(s)@ + da_lines(pcs@.take(i as int), hits@),
        decreases pcs.len() - i,
    {
        s.append("DA:");
        push_dec_usize(s, pcs[i] + 1);
        s.append(",");
        push_dec(s, lookup_count(hits, pcs[i]));
        s.append("\n");
        assert(pcs@.take(i + 1).drop_last() =~= pcs@.take(i as int));
        assert(s@ =~= old(s)@ + da_lines(pcs@.take(i + 1), hits@));
        i += 1;
    }
    assert(pcs@.take(i as int) =~= pcs@);
}

/// The two lines of one branch.
pub fn branch_lines(line: u64, block: u64, taken: u64, not_taken: u64) -> (s: String)
    ensures
        s@ == branch_item(line as nat, block as nat, taken, not_taken),
{
    let mut s = String::from_str("BRDA:");
    push_dec(&mut s, line);
    s.append(",");
    push_dec(&mut s, block);
    s.append(",0,");
    push_outcome(&mut s, taken);
    s.append("\nBRDA:");
    push_dec(&mut s, line);
    s.append(",");
    push_dec(&mut s, block);
    s.append(",1,");
    push_outcome(&mut s, not_taken);
    s.append("\n");
    s
}

/// Appends two lines for each branch and returns how many outcomes happened.
fn push_branch_data(s: &mut String, pcs: &Vec<usize>, outcomes: &BranchOutcomes) -> (n: u64)
    requires
        forall|i: int| 0 <= i < pcs@.len() ==> #[trigger] pcs@[i] < usize::MAX,
        2 * pcs@.len() <= u64::MAX,
    ensures
        final(s)@ == old(s)@ + brda_lines(pcs@, outcomes.taken@, outcomes.not_taken@),
        n == outcomes_hit(pcs@, outcomes.taken@, outcomes.not_taken@),
{
    let mut n: u64 = 0;
    let mut i: usize = 0;
    while i < pcs.len()
        invariant
            i <= pcs@.len(),
            2 * pcs@.len() <= u64::MAX,
            n <= 2 * i,
            forall|k: int| 0 <= k < pcs@.len() ==> #[trigger] pcs@[k] < usize::MAX,
            s@ == old(s)@ + brda_lines(pcs@.take(i as int), outcomes.taken@, outcomes.not_taken@),
            n == outcomes_hit(pcs@.take(i as int), outcomes.taken@, outcomes.not_taken@),
        decreases pcs.len() - i,
    {
        let taken: u64 = lookup_count(&outcomes.taken, pcs[i]);
        let not_taken: u64 = lookup_count(&outcomes.not_taken, pcs[i]);
        let item = branch_lines(pcs[i] as u64 + 1, i as u64, taken, not_taken);
        s.append(item.as_str());
        if taken > 0 {
            n += 1;
        }
        if not_taken > 0 {
            n += 1;
        }
        assert(pcs@.take(i + 1).drop_last() =~= pcs@.take(i as int));
        assert(s@ =~= old(s)@ + brda_lines(pcs@.take(i + 1), outcomes.taken@, outcomes.not_taken@));
        i += 1;
    }
    assert(pcs@.take(i as int) =~= pcs@);
    n
}

/// The branches that are recorded, in increasing order.
pub fn sorted_branches(outcomes: &BranchOutcomes) -> (r: Vec<usize>)
    ensures
        r@ == crate::order::listing(outcomes.branches()),
        crate::order::lists(r@, outcomes.branches()),
{
    let mut all = sorted_keys(&outcomes.taken);
    let mut more = sorted_keys(&outcomes.not_taken);
    let ghost a = all@;
    let ghost b = more@;
    all.append(&mut more);
    proof {
        assert forall|k: usize| all@.to_set().contains(k) <==> outcomes.branches().contains(k) by {
            if a.contains(k) {
                let i = choose|i: int| 0 <= i < a.len() && a[i] == k;
                assert(all@[i] == k);
            }
            if b.contains(k) {
                let i = choose|i: int| 0 <= i < b.len() && b[i] == k;
                assert(all@[a.len() + i] == k);
            }
            if all@.contains(k) {
                let i = choose|i: int| 0 <= i < all@.len() && all@[i] == k;
                if i < a.len() {
                    assert(a.contains(a[i]));
                } else {
                    assert(b.contains(b[i - a.len()]));
                }
            }
        }
        assert(all@.to_set() =~= outcomes.branches());
    }
    sort_distinct(&all)
}

/// The LCOV record of a program at the level of program counters. LCOV counts lines from one, so
/// every program counter is written one higher. Functions come in the order of their entry, counts
/// and branches in the order of their program counters.
pub fn generate_bytecode_lcov(
    program_name: &str,
    pc_hits: &HashMap<usize, u64>,
    branch_outcomes: &BranchOutcomes,
    functions: &[FunctionInfo],
    total_instructions: usize,
    total_branches: usize,
    symbol_names: Option<&HashMap<usize, String>>,
) -> (record: String)
    requires
        total_branches * 2 <= usize::MAX,
        2 * branch_outcomes.branches().len() <= u64::MAX,
        forall|pc: usize| pc_hits@.contains_key(pc) ==> pc < usize::MAX,
        forall|pc: usize| branch_outcomes.branches().contains(pc) ==> pc < usize::MAX,
        forall|i: int| 0 <= i < functions@.len() ==> (#[trigger] functions@[i]).entry_pc < usize::MAX,
    ensures
        record@ == bytecode_record(
            program_name@,
            pc_hits@,
            branch_outcomes.taken@,
            branch_outcomes.not_taken@,
            functions@,
            total_instructions as nat,
            total_branches as nat,
            symbol_view(symbol_names),
        ),
{
    broadcast use vstd::std_specs::hash::group_hash_axioms;
    let fs = sort_by_entry(functions);
    let pcs = sorted_keys(pc_hits);
    let branches = sorted_branches(branch_outcomes);
    proof {
        crate::order::lemma_listing_len(branches@, branch_outcomes.branches());
        assert forall|i: int| 0 <= i < pcs@.len() implies #[trigger] pcs@[i] < usize::MAX by {
            assert(pcs@.contains(pcs@[i]));
        }
        assert forall|i: int| 0 <= i < branches@.len() implies #[trigger] branches@[i] < usize::MAX by {
            assert(branches@.contains(branches@[i]));
        }
        assert forall|i: int| 0 <= i < fs@.len() implies (#[trigger] fs@[i]).entry_pc < usize::MAX by {
            assert(functions@.contains(fs@[i]));
        }
    }
    let mut s = String::from_str("TN:fuzzer\nSF:");
    s.append(program_name);
    s.append(".bpf\n");
    let functions_hit: usize = push_functions(&mut s, &fs, symbol_names, pc_hits);
    s.append("FNF:");
    push_dec_usize(&mut s, fs.len());
    s.append("\nFNH:");
    push_dec_usize(&mut s, functions_hit);
    s.append("\n");
    push_line_data(&mut s, &pcs, pc_hits);
    s.append("LF:");
    push_dec_usize(&mut s, total_instructions);
    s.append("\nLH:");
    push_dec_usize(&mut s, pc_hits.len());
    s.append("\n");
    let branches_hit: u64 = push_branch_data(&mut s, &branches, branch_outcomes);
    s.append("BRF:");
    push_dec_usize(&mut s, total_branches * 2);
    s.append("\nBRH:");
    push_dec(&mut s, branches_hit);
    s.append("\nend_of_record\n");
    s
}

/// No more functions are hit than there are, and no more outcomes than two for each branch.
pub proof fn lemma_hits_within(
    fs: Seq<FunctionInfo>,
    hits: Map<usize, u64>,
    branches: Seq<usize>,
    taken: Map<usize, u64>,
    not_taken: Map<usize, u64>,
)
    ensures
        entries_hit(fs, hits) <= fs.len(),
        outcomes_hit(branches, taken, not_taken) <= 2 * branches.len(),
    decreases fs.len() + branches.len(),
{
    if fs.len() > 0 {
        lemma_hits_within(fs.drop_last(), hits, branches, taken, not_taken);
    }
    if branches.len() > 0 {
        lemma_hits_within(fs, hits, branches.drop_last(), taken, not_taken);
    }
}

} // verus!
