//! What the records at the level of program counters say of the counts they are made from.
use vstd::prelude::*;
#[allow(unused_imports)]
use crate::coverage::lcov::{
    brda_lines, by_entry, bytecode_record, da_lines, entries_hit, entry_leq, fn_lines, fnda_lines, outcomes_hit,
};
#[allow(unused_imports)]
use crate::coverage::types::FunctionInfo;
#[allow(unused_imports)]
use crate::order::{lemma_has_listing, lemma_listing_len, listing};
#[allow(unused_imports)]
use crate::text::dec;

verus! {

/// As many members of a list without repetition satisfy `p` as of its set.
pub(crate) proof fn lemma_counted<A>(s: Seq<A>, p: spec_fn(A) -> bool)
    requires
        s.no_duplicates(),
    ensures
        s.filter(p).len() == s.to_set().filter(p).len(),
        s.to_set().filter(p).finite(),
    decreases s.len(),
{
    reveal(Seq::filter);
    s.unique_seq_to_set();
    if s.len() == 0 {
        assert(s.to_set().filter(p) =~= Set::empty());
    } else {
        let d = s.drop_last();
        lemma_counted(d, p);
        assert(!d.contains(s.last())) by {
            if d.contains(s.last()) {
                let i = choose|i: int| 0 <= i < d.len() && d[i] == s.last();
                assert(s[i] == s[s.len() - 1]);
            }
        }
        assert(s =~= d.push(s.last()));
        assert forall|x: A| s.contains(x) <==> d.contains(x) || x == s.last() by {
            if s.contains(x) {
                let i = choose|i: int| 0 <= i < s.len() && s[i] == x;
                if i < d.len() {
                    assert(d[i] == x);
                }
            }
            if d.contains(x) {
                let i = choose|i: int| 0 <= i < d.len() && d[i] == x;
                assert(s[i] == x);
            }
            assert(s[s.len() - 1] == s.last());
        }
        if p(s.last()) {
            assert(s.to_set().filter(p) =~= d.to_set().filter(p).insert(s.last()));
        } else {
            assert(s.to_set().filter(p) =~= d.to_set().filter(p));
        }
    }
}

/// The listing of a finite set holds its members, each once.
pub(crate) proof fn lemma_listed(dom: Set<usize>)
    requires
        dom.finite(),
    ensures
        listing(dom).no_duplicates(),
        listing(dom).to_set() == dom,
        listing(dom).len() == dom.len(),
        forall|i: int, j: int| 0 <= i < j < listing(dom).len() ==> listing(dom)[i] < listing(dom)[j],
{
    lemma_has_listing(dom);
    lemma_listing_len(listing(dom), dom);
    assert(listing(dom).to_set() =~= dom);
}

proof fn lemma_outcomes(pcs: Seq<usize>, taken: Map<usize, u64>, not_taken: Map<usize, u64>)
    ensures
        outcomes_hit(pcs, taken, not_taken) == pcs.filter(|pc: usize| taken.contains_key(pc) && taken[pc] > 0).len()
            + pcs.filter(|pc: usize| not_taken.contains_key(pc) && not_taken[pc] > 0).len(),
    decreases pcs.len(),
{
    reveal(Seq::filter);
    if pcs.len() > 0 {
        lemma_outcomes(pcs.drop_last(), taken, not_taken);
    }
}

/// The outcomes that are counted as hit are the pairs of a branch and an outcome with a count above zero.
pub proof fn lemma_outcomes_are_counted(taken: Map<usize, u64>, not_taken: Map<usize, u64>)
    requires
        taken.dom().finite(),
        not_taken.dom().finite(),
    ensures
        outcomes_hit(listing(taken.dom().union(not_taken.dom())), taken, not_taken) == taken.dom().filter(
            |pc: usize| taken[pc] > 0,
        ).len() + not_taken.dom().filter(|pc: usize| not_taken[pc] > 0).len(),
{
    let dom = taken.dom().union(not_taken.dom());
    let pcs = listing(dom);
    let p = |pc: usize| taken.contains_key(pc) && taken[pc] > 0;
    let q = |pc: usize| not_taken.contains_key(pc) && not_taken[pc] > 0;
    lemma_listed(dom);
    lemma_outcomes(pcs, taken, not_taken);
    lemma_counted(pcs, p);
    lemma_counted(pcs, q);
    assert(dom.filter(p) =~= taken.dom().filter(|pc: usize| taken[pc] > 0));
    assert(dom.filter(q) =~= not_taken.dom().filter(|pc: usize| not_taken[pc] > 0));
}

proof fn lemma_entries(fs: Seq<FunctionInfo>, hits: Map<usize, u64>)
    ensures
        entries_hit(fs, hits) == fs.to_multiset().filter(
            |f: FunctionInfo| hits.contains_key(f.entry_pc) && hits[f.entry_pc] > 0,
        ).len(),
    decreases fs.len(),
{
    broadcast use vstd::seq_lib::group_to_multiset_ensures;
    broadcast use vstd::multiset::group_multiset_axioms;

    let p = |f: FunctionInfo| hits.contains_key(f.entry_pc) && hits[f.entry_pc] > 0;
    if fs.len() == 0 {
        assert(fs.to_multiset().filter(p) =~= vstd::multiset::Multiset::empty());
    } else {
        let d = fs.drop_last();
        lemma_entries(d, hits);
        assert(fs =~= d.push(fs.last()));
        assert(fs.to_multiset() =~= d.to_multiset().insert(fs.last()));
        if p(fs.last()) {
            assert(fs.to_multiset().filter(p) =~= d.to_multiset().filter(p).insert(fs.last()));
        } else {
            assert(fs.to_multiset().filter(p) =~= d.to_multiset().filter(p));
        }
    }
}

proof fn lemma_fn_items(fs: Seq<FunctionInfo>, symbols: Option<Map<usize, String>>)
    ensures
        fn_lines(fs, symbols) == Seq::new(
            fs.len(),
            |i: int|
                "FN:"@ + dec((fs[i].entry_pc + 1) as nat) + ","@ + (if symbols is Some && symbols->0.contains_key(fs[i].entry_pc) {
                    symbols->0[fs[i].entry_pc]@
                } else if fs[i].name@.len() > 0 {
                    fs[i].name@
                } else {
                    "fn_"@ + dec(fs[i].entry_pc as nat)
                }) + "\n"@,
        ).flatten_alt(),
    decreases fs.len(),
{
    let a = Seq::new(
        fs.len(),
        |i: int|
            "FN:"@ + dec((fs[i].entry_pc + 1) as nat) + ","@ + (if symbols is Some && symbols->0.contains_key(fs[i].entry_pc) {
                    symbols->0[fs[i].entry_pc]@
                } else if fs[i].name@.len() > 0 {
                    fs[i].name@
                } else {
                    "fn_"@ + dec(fs[i].entry_pc as nat)
                }) + "\n"@,
    );
    if fs.len() > 0 {
        let d = fs.drop_last();
        lemma_fn_items(d, symbols);
        let da = Seq::new(
            d.len(),
            |i: int|
                "FN:"@ + dec((d[i].entry_pc + 1) as nat) + ","@ + (if symbols is Some && symbols->0.contains_key(d[i].entry_pc) {
                    symbols->0[d[i].entry_pc]@
                } else if d[i].name@.len() > 0 {
                    d[i].name@
                } else {
                    "fn_"@ + dec(d[i].entry_pc as nat)
                }) + "\n"@,
        );
        assert(a.drop_last() =~= da);
        assert(fn_lines(fs, symbols) =~= da.flatten_alt() + a.last());
    }
    assert(fn_lines(fs, symbols) =~= a.flatten_alt());
}

proof fn lemma_fnda_items(fs: Seq<FunctionInfo>, symbols: Option<Map<usize, String>>, hits: Map<usize, u64>)
    ensures
        fnda_lines(fs, symbols, hits) == Seq::new(
            fs.len(),
            |i: int|
                "FNDA:"@ + dec(
                    if hits.contains_key(fs[i].entry_pc) {
                        hits[fs[i].entry_pc] as nat
                    } else {
                        0
                    },
                ) + ","@ + (if symbols is Some && symbols->0.contains_key(fs[i].entry_pc) {
                    symbols->0[fs[i].entry_pc]@
                } else if fs[i].name@.len() > 0 {
                    fs[i].name@
                } else {
                    "fn_"@ + dec(fs[i].entry_pc as nat)
                }) + "\n"@,
        ).flatten_alt(),
    decreases fs.len(),
{
    let a = Seq::new(
        fs.len(),
        |i: int|
            "FNDA:"@ + dec(
                    if hits.contains_key(fs[i].entry_pc) {
                        hits[fs[i].entry_pc] as nat
                    } else {
                        0
                    },
                ) + ","@ + (if symbols is Some && symbols->0.contains_key(fs[i].entry_pc) {
                    symbols->0[fs[i].entry_pc]@
                } else if fs[i].name@.len() > 0 {
                    fs[i].name@
                } else {
                    "fn_"@ + dec(fs[i].entry_pc as nat)
                }) + "\n"@,
    );
    if fs.len() > 0 {
        let d = fs.drop_last();
        lemma_fnda_items(d, symbols, hits);
        let da = Seq::new(
            d.len(),
            |i: int|
                "FNDA:"@ + dec(
                    if hits.contains_key(d[i].entry_pc) {
                        hits[d[i].entry_pc] as nat
                    } else {
                        0
                    },
                ) + ","@ + (if symbols is Some && symbols->0.contains_key(d[i].entry_pc) {
                    symbols->0[d[i].entry_pc]@
                } else if d[i].name@.len() > 0 {
                    d[i].name@
                } else {
                    "fn_"@ + dec(d[i].entry_pc as nat)
                }) + "\n"@,
        );
        assert(a.drop_last() =~= da);
        assert(fnda_lines(fs, symbols, hits) =~= da.flatten_alt() + a.last());
    }
    assert(fnda_lines(fs, symbols, hits) =~= a.flatten_alt());
}

proof fn lemma_da_items(pcs: Seq<usize>, hits: Map<usize, u64>)
    requires
        forall|i: int| 0 <= i < pcs.len() ==> hits.contains_key(#[trigger] pcs[i]),
    ensures
        da_lines(pcs, hits) == Seq::new(
            pcs.len(),
            |i: int| "DA:"@ + dec((pcs[i] + 1) as nat) + ","@ + dec(hits[pcs[i]] as nat) + "\n"@,
        ).flatten_alt(),
    decreases pcs.len(),
{
    let a = Seq::new(pcs.len(), |i: int| "DA:"@ + dec((pcs[i] + 1) as nat) + ","@ + dec(hits[pcs[i]] as nat) + "\n"@);
    if pcs.len() > 0 {
        let d = pcs.drop_last();
        assert forall|i: int| 0 <= i < d.len() implies hits.contains_key(#[trigger] d[i]) by {
            assert(d[i] == pcs[i]);
        }
        lemma_da_items(d, hits);
        let da = Seq::new(d.len(), |i: int| "DA:"@ + dec((d[i] + 1) as nat) + ","@ + dec(hits[d[i]] as nat) + "\n"@);
        assert(a.drop_last() =~= da);
        assert(hits.contains_key(pcs[pcs.len() - 1]));
        assert(da_lines(pcs, hits) =~= da.flatten_alt() + a.last());
    }
    assert(da_lines(pcs, hits) =~= a.flatten_alt());
}

proof fn lemma_brda_items(pcs: Seq<usize>, taken: Map<usize, u64>, not_taken: Map<usize, u64>)
    ensures
        brda_lines(pcs, taken, not_taken) == Seq::new(
            pcs.len(),
            |i: int|
                "BRDA:"@ + dec((pcs[i] + 1) as nat) + ","@ + dec(i as nat) + ",0,"@ + (if taken.contains_key(pcs[i])
                    && taken[pcs[i]] != 0 {
                    dec(taken[pcs[i]] as nat)
                } else {
                    "-"@
                }) + "\nBRDA:"@ + dec((pcs[i] + 1) as nat) + ","@ + dec(i as nat) + ",1,"@ + (
                if not_taken.contains_key(pcs[i]) && not_taken[pcs[i]] != 0 {
                    dec(not_taken[pcs[i]] as nat)
                } else {
                    "-"@
                }) + "\n"@,
        ).flatten_alt(),
    decreases pcs.len(),
{
    let a = Seq::new(
        pcs.len(),
        |i: int|
            "BRDA:"@ + dec((pcs[i] + 1) as nat) + ","@ + dec(i as nat) + ",0,"@ + (if taken.contains_key(pcs[i])
                && taken[pcs[i]] != 0 {
                dec(taken[pcs[i]] as nat)
            } else {
                "-"@
            }) + "\nBRDA:"@ + dec((pcs[i] + 1) as nat) + ","@ + dec(i as nat) + ",1,"@ + (
            if not_taken.contains_key(pcs[i]) && not_taken[pcs[i]] != 0 {
                dec(not_taken[pcs[i]] as nat)
            } else {
                "-"@
            }) + "\n"@,
    );
    if pcs.len() > 0 {
        let d = pcs.drop_last();
        lemma_brda_items(d, taken, not_taken);
        let da = Seq::new(
            d.len(),
            |i: int|
                "BRDA:"@ + dec((d[i] + 1) as nat) + ","@ + dec(i as nat) + ",0,"@ + (if taken.contains_key(d[i])
                    && taken[d[i]] != 0 {
                    dec(taken[d[i]] as nat)
                } else {
                    "-"@
                }) + "\nBRDA:"@ + dec((d[i] + 1) as nat) + ","@ + dec(i as nat) + ",1,"@ + (
                if not_taken.contains_key(d[i]) && not_taken[d[i]] != 0 {
                    dec(not_taken[d[i]] as nat)
                } else {
                    "-"@
                }) + "\n"@,
        );
        assert(a.drop_last() =~= da);
        assert(brda_lines(pcs, taken, not_taken) =~= da.flatten_alt() + a.last());
    }
    assert(brda_lines(pcs, taken, not_taken) =~= a.flatten_alt());
}

/// The record of a program, line by line. The functions are those given, in the order of their entries; each
/// is listed with its entry counted from one, and again with the hits of its entry. Every program counter
/// with a count has one line, in increasing order, with just that count. Every branch with a count for either
/// outcome has two lines, the first for taken, the second for not taken. The totals are how many functions
/// there are and how many of them were entered, how many instructions there are and how many counters have
/// a count, two outcomes for each branch there is, and the pairs of a branch and an outcome that happened.
pub proof fn lemma_record_says(
    program_name: Seq<char>,
    hits: Map<usize, u64>,
    taken: Map<usize, u64>,
    not_taken: Map<usize, u64>,
    functions: Seq<FunctionInfo>,
    total_instructions: nat,
    total_branches: nat,
    symbols: Option<Map<usize, String>>,
)
    requires
        hits.dom().finite(),
        taken.dom().finite(),
        not_taken.dom().finite(),
    ensures
        exists|fs: Seq<FunctionInfo>, pcs: Seq<usize>, brs: Seq<usize>|
            #![trigger fs.to_multiset(), pcs.to_set(), brs.to_set()]
            {
                &&& fs.to_multiset() == functions.to_multiset()
                &&& forall|i: int, j: int| 0 <= i < j < fs.len() ==> fs[i].entry_pc <= fs[j].entry_pc
                &&& pcs.to_set() == hits.dom()
                &&& forall|i: int, j: int| 0 <= i < j < pcs.len() ==> pcs[i] < pcs[j]
                &&& brs.to_set() == taken.dom().union(not_taken.dom())
                &&& forall|i: int, j: int| 0 <= i < j < brs.len() ==> brs[i] < brs[j]
                &&& bytecode_record(
                    program_name,
                    hits,
                    taken,
                    not_taken,
                    functions,
                    total_instructions,
                    total_branches,
                    symbols,
                ) == "TN:fuzzer\nSF:"@ + program_name + ".bpf\n"@ + Seq::new(
                    fs.len(),
                    |i: int|
                        "FN:"@ + dec((fs[i].entry_pc + 1) as nat) + ","@ + (if symbols is Some
                            && symbols->0.contains_key(fs[i].entry_pc) {
                            symbols->0[fs[i].entry_pc]@
                        } else if fs[i].name@.len() > 0 {
                            fs[i].name@
                        } else {
                            "fn_"@ + dec(fs[i].entry_pc as nat)
                        }) + "\n"@,
                ).flatten_alt() + Seq::new(
                    fs.len(),
                    |i: int|
                        "FNDA:"@ + dec(
                            if hits.contains_key(fs[i].entry_pc) {
                                hits[fs[i].entry_pc] as nat
                            } else {
                                0
                            },
                        ) + ","@ + (if symbols is Some && symbols->0.contains_key(fs[i].entry_pc) {
                            symbols->0[fs[i].entry_pc]@
                        } else if fs[i].name@.len() > 0 {
                            fs[i].name@
                        } else {
                            "fn_"@ + dec(fs[i].entry_pc as nat)
                        }) + "\n"@,
                ).flatten_alt() + "FNF:"@ + dec(functions.len()) + "\nFNH:"@ + dec(
                    functions.to_multiset().filter(
                        |f: FunctionInfo| hits.contains_key(f.entry_pc) && hits[f.entry_pc] > 0,
                    ).len(),
                ) + "\n"@ + Seq::new(
                    pcs.len(),
                    |i: int| "DA:"@ + dec((pcs[i] + 1) as nat) + ","@ + dec(hits[pcs[i]] as nat) + "\n"@,
                ).flatten_alt() + "LF:"@ + dec(total_instructions) + "\nLH:"@ + dec(hits.dom().len()) + "\n"@ + Seq::new(
                    brs.len(),
                    |i: int|
                        "BRDA:"@ + dec((brs[i] + 1) as nat) + ","@ + dec(i as nat) + ",0,"@ + (
                        if taken.contains_key(brs[i]) && taken[brs[i]] != 0 {
                            dec(taken[brs[i]] as nat)
                        } else {
                            "-"@
                        }) + "\nBRDA:"@ + dec((brs[i] + 1) as nat) + ","@ + dec(i as nat) + ",1,"@ + (
                        if not_taken.contains_key(brs[i]) && not_taken[brs[i]] != 0 {
                            dec(not_taken[brs[i]] as nat)
                        } else {
                            "-"@
                        }) + "\n"@,
                ).flatten_alt() + "BRF:"@ + dec(2 * total_branches) + "\nBRH:"@ + dec(
                    taken.dom().filter(|pc: usize| taken[pc] > 0).len() + not_taken.dom().filter(
                        |pc: usize| not_taken[pc] > 0,
                    ).len(),
                ) + "\nend_of_record\n"@
            },
{
    let fs = by_entry(functions);
    let pcs = listing(hits.dom());
    let brs = listing(taken.dom().union(not_taken.dom()));
    lemma_listed(hits.dom());
    lemma_listed(taken.dom().union(not_taken.dom()));
    crate::sorting::lemma_sorted_permutes(functions, entry_leq());
    crate::sorting::lemma_sorted_in_order(functions, entry_leq());
    assert forall|i: int, j: int| 0 <= i < j < fs.len() implies fs[i].entry_pc <= fs[j].entry_pc by {
        assert(entry_leq()(fs[i], fs[j]));
    }
    assert forall|i: int| 0 <= i < pcs.len() implies hits.contains_key(#[trigger] pcs[i]) by {
        assert(pcs.to_set().contains(pcs[i]));
    }
    lemma_outcomes_are_counted(taken, not_taken);
    lemma_entries(fs, hits);
    lemma_fn_items(fs, symbols);
    lemma_fnda_items(fs, symbols, hits);
    lemma_da_items(pcs, hits);
    lemma_brda_items(brs, taken, not_taken);
    assert(fs.to_multiset() == functions.to_multiset() && pcs.to_set() == hits.dom() && brs.to_set() == taken.dom().union(
        not_taken.dom(),
    ));
}

} // verus!
