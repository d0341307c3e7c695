//! Plain data that the coverage reports are made from.
use vstd::prelude::*;
use std::collections::HashMap;

verus! {

/// A function of a program: its name, possibly empty, and the program counter it starts at.
pub struct FunctionInfo {
    pub name: String,
    pub entry_pc: usize,
}

impl FunctionInfo {
    /// A copy.
    pub fn copy(&self) -> (r: FunctionInfo)
        ensures
            r == *self,
    {
        FunctionInfo { name: self.name.clone(), entry_pc: self.entry_pc }
    }
}

/// A line of a source file.
pub struct SourceLocation {
    pub file: String,
    pub line: u32,
}

impl SourceLocation {
    /// A copy.
    pub fn copy(&self) -> (r: SourceLocation)
        ensures
            r == *self,
    {
        SourceLocation { file: self.file.clone(), line: self.line }
    }
}

/// Some lines of a source file.
pub struct FileLines {
    pub file: String,
    pub lines: Vec<u32>,
}

/// Where the instructions of a program come from.
pub struct DwarfSourceMap {
    /// The source locations of a program counter, from the innermost inlined function outwards.
    pub pc_map: HashMap<usize, Vec<SourceLocation>>,
    /// The name and the place of the function that starts at a program counter.
    pub fn_map: HashMap<usize, (String, SourceLocation)>,
    /// The lines of each file that the compiler made code for.
    pub executable_lines: Vec<FileLines>,
}

/// How often each conditional branch was taken and how often it fell through, by the program
/// counter of the branch.
pub struct BranchOutcomes {
    pub taken: HashMap<usize, u64>,
    pub not_taken: HashMap<usize, u64>,
}

impl BranchOutcomes {
    /// The branches that are recorded, with either outcome.
    pub open spec fn branches(&self) -> Set<usize> {
        self.taken@.dom().union(self.not_taken@.dom())
    }

    /// No branch recorded.
    pub fn new() -> (r: BranchOutcomes)
        ensures
            r.taken@ == Map::<usize, u64>::empty(),
            r.not_taken@ == Map::<usize, u64>::empty(),
    {
        BranchOutcomes { taken: HashMap::new(), not_taken: HashMap::new() }
    }

    /// Records the count of one outcome of the branch at `pc`.
    pub fn set(&mut self, pc: usize, was_taken: bool, count: u64)
        ensures
            was_taken ==> final(self).taken@ == old(self).taken@.insert(pc, count)
                && final(self).not_taken@ == old(self).not_taken@,
            !was_taken ==> final(self).not_taken@ == old(self).not_taken@.insert(pc, count)
                && final(self).taken@ == old(self).taken@,
    {
        broadcast use vstd::std_specs::hash::group_hash_axioms;
        if was_taken {
            self.taken.insert(pc, count);
        } else {
            self.not_taken.insert(pc, count);
        }
    }
}

/// The count recorded for `pc`, zero where there is none.
pub open spec fn count_at(counts: Map<usize, u64>, pc: usize) -> u64 {
    if counts.contains_key(pc) { counts[pc] } else { 0 }
}

/// The count recorded for `pc`, zero where there is none.
pub fn lookup_count(counts: &HashMap<usize, u64>, pc: usize) -> (n: u64)
    ensures
        n == count_at(counts@, pc),
{
    broadcast use vstd::std_specs::hash::group_hash_axioms;
    match counts.get(&pc) {
        Some(n) => *n,
        None => 0,
    }
}

} // verus!
