//! References between accounts: an account whose data holds the address of another.
use vstd::prelude::*;
use litesvm::LiteSVM;
use crate::ids::is_known_sysvar;
#[allow(unused_imports)]
use crate::ids::known_sysvar;
use crate::keyorder::{drop_repeats, key_less, sort_keys};
#[allow(unused_imports)]
use crate::keyorder::{distinct, key_sorted, lemma_key_sorted};
#[allow(unused_imports)]
use crate::lexical::{bytes_lt, lemma_bytes_order};
use crate::mutation::accounts::{instruction_account_keys_ordered, list_pairs};
#[allow(unused_imports)]
use crate::mutation::accounts::{account_keys, all_pairs, lemma_slot_keys, pairs_at, pairs_upto};
use crate::mutation::classes::AccountClassIndex;
#[allow(unused_imports)]
use crate::mutation::classes::{replacements, scope, Scope};
use crate::mutation::effects::AccountMutationConfig;
use crate::svm::svm_get_account;
#[allow(unused_imports)]
use crate::svm::account_at;
use crate::token::is_spl_token_shape;
#[allow(unused_imports)]
use crate::token::spl_shape;
use crate::types::{add_key, copy_keys, has_key, Instruction, Pubkey};
#[allow(unused_imports)]
use crate::types::{ix_views, lemma_key_ext, lemma_with_key, slots_of, zero_key, InstructionView};

verus! {

/// The bytes of `k` stand in the data at `at`.
pub open spec fn key_at(data: Seq<u8>, k: Pubkey, at: int) -> bool {
    0 <= at && at + 32 <= data.len() && data.subrange(at, at + 32) == k@
}

/// The bytes of `k` stand somewhere in the data.
pub open spec fn holds_address(data: Seq<u8>, k: Pubkey) -> bool {
    exists|at: int| #[trigger] key_at(data, k, at)
}

/// Whether the bytes of an address stand in the data at `at`.
pub fn is_key_at(data: &[u8], pubkey: &Pubkey, at: usize) -> (r: bool)
    ensures
        r == key_at(data@, *pubkey, at as int),
{
    if at > data.len() || data.len() - at < 32 {
        return false;
    }
    let mut i: usize = 0;
    while i < 32
        invariant
            i <= 32,
            at + 32 <= data@.len(),
            at + 32 <= usize::MAX,
            forall|j: int| 0 <= j < i ==> data@[at + j] == pubkey@[j],
        decreases 32 - i,
    {
        if data[at + i] != pubkey.bytes[i] {
            proof {
                assert(data@.subrange(at as int, at + 32)[i as int] != pubkey@[i as int]);
            }
            return false;
        }
        i += 1;
    }
    assert(data@.subrange(at as int, at + 32) =~= pubkey@);
    true
}

/// Whether the bytes of an address stand somewhere in the data.
pub fn data_contains_pubkey(data: &[u8], pubkey: &Pubkey) -> (r: bool)
    ensures
        r == holds_address(data@, *pubkey),
{
    let mut i: usize = 0;
    while i < data.len()
        invariant
            i <= data@.len(),
            forall|j: int| j < i ==> !key_at(data@, *pubkey, j),
        decreases data.len() - i,
    {
        if is_key_at(data, pubkey, i) {
            return true;
        }
        i += 1;
    }
    false
}

/// The data of one account holds the address of another.
#[derive(Clone, Copy, Debug, PartialEq, Eq)]
pub struct FieldRefEdge {
    pub source: Pubkey,
    pub target: Pubkey,
}

/// An account whose references count: neither a sysvar, nor a program, nor empty, nor one of a token
/// program.
pub open spec fn is_source(svm: LiteSVM, k: Pubkey) -> bool {
    !known_sysvar(k) && match account_at(svm, k) {
        Some(a) => !a.executable && a.data.len() > 0 && !spl_shape(a),
        None => false,
    }
}

/// An account to which references count: it exists, and is neither a sysvar, nor the system program,
/// nor one of a token program.
pub open spec fn is_target(svm: LiteSVM, k: Pubkey) -> bool {
    !known_sysvar(k) && k@ != zero_key() && match account_at(svm, k) {
        Some(a) => !spl_shape(a),
        None => false,
    }
}

/// The data of `source` holds the address of `target`, and that counts.
pub open spec fn refers(svm: LiteSVM, source: Pubkey, target: Pubkey) -> bool {
    source != target && is_source(svm, source) && is_target(svm, target) && holds_address(
        account_at(svm, source)->0.data,
        target,
    )
}

/// The references of one account.
pub open spec fn edges_of(svm: LiteSVM, source: Pubkey, targets: Seq<Pubkey>) -> Seq<FieldRefEdge>
    decreases targets.len(),
{
    if targets.len() == 0 {
        Seq::empty()
    } else {
        let before = edges_of(svm, source, targets.drop_last());
        if refers(svm, source, targets.last()) {
            before.push(FieldRefEdge { source, target: targets.last() })
        } else {
            before
        }
    }
}

/// The references from some accounts to some accounts.
pub open spec fn edges_between(svm: LiteSVM, sources: Seq<Pubkey>, targets: Seq<Pubkey>) -> Seq<FieldRefEdge>
    decreases sources.len(),
{
    if sources.len() == 0 {
        Seq::empty()
    } else {
        edges_between(svm, sources.drop_last(), targets) + edges_of(svm, sources.last(), targets)
    }
}

/// The references among the accounts of the instructions, by source and then by target.
pub open spec fn ref_edges(svm: LiteSVM, ixs: Seq<InstructionView>) -> Seq<FieldRefEdge> {
    edges_between(svm, key_sorted(account_keys(ixs)), key_sorted(account_keys(ixs)))
}

fn counts_as_target(svm: &LiteSVM, k: &Pubkey) -> (r: bool)
    ensures
        r == is_target(*svm, *k),
{
    let system = Pubkey::default();
    if is_known_sysvar(k) || k.same_as(&system) {
        return false;
    }
    match svm_get_account(svm, k) {
        Some(a) => !is_spl_token_shape(&a),
        None => false,
    }
}

fn push_edges_of(svm: &LiteSVM, edges: &mut Vec<FieldRefEdge>, source: &Pubkey, targets: &Vec<Pubkey>)
    ensures
        final(edges)@ == old(edges)@ + edges_of(*svm, *source, targets@),
{
    let ghost before = edges@;
    let account = svm_get_account(svm, source);
    let counts = if is_known_sysvar(source) {
        false
    } else {
        match &account {
            Some(a) => !a.executable && a.data.len() > 0 && !is_spl_token_shape(a),
            None => false,
        }
    };
    assert(counts == is_source(*svm, *source));
    let mut i: usize = 0;
    assert(edges@ =~= before + edges_of(*svm, *source, targets@.take(0)));
    while i < targets.len()
        invariant
            i <= targets@.len(),
            counts == is_source(*svm, *source),
            crate::types::opt_account(account) == account_at(*svm, *source),
            edges@ == before + edges_of(*svm, *source, targets@.take(i as int)),
        decreases targets.len() - i,
    {
        let target = targets[i];
        assert(targets@.take(i + 1).drop_last() =~= targets@.take(i as int));
        if counts && !(target == *source) && counts_as_target(svm, &target) {
            match &account {
                Some(a) => {
                    if data_contains_pubkey(a.data.as_slice(), &target) {
                        edges.push(FieldRefEdge { source: *source, target });
                    }
                },
                None => {},
            }
        }
        assert(edges@ =~= before + edges_of(*svm, *source, targets@.take(i + 1)));
        i += 1;
    }
    assert(targets@.take(i as int) =~= targets@);
}

/// The references among the accounts of the instructions, by source and then by target.
pub fn collect_field_ref_edges(svm: &LiteSVM, instructions: &[Instruction]) -> (r: Vec<FieldRefEdge>)
    ensures
        r@ == ref_edges(*svm, ix_views(instructions@)),
{
    let keys = sort_keys(&instruction_account_keys_ordered(instructions));
    let mut r: Vec<FieldRefEdge> = Vec::new();
    let mut i: usize = 0;
    assert(r@ =~= edges_between(*svm, keys@.take(0), keys@));
    while i < keys.len()
        invariant
            i <= keys@.len(),
            r@ == edges_between(*svm, keys@.take(i as int), keys@),
        decreases keys.len() - i,
    {
        assert(keys@.take(i + 1).drop_last() =~= keys@.take(i as int));
        push_edges_of(svm, &mut r, &keys[i], &keys);
        i += 1;
    }
    assert(keys@.take(i as int) =~= keys@);
    r
}

/// Two accounts that are bound to each other: each refers to the other, or both refer to `root`.
#[derive(Clone, Copy, Debug, PartialEq, Eq)]
pub struct BidirectionalRefPair {
    pub left: Pubkey,
    pub right: Pubkey,
    pub root: Option<Pubkey>,
}

/// The accounts of a reference refer to each other; each such pair is counted once, the smaller
/// address first.
pub open spec fn is_mutual(edges: Seq<FieldRefEdge>, e: FieldRefEdge) -> bool {
    bytes_lt(e.source@, e.target@) && edges.contains(FieldRefEdge { source: e.target, target: e.source })
}

/// The accounts that refer to each other.
pub open spec fn mutual_pairs(all: Seq<FieldRefEdge>, edges: Seq<FieldRefEdge>) -> Seq<BidirectionalRefPair>
    decreases edges.len(),
{
    if edges.len() == 0 {
        Seq::empty()
    } else {
        let before = mutual_pairs(all, edges.drop_last());
        let e = edges.last();
        if is_mutual(all, e) {
            before.push(BidirectionalRefPair { left: e.source, right: e.target, root: None })
        } else {
            before
        }
    }
}

/// The accounts that refer to `root`.
pub open spec fn members_of(edges: Seq<FieldRefEdge>, root: Pubkey) -> Seq<Pubkey>
    decreases edges.len(),
{
    if edges.len() == 0 {
        Seq::empty()
    } else {
        let before = members_of(edges.drop_last(), root);
        if edges.last().target == root { before.push(edges.last().source) } else { before }
    }
}

/// Some pairs, bound by `root`.
pub open spec fn bound_by(pairs: Seq<(Pubkey, Pubkey)>, root: Pubkey) -> Seq<BidirectionalRefPair> {
    Seq::new(pairs.len(), |i: int| BidirectionalRefPair { left: pairs[i].0, right: pairs[i].1, root: Some(root) })
}

/// The pairs of accounts that refer to the same root, for some roots.
pub open spec fn rooted_pairs(edges: Seq<FieldRefEdge>, roots: Seq<Pubkey>) -> Seq<BidirectionalRefPair>
    decreases roots.len(),
{
    if roots.len() == 0 {
        Seq::empty()
    } else {
        let before = rooted_pairs(edges, roots.drop_last());
        let root = roots.last();
        if known_sysvar(root) { before } else { before + bound_by(all_pairs(members_of(edges, root)), root) }
    }
}

/// The pairs of accounts that are bound to each other: first those that refer to each other, then
/// those with a root, by root.
pub open spec fn ref_pairs(svm: LiteSVM, ixs: Seq<InstructionView>) -> Seq<BidirectionalRefPair> {
    let edges = ref_edges(svm, ixs);
    mutual_pairs(edges, edges) + rooted_pairs(edges, key_sorted(account_keys(ixs)))
}

fn has_edge(edges: &Vec<FieldRefEdge>, source: &Pubkey, target: &Pubkey) -> (r: bool)
    ensures
        r == edges@.contains(FieldRefEdge { source: *source, target: *target }),
{
    let mut i: usize = 0;
    while i < edges.len()
        invariant
            i <= edges@.len(),
            forall|j: int| 0 <= j < i ==> edges@[j] != (FieldRefEdge { source: *source, target: *target }),
        decreases edges.len() - i,
    {
        if edges[i].source == *source && edges[i].target == *target {
            assert(edges@[i as int] == (FieldRefEdge { source: *source, target: *target }));
            return true;
        }
        i += 1;
    }
    false
}

fn list_members(edges: &Vec<FieldRefEdge>, root: &Pubkey) -> (r: Vec<Pubkey>)
    ensures
        r@ == members_of(edges@, *root),
{
    let mut r: Vec<Pubkey> = Vec::new();
    let mut i: usize = 0;
    while i < edges.len()
        invariant
            i <= edges@.len(),
            r@ == members_of(edges@.take(i as int), *root),
        decreases edges.len() - i,
    {
        assert(edges@.take(i + 1).drop_last() =~= edges@.take(i as int));
        if edges[i].target == *root {
            r.push(edges[i].source);
        }
        i += 1;
    }
    assert(edges@.take(i as int) =~= edges@);
    r
}

fn push_bound(pairs: &mut Vec<BidirectionalRefPair>, found: &Vec<(Pubkey, Pubkey)>, root: &Pubkey)
    ensures
        final(pairs)@ == old(pairs)@ + bound_by(found@, *root),
{
    let ghost before = pairs@;
    let mut i: usize = 0;
    assert(pairs@ =~= before + bound_by(found@, *root).take(0));
    while i < found.len()
        invariant
            i <= found@.len(),
            pairs@ == before + bound_by(found@, *root).take(i as int),
        decreases found.len() - i,
    {
        pairs.push(BidirectionalRefPair { left: found[i].0, right: found[i].1, root: Some(*root) });
        assert(pairs@ =~= before + bound_by(found@, *root).take(i + 1));
        i += 1;
    }
    assert(bound_by(found@, *root).take(i as int) =~= bound_by(found@, *root));
}

/// The pairs of accounts that are bound to each other.
pub fn collect_bidirectional_ref_pairs(svm: &LiteSVM, instructions: &[Instruction]) -> (r: Vec<BidirectionalRefPair>)
    ensures
        r@ == ref_pairs(*svm, ix_views(instructions@)),
{
    let edges = collect_field_ref_edges(svm, instructions);
    let mut pairs: Vec<BidirectionalRefPair> = Vec::new();
    let mut i: usize = 0;
    while i < edges.len()
        invariant
            i <= edges@.len(),
            pairs@ == mutual_pairs(edges@, edges@.take(i as int)),
        decreases edges.len() - i,
    {
        let e = edges[i];
        assert(edges@.take(i + 1).drop_last() =~= edges@.take(i as int));
        if key_less(&e.source, &e.target) && has_edge(&edges, &e.target, &e.source) {
            pairs.push(BidirectionalRefPair { left: e.source, right: e.target, root: None });
        }
        i += 1;
    }
    assert(edges@.take(i as int) =~= edges@);
    let ghost mutual = pairs@;
    let roots = sort_keys(&instruction_account_keys_ordered(instructions));
    let mut j: usize = 0;
    assert(pairs@ =~= mutual + rooted_pairs(edges@, roots@.take(0)));
    while j < roots.len()
        invariant
            j <= roots@.len(),
            pairs@ == mutual + rooted_pairs(edges@, roots@.take(j as int)),
        decreases roots.len() - j,
    {
        let root = roots[j];
        assert(roots@.take(j + 1).drop_last() =~= roots@.take(j as int));
        if !is_known_sysvar(&root) {
            let members = list_members(&edges, &root);
            let found = list_pairs(&members);
            push_bound(&mut pairs, &found, &root);
        }
        assert(pairs@ =~= mutual + rooted_pairs(edges@, roots@.take(j + 1)));
        j += 1;
    }
    assert(roots@.take(j as int) =~= roots@);
    pairs
}

/// With `replacement` in the place of the partner of `counterpart`, the accounts are still bound.
pub open spec fn still_bound(svm: LiteSVM, pair: BidirectionalRefPair, counterpart: Pubkey, replacement: Pubkey) -> bool {
    match (account_at(svm, replacement), account_at(svm, counterpart)) {
        (Some(r), Some(c)) => match pair.root {
            Some(root) => holds_address(r.data, root),
            None => holds_address(r.data, counterpart) && holds_address(c.data, replacement),
        },
        _ => false,
    }
}

/// Whether the accounts are still bound with `replacement` in the place of the partner of
/// `counterpart`.
pub fn bidirectional_replacement_preserves_relation(
    svm: &LiteSVM,
    pair: &BidirectionalRefPair,
    counterpart: Pubkey,
    replacement: Pubkey,
) -> (r: bool)
    ensures
        r == still_bound(*svm, *pair, counterpart, replacement),
{
    let r = match svm_get_account(svm, &replacement) {
        Some(a) => a,
        None => {
            return false;
        },
    };
    let c = match svm_get_account(svm, &counterpart) {
        Some(a) => a,
        None => {
            return false;
        },
    };
    match pair.root {
        Some(root) => data_contains_pubkey(r.data.as_slice(), &root),
        None => data_contains_pubkey(r.data.as_slice(), &counterpart) && data_contains_pubkey(
            c.data.as_slice(),
            &replacement,
        ),
    }
}

/// Some reference starts or ends at `k`.
pub open spec fn on_edge(edges: Seq<FieldRefEdge>, k: Pubkey) -> bool {
    exists|i: int| 0 <= i < edges.len() && ((#[trigger] edges[i]).source == k || edges[i].target == k)
}

/// `k` is bound to another account, or binds two.
pub open spec fn in_pair(pairs: Seq<BidirectionalRefPair>, k: Pubkey) -> bool {
    exists|i: int|
        0 <= i < pairs.len() && ((#[trigger] pairs[i]).left == k || pairs[i].right == k || pairs[i].root == Some(k))
}

/// The references among the accounts of the instructions tell what `k` is there for.
pub open spec fn explained(svm: LiteSVM, ixs: Seq<InstructionView>, k: Pubkey) -> bool {
    on_edge(ref_edges(svm, ixs), k) || in_pair(ref_pairs(svm, ixs), k)
}

/// The accounts of which the references tell what they are there for.
pub fn collect_explained_cc7_accounts(svm: &LiteSVM, instructions: &[Instruction]) -> (r: Vec<Pubkey>)
    ensures
        forall|k: Pubkey| #[trigger] r@.contains(k) <==> explained(*svm, ix_views(instructions@), k),
{
    let mut r: Vec<Pubkey> = Vec::new();
    let edges = collect_field_ref_edges(svm, instructions);
    let mut i: usize = 0;
    while i < edges.len()
        invariant
            i <= edges@.len(),
            forall|k: Pubkey| #[trigger] r@.contains(k) <==> on_edge(edges@.take(i as int), k),
        decreases edges.len() - i,
    {
        let ghost before = r@;
        let e = edges[i];
        add_key(&mut r, e.source);
        let ghost middle = r@;
        add_key(&mut r, e.target);
        proof {
            let was = edges@.take(i as int);
            let now = edges@.take(i + 1);
            lemma_with_key(before, e.source);
            lemma_with_key(middle, e.target);
            assert forall|k: Pubkey| #[trigger] r@.contains(k) <==> on_edge(now, k) by {
                assert(before.contains(k) <==> on_edge(was, k));
                if on_edge(was, k) {
                    let j = choose|j: int| 0 <= j < was.len() && ((#[trigger] was[j]).source == k || was[j].target == k);
                    assert(now[j] == was[j]);
                }
                if on_edge(now, k) {
                    let j = choose|j: int| 0 <= j < now.len() && ((#[trigger] now[j]).source == k || now[j].target == k);
                    if j < i {
                        assert(was[j] == now[j]);
                    }
                }
                assert(now[i as int] == e);
            }
        }
        i += 1;
    }
    assert(edges@.take(i as int) =~= edges@);
    let pairs = collect_bidirectional_ref_pairs(svm, instructions);
    let mut j: usize = 0;
    while j < pairs.len()
        invariant
            j <= pairs@.len(),
            forall|k: Pubkey| #[trigger] r@.contains(k) <==> on_edge(edges@, k) || in_pair(pairs@.take(j as int), k),
        decreases pairs.len() - j,
    {
        let ghost before = r@;
        let p = pairs[j];
        add_key(&mut r, p.left);
        let ghost first = r@;
        add_key(&mut r, p.right);
        let ghost second = r@;
        match p.root {
            Some(root) => {
                add_key(&mut r, root);
            },
            None => {},
        }
        proof {
            let was = pairs@.take(j as int);
            let now = pairs@.take(j + 1);
            lemma_with_key(before, p.left);
            lemma_with_key(first, p.right);
            if p.root is Some {
                lemma_with_key(second, p.root->0);
            }
            assert forall|k: Pubkey| #[trigger] r@.contains(k) <==> on_edge(edges@, k) || in_pair(now, k) by {
                assert(before.contains(k) <==> on_edge(edges@, k) || in_pair(was, k));
                if in_pair(was, k) {
                    let m = choose|m: int|
                        0 <= m < was.len() && ((#[trigger] was[m]).left == k || was[m].right == k || was[m].root == Some(k));
                    assert(now[m] == was[m]);
                }
                if in_pair(now, k) {
                    let m = choose|m: int|
                        0 <= m < now.len() && ((#[trigger] now[m]).left == k || now[m].right == k || now[m].root == Some(k));
                    if m < j {
                        assert(was[m] == now[m]);
                    }
                }
                assert(now[j as int] == p);
            }
        }
        j += 1;
    }
    assert(pairs@.take(j as int) =~= pairs@);
    r
}

/// Those of the addresses that stand in the data, leaving out sysvars and the system program.
pub open spec fn keys_held(data: Seq<u8>, keys: Seq<Pubkey>) -> Seq<Pubkey>
    decreases keys.len(),
{
    if keys.len() == 0 {
        Seq::empty()
    } else {
        let before = keys_held(data, keys.drop_last());
        let k = keys.last();
        if k@ != zero_key() && !known_sysvar(k) && holds_address(data, k) { before.push(k) } else { before }
    }
}

/// The observed addresses that stand in the data, in order.
pub open spec fn embedded(data: Seq<u8>, observed: Seq<Pubkey>) -> Seq<Pubkey> {
    keys_held(data, key_sorted(distinct(observed)))
}

/// The observed addresses that stand in the data, in order.
pub fn embedded_observed_pubkeys(data: &[u8], observed_accounts: &Vec<Pubkey>) -> (r: Vec<Pubkey>)
    ensures
        r@ == embedded(data@, observed_accounts@),
{
    let keys = sort_keys(&drop_repeats(observed_accounts));
    let system = Pubkey::default();
    let mut r: Vec<Pubkey> = Vec::new();
    let mut i: usize = 0;
    while i < keys.len()
        invariant
            i <= keys@.len(),
            system@ == zero_key(),
            r@ == keys_held(data@, keys@.take(i as int)),
        decreases keys.len() - i,
    {
        let k = keys[i];
        assert(keys@.take(i + 1).drop_last() =~= keys@.take(i as int));
        if !k.same_as(&system) && !is_known_sysvar(&k) && data_contains_pubkey(data, &k) {
            r.push(k);
        }
        i += 1;
    }
    assert(keys@.take(i as int) =~= keys@);
    r
}

/// An account and one of its class that holds other addresses.
#[derive(Debug, PartialEq, Eq)]
pub struct SemanticSwapCandidate {
    pub target: Pubkey,
    pub replacement: Pubkey,
    pub target_keys: Vec<Pubkey>,
    pub replacement_keys: Vec<Pubkey>,
}

/// An account and one of its class that holds other addresses, as a value.
pub struct SwapView {
    pub target: Pubkey,
    pub replacement: Pubkey,
    pub target_keys: Seq<Pubkey>,
    pub replacement_keys: Seq<Pubkey>,
}

impl View for SemanticSwapCandidate {
    type V = SwapView;

    open spec fn view(&self) -> SwapView {
        SwapView {
            target: self.target,
            replacement: self.replacement,
            target_keys: self.target_keys@,
            replacement_keys: self.replacement_keys@,
        }
    }
}

/// Some candidates, as values.
pub open spec fn swap_views(v: Seq<SemanticSwapCandidate>) -> Seq<SwapView> {
    Seq::new(v.len(), |i: int| v[i]@)
}

/// The account may be swapped: it holds data of its own kind, and no reference tells what it is
/// there for.
pub open spec fn swappable(s: Scope, ixs: Seq<InstructionView>, k: Pubkey) -> bool {
    !s.unverified.contains(k) && !known_sysvar(k) && !explained(s.svm, ixs, k) && match account_at(s.svm, k) {
        Some(a) => !a.executable && a.data.len() > 0 && !spl_shape(a) && embedded(a.data, s.observed).len() > 0,
        None => false,
    }
}

/// The addresses that the data of an account holds.
pub open spec fn keys_in(s: Scope, k: Pubkey) -> Seq<Pubkey> {
    embedded(account_at(s.svm, k)->0.data, s.observed)
}

/// The account can be put in the place of `target`: the instructions do not use it, and it holds other
/// addresses.
pub open spec fn fits_swap(s: Scope, ixs: Seq<InstructionView>, target: Pubkey, r: Pubkey) -> bool {
    !account_keys(ixs).contains(r) && !s.unverified.contains(r) && !explained(s.svm, ixs, r) && match account_at(s.svm, r) {
        Some(a) => !spl_shape(a) && embedded(a.data, s.observed).len() > 0 && embedded(a.data, s.observed) != keys_in(
            s,
            target,
        ),
        None => false,
    }
}

/// The candidates for one account.
pub open spec fn swaps_of(s: Scope, ixs: Seq<InstructionView>, target: Pubkey, others: Seq<Pubkey>) -> Seq<SwapView>
    decreases others.len(),
{
    if others.len() == 0 {
        Seq::empty()
    } else {
        let before = swaps_of(s, ixs, target, others.drop_last());
        let r = others.last();
        if fits_swap(s, ixs, target, r) {
            before.push(
                SwapView { target, replacement: r, target_keys: keys_in(s, target), replacement_keys: keys_in(s, r) },
            )
        } else {
            before
        }
    }
}

/// The candidates for some accounts.
pub open spec fn swaps_for(s: Scope, ixs: Seq<InstructionView>, targets: Seq<Pubkey>) -> Seq<SwapView>
    decreases targets.len(),
{
    if targets.len() == 0 {
        Seq::empty()
    } else {
        let before = swaps_for(s, ixs, targets.drop_last());
        let t = targets.last();
        if swappable(s, ixs, t) { before + swaps_of(s, ixs, t, replacements(s, t)) } else { before }
    }
}

/// The accounts of the instructions with those of their class that hold other addresses.
pub open spec fn swaps(s: Scope, ixs: Seq<InstructionView>) -> Seq<SwapView> {
    swaps_for(s, ixs, key_sorted(account_keys(ixs)))
}

fn same_keys(a: &Vec<Pubkey>, b: &Vec<Pubkey>) -> (r: bool)
    ensures
        r == (a@ == b@),
{
    if a.len() != b.len() {
        return false;
    }
    let mut i: usize = 0;
    while i < a.len()
        invariant
            i <= a@.len(),
            a@.len() == b@.len(),
            forall|j: int| 0 <= j < i ==> a@[j] == b@[j],
        decreases a.len() - i,
    {
        if !(a[i] == b[i]) {
            return false;
        }
        i += 1;
    }
    assert(a@ =~= b@);
    true
}

/// The accounts of the instructions with those of their class that hold other addresses.
pub fn collect_semantic_swap_candidates_for_accounts(
    svm: &LiteSVM,
    instructions: &[Instruction],
    observed_accounts: &Vec<Pubkey>,
    config: &AccountMutationConfig,
    class_index: &AccountClassIndex,
) -> (r: Vec<SemanticSwapCandidate>)
    requires
        class_index.well_formed(),
        class_index.scope@ == scope(*svm, observed_accounts@, config@, class_index.scope@.tags),
    ensures
        swap_views(r@) == swaps(class_index.scope@, ix_views(instructions@)),
{
    let ghost s = class_index.scope@;
    let ghost ixs = ix_views(instructions@);
    let current = instruction_account_keys_ordered(instructions);
    let explained_accounts = collect_explained_cc7_accounts(svm, instructions);
    let targets = sort_keys(&current);
    let mut candidates: Vec<SemanticSwapCandidate> = Vec::new();
    let mut i: usize = 0;
    assert(swap_views(candidates@) =~= swaps_for(s, ixs, targets@.take(0)));
    while i < targets.len()
        invariant
            i <= targets@.len(),
            s == class_index.scope@,
            ixs == ix_views(instructions@),
            class_index.well_formed(),
            s == scope(*svm, observed_accounts@, config@, s.tags),
            current@ == account_keys(ixs),
            forall|k: Pubkey| #[trigger] explained_accounts@.contains(k) <==> explained(*svm, ixs, k),
            swap_views(candidates@) == swaps_for(s, ixs, targets@.take(i as int)),
        decreases targets.len() - i,
    {
        let target = targets[i];
        assert(targets@.take(i + 1).drop_last() =~= targets@.take(i as int));
        let found = swap_candidates_of(
            svm,
            &current,
            observed_accounts,
            config,
            class_index,
            &explained_accounts,
            &target,
            Ghost(ixs),
        );
        let ghost before = swap_views(candidates@);
        let ghost more = swap_views(found@);
        let mut found = found;
        let ghost own = candidates@;
        let ghost rest = found@;
        candidates.append(&mut found);
        proof {
            assert(candidates@ =~= own + rest);
            assert(swap_views(candidates@) =~= before + more);
            if !swappable(s, ixs, target) {
                assert(before + more =~= before);
            }
        }
        i += 1;
    }
    assert(targets@.take(i as int) =~= targets@);
    candidates
}

fn swap_candidates_of(
    svm: &LiteSVM,
    current: &Vec<Pubkey>,
    observed_accounts: &Vec<Pubkey>,
    config: &AccountMutationConfig,
    class_index: &AccountClassIndex,
    explained_accounts: &Vec<Pubkey>,
    target: &Pubkey,
    Ghost(ixs): Ghost<Seq<InstructionView>>,
) -> (r: Vec<SemanticSwapCandidate>)
    requires
        class_index.well_formed(),
        class_index.scope@ == scope(*svm, observed_accounts@, config@, class_index.scope@.tags),
        current@ == account_keys(ixs),
        forall|k: Pubkey| #[trigger] explained_accounts@.contains(k) <==> explained(*svm, ixs, k),
    ensures
        swap_views(r@) == if swappable(class_index.scope@, ixs, *target) {
            swaps_of(class_index.scope@, ixs, *target, replacements(class_index.scope@, *target))
        } else {
            Seq::empty()
        },
{
    let ghost s = class_index.scope@;
    let mut r: Vec<SemanticSwapCandidate> = Vec::new();
    assert(swap_views(r@) =~= Seq::<SwapView>::empty());
    if has_key(&config.unverified_accounts, target) || is_known_sysvar(target) || has_key(explained_accounts, target) {
        return r;
    }
    let account = match svm_get_account(svm, target) {
        Some(a) => a,
        None => {
            return r;
        },
    };
    if account.executable || account.data.len() == 0 || is_spl_token_shape(&account) {
        return r;
    }
    let target_keys = embedded_observed_pubkeys(account.data.as_slice(), observed_accounts);
    if target_keys.len() == 0 {
        return r;
    }
    let others = class_index.same_class_replacements(target);
    let mut i: usize = 0;
    assert(swap_views(r@) =~= swaps_of(s, ixs, *target, others@.take(0)));
    while i < others.len()
        invariant
            i <= others@.len(),
            s == class_index.scope@,
            s == scope(*svm, observed_accounts@, config@, s.tags),
            current@ == account_keys(ixs),
            forall|k: Pubkey| #[trigger] explained_accounts@.contains(k) <==> explained(*svm, ixs, k),
            target_keys@ == keys_in(s, *target),
            swap_views(r@) == swaps_of(s, ixs, *target, others@.take(i as int)),
        decreases others.len() - i,
    {
        let o = others[i];
        assert(others@.take(i + 1).drop_last() =~= others@.take(i as int));
        if !has_key(current, &o) && !has_key(&config.unverified_accounts, &o) && !has_key(explained_accounts, &o) {
            match svm_get_account(svm, &o) {
                Some(other) => {
                    if !is_spl_token_shape(&other) {
                        let replacement_keys = embedded_observed_pubkeys(other.data.as_slice(), observed_accounts);
                        if replacement_keys.len() > 0 && !same_keys(&replacement_keys, &target_keys) {
                            let ghost before = swap_views(r@);
                            let c = SemanticSwapCandidate {
                                target: *target,
                                replacement: o,
                                target_keys: copy_keys(&target_keys),
                                replacement_keys,
                            };
                            r.push(c);
                            assert(swap_views(r@) =~= before.push(c@));
                        }
                    }
                },
                None => {},
            }
        }
        i += 1;
    }
    assert(others@.take(i as int) =~= others@);
    r
}

proof fn lemma_edges_of(svm: LiteSVM, source: Pubkey, targets: Seq<Pubkey>)
    requires
        targets.no_duplicates(),
    ensures
        forall|e: FieldRefEdge| #[trigger]
            edges_of(svm, source, targets).contains(e) <==> e.source == source && targets.contains(e.target) && refers(
                svm,
                source,
                e.target,
            ),
        edges_of(svm, source, targets).no_duplicates(),
    decreases targets.len(),
{
    if targets.len() > 0 {
        let d = targets.drop_last();
        let before = edges_of(svm, source, d);
        let now = edges_of(svm, source, targets);
        let last = FieldRefEdge { source, target: targets.last() };
        assert(d.no_duplicates());
        lemma_edges_of(svm, source, d);
        assert(!d.contains(targets.last())) by {
            if d.contains(targets.last()) {
                let i = choose|i: int| 0 <= i < d.len() && d[i] == targets.last();
                assert(targets[i] == targets[targets.len() - 1]);
            }
        }
        assert forall|e: FieldRefEdge| #[trigger] now.contains(e) <==> e.source == source && targets.contains(e.target)
            && refers(svm, source, e.target) by {
            if now.contains(e) {
                let i = choose|i: int| 0 <= i < now.len() && now[i] == e;
                if i < before.len() {
                    assert(before[i] == e);
                    assert(before.contains(e));
                    let j = choose|j: int| 0 <= j < d.len() && d[j] == e.target;
                    assert(targets[j] == e.target);
                } else {
                    assert(targets[targets.len() - 1] == e.target);
                }
            }
            if e.source == source && targets.contains(e.target) && refers(svm, source, e.target) {
                let j = choose|j: int| 0 <= j < targets.len() && targets[j] == e.target;
                if j < d.len() {
                    assert(d[j] == e.target);
                    assert(before.contains(e));
                    let i = choose|i: int| 0 <= i < before.len() && before[i] == e;
                    assert(now[i] == e);
                } else {
                    assert(now[before.len() as int] == e);
                }
            }
        }
        assert(!before.contains(last));
    }
}

proof fn lemma_edges_between(svm: LiteSVM, sources: Seq<Pubkey>, targets: Seq<Pubkey>)
    requires
        sources.no_duplicates(),
        targets.no_duplicates(),
    ensures
        forall|e: FieldRefEdge| #[trigger]
            edges_between(svm, sources, targets).contains(e) <==> sources.contains(e.source) && targets.contains(e.target)
                && refers(svm, e.source, e.target),
        edges_between(svm, sources, targets).no_duplicates(),
    decreases sources.len(),
{
    if sources.len() > 0 {
        let d = sources.drop_last();
        let before = edges_between(svm, d, targets);
        let own = edges_of(svm, sources.last(), targets);
        let now = edges_between(svm, sources, targets);
        assert(d.no_duplicates());
        lemma_edges_between(svm, d, targets);
        lemma_edges_of(svm, sources.last(), targets);
        assert forall|e: FieldRefEdge| #[trigger] now.contains(e) <==> before.contains(e) || own.contains(e) by {
            if now.contains(e) {
                let i = choose|i: int| 0 <= i < now.len() && now[i] == e;
                if i < before.len() {
                    assert(before[i] == e);
                } else {
                    assert(own[i - before.len()] == e);
                }
            }
            if before.contains(e) {
                let i = choose|i: int| 0 <= i < before.len() && before[i] == e;
                assert(now[i] == e);
            }
            if own.contains(e) {
                let i = choose|i: int| 0 <= i < own.len() && own[i] == e;
                assert(now[before.len() + i] == e);
            }
        }
        assert forall|k: Pubkey| #[trigger] sources.contains(k) <==> d.contains(k) || k == sources.last() by {
            if sources.contains(k) {
                let i = choose|i: int| 0 <= i < sources.len() && sources[i] == k;
                if i < d.len() {
                    assert(d[i] == k);
                }
            }
            if d.contains(k) {
                let i = choose|i: int| 0 <= i < d.len() && d[i] == k;
                assert(sources[i] == k);
            }
            assert(sources[sources.len() - 1] == sources.last());
        }
        assert(!d.contains(sources.last())) by {
            if d.contains(sources.last()) {
                let i = choose|i: int| 0 <= i < d.len() && d[i] == sources.last();
                assert(sources[i] == sources[sources.len() - 1]);
            }
        }
        assert forall|i: int, j: int| 0 <= i < j < now.len() implies now[i] != now[j] by {
            if i < before.len() && j >= before.len() {
                assert(before.contains(before[i]));
                assert(own.contains(own[j - before.len()]));
            }
        }
    }
}

/// The references are exactly those of one account of the instructions to another, each once.
pub proof fn lemma_ref_edges(svm: LiteSVM, ixs: Seq<InstructionView>)
    ensures
        forall|e: FieldRefEdge| #[trigger]
            ref_edges(svm, ixs).contains(e) <==> account_keys(ixs).contains(e.source) && account_keys(ixs).contains(e.target)
                && refers(svm, e.source, e.target),
        ref_edges(svm, ixs).no_duplicates(),
{
    let keys = account_keys(ixs);
    let sorted = key_sorted(keys);
    lemma_slot_keys(slots_of(ixs));
    lemma_key_sorted(keys);
    lemma_edges_between(svm, sorted, sorted);
}

proof fn lemma_mutual_pairs(all: Seq<FieldRefEdge>, edges: Seq<FieldRefEdge>)
    ensures
        forall|p: BidirectionalRefPair| #[trigger]
            mutual_pairs(all, edges).contains(p) <==> p.root is None && edges.contains(
                FieldRefEdge { source: p.left, target: p.right },
            ) && is_mutual(all, FieldRefEdge { source: p.left, target: p.right }),
    decreases edges.len(),
{
    if edges.len() > 0 {
        let d = edges.drop_last();
        let before = mutual_pairs(all, d);
        let now = mutual_pairs(all, edges);
        lemma_mutual_pairs(all, d);
        assert forall|p: BidirectionalRefPair| #[trigger] now.contains(p) <==> p.root is None && edges.contains(
            FieldRefEdge { source: p.left, target: p.right },
        ) && is_mutual(all, FieldRefEdge { source: p.left, target: p.right }) by {
            let e = FieldRefEdge { source: p.left, target: p.right };
            if now.contains(p) {
                let i = choose|i: int| 0 <= i < now.len() && now[i] == p;
                if i < before.len() {
                    assert(before[i] == p);
                    assert(before.contains(p));
                    let j = choose|j: int| 0 <= j < d.len() && d[j] == e;
                    assert(edges[j] == e);
                } else {
                    assert(edges[edges.len() - 1] == e);
                }
            }
            if p.root is None && edges.contains(e) && is_mutual(all, e) {
                let j = choose|j: int| 0 <= j < edges.len() && edges[j] == e;
                if j < d.len() {
                    assert(d[j] == e);
                    assert(before.contains(p));
                    let i = choose|i: int| 0 <= i < before.len() && before[i] == p;
                    assert(now[i] == p);
                } else {
                    assert(now[before.len() as int] == p);
                }
            }
        }
    }
}

proof fn lemma_members_of(edges: Seq<FieldRefEdge>, root: Pubkey)
    ensures
        forall|k: Pubkey| #[trigger]
            members_of(edges, root).contains(k) <==> edges.contains(FieldRefEdge { source: k, target: root }),
    decreases edges.len(),
{
    if edges.len() > 0 {
        let d = edges.drop_last();
        let before = members_of(d, root);
        let now = members_of(edges, root);
        lemma_members_of(d, root);
        assert forall|k: Pubkey| #[trigger] now.contains(k) <==> edges.contains(FieldRefEdge { source: k, target: root }) by {
            let e = FieldRefEdge { source: k, target: root };
            if now.contains(k) {
                let i = choose|i: int| 0 <= i < now.len() && now[i] == k;
                if i < before.len() {
                    assert(before[i] == k);
                    assert(before.contains(k));
                    let j = choose|j: int| 0 <= j < d.len() && d[j] == e;
                    assert(edges[j] == e);
                } else {
                    assert(edges[edges.len() - 1] == e);
                }
            }
            if edges.contains(e) {
                let j = choose|j: int| 0 <= j < edges.len() && edges[j] == e;
                if j < d.len() {
                    assert(d[j] == e);
                    assert(before.contains(k));
                    let i = choose|i: int| 0 <= i < before.len() && before[i] == k;
                    assert(now[i] == k);
                } else {
                    assert(now[before.len() as int] == k);
                }
            }
        }
    }
}

/// The addresses come in strictly increasing order.
pub open spec fn keys_rise(s: Seq<Pubkey>) -> bool {
    forall|i: int, j: int| 0 <= i < j < s.len() ==> bytes_lt((#[trigger] s[i])@, (#[trigger] s[j])@)
}

/// The order of references: by source, then by target.
pub open spec fn edge_before(a: FieldRefEdge, b: FieldRefEdge) -> bool {
    bytes_lt(a.source@, b.source@) || (a.source == b.source && bytes_lt(a.target@, b.target@))
}

/// The references come in strictly increasing order.
pub open spec fn edges_rise(s: Seq<FieldRefEdge>) -> bool {
    forall|i: int, j: int| 0 <= i < j < s.len() ==> edge_before(#[trigger] s[i], #[trigger] s[j])
}

pub(crate) proof fn lemma_sorted_rises(keys: Seq<Pubkey>)
    requires
        keys.no_duplicates(),
    ensures
        keys_rise(key_sorted(keys)),
{
    let s = key_sorted(keys);
    lemma_key_sorted(keys);
    assert forall|i: int, j: int| 0 <= i < j < s.len() implies bytes_lt((#[trigger] s[i])@, (#[trigger] s[j])@) by {
        assert(crate::keyorder::key_leq()(s[i], s[j]));
        assert(s[i] != s[j]);
        lemma_bytes_order(s[i]@, s[j]@, s[i]@);
        lemma_key_ext(s[i], s[j]);
    }
}

proof fn lemma_edges_of_rise(svm: LiteSVM, source: Pubkey, targets: Seq<Pubkey>)
    requires
        keys_rise(targets),
    ensures
        edges_rise(edges_of(svm, source, targets)),
        forall|i: int|
            0 <= i < edges_of(svm, source, targets).len() ==> (#[trigger] edges_of(svm, source, targets)[i]).source == source
                && targets.contains(edges_of(svm, source, targets)[i].target),
    decreases targets.len(),
{
    if targets.len() > 0 {
        let d = targets.drop_last();
        lemma_edges_of_rise(svm, source, d);
        let before = edges_of(svm, source, d);
        let now = edges_of(svm, source, targets);
        assert forall|i: int| 0 <= i < now.len() implies (#[trigger] now[i]).source == source && targets.contains(
            now[i].target,
        ) by {
            if i < before.len() {
                assert(before[i] == now[i]);
                let k = choose|k: int| 0 <= k < d.len() && d[k] == before[i].target;
                assert(targets[k] == now[i].target);
            } else {
                assert(targets[targets.len() - 1] == now[i].target);
            }
        }
        assert forall|i: int, j: int| 0 <= i < j < now.len() implies edge_before(#[trigger] now[i], #[trigger] now[j]) by {
            assert(before[i] == now[i]);
            if j < before.len() {
                assert(before[j] == now[j]);
            } else {
                let k = choose|k: int| 0 <= k < d.len() && d[k] == before[i].target;
                assert(bytes_lt(targets[k]@, targets[targets.len() - 1]@));
            }
        }
    }
}

proof fn lemma_edges_between_rise(svm: LiteSVM, sources: Seq<Pubkey>, targets: Seq<Pubkey>)
    requires
        keys_rise(sources),
        keys_rise(targets),
    ensures
        edges_rise(edges_between(svm, sources, targets)),
        forall|i: int|
            0 <= i < edges_between(svm, sources, targets).len() ==> sources.contains(
                (#[trigger] edges_between(svm, sources, targets)[i]).source,
            ),
    decreases sources.len(),
{
    if sources.len() > 0 {
        let d = sources.drop_last();
        let source = sources.last();
        lemma_edges_between_rise(svm, d, targets);
        lemma_edges_of_rise(svm, source, targets);
        let before = edges_between(svm, d, targets);
        let own = edges_of(svm, source, targets);
        let now = edges_between(svm, sources, targets);
        assert forall|i: int| 0 <= i < now.len() implies sources.contains((#[trigger] now[i]).source) by {
            if i < before.len() {
                assert(before[i] == now[i]);
                let k = choose|k: int| 0 <= k < d.len() && d[k] == before[i].source;
                assert(sources[k] == now[i].source);
            } else {
                assert(own[i - before.len()] == now[i]);
                assert(sources[sources.len() - 1] == now[i].source);
            }
        }
        assert forall|i: int, j: int| 0 <= i < j < now.len() implies edge_before(#[trigger] now[i], #[trigger] now[j]) by {
            if j < before.len() {
                assert(before[i] == now[i] && before[j] == now[j]);
            } else if i >= before.len() {
                assert(own[i - before.len()] == now[i] && own[j - before.len()] == now[j]);
            } else {
                assert(before[i] == now[i] && own[j - before.len()] == now[j]);
                let k = choose|k: int| 0 <= k < d.len() && d[k] == before[i].source;
                assert(bytes_lt(sources[k]@, sources[sources.len() - 1]@));
            }
        }
    }
}

proof fn lemma_member_before(edges: Seq<FieldRefEdge>, e: FieldRefEdge)
    requires
        edges.len() > 0,
        edges_rise(edges),
        edges.drop_last().contains(e),
    ensures
        edge_before(e, edges.last()),
        edges_rise(edges.drop_last()),
{
    let d = edges.drop_last();
    let k = choose|k: int| 0 <= k < d.len() && d[k] == e;
    assert(edge_before(edges[k], edges[edges.len() - 1]));
    assert forall|i: int, j: int| 0 <= i < j < d.len() implies edge_before(#[trigger] d[i], #[trigger] d[j]) by {
        assert(edge_before(edges[i], edges[j]));
    }
}

/// By what pairs are ordered first: the root, or zeros where there is none.
pub open spec fn root_rank(p: BidirectionalRefPair) -> Seq<u8> {
    match p.root {
        Some(root) => root@,
        None => zero_key(),
    }
}

/// The order of pairs: by root, then by the smaller address, then by the other.
pub open spec fn pair_before(a: BidirectionalRefPair, b: BidirectionalRefPair) -> bool {
    bytes_lt(root_rank(a), root_rank(b)) || (root_rank(a) == root_rank(b) && (bytes_lt(a.left@, b.left@) || (a.left == b.left
        && bytes_lt(a.right@, b.right@))))
}

/// The pairs come in strictly increasing order.
pub open spec fn pairs_rise(s: Seq<BidirectionalRefPair>) -> bool {
    forall|i: int, j: int| 0 <= i < j < s.len() ==> pair_before(#[trigger] s[i], #[trigger] s[j])
}

proof fn lemma_mutual_rise(all: Seq<FieldRefEdge>, edges: Seq<FieldRefEdge>)
    requires
        edges_rise(edges),
    ensures
        pairs_rise(mutual_pairs(all, edges)),
    decreases edges.len(),
{
    if edges.len() > 0 {
        let d = edges.drop_last();
        let before = mutual_pairs(all, d);
        let now = mutual_pairs(all, edges);
        assert(edges_rise(d)) by {
            assert forall|i: int, j: int| 0 <= i < j < d.len() implies edge_before(#[trigger] d[i], #[trigger] d[j]) by {
                assert(edge_before(edges[i], edges[j]));
            }
        }
        lemma_mutual_rise(all, d);
        lemma_mutual_pairs(all, d);
        assert forall|i: int, j: int| 0 <= i < j < now.len() implies pair_before(#[trigger] now[i], #[trigger] now[j]) by {
            assert(before[i] == now[i]);
            lemma_mutual_roots(all, edges);
            if j < before.len() {
                assert(before[j] == now[j]);
            } else {
                assert(before.contains(before[i]));
                lemma_member_before(edges, FieldRefEdge { source: before[i].left, target: before[i].right });
            }
        }
    }
}

proof fn lemma_mutual_roots(all: Seq<FieldRefEdge>, edges: Seq<FieldRefEdge>)
    ensures
        forall|i: int| 0 <= i < mutual_pairs(all, edges).len() ==> (#[trigger] mutual_pairs(all, edges)[i]).root is None,
    decreases edges.len(),
{
    if edges.len() > 0 {
        lemma_mutual_roots(all, edges.drop_last());
        let before = mutual_pairs(all, edges.drop_last());
        let now = mutual_pairs(all, edges);
        assert forall|i: int| 0 <= i < now.len() implies (#[trigger] now[i]).root is None by {
            if i < before.len() {
                assert(before[i] == now[i]);
            }
        }
    }
}

proof fn lemma_members_rise(edges: Seq<FieldRefEdge>, root: Pubkey)
    requires
        edges_rise(edges),
    ensures
        keys_rise(members_of(edges, root)),
    decreases edges.len(),
{
    if edges.len() > 0 {
        let d = edges.drop_last();
        let before = members_of(d, root);
        let now = members_of(edges, root);
        assert(edges_rise(d)) by {
            assert forall|i: int, j: int| 0 <= i < j < d.len() implies edge_before(#[trigger] d[i], #[trigger] d[j]) by {
                assert(edge_before(edges[i], edges[j]));
            }
        }
        lemma_members_rise(d, root);
        lemma_members_of(d, root);
        assert forall|i: int, j: int| 0 <= i < j < now.len() implies bytes_lt((#[trigger] now[i])@, (#[trigger] now[j])@) by {
            assert(before[i] == now[i]);
            if j < before.len() {
                assert(before[j] == now[j]);
            } else {
                assert(before.contains(before[i]));
                lemma_member_before(edges, FieldRefEdge { source: before[i], target: root });
                lemma_bytes_order(root@, root@, root@);
            }
        }
    }
}

/// One pair of addresses comes before another: by the first, then by the second.
spec fn two_before(a: (Pubkey, Pubkey), b: (Pubkey, Pubkey)) -> bool {
    bytes_lt(a.0@, b.0@) || (a.0 == b.0 && bytes_lt(a.1@, b.1@))
}

proof fn lemma_pairs_upto(s: Seq<Pubkey>, n: int)
    requires
        0 <= n <= s.len(),
        keys_rise(s),
    ensures
        forall|i: int, j: int|
            0 <= i < j < pairs_upto(s, n).len() ==> two_before(#[trigger] pairs_upto(s, n)[i], #[trigger] pairs_upto(s, n)[j]),
        forall|a: int, b: int|
            0 <= a < n && a < b < s.len() ==> pairs_upto(s, n).contains((#[trigger] s[a], #[trigger] s[b])),
        forall|i: int|
            0 <= i < pairs_upto(s, n).len() ==> exists|a: int, b: int|
                0 <= a < n && a < b < s.len() && #[trigger] pairs_upto(s, n)[i] == (#[trigger] s[a], #[trigger] s[b]),
    decreases n,
{
    if n > 0 {
        lemma_pairs_upto(s, n - 1);
        let before = pairs_upto(s, n - 1);
        let own = pairs_at(s, n - 1);
        let now = pairs_upto(s, n);
        assert forall|i: int| 0 <= i < now.len() implies exists|a: int, b: int|
            0 <= a < n && a < b < s.len() && #[trigger] now[i] == (#[trigger] s[a], #[trigger] s[b]) by {
            if i < before.len() {
                assert(before[i] == now[i]);
                let (a, b) = choose|a: int, b: int| 0 <= a < n - 1 && a < b < s.len() && before[i] == (#[trigger] s[a], #[trigger] s[b]);
                assert(now[i] == (s[a], s[b]));
            } else {
                let b = n + (i - before.len());
                assert(now[i] == own[i - before.len()]);
                assert(now[i] == (s[n - 1], s[b]));
            }
        }
        assert forall|a: int, b: int| 0 <= a < n && a < b < s.len() implies now.contains((#[trigger] s[a], #[trigger] s[b])) by {
            if a < n - 1 {
                assert(before.contains((s[a], s[b])));
                let i = choose|i: int| 0 <= i < before.len() && before[i] == (s[a], s[b]);
                assert(now[i] == (s[a], s[b]));
            } else {
                assert(own[b - n] == (s[a], s[b]));
                assert(now[before.len() + (b - n)] == (s[a], s[b]));
            }
        }
        assert forall|i: int, j: int| 0 <= i < j < now.len() implies two_before(#[trigger] now[i], #[trigger] now[j]) by {
            if j < before.len() {
                assert(before[i] == now[i] && before[j] == now[j]);
            } else if i < before.len() {
                assert(before[i] == now[i]);
                let (a, b) = choose|a: int, b: int| 0 <= a < n - 1 && a < b < s.len() && before[i] == (#[trigger] s[a], #[trigger] s[b]);
                assert(now[j] == own[j - before.len()]);
                assert(bytes_lt(s[a]@, s[n - 1]@));
            } else {
                let (x, y) = (n + (i - before.len()), n + (j - before.len()));
                assert(now[i] == (s[n - 1], s[x]) && now[j] == (s[n - 1], s[y]));
                assert(bytes_lt(s[x]@, s[y]@));
            }
        }
    }
}

proof fn lemma_rooted_pairs(edges: Seq<FieldRefEdge>, roots: Seq<Pubkey>)
    requires
        edges_rise(edges),
        keys_rise(roots),
    ensures
        pairs_rise(rooted_pairs(edges, roots)),
        forall|p: BidirectionalRefPair| #[trigger]
            rooted_pairs(edges, roots).contains(p) <==> p.root is Some && roots.contains(p.root->0) && !known_sysvar(p.root->0)
                && edges.contains(FieldRefEdge { source: p.left, target: p.root->0 }) && edges.contains(
                FieldRefEdge { source: p.right, target: p.root->0 },
            ) && bytes_lt(p.left@, p.right@),
    decreases roots.len(),
{
    if roots.len() > 0 {
        let d = roots.drop_last();
        let root = roots.last();
        let members = members_of(edges, root);
        let pairs = all_pairs(members);
        let own = bound_by(pairs, root);
        let before = rooted_pairs(edges, d);
        let now = rooted_pairs(edges, roots);
        assert(keys_rise(d)) by {
            assert forall|i: int, j: int| 0 <= i < j < d.len() implies bytes_lt((#[trigger] d[i])@, (#[trigger] d[j])@) by {
                assert(bytes_lt(roots[i]@, roots[j]@));
            }
        }
        lemma_rooted_pairs(edges, d);
        lemma_members_of(edges, root);
        lemma_members_rise(edges, root);
        lemma_pairs_upto(members, members.len() as int);
        assert forall|k: Pubkey| #[trigger] roots.contains(k) <==> d.contains(k) || k == root by {
            if roots.contains(k) {
                let i = choose|i: int| 0 <= i < roots.len() && roots[i] == k;
                if i < d.len() {
                    assert(d[i] == k);
                }
            }
            if d.contains(k) {
                let i = choose|i: int| 0 <= i < d.len() && d[i] == k;
                assert(roots[i] == k);
            }
            assert(roots[roots.len() - 1] == root);
        }
        assert forall|p: BidirectionalRefPair| #[trigger] own.contains(p) <==> p.root == Some(root) && edges.contains(
            FieldRefEdge { source: p.left, target: root },
        ) && edges.contains(FieldRefEdge { source: p.right, target: root }) && bytes_lt(p.left@, p.right@) by {
            if own.contains(p) {
                let i = choose|i: int| 0 <= i < own.len() && own[i] == p;
                let (a, b) = choose|a: int, b: int|
                    0 <= a < members.len() && a < b < members.len() && pairs[i] == (#[trigger] members[a], #[trigger] members[b]);
                assert(members.contains(members[a]) && members.contains(members[b]));
            }
            if p.root == Some(root) && edges.contains(FieldRefEdge { source: p.left, target: root }) && edges.contains(
                FieldRefEdge { source: p.right, target: root },
            ) && bytes_lt(p.left@, p.right@) {
                assert(members.contains(p.left) && members.contains(p.right));
                let a = choose|a: int| 0 <= a < members.len() && members[a] == p.left;
                let b = choose|b: int| 0 <= b < members.len() && members[b] == p.right;
                lemma_bytes_order(p.left@, p.right@, p.left@);
                if b < a {
                    assert(bytes_lt(members[b]@, members[a]@));
                }
                assert(a < b);
                assert(pairs.contains((members[a], members[b])));
                let i = choose|i: int| 0 <= i < pairs.len() && pairs[i] == (members[a], members[b]);
                assert(own[i] == p);
            }
        }
        if !known_sysvar(root) {
            assert(now == before + own);
            assert forall|p: BidirectionalRefPair| #[trigger] now.contains(p) <==> before.contains(p) || own.contains(p) by {
                if now.contains(p) {
                    let i = choose|i: int| 0 <= i < now.len() && now[i] == p;
                    if i < before.len() {
                        assert(before[i] == p);
                    } else {
                        assert(own[i - before.len()] == p);
                    }
                }
                if before.contains(p) {
                    let i = choose|i: int| 0 <= i < before.len() && before[i] == p;
                    assert(now[i] == p);
                }
                if own.contains(p) {
                    let i = choose|i: int| 0 <= i < own.len() && own[i] == p;
                    assert(now[before.len() + i] == p);
                }
            }
            assert forall|i: int, j: int| 0 <= i < j < now.len() implies pair_before(#[trigger] now[i], #[trigger] now[j]) by {
                if j < before.len() {
                    assert(before[i] == now[i] && before[j] == now[j]);
                } else if i < before.len() {
                    assert(before[i] == now[i]);
                    assert(now[j] == own[j - before.len()]);
                    assert(before.contains(before[i]));
                    let r = before[i].root->0;
                    let k = choose|k: int| 0 <= k < d.len() && d[k] == r;
                    assert(bytes_lt(roots[k]@, roots[roots.len() - 1]@));
                } else {
                    let (x, y) = (i - before.len(), j - before.len());
                    assert(now[i] == own[x] && now[j] == own[y]);
                    assert(two_before(pairs[x], pairs[y]));
                }
            }
        }
    }
}

proof fn lemma_zeros_first(k: Pubkey)
    requires
        k@ != zero_key(),
    ensures
        bytes_lt(zero_key(), k@),
{
    lemma_bytes_order(zero_key(), k@, k@);
    crate::lexical::lemma_zeros_least(k@, zero_key());
}

/// The pairs come in strictly increasing order by root, smaller address and other address, so that none
/// comes twice. Two accounts stand in a pair without a root exactly where each refers to the other, and
/// in one with a root exactly where both refer to it; the smaller address comes first.
pub proof fn lemma_ref_pairs(svm: LiteSVM, ixs: Seq<InstructionView>)
    ensures
        pairs_rise(ref_pairs(svm, ixs)),
        ref_pairs(svm, ixs).no_duplicates(),
        forall|p: BidirectionalRefPair| #[trigger]
            ref_pairs(svm, ixs).contains(p) <==> bytes_lt(p.left@, p.right@) && match p.root {
                Some(root) => ref_edges(svm, ixs).contains(FieldRefEdge { source: p.left, target: root }) && ref_edges(
                    svm,
                    ixs,
                ).contains(FieldRefEdge { source: p.right, target: root }),
                None => ref_edges(svm, ixs).contains(FieldRefEdge { source: p.left, target: p.right }) && ref_edges(
                    svm,
                    ixs,
                ).contains(FieldRefEdge { source: p.right, target: p.left }),
            },
{
    let keys = account_keys(ixs);
    let roots = key_sorted(keys);
    let edges = ref_edges(svm, ixs);
    let mutual = mutual_pairs(edges, edges);
    let rooted = rooted_pairs(edges, roots);
    let all = ref_pairs(svm, ixs);
    lemma_slot_keys(slots_of(ixs));
    lemma_key_sorted(keys);
    lemma_sorted_rises(keys);
    lemma_edges_between_rise(svm, roots, roots);
    lemma_ref_edges(svm, ixs);
    lemma_mutual_pairs(edges, edges);
    lemma_mutual_rise(edges, edges);
    lemma_mutual_roots(edges, edges);
    lemma_rooted_pairs(edges, roots);
    assert forall|p: BidirectionalRefPair| #[trigger] all.contains(p) <==> mutual.contains(p) || rooted.contains(p) by {
        if all.contains(p) {
            let i = choose|i: int| 0 <= i < all.len() && all[i] == p;
            if i < mutual.len() {
                assert(mutual[i] == p);
            } else {
                assert(rooted[i - mutual.len()] == p);
            }
        }
        if mutual.contains(p) {
            let i = choose|i: int| 0 <= i < mutual.len() && mutual[i] == p;
            assert(all[i] == p);
        }
        if rooted.contains(p) {
            let i = choose|i: int| 0 <= i < rooted.len() && rooted[i] == p;
            assert(all[mutual.len() + i] == p);
        }
    }
    assert forall|i: int, j: int| 0 <= i < j < all.len() implies pair_before(#[trigger] all[i], #[trigger] all[j]) by {
        if j < mutual.len() {
            assert(mutual[i] == all[i] && mutual[j] == all[j]);
        } else if i >= mutual.len() {
            assert(rooted[i - mutual.len()] == all[i] && rooted[j - mutual.len()] == all[j]);
        } else {
            assert(mutual[i] == all[i]);
            assert(rooted[j - mutual.len()] == all[j]);
            assert(rooted.contains(all[j]));
            let e = FieldRefEdge { source: all[j].left, target: all[j].root->0 };
            assert(edges.contains(e));
            assert(refers(svm, e.source, e.target));
            lemma_zeros_first(e.target);
        }
    }
    assert forall|i: int, j: int| 0 <= i < all.len() && 0 <= j < all.len() && i != j implies all[i] != all[j] by {
        let (x, y) = if i < j { (i, j) } else { (j, i) };
        assert(pair_before(all[x], all[y]));
        lemma_bytes_order(root_rank(all[x]), root_rank(all[y]), root_rank(all[x]));
        lemma_bytes_order(all[x].left@, all[y].left@, all[x].left@);
        lemma_bytes_order(all[x].right@, all[y].right@, all[x].right@);
    }
}

} // verus!
