//! Probes of how accounts are bound to each other: by addresses in their data, and by class.
use vstd::prelude::*;
use crate::keys::key_text;
#[allow(unused_imports)]
use crate::keys::base58;
use crate::mutation::accounts::instruction_account_keys_ordered;
#[allow(unused_imports)]
use crate::mutation::accounts::account_keys;
use crate::mutation::classes::AccountClassIndex;
#[allow(unused_imports)]
use crate::mutation::classes::{class_members, class_text, replacements, scope_of, Scope};
use crate::mutation::effects::{
    account_is_identity_relevant, account_is_load_bearing, substitute_existing_load_bearing_account_probe,
    substitute_existing_referenced_target_probe, ProbeCtx,
};
#[allow(unused_imports)]
use crate::mutation::effects::{identity_relevant, load_bearing, replacement_load_bearing, swap_survives, Probe};
use crate::mutation::findings::{add_finding, add_findings, call_name, found_on, Finding};
#[allow(unused_imports)]
use crate::mutation::findings::{call_text, finding_views, found_id, opt_finding, with_finding, FindingView};
use crate::mutation::refs::{
    bidirectional_replacement_preserves_relation, collect_bidirectional_ref_pairs, collect_field_ref_edges,
    collect_semantic_swap_candidates_for_accounts, data_contains_pubkey, BidirectionalRefPair, FieldRefEdge,
    SemanticSwapCandidate,
};
#[allow(unused_imports)]
use crate::mutation::refs::{holds_address, ref_edges, ref_pairs, still_bound, swap_views, swaps, SwapView};
use crate::svm::svm_get_account;
#[allow(unused_imports)]
use crate::svm::account_at;
use crate::text::push_dec_usize;
#[allow(unused_imports)]
use crate::text::dec;
use crate::types::{has_key, Pubkey};

verus! {

/// The classes of the observed accounts.
pub(crate) fn index_of(ctx: &ProbeCtx) -> (r: AccountClassIndex)
    ensures
        r.well_formed(),
        r.scope@ == scope_of(ctx@),
{
    AccountClassIndex::build(ctx.svm, ctx.observed_accounts, ctx.config, ctx.tags)
}

/// With `replacement` in the place of `target`, the transaction does what it did, and reads it.
pub open spec fn replaces(p: Probe, target: Pubkey, replacement: Pubkey) -> bool {
    swap_survives(p, target, replacement) && replacement_load_bearing(p, target, replacement)
}

/// By what two accounts are bound to each other.
pub open spec fn relation_text(pair: BidirectionalRefPair) -> Seq<char> {
    match pair.root {
        Some(root) => "shared root "@ + base58(root@),
        None => "mutual counterpart keys"@,
    }
}

/// The finding on two accounts that are bound to each other: one of another pair is accepted in the
/// place of one of them.
pub open spec fn binding_finding(
    p: Probe,
    pair: BidirectionalRefPair,
    substituted: Pubkey,
    counterpart: Pubkey,
    replacement: Pubkey,
) -> Option<FindingView> {
    if !account_keys(p.ixs).contains(replacement) && !still_bound(p.svm, pair, counterpart, replacement) && replaces(
        p,
        substituted,
        replacement,
    ) {
        Some(
            FindingView {
                id: found_id(p, "CC-7.3 bidirectional-ref"@, substituted),
                message: "[CC-7.3 bidirectional-ref] accounts "@ + base58(pair.left@) + " and "@ + base58(pair.right@)
                    + " are linked by "@ + relation_text(pair) + ", substituted "@ + base58(substituted@)
                    + " with same-class account "@ + base58(replacement@) + ", instr "@ + call_text(p)
                    + " still succeeded (missing bidirectional/shared-root field binding check)"@,
            },
        )
    } else {
        None
    }
}

/// The findings on one of two accounts that are bound to each other.
pub open spec fn side_findings(
    p: Probe,
    pair: BidirectionalRefPair,
    substituted: Pubkey,
    counterpart: Pubkey,
    others: Seq<Pubkey>,
) -> Seq<FindingView>
    decreases others.len(),
{
    if others.len() == 0 {
        Seq::empty()
    } else {
        with_finding(
            side_findings(p, pair, substituted, counterpart, others.drop_last()),
            binding_finding(p, pair, substituted, counterpart, others.last()),
        )
    }
}

/// Both accounts are read, and the transaction depends on what binds them.
pub open spec fn pair_matters(p: Probe, pair: BidirectionalRefPair) -> bool {
    load_bearing(p, pair.left) && load_bearing(p, pair.right) && match pair.root {
        Some(root) => identity_relevant(p, root),
        None => true,
    }
}

/// The findings on accounts that are bound to each other.
pub open spec fn binding_findings(p: Probe, pairs: Seq<BidirectionalRefPair>) -> Seq<FindingView>
    decreases pairs.len(),
{
    if pairs.len() == 0 {
        Seq::empty()
    } else {
        let before = binding_findings(p, pairs.drop_last());
        let pair = pairs.last();
        let s = scope_of(p);
        if pair_matters(p, pair) {
            before + side_findings(p, pair, pair.left, pair.right, replacements(s, pair.left)) + side_findings(
                p,
                pair,
                pair.right,
                pair.left,
                replacements(s, pair.right),
            )
        } else {
            before
        }
    }
}

fn probe_binding(
    ctx: &ProbeCtx,
    pair: &BidirectionalRefPair,
    substituted: &Pubkey,
    counterpart: &Pubkey,
    replacement: &Pubkey,
    current: &Vec<Pubkey>,
) -> (r: Option<Finding>)
    requires
        ctx@.ixs.len() > 0,
        current@ == account_keys(ctx@.ixs),
    ensures
        opt_finding(r) == binding_finding(ctx@, *pair, *substituted, *counterpart, *replacement),
{
    if has_key(current, replacement) || bidirectional_replacement_preserves_relation(
        ctx.svm,
        pair,
        *counterpart,
        *replacement,
    ) || !substitute_existing_load_bearing_account_probe(ctx, *substituted, *replacement) {
        return None;
    }
    let relation = match pair.root {
        Some(root) => {
            let mut s = String::from_str("shared root ");
            s.append(key_text(&root).as_str());
            s
        },
        None => String::from_str("mutual counterpart keys"),
    };
    let mut m = String::from_str("[CC-7.3 bidirectional-ref] accounts ");
    m.append(key_text(&pair.left).as_str());
    m.append(" and ");
    m.append(key_text(&pair.right).as_str());
    m.append(" are linked by ");
    m.append(relation.as_str());
    m.append(", substituted ");
    m.append(key_text(substituted).as_str());
    m.append(" with same-class account ");
    m.append(key_text(replacement).as_str());
    m.append(", instr ");
    m.append(call_name(ctx).as_str());
    m.append(" still succeeded (missing bidirectional/shared-root field binding check)");
    Some(Finding { id: found_on(ctx, "CC-7.3 bidirectional-ref", substituted), message: m })
}

fn probe_side(
    ctx: &ProbeCtx,
    pair: &BidirectionalRefPair,
    substituted: &Pubkey,
    counterpart: &Pubkey,
    others: &Vec<Pubkey>,
    current: &Vec<Pubkey>,
) -> (r: Vec<Finding>)
    requires
        ctx@.ixs.len() > 0,
        current@ == account_keys(ctx@.ixs),
    ensures
        finding_views(r@) == side_findings(ctx@, *pair, *substituted, *counterpart, others@),
{
    let mut r: Vec<Finding> = Vec::new();
    let mut i: usize = 0;
    assert(finding_views(r@) =~= side_findings(ctx@, *pair, *substituted, *counterpart, others@.take(0)));
    while i < others.len()
        invariant
            i <= others@.len(),
            ctx@.ixs.len() > 0,
            current@ == account_keys(ctx@.ixs),
            finding_views(r@) == side_findings(ctx@, *pair, *substituted, *counterpart, others@.take(i as int)),
        decreases others.len() - i,
    {
        assert(others@.take(i + 1).drop_last() =~= others@.take(i as int));
        let f = probe_binding(ctx, pair, substituted, counterpart, &others[i], current);
        add_finding(&mut r, f);
        i += 1;
    }
    assert(others@.take(i as int) =~= others@);
    r
}

/// Probes accounts that are bound to each other: one of them may be one of another pair.
pub(crate) fn probe_bindings(ctx: &ProbeCtx) -> (r: Vec<Finding>)
    requires
        ctx@.ixs.len() > 0,
    ensures
        finding_views(r@) == binding_findings(ctx@, ref_pairs(ctx@.svm, ctx@.ixs)),
{
    let index = index_of(ctx);
    let current = instruction_account_keys_ordered(ctx.instructions);
    let pairs = collect_bidirectional_ref_pairs(ctx.svm, ctx.instructions);
    let mut r: Vec<Finding> = Vec::new();
    let mut i: usize = 0;
    assert(finding_views(r@) =~= binding_findings(ctx@, pairs@.take(0)));
    while i < pairs.len()
        invariant
            i <= pairs@.len(),
            ctx@.ixs.len() > 0,
            index.well_formed(),
            index.scope@ == scope_of(ctx@),
            current@ == account_keys(ctx@.ixs),
            finding_views(r@) == binding_findings(ctx@, pairs@.take(i as int)),
        decreases pairs.len() - i,
    {
        let pair = pairs[i];
        assert(pairs@.take(i + 1).drop_last() =~= pairs@.take(i as int));
        let matters = account_is_load_bearing(ctx, &pair.left) && account_is_load_bearing(ctx, &pair.right) && match pair.root {
            Some(root) => account_is_identity_relevant(ctx, &root),
            None => true,
        };
        if matters {
            let for_left = index.same_class_replacements(&pair.left);
            let left = probe_side(ctx, &pair, &pair.left, &pair.right, &for_left, &current);
            add_findings(&mut r, left);
            let for_right = index.same_class_replacements(&pair.right);
            let right = probe_side(ctx, &pair, &pair.right, &pair.left, &for_right, &current);
            add_findings(&mut r, right);
        }
        i += 1;
    }
    assert(pairs@.take(i as int) =~= pairs@);
    r
}

/// The class of a finding on a reference: where the other end is the only one of its class, it is a
/// root.
pub open spec fn reference_class(s: Scope, opposite: Pubkey) -> Seq<char> {
    if class_members(s, opposite).len() <= 1 { "CC-7 root-ref"@ } else { "CC-7 field-ref"@ }
}

/// What is reported where an end of a reference was replaced.
pub open spec fn reference_report(p: Probe, edge: FieldRefEdge, substituted: Pubkey, replacement: Pubkey) -> FindingView {
    let opposite = if substituted == edge.source { edge.target } else { edge.source };
    let class = reference_class(scope_of(p), opposite);
    FindingView {
        id: found_id(p, class, substituted),
        message: "["@ + class + "] account "@ + base58(edge.source@) + " references "@ + base58(edge.target@)
            + ", substituted "@ + base58(substituted@) + " with same-class account "@ + base58(replacement@) + ", instr "@
            + call_text(p) + " still succeeded (missing field cross-reference check)"@,
    }
}

/// What is reported where only the address at the end of a reference matters, and was replaced.
pub open spec fn value_report(p: Probe, edge: FieldRefEdge, replacement: Pubkey) -> FindingView {
    FindingView {
        id: found_id(p, "CC-7 value-ref"@, edge.target),
        message: "[CC-7 value-ref] account "@ + base58(edge.source@) + " references "@ + base58(edge.target@)
            + ", substituted referenced account with same-class account "@ + base58(replacement@) + " ("@ + class_text(
            scope_of(p),
            replacement,
        ) + "), instr "@ + call_text(p) + " still succeeded (missing referenced account binding check)"@,
    }
}

/// The finding on the source of a reference: an account that refers elsewhere is accepted in its place.
pub open spec fn source_finding(p: Probe, edge: FieldRefEdge, r: Pubkey) -> Option<FindingView> {
    match account_at(p.svm, r) {
        Some(a) => if !account_keys(p.ixs).contains(r) && !holds_address(a.data, edge.target) && replaces(p, edge.source, r) {
            Some(reference_report(p, edge, edge.source, r))
        } else {
            None
        },
        None => None,
    }
}

/// The finding on the target of a reference: an account that is not referred to is accepted in its
/// place.
pub open spec fn target_finding(p: Probe, edge: FieldRefEdge, r: Pubkey) -> Option<FindingView> {
    if account_keys(p.ixs).contains(r) || holds_address(account_at(p.svm, edge.source)->0.data, r) {
        None
    } else if load_bearing(p, edge.target) {
        if replaces(p, edge.target, r) { Some(reference_report(p, edge, edge.target, r)) } else { None }
    } else if swap_survives(p, edge.target, r) {
        Some(value_report(p, edge, r))
    } else {
        None
    }
}

/// The findings on the source of a reference.
pub open spec fn source_findings(p: Probe, edge: FieldRefEdge, others: Seq<Pubkey>) -> Seq<FindingView>
    decreases others.len(),
{
    if others.len() == 0 {
        Seq::empty()
    } else {
        with_finding(source_findings(p, edge, others.drop_last()), source_finding(p, edge, others.last()))
    }
}

/// The findings on the target of a reference.
pub open spec fn target_findings(p: Probe, edge: FieldRefEdge, others: Seq<Pubkey>) -> Seq<FindingView>
    decreases others.len(),
{
    if others.len() == 0 {
        Seq::empty()
    } else {
        with_finding(target_findings(p, edge, others.drop_last()), target_finding(p, edge, others.last()))
    }
}

/// The findings on one reference: its source has to be read; where its target is read too, both ends
/// are replaced, else only the target.
pub open spec fn edge_findings(p: Probe, edge: FieldRefEdge) -> Seq<FindingView> {
    let s = scope_of(p);
    if !load_bearing(p, edge.source) {
        Seq::empty()
    } else if load_bearing(p, edge.target) {
        source_findings(p, edge, replacements(s, edge.source)) + target_findings(p, edge, replacements(s, edge.target))
    } else {
        target_findings(p, edge, replacements(s, edge.target))
    }
}

/// The findings on references.
pub open spec fn reference_findings(p: Probe, edges: Seq<FieldRefEdge>) -> Seq<FindingView>
    decreases edges.len(),
{
    if edges.len() == 0 {
        Seq::empty()
    } else {
        reference_findings(p, edges.drop_last()) + edge_findings(p, edges.last())
    }
}

fn report_reference(ctx: &ProbeCtx, index: &AccountClassIndex, edge: &FieldRefEdge, substituted: &Pubkey, replacement: &Pubkey) -> (r:
    Finding)
    requires
        ctx@.ixs.len() > 0,
        index.well_formed(),
        index.scope@ == scope_of(ctx@),
    ensures
        r@ == reference_report(ctx@, *edge, *substituted, *replacement),
{
    let opposite = if *substituted == edge.source {
        edge.target
    } else {
        edge.source
    };
    let class = if index.class_count(&opposite) <= 1 {
        "CC-7 root-ref"
    } else {
        "CC-7 field-ref"
    };
    let mut m = String::from_str("[");
    m.append(class);
    m.append("] account ");
    m.append(key_text(&edge.source).as_str());
    m.append(" references ");
    m.append(key_text(&edge.target).as_str());
    m.append(", substituted ");
    m.append(key_text(substituted).as_str());
    m.append(" with same-class account ");
    m.append(key_text(replacement).as_str());
    m.append(", instr ");
    m.append(call_name(ctx).as_str());
    m.append(" still succeeded (missing field cross-reference check)");
    Finding { id: found_on(ctx, class, substituted), message: m }
}

fn report_value(ctx: &ProbeCtx, index: &AccountClassIndex, edge: &FieldRefEdge, replacement: &Pubkey) -> (r: Finding)
    requires
        ctx@.ixs.len() > 0,
        index.well_formed(),
        index.scope@ == scope_of(ctx@),
    ensures
        r@ == value_report(ctx@, *edge, *replacement),
{
    let mut m = String::from_str("[CC-7 value-ref] account ");
    m.append(key_text(&edge.source).as_str());
    m.append(" references ");
    m.append(key_text(&edge.target).as_str());
    m.append(", substituted referenced account with same-class account ");
    m.append(key_text(replacement).as_str());
    m.append(" (");
    m.append(index.class_label(replacement).as_str());
    m.append("), instr ");
    m.append(call_name(ctx).as_str());
    m.append(" still succeeded (missing referenced account binding check)");
    Finding { id: found_on(ctx, "CC-7 value-ref", &edge.target), message: m }
}

fn probe_source(ctx: &ProbeCtx, index: &AccountClassIndex, edge: &FieldRefEdge, current: &Vec<Pubkey>) -> (r: Vec<Finding>)
    requires
        ctx@.ixs.len() > 0,
        index.well_formed(),
        index.scope@ == scope_of(ctx@),
        current@ == account_keys(ctx@.ixs),
    ensures
        finding_views(r@) == source_findings(ctx@, *edge, replacements(scope_of(ctx@), edge.source)),
{
    let others = index.same_class_replacements(&edge.source);
    let mut r: Vec<Finding> = Vec::new();
    let mut i: usize = 0;
    assert(finding_views(r@) =~= source_findings(ctx@, *edge, others@.take(0)));
    while i < others.len()
        invariant
            i <= others@.len(),
            ctx@.ixs.len() > 0,
            index.well_formed(),
            index.scope@ == scope_of(ctx@),
            current@ == account_keys(ctx@.ixs),
            finding_views(r@) == source_findings(ctx@, *edge, others@.take(i as int)),
        decreases others.len() - i,
    {
        let o = others[i];
        assert(others@.take(i + 1).drop_last() =~= others@.take(i as int));
        let f = match svm_get_account(ctx.svm, &o) {
            Some(a) => if !has_key(current, &o) && !data_contains_pubkey(a.data.as_slice(), &edge.target)
                && substitute_existing_load_bearing_account_probe(ctx, edge.source, o) {
                Some(report_reference(ctx, index, edge, &edge.source, &o))
            } else {
                None
            },
            None => None,
        };
        assert(opt_finding(f) == source_finding(ctx@, *edge, o));
        add_finding(&mut r, f);
        i += 1;
    }
    assert(others@.take(i as int) =~= others@);
    r
}

fn probe_target(
    ctx: &ProbeCtx,
    index: &AccountClassIndex,
    edge: &FieldRefEdge,
    current: &Vec<Pubkey>,
    source_data: &[u8],
    target_read: bool,
) -> (r: Vec<Finding>)
    requires
        ctx@.ixs.len() > 0,
        index.well_formed(),
        index.scope@ == scope_of(ctx@),
        current@ == account_keys(ctx@.ixs),
        source_data@ == account_at(ctx@.svm, edge.source)->0.data,
        target_read == load_bearing(ctx@, edge.target),
    ensures
        finding_views(r@) == target_findings(ctx@, *edge, replacements(scope_of(ctx@), edge.target)),
{
    let others = index.same_class_replacements(&edge.target);
    let mut r: Vec<Finding> = Vec::new();
    let mut i: usize = 0;
    assert(finding_views(r@) =~= target_findings(ctx@, *edge, others@.take(0)));
    while i < others.len()
        invariant
            i <= others@.len(),
            ctx@.ixs.len() > 0,
            index.well_formed(),
            index.scope@ == scope_of(ctx@),
            current@ == account_keys(ctx@.ixs),
            source_data@ == account_at(ctx@.svm, edge.source)->0.data,
            target_read == load_bearing(ctx@, edge.target),
            finding_views(r@) == target_findings(ctx@, *edge, others@.take(i as int)),
        decreases others.len() - i,
    {
        let o = others[i];
        assert(others@.take(i + 1).drop_last() =~= others@.take(i as int));
        let f = if has_key(current, &o) || data_contains_pubkey(source_data, &o) {
            None
        } else if target_read {
            if substitute_existing_load_bearing_account_probe(ctx, edge.target, o) {
                Some(report_reference(ctx, index, edge, &edge.target, &o))
            } else {
                None
            }
        } else if substitute_existing_referenced_target_probe(ctx, edge.target, o) {
            Some(report_value(ctx, index, edge, &o))
        } else {
            None
        };
        assert(opt_finding(f) == target_finding(ctx@, *edge, o));
        add_finding(&mut r, f);
        i += 1;
    }
    assert(others@.take(i as int) =~= others@);
    r
}

fn probe_edge(ctx: &ProbeCtx, index: &AccountClassIndex, edge: &FieldRefEdge, current: &Vec<Pubkey>) -> (r: Vec<Finding>)
    requires
        ctx@.ixs.len() > 0,
        index.well_formed(),
        index.scope@ == scope_of(ctx@),
        current@ == account_keys(ctx@.ixs),
    ensures
        finding_views(r@) == edge_findings(ctx@, *edge),
{
    let none: Vec<Finding> = Vec::new();
    assert(finding_views(none@) =~= Seq::<FindingView>::empty());
    if !account_is_load_bearing(ctx, &edge.source) {
        return none;
    }
    let target_read = account_is_load_bearing(ctx, &edge.target);
    let account = match svm_get_account(ctx.svm, &edge.source) {
        Some(a) => a,
        None => {
            return none;
        },
    };
    if target_read {
        let mut r = probe_source(ctx, index, edge, current);
        let more = probe_target(ctx, index, edge, current, account.data.as_slice(), true);
        add_findings(&mut r, more);
        r
    } else {
        probe_target(ctx, index, edge, current, account.data.as_slice(), false)
    }
}

/// Probes references: an account whose data holds the address of another, and that may be used with
/// one it does not refer to.
pub(crate) fn probe_references(ctx: &ProbeCtx) -> (r: Vec<Finding>)
    requires
        ctx@.ixs.len() > 0,
    ensures
        finding_views(r@) == reference_findings(ctx@, ref_edges(ctx@.svm, ctx@.ixs)),
{
    let index = index_of(ctx);
    let current = instruction_account_keys_ordered(ctx.instructions);
    let edges = collect_field_ref_edges(ctx.svm, ctx.instructions);
    let mut r: Vec<Finding> = Vec::new();
    let mut i: usize = 0;
    assert(finding_views(r@) =~= reference_findings(ctx@, edges@.take(0)));
    while i < edges.len()
        invariant
            i <= edges@.len(),
            ctx@.ixs.len() > 0,
            index.well_formed(),
            index.scope@ == scope_of(ctx@),
            current@ == account_keys(ctx@.ixs),
            finding_views(r@) == reference_findings(ctx@, edges@.take(i as int)),
        decreases edges.len() - i,
    {
        assert(edges@.take(i + 1).drop_last() =~= edges@.take(i as int));
        let more = probe_edge(ctx, &index, &edges[i], &current);
        add_findings(&mut r, more);
        i += 1;
    }
    assert(edges@.take(i as int) =~= edges@);
    r
}

/// The finding on an account that no reference explains: one of its class that holds other addresses
/// is accepted in its place.
pub open spec fn swap_finding(p: Probe, c: SwapView) -> Option<FindingView> {
    if load_bearing(p, c.target) && replaces(p, c.target, c.replacement) {
        Some(
            FindingView {
                id: found_id(p, "CC-7.7 semantic-swap"@, c.target),
                message: "[CC-7.7 semantic-swap] account "@ + base58(c.target@) + " ("@ + class_text(scope_of(p), c.target)
                    + ") has embedded-key profile with "@ + dec(c.target_keys.len())
                    + " observed key(s), substituted with same-class account "@ + base58(c.replacement@) + " with "@ + dec(
                    c.replacement_keys.len(),
                ) + " observed key(s), instr "@ + call_text(p)
                    + " still succeeded (missing semantic same-class binding check)"@,
            },
        )
    } else {
        None
    }
}

/// The findings on accounts that no reference explains.
pub open spec fn swap_findings(p: Probe, cs: Seq<SwapView>) -> Seq<FindingView>
    decreases cs.len(),
{
    if cs.len() == 0 {
        Seq::empty()
    } else {
        with_finding(swap_findings(p, cs.drop_last()), swap_finding(p, cs.last()))
    }
}

fn probe_swap(ctx: &ProbeCtx, index: &AccountClassIndex, c: &SemanticSwapCandidate) -> (r: Option<Finding>)
    requires
        ctx@.ixs.len() > 0,
        index.well_formed(),
        index.scope@ == scope_of(ctx@),
    ensures
        opt_finding(r) == swap_finding(ctx@, c@),
{
    if !account_is_load_bearing(ctx, &c.target) || !substitute_existing_load_bearing_account_probe(
        ctx,
        c.target,
        c.replacement,
    ) {
        return None;
    }
    let mut m = String::from_str("[CC-7.7 semantic-swap] account ");
    m.append(key_text(&c.target).as_str());
    m.append(" (");
    m.append(index.class_label(&c.target).as_str());
    m.append(") has embedded-key profile with ");
    push_dec_usize(&mut m, c.target_keys.len());
    m.append(" observed key(s), substituted with same-class account ");
    m.append(key_text(&c.replacement).as_str());
    m.append(" with ");
    push_dec_usize(&mut m, c.replacement_keys.len());
    m.append(" observed key(s), instr ");
    m.append(call_name(ctx).as_str());
    m.append(" still succeeded (missing semantic same-class binding check)");
    Some(Finding { id: found_on(ctx, "CC-7.7 semantic-swap", &c.target), message: m })
}

/// Probes accounts that no reference explains: one of the same class may stand in its place though it
/// holds other addresses.
pub(crate) fn probe_swaps(ctx: &ProbeCtx) -> (r: Vec<Finding>)
    requires
        ctx@.ixs.len() > 0,
    ensures
        finding_views(r@) == swap_findings(ctx@, swaps(scope_of(ctx@), ctx@.ixs)),
{
    let index = index_of(ctx);
    let cs = collect_semantic_swap_candidates_for_accounts(
        ctx.svm,
        ctx.instructions,
        ctx.observed_accounts,
        ctx.config,
        &index,
    );
    let ghost vs = swap_views(cs@);
    let mut r: Vec<Finding> = Vec::new();
    let mut i: usize = 0;
    assert(finding_views(r@) =~= swap_findings(ctx@, vs.take(0)));
    while i < cs.len()
        invariant
            i <= cs@.len(),
            ctx@.ixs.len() > 0,
            index.well_formed(),
            index.scope@ == scope_of(ctx@),
            vs == swap_views(cs@),
            finding_views(r@) == swap_findings(ctx@, vs.take(i as int)),
        decreases cs.len() - i,
    {
        assert(vs.take(i + 1).drop_last() =~= vs.take(i as int));
        assert(vs.take(i + 1).last() == cs@[i as int]@);
        let f = probe_swap(ctx, &index, &cs[i]);
        add_finding(&mut r, f);
        i += 1;
    }
    assert(vs.take(i as int) =~= vs);
    r
}

} // verus!
