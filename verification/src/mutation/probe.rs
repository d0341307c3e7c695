//! When an instruction is probed, and what is done with what is found.
use vstd::prelude::*;
use litesvm::LiteSVM;
use crate::ids::is_known_sysvar;
#[allow(unused_imports)]
use crate::ids::known_sysvar;
use crate::keys::Keypair;
#[allow(unused_imports)]
use crate::mutation::accounts::{account_keys, all_pairs, first_slots};
use crate::mutation::alias::{probe_cross_authorities, probe_duplicates, probe_forwarded_accounts};
#[allow(unused_imports)]
use crate::mutation::alias::{cross_demotions, cross_findings, duplicate_findings, forwarded_findings};
use crate::mutation::binding::{probe_bindings, probe_references, probe_swaps};
#[allow(unused_imports)]
use crate::mutation::binding::{binding_findings, reference_findings, swap_findings};
use crate::mutation::cache::{
    edge_trace_signature, instruction_state_signature, mark_probe_state_seen, probe_base_cap_reached, probe_key,
    probe_state_already_seen, ProbeBaseKey, ProbeCache, ProbeMark,
};
#[allow(unused_imports)]
use crate::mutation::cache::{base_of, edge_signature, state_signature};
#[allow(unused_imports)]
use crate::mutation::classes::scope_of;
#[allow(unused_imports)]
use crate::mutation::effects::ConfigView;
use crate::mutation::effects::{AccountMutationConfig, ProbeCtx};
#[allow(unused_imports)]
use crate::mutation::effects::Probe;
use crate::mutation::findings::{add_findings, select_finding, Finding};
#[allow(unused_imports)]
use crate::mutation::findings::{finding_views, selected, FindingView};
use crate::mutation::identity::{probe_owners, probe_pdas, probe_sysvars, probe_types};
#[allow(unused_imports)]
use crate::mutation::identity::{
    owner_candidates, owner_demotions, owner_findings, pda_candidates, pda_findings, sysvar_candidates, sysvar_findings,
    type_findings, typed_candidates,
};
#[allow(unused_imports)]
use crate::mutation::refs::{ref_edges, ref_pairs, swaps};
use crate::mutation::signers::{probe_authorities, probe_signers};
#[allow(unused_imports)]
use crate::mutation::signers::{authority_outcome, signer_findings, signer_list};
use crate::mutation::tokens::{probe_forged_pairs, probe_token_owners, probe_wrong_mints};
#[allow(unused_imports)]
use crate::mutation::tokens::{fake_owner_outcome, forged_pair_outcome, wrong_mint_outcome};
use crate::outcome::{read_metadata, InnerInstruction};
#[allow(unused_imports)]
use crate::outcome::{group_view, inner_views, metadata_value, InnerView};
use crate::schema::TypeTags;
#[allow(unused_imports)]
use crate::schema::TagsView;
use crate::session::{record_mutation_violation, Session};
#[allow(unused_imports)]
use crate::session::{with_mutation_violation, SessionView};
use crate::svm::{message_account_keys, send_probe_transaction, svm_clone};
#[allow(unused_imports)]
use crate::svm::{legacy_message, message_fits, message_keys, run_result, run_succeeds};
use crate::types::{add_key, has_key, Instruction, Pubkey};
#[allow(unused_imports)]
use crate::types::{ix_views, slots_of, with_key, zero_key, InstructionView};

verus! {

/// The address at an index, where there is one.
pub open spec fn key_at_index(keys: Seq<Pubkey>, i: u8) -> Option<Pubkey> {
    if i < keys.len() { Some(keys[i as int]) } else { None }
}

/// The programs that one group of calls goes to.
pub open spec fn called_programs(keys: Seq<Pubkey>, calls: Seq<InnerView>) -> Seq<Pubkey>
    decreases calls.len(),
{
    if calls.len() == 0 {
        Seq::empty()
    } else {
        let before = called_programs(keys, calls.drop_last());
        match key_at_index(keys, calls.last().program_id_index) {
            Some(k) => with_key(before, k),
            None => before,
        }
    }
}

/// All calls, one group behind the other.
pub open spec fn all_calls(groups: Seq<Seq<InnerView>>) -> Seq<InnerView>
    decreases groups.len(),
{
    if groups.len() == 0 {
        Seq::empty()
    } else {
        all_calls(groups.drop_last()) + groups.last()
    }
}

/// The account counts as passed on: it is neither a program that is called, nor a sysvar, nor the
/// system program.
pub open spec fn counts_as_forwarded(programs: Seq<Pubkey>, k: Pubkey) -> bool {
    !programs.contains(k) && !known_sysvar(k) && k@ != zero_key()
}

/// The accounts with those that one call is given.
pub open spec fn with_call(before: Seq<Pubkey>, keys: Seq<Pubkey>, programs: Seq<Pubkey>, indexes: Seq<u8>) -> Seq<Pubkey>
    decreases indexes.len(),
{
    if indexes.len() == 0 {
        before
    } else {
        let r = with_call(before, keys, programs, indexes.drop_last());
        match key_at_index(keys, indexes.last()) {
            Some(k) => if counts_as_forwarded(programs, k) { with_key(r, k) } else { r },
            None => r,
        }
    }
}

/// The accounts that some calls are given.
pub open spec fn with_calls(keys: Seq<Pubkey>, programs: Seq<Pubkey>, calls: Seq<InnerView>) -> Seq<Pubkey>
    decreases calls.len(),
{
    if calls.len() == 0 {
        Seq::empty()
    } else {
        with_call(with_calls(keys, programs, calls.drop_last()), keys, programs, calls.last().accounts)
    }
}

/// The accounts that are passed on to another program, each once.
pub open spec fn forwarded(keys: Seq<Pubkey>, groups: Seq<Seq<InnerView>>) -> Seq<Pubkey> {
    with_calls(keys, called_programs(keys, all_calls(groups)), all_calls(groups))
}

/// The addresses of the message of some instructions, in the order of their indexes.
pub open spec fn index_space(ixs: Seq<InstructionView>, payer: Pubkey) -> Seq<Pubkey> {
    if message_fits(ixs, payer) { message_keys(legacy_message(ixs, payer, zero_key())) } else { Seq::empty() }
}

fn list_calls(inner: &Vec<Vec<InnerInstruction>>) -> (r: Vec<(u8, Vec<u8>)>)
    ensures
        r@.len() == all_calls(inner_views(inner@)).len(),
        forall|i: int|
            0 <= i < r@.len() ==> (#[trigger] r@[i]).0 == all_calls(inner_views(inner@))[i].program_id_index && r@[i].1@
                == all_calls(inner_views(inner@))[i].accounts,
{
    let ghost all = inner_views(inner@);
    let mut r: Vec<(u8, Vec<u8>)> = Vec::new();
    let mut i: usize = 0;
    while i < inner.len()
        invariant
            i <= inner@.len(),
            all == inner_views(inner@),
            r@.len() == all_calls(all.take(i as int)).len(),
            forall|k: int|
                0 <= k < r@.len() ==> (#[trigger] r@[k]).0 == all_calls(all.take(i as int))[k].program_id_index && r@[k].1@
                    == all_calls(all.take(i as int))[k].accounts,
        decreases inner.len() - i,
    {
        let group = &inner[i];
        let ghost gv = group_view(group@);
        let ghost before = all_calls(all.take(i as int));
        proof {
            assert(all.take(i + 1).drop_last() =~= all.take(i as int));
            assert(all.take(i + 1).last() == gv);
        }
        let mut j: usize = 0;
        while j < group.len()
            invariant
                j <= group@.len(),
                gv == group_view(group@),
                r@.len() == before.len() + j,
                forall|k: int|
                    0 <= k < r@.len() ==> (#[trigger] r@[k]).0 == (before + gv)[k].program_id_index && r@[k].1@ == (before
                        + gv)[k].accounts,
            decreases group.len() - j,
        {
            r.push((group[j].program_id_index, crate::types::copy_bytes(group[j].accounts.as_slice())));
            assert((before + gv)[before.len() + j] == group@[j as int]@);
            j += 1;
        }
        i += 1;
    }
    assert(all.take(i as int) =~= all);
    r
}

/// The accounts that the unmutated transaction passed on to another program. The indexes of calls
/// count the addresses of the message.
pub fn forwarded_accounts_from_baseline(inner: &Vec<Vec<InnerInstruction>>, instructions: &[Instruction], payer: &Pubkey) -> (r:
    Vec<Pubkey>)
    ensures
        r@ == forwarded(index_space(ix_views(instructions@), *payer), inner_views(inner@)),
{
    let keys = match message_account_keys(instructions, payer) {
        Some(keys) => keys,
        None => Vec::new(),
    };
    assert(keys@ == index_space(ix_views(instructions@), *payer));
    forwarded_accounts(&keys, inner)
}

/// The accounts that calls pass on, with the addresses that their indexes count.
pub fn forwarded_accounts(keys: &Vec<Pubkey>, inner: &Vec<Vec<InnerInstruction>>) -> (r: Vec<Pubkey>)
    ensures
        r@ == forwarded(keys@, inner_views(inner@)),
{
    let ghost calls = all_calls(inner_views(inner@));
    let list = list_calls(inner);
    let mut programs: Vec<Pubkey> = Vec::new();
    let mut i: usize = 0;
    while i < list.len()
        invariant
            i <= list@.len(),
            list@.len() == calls.len(),
            forall|k: int| 0 <= k < list@.len() ==> (#[trigger] list@[k]).0 == calls[k].program_id_index,
            programs@ == called_programs(keys@, calls.take(i as int)),
        decreases list.len() - i,
    {
        assert(calls.take(i + 1).drop_last() =~= calls.take(i as int));
        assert(list@[i as int].0 == calls[i as int].program_id_index);
        let at: usize = list[i].0 as usize;
        if at < keys.len() {
            add_key(&mut programs, keys[at]);
        }
        i += 1;
    }
    assert(calls.take(i as int) =~= calls);
    let system = Pubkey::default();
    let mut r: Vec<Pubkey> = Vec::new();
    let mut j: usize = 0;
    while j < list.len()
        invariant
            j <= list@.len(),
            list@.len() == calls.len(),
            forall|k: int| 0 <= k < list@.len() ==> (#[trigger] list@[k]).1@ == calls[k].accounts,
            system@ == zero_key(),
            r@ == with_calls(keys@, programs@, calls.take(j as int)),
        decreases list.len() - j,
    {
        let ghost before = r@;
        let indexes = &list[j].1;
        proof {
            assert(calls.take(j + 1).drop_last() =~= calls.take(j as int));
            assert(list@[j as int].1@ == calls[j as int].accounts);
        }
        let mut m: usize = 0;
        while m < indexes.len()
            invariant
                m <= indexes@.len(),
                system@ == zero_key(),
                r@ == with_call(before, keys@, programs@, indexes@.take(m as int)),
            decreases indexes.len() - m,
        {
            assert(indexes@.take(m + 1).drop_last() =~= indexes@.take(m as int));
            let at: usize = indexes[m] as usize;
            if at < keys.len() {
                let k = keys[at];
                if !has_key(&programs, &k) && !is_known_sysvar(&k) && !k.same_as(&system) {
                    add_key(&mut r, k);
                }
            }
            m += 1;
        }
        assert(indexes@.take(m as int) =~= indexes@);
        j += 1;
    }
    assert(calls.take(j as int) =~= calls);
    r
}

/// What the probes found, in their order: derived addresses, owners of token accounts, mints, forged
/// pairs, bindings, references, sysvars, owners, signers, authorities, types, swaps, shared authorities,
/// duplicates, and accounts passed on.
pub struct Findings {
    pub pdas: Seq<FindingView>,
    pub token_owners: Seq<FindingView>,
    pub wrong_mints: Seq<FindingView>,
    pub forged_pairs: Seq<FindingView>,
    pub bindings: Seq<FindingView>,
    pub references: Seq<FindingView>,
    pub sysvars: Seq<FindingView>,
    pub owners: Seq<FindingView>,
    pub signers: Seq<FindingView>,
    pub authorities: Seq<FindingView>,
    pub types: Seq<FindingView>,
    pub swaps: Seq<FindingView>,
    pub cross: Seq<FindingView>,
    pub duplicates: Seq<FindingView>,
    pub passed_on: Seq<FindingView>,
}

impl Findings {
    /// All findings, in the order of the probes.
    pub open spec fn all(self) -> Seq<FindingView> {
        self.pdas + self.token_owners + self.wrong_mints + self.forged_pairs + self.bindings + self.references + self.sysvars
            + self.owners + self.signers + self.authorities + self.types + self.swaps + self.cross + self.duplicates
            + self.passed_on
    }

    /// The findings are what the probes make of the transaction. Three probes draw keys at random: of
    /// those, what they make of it with some keys.
    pub open spec fn found_by(self, p: Probe, config: ConfigView) -> bool {
        let slots = slots_of(p.ixs);
        let first = first_slots(slots);
        let keys = account_keys(p.ixs);
        &&& self.pdas == pda_findings(p, pda_candidates(p.svm, config, first))
        &&& fake_owner_outcome(p, self.token_owners)
        &&& wrong_mint_outcome(p, self.wrong_mints)
        &&& forged_pair_outcome(p, self.forged_pairs)
        &&& self.bindings == binding_findings(p, ref_pairs(p.svm, p.ixs))
        &&& self.references == reference_findings(p, ref_edges(p.svm, p.ixs))
        &&& self.sysvars == sysvar_findings(p, sysvar_candidates(slots))
        &&& self.owners == owner_findings(p, owner_candidates(p.svm, config, first))
        &&& self.signers == signer_findings(p, signer_list(p.ixs, p.signers))
        &&& authority_outcome(p, self.authorities)
        &&& self.types == type_findings(p, typed_candidates(p.svm, p.tags, first))
        &&& self.swaps == swap_findings(p, swaps(scope_of(p), p.ixs))
        &&& self.cross == cross_findings(p, all_pairs(keys))
        &&& self.duplicates == duplicate_findings(p, all_pairs(keys))
        &&& self.passed_on == forwarded_findings(p, keys)
    }
}

/// What is noted of what was left out.
pub open spec fn demotions(p: Probe, config: ConfigView) -> Seq<FindingView> {
    owner_demotions(p.svm, config, first_slots(slots_of(p.ixs))) + cross_demotions(p, all_pairs(account_keys(p.ixs)))
}

/// The findings are what the probes make of the transaction.
pub open spec fn probed(p: Probe, config: ConfigView, found: Seq<FindingView>) -> bool {
    exists|f: Findings| #[trigger] f.found_by(p, config) && found == f.all()
}

/// Runs all probes.
pub(crate) fn run_probes(ctx: &ProbeCtx, demoted: &mut Vec<Finding>) -> (r: Vec<Finding>)
    requires
        ctx@.ixs.len() > 0,
    ensures
        probed(ctx@, ctx.config@, finding_views(r@)),
        finding_views(final(demoted)@) == finding_views(old(demoted)@) + demotions(ctx@, ctx.config@),
{
    let ghost noted = finding_views(demoted@);
    let pdas = probe_pdas(ctx);
    let token_owners = probe_token_owners(ctx);
    let wrong_mints = probe_wrong_mints(ctx);
    let forged_pairs = probe_forged_pairs(ctx);
    let bindings = probe_bindings(ctx);
    let references = probe_references(ctx);
    let sysvars = probe_sysvars(ctx);
    let owners = probe_owners(ctx, demoted);
    let signers = probe_signers(ctx);
    let authorities = probe_authorities(ctx);
    let types = probe_types(ctx);
    let swapped = probe_swaps(ctx);
    let cross = probe_cross_authorities(ctx, demoted);
    let duplicates = probe_duplicates(ctx);
    let passed_on = probe_forwarded_accounts(ctx);
    let ghost f = Findings {
        pdas: finding_views(pdas@),
        token_owners: finding_views(token_owners@),
        wrong_mints: finding_views(wrong_mints@),
        forged_pairs: finding_views(forged_pairs@),
        bindings: finding_views(bindings@),
        references: finding_views(references@),
        sysvars: finding_views(sysvars@),
        owners: finding_views(owners@),
        signers: finding_views(signers@),
        authorities: finding_views(authorities@),
        types: finding_views(types@),
        swaps: finding_views(swapped@),
        cross: finding_views(cross@),
        duplicates: finding_views(duplicates@),
        passed_on: finding_views(passed_on@),
    };
    let mut r = pdas;
    add_findings(&mut r, token_owners);
    add_findings(&mut r, wrong_mints);
    add_findings(&mut r, forged_pairs);
    add_findings(&mut r, bindings);
    add_findings(&mut r, references);
    add_findings(&mut r, sysvars);
    add_findings(&mut r, owners);
    add_findings(&mut r, signers);
    add_findings(&mut r, authorities);
    add_findings(&mut r, types);
    add_findings(&mut r, swapped);
    add_findings(&mut r, cross);
    add_findings(&mut r, duplicates);
    add_findings(&mut r, passed_on);
    proof {
        assert(f.found_by(ctx@, ctx.config@));
        assert(finding_views(r@) == f.all());
        assert(finding_views(demoted@) =~= noted + demotions(ctx@, ctx.config@));
    }
    r
}

/// What a probe is given.
pub struct ProbeRequest<'a> {
    pub config: &'a AccountMutationConfig,
    pub observed_accounts: &'a Vec<Pubkey>,
    pub instructions: &'a [Instruction],
    pub signers: &'a Vec<Keypair>,
    pub payer: &'a Keypair,
    pub sigverify: bool,
    pub tags: &'a TypeTags,
    pub disc_len: Option<usize>,
}

/// What a probe is given, as a value.
pub struct RequestView {
    pub config: ConfigView,
    pub observed: Seq<Pubkey>,
    pub ixs: Seq<InstructionView>,
    pub signers: Seq<Keypair>,
    pub payer: Keypair,
    pub sigverify: bool,
    pub tags: TagsView,
    pub disc_len: Option<usize>,
}

impl<'a> View for ProbeRequest<'a> {
    type V = RequestView;

    open spec fn view(&self) -> RequestView {
        RequestView {
            config: self.config@,
            observed: self.observed_accounts@,
            ixs: ix_views(self.instructions@),
            signers: self.signers@,
            payer: *self.payer,
            sigverify: self.sigverify,
            tags: self.tags@,
            disc_len: self.disc_len,
        }
    }
}

/// The probe that a request and a run of the unmutated transaction make up.
pub open spec fn probe_of(q: RequestView, svm: LiteSVM, after: LiteSVM, passed_on: Seq<Pubkey>) -> Probe {
    Probe {
        svm,
        after,
        observed: q.observed,
        forwarded: passed_on,
        ixs: q.ixs,
        signers: q.signers,
        payer: q.payer,
        sigverify: q.sigverify,
        enabled: q.config.enabled,
        skip_pdas: q.config.skip_pda_candidates,
        unverified: q.config.unverified,
        tags: q.tags,
        disc_len: q.disc_len,
    }
}

/// A probe is due: probing is on, there is an instruction, and this kind of instruction is still probed.
pub open spec fn probe_due(q: RequestView, cache: ProbeCache, replay: bool) -> bool {
    q.config.enabled && q.ixs.len() > 0 && (replay || !cache.capped(base_of(q.disc_len, q.ixs[0])))
}

/// The kind of the instruction that is to be probed, where a probe is due.
pub fn probe_gate(q: &ProbeRequest, cache: &ProbeCache, replay: bool) -> (r: Option<ProbeBaseKey>)
    ensures
        match r {
            Some(base) => probe_due(q@, *cache, replay) && base@ == base_of(q@.disc_len, q@.ixs[0]),
            None => !probe_due(q@, *cache, replay),
        },
{
    if !q.config.enabled || q.instructions.len() == 0 {
        return None;
    }
    let base = probe_key(q.disc_len, &q.instructions[0]);
    if probe_base_cap_reached(cache, &base, replay) {
        return None;
    }
    Some(base)
}

/// The run of the unmutated transaction.
pub struct Baseline {
    /// The machine afterwards.
    pub svm: LiteSVM,
    /// The accounts that were passed on to another program.
    pub forwarded: Vec<Pubkey>,
}

/// The run of the unmutated transaction succeeds on the machine.
pub open spec fn baseline_succeeds(q: RequestView, svm: LiteSVM) -> bool {
    run_succeeds(svm, q.ixs, q.signers, q.payer, q.sigverify)
}

/// The run is that of the unmutated transaction on the machine.
pub open spec fn is_baseline(q: RequestView, svm: LiteSVM, b: Baseline) -> bool {
    let r = run_result(svm, q.ixs, q.signers, q.payer, q.sigverify);
    baseline_succeeds(q, svm) && b.svm == r.0 && b.forwarded@ == forwarded(
        index_space(q.ixs, q.payer.key),
        metadata_value((r.1->0).0).inner,
    )
}

/// Runs the unmutated transaction on a copy of the machine, where it succeeds. Where it fails, no
/// mutation would tell anything.
pub fn run_baseline(q: &ProbeRequest, svm: &LiteSVM) -> (r: Option<Baseline>)
    ensures
        match r {
            Some(b) => is_baseline(q@, *svm, b),
            None => !baseline_succeeds(q@, *svm),
        },
{
    let mut after = svm_clone(svm);
    match send_probe_transaction(&mut after, q.instructions, q.signers, q.payer, q.sigverify) {
        Some((meta, None)) => {
            let record = read_metadata(meta);
            let forwarded = forwarded_accounts_from_baseline(&record.inner_instructions, q.instructions, &q.payer.key);
            Some(Baseline { svm: after, forwarded })
        },
        _ => None,
    }
}

/// The signature by which the state is told from others: that of the branches that were taken, where
/// they were recorded, else that of the accounts.
pub open spec fn run_signature(edges: Option<Seq<u64>>, svm: LiteSVM, ixs: Seq<InstructionView>) -> u64 {
    if edges is Some && edges->0.len() > 0 { edge_signature(edges->0) } else { state_signature(svm, ixs) }
}

/// Some numbers, where there are any.
pub open spec fn opt_edges(e: Option<Vec<u64>>) -> Option<Seq<u64>> {
    match e {
        Some(v) => Some(v@),
        None => None,
    }
}

/// What is kept of the session where the finding at `at` is reported.
pub open spec fn reported(s: SessionView, found: Seq<FindingView>, at: Option<int>) -> SessionView {
    match at {
        Some(i) => with_mutation_violation(s, found[i].message, found[i].id),
        None => s,
    }
}

/// The probe has run, or was not due because this kind of instruction was probed in this state: then
/// nothing changes. Where it ran, it is noted in the cache, and the selected finding in the session.
pub open spec fn probe_outcome(
    q: RequestView,
    svm: LiteSVM,
    b: Baseline,
    base: ProbeBaseKey,
    sig: u64,
    before: (SessionView, ProbeCache),
    after: (SessionView, ProbeCache),
    noted: Seq<FindingView>,
    found: Seq<FindingView>,
) -> bool {
    let p = probe_of(q, svm, b.svm, b.forwarded@);
    let replay = before.0.expected_finding_id is Some;
    if !replay && (before.1.holds(base@, sig) || before.1.capped(base@)) {
        after.0 == before.0 && after.1 == before.1 && noted.len() == 0 && found.len() == 0
    } else {
        &&& probed(p, q.config, found)
        &&& noted == demotions(p, q.config)
        &&& after.0 == reported(before.0, found, selected(found, before.0.expected_finding_id))
        &&& after.1.cap == before.1.cap
        &&& after.1.marks@ == if replay { before.1.marks@ } else { before.1.marks@.push(ProbeMark { base, sig }) }
    }
}

/// The probe has run on what the unmutated transaction left, in the state that the accounts show.
pub open spec fn probe_ran(
    q: RequestView,
    svm: LiteSVM,
    before: (SessionView, ProbeCache),
    after: (SessionView, ProbeCache),
    noted: Seq<FindingView>,
    found: Seq<FindingView>,
) -> bool {
    exists|b: Baseline, base: ProbeBaseKey| #[trigger]
        is_baseline(q, svm, b) && base@ == base_of(q.disc_len, q.ixs[0]) && #[trigger] probe_outcome(
            q,
            svm,
            b,
            base,
            state_signature(svm, q.ixs),
            before,
            after,
            noted,
            found,
        )
}

/// What a probe gave.
pub struct ProbeReport {
    /// All findings.
    pub findings: Vec<Finding>,
    /// What was left out.
    pub demoted: Vec<Finding>,
}

/// Probes an instruction whose unmutated transaction succeeded, where it was not probed in this state
/// before.
pub fn probe_baseline(
    q: &ProbeRequest,
    svm: &LiteSVM,
    baseline: &Baseline,
    base: ProbeBaseKey,
    edges: &Option<Vec<u64>>,
    session: &mut Session,
    cache: &mut ProbeCache,
) -> (r: ProbeReport)
    requires
        q.instructions@.len() > 0,
    ensures
        probe_outcome(
            q@,
            *svm,
            *baseline,
            base,
            run_signature(opt_edges(*edges), *svm, q@.ixs),
            (old(session)@, *old(cache)),
            (final(session)@, *final(cache)),
            finding_views(r.demoted@),
            finding_views(r.findings@),
        ),
{
    let replay = session.expected_finding_id.is_some();
    let sig: u64 = match edges {
        Some(e) => if e.len() > 0 {
            edge_trace_signature(e)
        } else {
            instruction_state_signature(svm, q.instructions)
        },
        None => instruction_state_signature(svm, q.instructions),
    };
    let mut demoted: Vec<Finding> = Vec::new();
    assert(finding_views(demoted@) =~= Seq::<FindingView>::empty());
    if probe_state_already_seen(cache, &base, sig, replay) {
        return ProbeReport { findings: Vec::new(), demoted };
    }
    mark_probe_state_seen(cache, base, sig, replay);
    let ctx = ProbeCtx {
        svm,
        baseline_after: &baseline.svm,
        observed_accounts: q.observed_accounts,
        forwarded_accounts: &baseline.forwarded,
        instructions: q.instructions,
        signers: q.signers,
        payer: q.payer,
        sigverify: q.sigverify,
        config: q.config,
        tags: q.tags,
        disc_len: q.disc_len,
    };
    let ghost p = probe_of(q@, *svm, baseline.svm, baseline.forwarded@);
    assert(ctx@ == p);
    let findings = run_probes(&ctx, &mut demoted);
    assert(finding_views(demoted@) =~= demotions(p, q.config@));
    let expected = match &session.expected_finding_id {
        Some(id) => Some(id.as_str()),
        None => None,
    };
    let picked: Option<(String, String)> = match select_finding(&findings, expected) {
        Some(f) => Some((f.message.clone(), f.id.clone())),
        None => None,
    };
    match picked {
        Some((message, id)) => {
            record_mutation_violation(session, message, id);
        },
        None => {},
    }
    ProbeReport { findings, demoted }
}

/// Probes an instruction, where a probe is due and the unmutated transaction succeeds, without a record
/// of the branches that are taken. The machine is not changed.
pub fn maybe_probe_account_mutation(q: &ProbeRequest, svm: &LiteSVM, session: &mut Session, cache: &mut ProbeCache) -> (r: Option<
    ProbeReport,
>)
    ensures
        match r {
            Some(report) => {
                &&& probe_due(q@, *old(cache), old(session)@.expected_finding_id is Some)
                &&& probe_ran(
                    q@,
                    *svm,
                    (old(session)@, *old(cache)),
                    (final(session)@, *final(cache)),
                    finding_views(report.demoted@),
                    finding_views(report.findings@),
                )
            },
            None => {
                &&& final(session)@ == old(session)@
                &&& *final(cache) == *old(cache)
                &&& !(probe_due(q@, *old(cache), old(session)@.expected_finding_id is Some) && baseline_succeeds(q@, *svm))
            },
        },
{
    let replay = session.expected_finding_id.is_some();
    let base = match probe_gate(q, cache, replay) {
        Some(base) => base,
        None => {
            return None;
        },
    };
    let baseline = match run_baseline(q, svm) {
        Some(b) => b,
        None => {
            return None;
        },
    };
    let none: Option<Vec<u64>> = None;
    let report = probe_baseline(q, svm, &baseline, base, &none, session, cache);
    assert(is_baseline(q@, *svm, baseline));
    assert(probe_ran(
        q@,
        *svm,
        (old(session)@, *old(cache)),
        (session@, *cache),
        finding_views(report.demoted@),
        finding_views(report.findings@),
    ));
    Some(report)
}

} // verus!
