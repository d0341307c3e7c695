//! Sending instructions: who signs, who pays, and what is noted.
use vstd::prelude::*;
use litesvm::LiteSVM;
use crate::context::TestContext;
#[allow(unused_imports)]
use crate::context::ContextView;
use crate::discriminators::{instruction_discriminator_len, InstructionRegistry};
use crate::errors::ContextError;
use crate::keys::Keypair;
use crate::mutation::cache::ProbeCache;
use crate::mutation::findings::{add_findings, Finding};
#[allow(unused_imports)]
use crate::mutation::findings::{finding_views, FindingView};
use crate::mutation::probe::{maybe_probe_account_mutation, ProbeRequest};
#[allow(unused_imports)]
use crate::mutation::probe::{baseline_succeeds, probe_due, probe_ran, RequestView};
use crate::outcome::{tx_result_to_outcome, TxOutcome};
#[allow(unused_imports)]
use crate::outcome::{failure_of, metadata_value, outcome_view, OutcomeView};
use crate::schema::TypeTags;
#[allow(unused_imports)]
use crate::schema::TagsView;
use crate::session::{add_send_time, increment_action_count, increment_action_success_count, SendTimers, Session};
#[allow(unused_imports)]
use crate::session::SessionView;
#[allow(unused_imports)]
use crate::snapshot::{with_transaction, DirtyView};
use crate::svm::{holds_signer, spent_since, start_timer, transmit, Sent};
#[allow(unused_imports)]
use crate::svm::{has_signer, message_fits, sending_kept, sent_result};
use crate::types::{Instruction, Pubkey};
#[allow(unused_imports)]
use crate::types::{ix_views, InstructionView};

verus! {

/// What the contexts of one run share.
pub struct HarnessState {
    pub session: Session,
    /// What was probed before.
    pub cache: ProbeCache,
    /// The tags of the account types.
    pub tags: TypeTags,
    /// The tags of the instructions.
    pub instructions: InstructionRegistry,
    /// What probes left out.
    pub demoted: Vec<Finding>,
}

/// What the contexts of one run share, as a value.
pub struct HarnessView {
    pub session: SessionView,
    pub cache: ProbeCache,
    pub tags: TagsView,
    pub instructions: InstructionRegistry,
    pub demoted: Seq<FindingView>,
}

impl View for HarnessState {
    type V = HarnessView;

    open spec fn view(&self) -> HarnessView {
        HarnessView {
            session: self.session@,
            cache: self.cache,
            tags: self.tags@,
            instructions: self.instructions,
            demoted: finding_views(self.demoted@),
        }
    }
}

/// How long the tag of an instruction is, where that is registered.
pub open spec fn tag_length_of(r: InstructionRegistry) -> Option<usize> {
    match r.table {
        Some(t) => Some(t.disc_len),
        None => None,
    }
}

/// What a probe of some instructions is given.
pub open spec fn request_of(c: ContextView, h: HarnessView, ixs: Seq<InstructionView>, signers: Seq<Keypair>, payer: Keypair)
    -> RequestView {
    RequestView {
        config: c.mutation,
        observed: c.seen,
        ixs,
        signers,
        payer,
        sigverify: c.sigverify,
        tags: h.tags,
        disc_len: tag_length_of(h.instructions),
    }
}

/// The instructions were probed on the machine, where a probe is due and they succeed unmutated.
pub open spec fn probe_step(q: RequestView, svm: LiteSVM, before: HarnessView, after: HarnessView) -> bool {
    if probe_due(q, before.cache, before.session.expected_finding_id is Some) && baseline_succeeds(q, svm) {
        exists|noted: Seq<FindingView>, found: Seq<FindingView>| #[trigger]
            probe_ran(q, svm, (before.session, before.cache), (after.session, after.cache), noted, found) && after
                == (HarnessView { session: after.session, cache: after.cache, demoted: before.demoted + noted, ..before })
    } else {
        after == before
    }
}

impl TestContext {
    /// Probes some instructions on copies of the machine. The context does not change.
    pub fn maybe_probe_account_mutation(
        &self,
        state: &mut HarnessState,
        instructions: &[Instruction],
        signers: &Vec<Keypair>,
        payer: &Keypair,
    )
        ensures
            probe_step(
                request_of(self@, old(state)@, ix_views(instructions@), signers@, *payer),
                self.svm,
                old(state)@,
                final(state)@,
            ),
    {
        let q = ProbeRequest {
            config: &self.account_mutation,
            observed_accounts: &self.tracked_accounts,
            instructions,
            signers,
            payer,
            sigverify: self.sigverify,
            tags: &state.tags,
            disc_len: instruction_discriminator_len(&state.instructions),
        };
        let ghost before = state@;
        let ghost qv = request_of(self@, before, ix_views(instructions@), signers@, *payer);
        assert(q@ == qv);
        match maybe_probe_account_mutation(&q, &self.svm, &mut state.session, &mut state.cache) {
            Some(report) => {
                let ghost noted = finding_views(report.demoted@);
                add_findings(&mut state.demoted, report.demoted);
                proof {
                    let after = state@;
                    assert(probe_ran(
                        qv,
                        self.svm,
                        (before.session, before.cache),
                        (after.session, after.cache),
                        noted,
                        finding_views(report.findings@),
                    ));
                    assert(after.demoted =~= before.demoted + noted);
                }
            },
            None => {},
        }
    }
}

/// What is kept of a run after a transaction.
pub open spec fn sent_session(s: SessionView, o: OutcomeView) -> SessionView {
    SessionView {
        last_error_code: match o.failure {
            Some(e) => e.error_code,
            None => None,
        },
        total_dispatched: s.total_dispatched.wrapping_add(1),
        dispatch_count: (s.dispatch_count + 1) as u64,
        total_succeeded: if o.failure is None { s.total_succeeded.wrapping_add(1) } else { s.total_succeeded },
        ..s
    }
}

/// The run is the same but for the time that was spent.
pub open spec fn same_but_time(a: SessionView, b: SessionView) -> bool {
    a == (SessionView { timers: a.timers, ..b })
}

/// Some instructions were sent as one transaction: probed first, then run on the machine. The outcome is
/// that of the machine before, whatever the probe did; what may change is noted under `noted`, and
/// nothing else changes.
pub open spec fn transaction_sent(
    c: ContextView,
    h: HarnessView,
    ixs: Seq<InstructionView>,
    signers: Seq<Keypair>,
    payer: Keypair,
    noted: Pubkey,
    r: Result<TxOutcome, ContextError>,
    c2: ContextView,
    h2: HarnessView,
) -> bool {
    let s = sent_result(c.svm, ixs, signers, payer, c.sigverify);
    &&& c2 == (ContextView {
        svm: s.0,
        dirty: DirtyView { accounts: with_transaction(c.dirty.accounts, ixs, noted), ..c.dirty },
        ..c
    })
    &&& sending_kept(c.svm, c2.svm, ixs, payer.key)
    &&& match s.1 {
        Ok((meta, err)) => r is Ok && r->Ok_0@ == outcome_view(metadata_value(meta), failure_of(err)),
        Err(e) => r is Err && r->Err_0 is Signing && r->Err_0->Signing_0@ == e,
    }
    &&& exists|mid: HarnessView| #[trigger]
        probe_step(request_of(c, h, ixs, signers, payer), c.svm, h, mid) && h2 == (HarnessView { session: h2.session, ..mid })
            && same_but_time(
            h2.session,
            match s.1 {
                Ok((meta, err)) => sent_session(mid.session, outcome_view(metadata_value(meta), failure_of(err))),
                Err(_) => mid.session,
            },
        )
}

/// What a result says, as a value: the outcome, or why there was none.
pub open spec fn result_view(r: Result<TxOutcome, ContextError>) -> Result<OutcomeView, Seq<char>> {
    match r {
        Ok(o) => Ok(o@),
        Err(ContextError::Signing(e)) => Err(e@),
        Err(_) => Err(Seq::empty()),
    }
}

/// Probing changes neither the outcome of a transaction nor the machine: sent with other probes, or with
/// none, the same instructions come to the same, and only what is kept of the probes differs.
pub proof fn lemma_probe_keeps_outcome(
    c: ContextView,
    other: ContextView,
    ixs: Seq<InstructionView>,
    signers: Seq<Keypair>,
    payer: Keypair,
    noted: Pubkey,
    h: HarnessView,
    r: Result<TxOutcome, ContextError>,
    c2: ContextView,
    h2: HarnessView,
    other_h: HarnessView,
    other_r: Result<TxOutcome, ContextError>,
    other_c2: ContextView,
    other_h2: HarnessView,
)
    requires
        other == (ContextView { mutation: other.mutation, ..c }),
        transaction_sent(c, h, ixs, signers, payer, noted, r, c2, h2),
        transaction_sent(other, other_h, ixs, signers, payer, noted, other_r, other_c2, other_h2),
    ensures
        result_view(r) == result_view(other_r),
        other_c2 == (ContextView { mutation: other_c2.mutation, ..c2 }),
{
}

/// Sends some instructions as one transaction. The time spent is noted.
pub fn send_transaction(
    session: &mut Session,
    svm: &mut LiteSVM,
    instructions: &[Instruction],
    signers: &Vec<Keypair>,
    payer: &Keypair,
    sigverify: bool,
) -> (r: Result<Sent, ContextError>)
    requires
        message_fits(ix_views(instructions@), payer.key),
    ensures
        *final(svm) == sent_result(*old(svm), ix_views(instructions@), signers@, *payer, sigverify).0,
        match sent_result(*old(svm), ix_views(instructions@), signers@, *payer, sigverify).1 {
            Ok(s) => r is Ok && r->Ok_0 == s,
            Err(e) => r is Err && r->Err_0 is Signing && r->Err_0->Signing_0@ == e,
        },
        same_but_time(final(session)@, old(session)@),
        sending_kept(*old(svm), *final(svm), ix_views(instructions@), payer.key),
{
    let mut spent = SendTimers::none();
    let r = transmit(svm, instructions, signers, payer, sigverify, &mut spent);
    add_send_time(session, &spent);
    match r {
        Ok(s) => Ok(s),
        Err(e) => Err(ContextError::Signing(e)),
    }
}

pub(crate) fn send_prepared(
    ctx: &mut TestContext,
    state: &mut HarnessState,
    instructions: &Vec<Instruction>,
    signers: &Vec<Keypair>,
    payer: &Keypair,
    noted: &Pubkey,
) -> (r: Result<TxOutcome, ContextError>)
    requires
        message_fits(ix_views(instructions@), payer.key),
        old(state)@.session.dispatch_count < u64::MAX,
    ensures
        transaction_sent(
            old(ctx)@,
            old(state)@,
            ix_views(instructions@),
            signers@,
            *payer,
            *noted,
            r,
            final(ctx)@,
            final(state)@,
        ),
{
    let ghost c = ctx@;
    let ghost h = state@;
    let ghost ixs = ix_views(instructions@);
    let mut spent = SendTimers::none();
    let start = start_timer();
    ctx.dirty_tracker.record_tx(instructions.as_slice(), noted);
    spent.pre = spent_since(&start);
    ctx.maybe_probe_account_mutation(state, instructions.as_slice(), signers, payer);
    let ghost mid = state@;
    proof {
        let q = request_of(c, h, ixs, signers@, *payer);
        assert(probe_step(q, c.svm, h, mid));
        assert(mid.session.dispatch_count == h.session.dispatch_count) by {
            lemma_probe_keeps_count(q, c.svm, h, mid);
        }
    }
    let start = start_timer();
    let sigverify = ctx.sigverify;
    let sent = send_transaction(&mut state.session, &mut ctx.svm, instructions.as_slice(), signers, payer, sigverify);
    spent.svm = spent_since(&start);
    match sent {
        Ok((meta, err)) => {
            let start = start_timer();
            let outcome = tx_result_to_outcome(&mut state.session, meta, err);
            increment_action_count(&mut state.session);
            if outcome.is_success() {
                increment_action_success_count(&mut state.session);
            }
            spent.post = spent_since(&start);
            add_send_time(&mut state.session, &spent);
            assert(same_but_time(state@.session, sent_session(mid.session, outcome@)));
            Ok(outcome)
        },
        Err(e) => {
            spent.svm = 0;
            add_send_time(&mut state.session, &spent);
            assert(same_but_time(state@.session, mid.session));
            Err(e)
        },
    }
}

proof fn lemma_probe_keeps_count(q: RequestView, svm: LiteSVM, before: HarnessView, after: HarnessView)
    requires
        probe_step(q, svm, before, after),
    ensures
        after.session.dispatch_count == before.session.dispatch_count,
{
}

/// The signers, each once, in the order in which they first stand.
pub open spec fn unique_signers(s: Seq<Keypair>) -> Seq<Keypair>
    decreases s.len(),
{
    if s.len() == 0 {
        Seq::empty()
    } else {
        let before = unique_signers(s.drop_last());
        if has_signer(before, s.last().key) { before } else { before.push(s.last()) }
    }
}

/// The signers, each once.
pub fn dedupe_signers(signers: &Vec<Keypair>) -> (r: Vec<Keypair>)
    ensures
        r@ == unique_signers(signers@),
{
    let mut r: Vec<Keypair> = Vec::new();
    let mut i: usize = 0;
    while i < signers.len()
        invariant
            i <= signers@.len(),
            r@ == unique_signers(signers@.take(i as int)),
        decreases signers.len() - i,
    {
        assert(signers@.take(i + 1).drop_last() =~= signers@.take(i as int));
        if !holds_signer(&r, &signers[i].key) {
            r.push(signers[i]);
        }
        i += 1;
    }
    assert(signers@.take(i as int) =~= signers@);
    r
}

/// No two signers have one address, every signer is kept, and the first stays first.
pub proof fn lemma_unique_signers(s: Seq<Keypair>)
    ensures
        forall|i: int, j: int|
            0 <= i < j < unique_signers(s).len() ==> (#[trigger] unique_signers(s)[i]).key != (#[trigger] unique_signers(s)[j]).key,
        forall|k: Pubkey| has_signer(unique_signers(s), k) <==> #[trigger] has_signer(s, k),
        s.len() > 0 ==> unique_signers(s).len() > 0 && unique_signers(s)[0] == s[0],
    decreases s.len(),
{
    if s.len() > 0 {
        let p = s.drop_last();
        lemma_unique_signers(p);
        let u = unique_signers(p);
        let v = unique_signers(s);
        assert forall|k: Pubkey| has_signer(v, k) <==> #[trigger] has_signer(s, k) by {
            assert(has_signer(u, k) <==> has_signer(p, k));
            if has_signer(s, k) {
                let i = choose|i: int| 0 <= i < s.len() && (#[trigger] s[i]).key == k;
                if i < p.len() {
                    assert(p[i].key == k);
                    let j = choose|j: int| 0 <= j < u.len() && (#[trigger] u[j]).key == k;
                    assert(v[j].key == k);
                } else if has_signer(u, s.last().key) {
                    let j = choose|j: int| 0 <= j < u.len() && (#[trigger] u[j]).key == k;
                    assert(v[j].key == k);
                } else {
                    assert(v[v.len() - 1].key == k);
                }
            }
            if has_signer(v, k) {
                let j = choose|j: int| 0 <= j < v.len() && (#[trigger] v[j]).key == k;
                if j < u.len() {
                    assert(u[j].key == k);
                    let i = choose|i: int| 0 <= i < p.len() && (#[trigger] p[i]).key == k;
                    assert(s[i].key == k);
                } else {
                    assert(s[s.len() - 1].key == k);
                }
            }
        }
    }
}

/// The context and the run after a batch was sent, or refused.
pub open spec fn batch_sent(
    c: ContextView,
    h: HarnessView,
    r: Result<Option<TxOutcome>, ContextError>,
    c2: ContextView,
    h2: HarnessView,
) -> bool {
    let signers = unique_signers(c.pending_signers);
    if c.pending.len() == 0 {
        r is Ok && r->Ok_0 is None && c2 == c && h2 == h
    } else if signers.len() == 0 {
        r is Err && r->Err_0 is NoBatchSigner && c2 == c && h2 == h
    } else {
        exists|sent: Result<TxOutcome, ContextError>, mid: ContextView|
            #![trigger transaction_sent(c, h, c.pending, signers, signers[0], signers[0].key, sent, mid, h2)]
            transaction_sent(c, h, c.pending, signers, signers[0], signers[0].key, sent, mid, h2) && match sent {
                Ok(o) => r is Ok && r->Ok_0 == Some(o) && c2 == (ContextView {
                    pending: Seq::empty(),
                    pending_signers: Seq::empty(),
                    ..mid
                }),
                Err(e) => r is Err && r->Err_0 == e && c2 == (ContextView { pending: Seq::empty(), ..mid }),
            }
    }
}

/// A batch can be compiled into a message.
pub open spec fn batch_fits(c: ContextView) -> bool {
    c.pending.len() > 0 && unique_signers(c.pending_signers).len() > 0 ==> message_fits(
        c.pending,
        unique_signers(c.pending_signers)[0].key,
    )
}

impl TestContext {
    /// Sends what waits as one transaction. The first signer pays; nothing is done where nothing waits.
    pub fn send_batch(&mut self, state: &mut HarnessState) -> (r: Result<Option<TxOutcome>, ContextError>)
        requires
            batch_fits(old(self)@),
            old(state)@.session.dispatch_count < u64::MAX,
        ensures
            batch_sent(old(self)@, old(state)@, r, final(self)@, final(state)@),
    {
        if self.pending_instructions.len() == 0 {
            return Ok(None);
        }
        let signers = dedupe_signers(&self.pending_signers);
        if signers.len() == 0 {
            return Err(ContextError::NoBatchSigner);
        }
        let payer = signers[0];
        let ghost c = self@;
        let ghost h = state@;
        let mut instructions: Vec<Instruction> = Vec::new();
        std::mem::swap(&mut instructions, &mut self.pending_instructions);
        assert(self@.pending =~= Seq::<InstructionView>::empty());
        let sent = send_prepared(self, state, &instructions, &signers, &payer, &payer.key);
        let ghost mid = ContextView { pending: c.pending, ..self@ };
        proof {
            let c0 = ContextView { pending: Seq::empty(), ..c };
            assert(request_of(c0, h, c.pending, signers@, payer) == request_of(c, h, c.pending, signers@, payer));
            assert(transaction_sent(c, h, c.pending, signers@, signers@[0], signers@[0].key, sent, mid, state@));
        }
        match sent {
            Ok(outcome) => {
                self.pending_signers = Vec::new();
                assert(self@.pending_signers =~= Seq::<Keypair>::empty());
                Ok(Some(outcome))
            },
            Err(e) => Err(e),
        }
    }
}

} // verus!
