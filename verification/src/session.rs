//! What is kept of a run: violations, the history of actions, counters and flags.
use vstd::prelude::*;
use crate::actions::{format_action_oneline, format_records, format_sequence, ActionRecord};
#[allow(unused_imports)]
use crate::actions::{last_text, lines_text, record_views, sequence_text, RecordView};
use crate::calendar::chrono_lite_timestamp;
#[allow(unused_imports)]
use crate::calendar::{is_date, timestamp_text, Date};
#[allow(unused_imports)]
use crate::discriminators::opt_string;
use crate::json::JsonValue;
#[allow(unused_imports)]
use crate::json::JsonView;
use crate::text::{copy_str, push_hex_padded};
#[allow(unused_imports)]
use crate::text::{hex, zero_padded};

verus! {

/// A change of one field of an account.
#[derive(Debug)]
pub struct FieldDelta {
    pub field: String,
    pub old_value: String,
    pub new_value: String,
}

/// An inspection callback that does nothing.
#[derive(Clone, Copy, Debug)]
pub struct EmptyInvocationCallback;

/// The time spent in the steps of sending transactions, in nanoseconds.
#[derive(Clone, Copy, Debug, PartialEq, Eq, Structural)]
pub struct SendTimers {
    pub pre: u64,
    pub svm: u64,
    pub post: u64,
    pub blockhash: u64,
    pub sign: u64,
    pub execute: u64,
}

/// What is kept of a run.
pub struct Session {
    /// The first broken invariant.
    pub violation: Option<String>,
    /// Whether it was found by mutating accounts.
    pub from_mutation: bool,
    pub finding_id: Option<String>,
    pub finding_message: Option<String>,
    /// The finding that a replay waits for.
    pub expected_finding_id: Option<String>,
    pub current_instruction: Option<String>,
    pub history: Vec<ActionRecord>,
    pub test_name: Option<String>,
    pub iteration: u64,
    pub total_actions: usize,
    /// The action that broke an invariant.
    pub violation_index: Option<usize>,
    pub last_error_code: Option<u32>,
    /// Actions of this iteration.
    pub dispatch_count: u64,
    /// Actions of all iterations.
    pub total_dispatched: u64,
    pub total_succeeded: u64,
    /// The kinds of actions that succeeded before.
    pub succeeded_variants: Vec<usize>,
    pub stateful_chain_mode: bool,
    pub corpus_loading: bool,
    pub timers: SendTimers,
}

/// What is kept of a run, as a value.
pub struct SessionView {
    pub violation: Option<Seq<char>>,
    pub from_mutation: bool,
    pub finding_id: Option<Seq<char>>,
    pub finding_message: Option<Seq<char>>,
    pub expected_finding_id: Option<Seq<char>>,
    pub current_instruction: Option<Seq<char>>,
    pub history: Seq<RecordView>,
    pub test_name: Option<Seq<char>>,
    pub iteration: u64,
    pub total_actions: usize,
    pub violation_index: Option<usize>,
    pub last_error_code: Option<u32>,
    pub dispatch_count: u64,
    pub total_dispatched: u64,
    pub total_succeeded: u64,
    pub succeeded_variants: Seq<usize>,
    pub stateful_chain_mode: bool,
    pub corpus_loading: bool,
    pub timers: SendTimers,
}

impl View for Session {
    type V = SessionView;

    open spec fn view(&self) -> SessionView {
        SessionView {
            violation: opt_string(self.violation),
            from_mutation: self.from_mutation,
            finding_id: opt_string(self.finding_id),
            finding_message: opt_string(self.finding_message),
            expected_finding_id: opt_string(self.expected_finding_id),
            current_instruction: opt_string(self.current_instruction),
            history: record_views(self.history@),
            test_name: opt_string(self.test_name),
            iteration: self.iteration,
            total_actions: self.total_actions,
            violation_index: self.violation_index,
            last_error_code: self.last_error_code,
            dispatch_count: self.dispatch_count,
            total_dispatched: self.total_dispatched,
            total_succeeded: self.total_succeeded,
            succeeded_variants: self.succeeded_variants@,
            stateful_chain_mode: self.stateful_chain_mode,
            corpus_loading: self.corpus_loading,
            timers: self.timers,
        }
    }
}

/// No time was spent.
pub open spec fn no_time() -> SendTimers {
    SendTimers { pre: 0, svm: 0, post: 0, blockhash: 0, sign: 0, execute: 0 }
}

impl SendTimers {
    /// No time was spent.
    pub fn none() -> (r: SendTimers)
        ensures
            r == no_time(),
    {
        SendTimers { pre: 0, svm: 0, post: 0, blockhash: 0, sign: 0, execute: 0 }
    }
}

/// What is kept of a run that has not begun.
pub open spec fn fresh_session() -> SessionView {
    SessionView {
        violation: None,
        from_mutation: false,
        finding_id: None,
        finding_message: None,
        expected_finding_id: None,
        current_instruction: None,
        history: Seq::empty(),
        test_name: None,
        iteration: 0,
        total_actions: 0,
        violation_index: None,
        last_error_code: None,
        dispatch_count: 0,
        total_dispatched: 0,
        total_succeeded: 0,
        succeeded_variants: Seq::empty(),
        stateful_chain_mode: false,
        corpus_loading: false,
        timers: no_time(),
    }
}

impl Session {
    /// A run that has not begun.
    pub fn new() -> (r: Session)
        ensures
            r@ == fresh_session(),
            finding_tied(r@),
    {
        let r = Session {
            violation: None,
            from_mutation: false,
            finding_id: None,
            finding_message: None,
            expected_finding_id: None,
            current_instruction: None,
            history: Vec::new(),
            test_name: None,
            iteration: 0,
            total_actions: 0,
            violation_index: None,
            last_error_code: None,
            dispatch_count: 0,
            total_dispatched: 0,
            total_succeeded: 0,
            succeeded_variants: Vec::new(),
            stateful_chain_mode: false,
            corpus_loading: false,
            timers: SendTimers { pre: 0, svm: 0, post: 0, blockhash: 0, sign: 0, execute: 0 },
        };
        assert(r@.history =~= Seq::<RecordView>::empty());
        r
    }
}

fn copy_opt(s: &Option<String>) -> (r: Option<String>)
    ensures
        opt_string(r) == opt_string(*s),
{
    match s {
        Some(s) => Some(s.clone()),
        None => None,
    }
}

/// Counts an action.
pub fn increment_action_count(session: &mut Session)
    requires
        old(session).dispatch_count < u64::MAX,
    ensures
        final(session)@ == (SessionView {
            total_dispatched: old(session).total_dispatched.wrapping_add(1),
            dispatch_count: (old(session).dispatch_count + 1) as u64,
            ..old(session)@
        }),
{
    session.total_dispatched = session.total_dispatched.wrapping_add(1);
    session.dispatch_count = session.dispatch_count + 1;
}

/// Counts an action that succeeded.
pub fn increment_action_success_count(session: &mut Session)
    ensures
        final(session)@ == (SessionView {
            total_succeeded: old(session).total_succeeded.wrapping_add(1),
            ..old(session)@
        }),
{
    session.total_succeeded = session.total_succeeded.wrapping_add(1);
}

/// Says whether a run stops at the first action that fails.
pub fn set_stateful_chain_mode(session: &mut Session, v: bool)
    ensures
        final(session)@ == (SessionView { stateful_chain_mode: v, ..old(session)@ }),
{
    session.stateful_chain_mode = v;
}

/// Whether a run stops at the first action that fails.
pub fn is_stateful_chain_mode(session: &Session) -> (r: bool)
    ensures
        r == session@.stateful_chain_mode,
{
    session.stateful_chain_mode
}

/// Says whether the corpus is being loaded.
pub fn set_corpus_loading(session: &mut Session, v: bool)
    ensures
        final(session)@ == (SessionView { corpus_loading: v, ..old(session)@ }),
{
    session.corpus_loading = v;
}

/// Whether the corpus is being loaded.
pub fn is_corpus_loading(session: &Session) -> (r: bool)
    ensures
        r == session@.corpus_loading,
{
    session.corpus_loading
}

/// Names the instruction that is being run.
pub fn set_current_instruction(session: &mut Session, name: Option<String>)
    ensures
        final(session)@ == (SessionView { current_instruction: opt_string(name), ..old(session)@ }),
{
    session.current_instruction = name;
}

/// The instruction that is being run.
pub fn get_current_instruction(session: &Session) -> (r: Option<String>)
    ensures
        opt_string(r) == session@.current_instruction,
{
    copy_opt(&session.current_instruction)
}

/// Notes the error code of a transaction.
pub fn set_last_error_code(session: &mut Session, code: Option<u32>)
    ensures
        final(session)@ == (SessionView { last_error_code: code, ..old(session)@ }),
{
    session.last_error_code = code;
}

/// The error code of the last transaction; it is given once.
pub fn take_last_error_code(session: &mut Session) -> (r: Option<u32>)
    ensures
        r == old(session)@.last_error_code,
        final(session)@ == (SessionView { last_error_code: None, ..old(session)@ }),
{
    let code = session.last_error_code;
    session.last_error_code = None;
    code
}

/// Names the test that is being run.
pub fn set_current_test_name(session: &mut Session, name: &str)
    ensures
        final(session)@ == (SessionView { test_name: Some(name@), ..old(session)@ }),
{
    session.test_name = Some(copy_str(name));
}

/// The test that is being run.
pub fn get_current_test_name(session: &Session) -> (r: Option<String>)
    ensures
        opt_string(r) == session@.test_name,
{
    copy_opt(&session.test_name)
}

/// Sets the number of the iteration.
pub fn set_current_iteration(session: &mut Session, iteration: u64)
    ensures
        final(session)@ == (SessionView { iteration, ..old(session)@ }),
{
    session.iteration = iteration;
}

/// The number of the iteration.
pub fn get_current_iteration(session: &Session) -> (r: u64)
    ensures
        r == session@.iteration,
{
    session.iteration
}

/// Adds a record to the history, with the error code of the last transaction, which is then forgotten.
pub fn push_action_record(session: &mut Session, name: &str, params: JsonValue, success: bool)
    ensures
        final(session)@ == (SessionView {
            history: old(session)@.history.push(
                RecordView { name: name@, params: params@, success, error_code: old(session)@.last_error_code },
            ),
            last_error_code: None,
            ..old(session)@
        }),
{
    let error_code = take_last_error_code(session);
    let record = ActionRecord { name: copy_str(name), params, success, error_code };
    let ghost before = session.history@;
    let ghost v = record@;
    session.history.push(record);
    assert(record_views(session.history@) =~= record_views(before).push(v));
}

/// Adds a record without parameters to the history.
pub fn push_action_record_lite(session: &mut Session, name: &str, success: bool)
    ensures
        final(session)@ == (SessionView {
            history: old(session)@.history.push(
                RecordView { name: name@, params: JsonView::Null, success, error_code: old(session)@.last_error_code },
            ),
            last_error_code: None,
            ..old(session)@
        }),
{
    push_action_record(session, name, JsonValue::Null, success);
}

/// Sets the parameters of a record; without such a record nothing changes.
pub fn backfill_action_params(session: &mut Session, index: usize, params: JsonValue)
    ensures
        final(session)@ == (SessionView {
            history: if index < old(session)@.history.len() {
                old(session)@.history.update(
                    index as int,
                    RecordView { params: params@, ..old(session)@.history[index as int] },
                )
            } else {
                old(session)@.history
            },
            ..old(session)@
        }),
{
    if index < session.history.len() {
        let ghost before = session.history@;
        let old_record = session.history[index].copy();
        let record = ActionRecord {
            name: old_record.name,
            params,
            success: old_record.success,
            error_code: old_record.error_code,
        };
        let ghost v = record@;
        session.history.set(index, record);
        assert(record_views(session.history@) =~= record_views(before).update(index as int, v));
    } else {
        assert(session@.history.len() == session.history@.len());
    }
}

fn copy_records(v: &Vec<ActionRecord>) -> (r: Vec<ActionRecord>)
    ensures
        record_views(r@) == record_views(v@),
{
    let mut r: Vec<ActionRecord> = Vec::new();
    let mut i: usize = 0;
    while i < v.len()
        invariant
            i <= v@.len(),
            r@.len() == i,
            forall|j: int| 0 <= j < i ==> (#[trigger] r@[j])@ == v@[j]@,
        decreases v.len() - i,
    {
        r.push(v[i].copy());
        i += 1;
    }
    assert(record_views(r@) =~= record_views(v@));
    r
}

/// A copy of the history.
pub fn get_action_history(session: &Session) -> (r: Vec<ActionRecord>)
    ensures
        record_views(r@) == session@.history,
{
    copy_records(&session.history)
}

/// Whether the first action succeeded, where there is one.
pub fn get_first_action_success(session: &Session) -> (r: Option<bool>)
    ensures
        r == if session@.history.len() == 0 { None } else { Some(session@.history[0].success) },
{
    if session.history.len() == 0 {
        None
    } else {
        Some(session.history[0].success)
    }
}

/// Forgets the history.
pub fn clear_action_history(session: &mut Session)
    ensures
        final(session)@ == (SessionView { history: Seq::empty(), ..old(session)@ }),
{
    session.history = Vec::new();
    assert(session@.history =~= Seq::<RecordView>::empty());
}

/// Counts the actions of an iteration anew.
pub fn reset_iteration_dispatch_count(session: &mut Session)
    ensures
        final(session)@ == (SessionView { dispatch_count: 0, ..old(session)@ }),
{
    session.dispatch_count = 0;
}

/// The actions of the iteration, one at least.
pub fn get_iteration_dispatch_count(session: &Session) -> (r: u64)
    ensures
        r == if session@.dispatch_count == 0 { 1 } else { session@.dispatch_count },
{
    if session.dispatch_count == 0 {
        1
    } else {
        session.dispatch_count
    }
}

/// Measures the time anew.
pub fn reset_send_batch_timers(session: &mut Session)
    ensures
        final(session)@ == (SessionView { timers: no_time(), ..old(session)@ }),
{
    session.timers = SendTimers { pre: 0, svm: 0, post: 0, blockhash: 0, sign: 0, execute: 0 };
}

/// The time spent before, during and after running transactions.
pub fn get_send_batch_timers(session: &Session) -> (r: (u64, u64, u64))
    ensures
        r == (session@.timers.pre, session@.timers.svm, session@.timers.post),
{
    (session.timers.pre, session.timers.svm, session.timers.post)
}

/// The time spent on blockhashes, on signatures and on execution.
pub fn get_send_tx_breakdown(session: &Session) -> (r: (u64, u64, u64))
    ensures
        r == (session@.timers.blockhash, session@.timers.sign, session@.timers.execute),
{
    (session.timers.blockhash, session.timers.sign, session.timers.execute)
}

/// Adds to the time that was spent.
pub fn add_send_time(session: &mut Session, spent: &SendTimers)
    ensures
        final(session)@ == (SessionView {
            timers: SendTimers {
                pre: old(session)@.timers.pre.wrapping_add(spent.pre),
                svm: old(session)@.timers.svm.wrapping_add(spent.svm),
                post: old(session)@.timers.post.wrapping_add(spent.post),
                blockhash: old(session)@.timers.blockhash.wrapping_add(spent.blockhash),
                sign: old(session)@.timers.sign.wrapping_add(spent.sign),
                execute: old(session)@.timers.execute.wrapping_add(spent.execute),
            },
            ..old(session)@
        }),
{
    let t = session.timers;
    session.timers = SendTimers {
        pre: t.pre.wrapping_add(spent.pre),
        svm: t.svm.wrapping_add(spent.svm),
        post: t.post.wrapping_add(spent.post),
        blockhash: t.blockhash.wrapping_add(spent.blockhash),
        sign: t.sign.wrapping_add(spent.sign),
        execute: t.execute.wrapping_add(spent.execute),
    };
}

/// Sets how many actions the sequence has.
pub fn set_total_actions(session: &mut Session, count: usize)
    ensures
        final(session)@ == (SessionView { total_actions: count, ..old(session)@ }),
{
    session.total_actions = count;
}

/// Notes which action broke an invariant. Only the first one is noted.
pub fn set_violation_action_index(session: &mut Session, idx: usize)
    ensures
        final(session)@ == (SessionView {
            violation_index: if old(session)@.violation_index is Some {
                old(session)@.violation_index
            } else {
                Some(idx)
            },
            ..old(session)@
        }),
{
    if session.violation_index.is_none() {
        session.violation_index = Some(idx);
    }
}

/// Which action broke an invariant.
pub fn get_violation_action_index(session: &Session) -> (r: Option<usize>)
    ensures
        r == session@.violation_index,
{
    session.violation_index
}

/// Forgets which action broke an invariant, and how many actions there are.
pub fn clear_violation_tracking(session: &mut Session)
    ensures
        final(session)@ == (SessionView { total_actions: 0, violation_index: None, ..old(session)@ }),
{
    session.total_actions = 0;
    session.violation_index = None;
}

/// Forgets the violation.
pub fn clear_current_violation(session: &mut Session)
    ensures
        final(session)@ == cleared_violation(old(session)@),
        finding_tied(final(session)@),
{
    session.violation = None;
    session.from_mutation = false;
    session.finding_id = None;
    session.finding_message = None;
}

/// Forgets all that belongs to one iteration.
pub fn clear_iteration_state(session: &mut Session)
    ensures
        final(session)@ == (SessionView {
            history: Seq::empty(),
            total_actions: 0,
            violation_index: None,
            violation: None,
            from_mutation: false,
            finding_id: None,
            finding_message: None,
            ..old(session)@
        }),
{
    clear_action_history(session);
    clear_violation_tracking(session);
    clear_current_violation(session);
}

/// Whether a kind of action ever succeeded.
pub fn has_variant_succeeded(session: &Session, variant_idx: usize) -> (r: bool)
    ensures
        r == session@.succeeded_variants.contains(variant_idx),
{
    let mut i: usize = 0;
    while i < session.succeeded_variants.len()
        invariant
            i <= session.succeeded_variants@.len(),
            forall|j: int| 0 <= j < i ==> session.succeeded_variants@[j] != variant_idx,
        decreases session.succeeded_variants.len() - i,
    {
        if session.succeeded_variants[i] == variant_idx {
            return true;
        }
        i += 1;
    }
    false
}

/// The numbers with one more, unless it is there.
pub open spec fn with_variant(s: Seq<usize>, v: usize) -> Seq<usize> {
    if s.contains(v) { s } else { s.push(v) }
}

/// Notes that a kind of action succeeded.
pub fn mark_variant_succeeded(session: &mut Session, variant_idx: usize)
    ensures
        final(session)@ == (SessionView {
            succeeded_variants: with_variant(old(session)@.succeeded_variants, variant_idx),
            ..old(session)@
        }),
{
    if !has_variant_succeeded(session, variant_idx) {
        session.succeeded_variants.push(variant_idx);
    }
}

/// How many kinds of actions ever succeeded.
pub fn succeeded_variant_count(session: &Session) -> (r: usize)
    ensures
        r == session@.succeeded_variants.len(),
{
    session.succeeded_variants.len()
}

/// A kind of action that succeeded is counted once, however often it is noted, and noting it changes
/// nothing for any other.
pub proof fn lemma_variants(s: Seq<usize>, v: usize)
    requires
        s.no_duplicates(),
    ensures
        with_variant(s, v).no_duplicates(),
        with_variant(s, v).contains(v),
        with_variant(with_variant(s, v), v) == with_variant(s, v),
        forall|w: usize| w != v ==> (#[trigger] with_variant(s, v).contains(w) <==> s.contains(w)),
        with_variant(s, v).len() == if s.contains(v) { s.len() } else { s.len() + 1 },
{
    let t = with_variant(s, v);
    if !s.contains(v) {
        assert(t[s.len() as int] == v);
        assert forall|w: usize| w != v implies (#[trigger] t.contains(w) <==> s.contains(w)) by {
            if s.contains(w) {
                let i = choose|i: int| 0 <= i < s.len() && s[i] == w;
                assert(t[i] == w);
            }
        }
    }
}

/// What is kept after a broken invariant was noted.
pub open spec fn with_violation(s: SessionView, msg: Seq<char>) -> SessionView {
    if s.violation is Some {
        s
    } else {
        SessionView { violation: Some(msg), from_mutation: false, finding_id: None, finding_message: None, ..s }
    }
}

/// Notes a broken invariant. Only the first one is noted.
pub fn record_violation(session: &mut Session, msg: String)
    ensures
        final(session)@ == with_violation(old(session)@, msg@),
        finding_tied(old(session)@) ==> finding_tied(final(session)@),
{
    if session.violation.is_none() {
        session.violation = Some(msg);
        session.from_mutation = false;
        session.finding_id = None;
        session.finding_message = None;
    }
}

/// What is kept after a finding was noted.
pub open spec fn with_mutation_violation(s: SessionView, msg: Seq<char>, id: Seq<char>) -> SessionView {
    if s.violation is Some {
        s
    } else {
        SessionView {
            violation: Some(msg),
            from_mutation: true,
            finding_id: Some(id),
            finding_message: Some(msg),
            ..s
        }
    }
}

/// Notes a finding that was made by mutating accounts. Only the first violation is noted.
pub fn record_mutation_violation(session: &mut Session, msg: String, id: String)
    ensures
        final(session)@ == with_mutation_violation(old(session)@, msg@, id@),
        finding_tied(old(session)@) ==> finding_tied(final(session)@),
{
    if session.violation.is_none() {
        session.finding_id = Some(id);
        session.finding_message = Some(msg.clone());
        session.violation = Some(msg);
        session.from_mutation = true;
    }
}

/// Whatever is noted later, the first violation stays the one that is kept, with what was said of it.
pub proof fn lemma_first_violation(s: SessionView, first: Seq<char>, msg: Seq<char>, id: Seq<char>)
    ensures
        with_violation(with_violation(s, first), msg) == with_violation(s, first),
        with_mutation_violation(with_violation(s, first), msg, id) == with_violation(s, first),
        with_violation(with_mutation_violation(s, first, id), msg) == with_mutation_violation(s, first, id),
        s.violation is None ==> with_violation(s, first).violation == Some(first) && !with_violation(s, first).from_mutation,
        s.violation is None ==> with_mutation_violation(s, first, id).violation == Some(first) && with_mutation_violation(
            s,
            first,
            id,
        ).finding_id == Some(id),
{
}

/// There is an identity and a message of a finding exactly where the violation was found by mutating
/// accounts, and as long as the violation is kept, the message is what it says.
pub open spec fn finding_tied(s: SessionView) -> bool {
    &&& s.finding_id is Some == s.from_mutation
    &&& s.finding_message is Some == s.from_mutation
    &&& s.violation is Some && s.from_mutation ==> s.finding_message == s.violation
}

/// What is kept of a run once its violation was taken.
pub open spec fn without_violation(s: SessionView) -> SessionView {
    SessionView { violation: None, ..s }
}

/// What is kept of a run once its violation was cleared.
pub open spec fn cleared_violation(s: SessionView) -> SessionView {
    SessionView { violation: None, from_mutation: false, finding_id: None, finding_message: None, ..s }
}

/// A run starts with its finding tied to its violation, and whatever is noted, taken, cleared or changed
/// besides keeps it so.
pub proof fn lemma_finding_tied(s: SessionView, msg: Seq<char>, id: Seq<char>, other: SessionView)
    requires
        finding_tied(s),
        other.violation == s.violation,
        other.from_mutation == s.from_mutation,
        other.finding_id == s.finding_id,
        other.finding_message == s.finding_message,
    ensures
        finding_tied(fresh_session()),
        finding_tied(with_violation(s, msg)),
        finding_tied(with_mutation_violation(s, msg, id)),
        finding_tied(without_violation(s)),
        finding_tied(cleared_violation(s)),
        finding_tied(other),
{
}

/// Whether the violation was found by mutating accounts.
pub fn violation_from_mutation(session: &Session) -> (r: bool)
    ensures
        r == session@.from_mutation,
{
    session.from_mutation
}

/// What identifies the finding, where the violation was found by mutating accounts.
pub fn mutation_finding_id(session: &Session) -> (r: Option<String>)
    ensures
        opt_string(r) == if session@.from_mutation { session@.finding_id } else { None },
        finding_tied(session@) ==> r is Some == session@.from_mutation,
{
    if session.from_mutation {
        copy_opt(&session.finding_id)
    } else {
        None
    }
}

/// What was found, where the violation was found by mutating accounts.
pub fn mutation_finding_message(session: &Session) -> (r: Option<String>)
    ensures
        opt_string(r) == if session@.from_mutation { session@.finding_message } else { None },
        finding_tied(session@) ==> r is Some == session@.from_mutation,
{
    if session.from_mutation {
        copy_opt(&session.finding_message)
    } else {
        None
    }
}

/// Sets the finding that a replay waits for.
pub fn set_expected_mutation_finding_id(session: &mut Session, id: Option<String>)
    ensures
        final(session)@ == (SessionView { expected_finding_id: opt_string(id), ..old(session)@ }),
{
    session.expected_finding_id = id;
}

/// The finding that a replay waits for.
pub fn expected_mutation_finding_id(session: &Session) -> (r: Option<String>)
    ensures
        opt_string(r) == session@.expected_finding_id,
{
    copy_opt(&session.expected_finding_id)
}

/// Some texts that may be missing.
pub open spec fn opt_strings(v: Seq<Option<String>>) -> Seq<Option<Seq<char>>> {
    Seq::new(v.len(), |i: int| opt_string(v[i]))
}

/// The first that is there.
pub open spec fn first_there(s: Seq<Option<Seq<char>>>) -> Option<Seq<char>>
    decreases s.len(),
{
    if s.len() == 0 {
        None
    } else if first_there(s.drop_last()) is Some {
        first_there(s.drop_last())
    } else {
        s.last()
    }
}

proof fn lemma_first_there(s: Seq<Option<Seq<char>>>, i: int)
    requires
        0 <= i < s.len(),
        first_there(s.take(i)) is None,
        s[i] is Some,
    ensures
        first_there(s) == s[i],
    decreases s.len(),
{
    if i == s.len() - 1 {
        assert(s.take(i) =~= s.drop_last());
    } else {
        assert(s.drop_last().take(i) =~= s.take(i));
        lemma_first_there(s.drop_last(), i);
    }
}

/// Sets the finding that a replay waits for to the first that is there; where none is, it waits for none.
pub fn expect_first_finding(session: &mut Session, found: &Vec<Option<String>>)
    ensures
        final(session)@ == (SessionView { expected_finding_id: first_there(opt_strings(found@)), ..old(session)@ }),
{
    let ghost s = opt_strings(found@);
    assert(s.len() == found@.len());
    let mut i: usize = 0;
    while i < found.len()
        invariant
            i <= found@.len(),
            s == opt_strings(found@),
            s.len() == found@.len(),
            session@ == old(session)@,
            first_there(s.take(i as int)) is None,
        decreases found.len() - i,
    {
        assert(s.take(i + 1).drop_last() =~= s.take(i as int));
        assert(s.take(i + 1).last() == opt_string(found@[i as int]));
        if found[i].is_some() {
            proof {
                lemma_first_there(s, i as int);
            }
            set_expected_mutation_finding_id(session, copy_opt(&found[i]));
            return;
        }
        i += 1;
    }
    assert(s.take(i as int) =~= s);
    set_expected_mutation_finding_id(session, None);
}

/// The violation, which is then forgotten.
pub fn take_violation(session: &mut Session) -> (r: Option<String>)
    ensures
        opt_string(r) == old(session)@.violation,
        final(session)@ == without_violation(old(session)@),
        finding_tied(old(session)@) ==> finding_tied(final(session)@),
{
    session.violation.take()
}

/// Whether there is a violation.
pub fn has_violation(session: &Session) -> (r: bool)
    ensures
        r == (session@.violation is Some),
{
    session.violation.is_some()
}

/// The report on the run.
pub fn format_action_sequence(session: &Session) -> (r: String)
    ensures
        r@ == sequence_text(session@.history, session@.total_actions, session@.violation_index),
{
    format_sequence(&session.history, session.total_actions, session.violation_index)
}

/// The last action in one line; nothing where there is none.
pub fn format_last_action_oneline(session: &Session) -> (r: String)
    ensures
        r@ == last_text(session@.history),
{
    if session.history.len() == 0 {
        let s = String::new();
        assert(s@ =~= Seq::<char>::empty());
        return s;
    }
    format_action_oneline(&session.history[session.history.len() - 1])
}

/// All actions, one in each line.
pub fn format_all_actions_oneline(session: &Session) -> (r: String)
    ensures
        r@ == lines_text(session@.history),
{
    format_records(&session.history)
}

/// What is written of a crash.
#[derive(Debug, PartialEq, Eq)]
pub struct CrashMetadata {
    pub test_name: String,
    pub timestamp: String,
    pub iteration: u64,
    pub seed: Option<u64>,
    pub actions: Vec<ActionRecord>,
    pub mutation_finding: bool,
    pub mutation_finding_id: Option<String>,
    pub mutation_finding_message: Option<String>,
}

/// What is written of a crash, as a value.
pub struct CrashView {
    pub test_name: Seq<char>,
    pub timestamp: Seq<char>,
    pub iteration: u64,
    pub seed: Option<u64>,
    pub actions: Seq<RecordView>,
    pub mutation_finding: bool,
    pub mutation_finding_id: Option<Seq<char>>,
    pub mutation_finding_message: Option<Seq<char>>,
}

impl View for CrashMetadata {
    type V = CrashView;

    open spec fn view(&self) -> CrashView {
        CrashView {
            test_name: self.test_name@,
            timestamp: self.timestamp@,
            iteration: self.iteration,
            seed: self.seed,
            actions: record_views(self.actions@),
            mutation_finding: self.mutation_finding,
            mutation_finding_id: opt_string(self.mutation_finding_id),
            mutation_finding_message: opt_string(self.mutation_finding_message),
        }
    }
}

/// The text is the time that comes `secs` seconds after the beginning of 1970.
pub open spec fn is_timestamp(secs: u64, text: Seq<char>) -> bool {
    exists|d: Date| is_date(secs as int / 86400, d) && text == #[trigger] timestamp_text(d, secs as int % 86400)
}

/// What is written of a crash now.
pub open spec fn crash_view(s: SessionView, timestamp: Seq<char>, seed: Option<u64>) -> CrashView {
    CrashView {
        test_name: match s.test_name {
            Some(n) => n,
            None => "unknown"@,
        },
        timestamp,
        iteration: s.iteration,
        seed,
        actions: s.history,
        mutation_finding: s.from_mutation,
        mutation_finding_id: if s.from_mutation { s.finding_id } else { None },
        mutation_finding_message: if s.from_mutation { s.finding_message } else { None },
    }
}

/// What is written of a crash at the time `secs`.
pub fn build_crash_metadata(session: &Session, seed: Option<u64>, secs: u64) -> (r: CrashMetadata)
    ensures
        is_timestamp(secs, r@.timestamp),
        r@ == crash_view(session@, r@.timestamp, seed),
{
    let timestamp = chrono_lite_timestamp(secs);
    let test_name = match &session.test_name {
        Some(n) => n.clone(),
        None => String::from_str("unknown"),
    };
    CrashMetadata {
        test_name,
        timestamp,
        iteration: session.iteration,
        seed,
        actions: get_action_history(session),
        mutation_finding: violation_from_mutation(session),
        mutation_finding_id: mutation_finding_id(session),
        mutation_finding_message: mutation_finding_message(session),
    }
}

/// What is written of a crash, and where.
pub struct CrashFiles {
    /// Where the input goes, where it is written.
    pub input_path: Option<String>,
    pub meta_path: String,
    pub metadata: CrashMetadata,
}

/// The name of a crash: the hash of its input in sixteen digits.
pub open spec fn crash_name(hash: u64) -> Seq<char> {
    "crash_"@ + zero_padded(hex(hash as nat), 16)
}

/// The name of a crash.
pub fn crash_id(input_hash: u64) -> (r: String)
    ensures
        r@ == crash_name(input_hash),
{
    let mut s = String::from_str("crash_");
    push_hex_padded(&mut s, input_hash, 16);
    s
}

/// Where what is written of a crash goes.
pub open spec fn meta_name(dir: Seq<char>, id: Seq<char>) -> Seq<char> {
    dir + "/"@ + id + ".meta.json"@
}

fn meta_file(dir: &str, id: &str) -> (r: String)
    ensures
        r@ == meta_name(dir@, id@),
{
    let mut s = copy_str(dir);
    s.append("/");
    s.append(id);
    s.append(".meta.json");
    s
}

/// The metadata with other actions, where some are given.
pub open spec fn with_actions(c: CrashView, actions: Option<Seq<RecordView>>) -> CrashView {
    match actions {
        Some(a) => CrashView { actions: a, ..c },
        None => c,
    }
}

/// The records of a list that may be missing.
pub open spec fn opt_records(v: Option<Vec<ActionRecord>>) -> Option<Seq<RecordView>> {
    match v {
        Some(v) => Some(record_views(v@)),
        None => None,
    }
}

/// What is written of a crash, and where: the input beside the other crashes, the metadata in
/// `meta_dir` where one is set. The actions are those given, or those of the history.
pub fn write_crash_metadata_with_actions(
    session: &Session,
    crash_dir: &str,
    meta_dir: Option<&str>,
    input_hash: u64,
    seed: Option<u64>,
    full_actions: Option<Vec<ActionRecord>>,
    secs: u64,
) -> (r: CrashFiles)
    ensures
        r.input_path is Some && r.input_path->0@ == crash_dir@ + "/"@ + crash_name(input_hash),
        r.meta_path@ == meta_name(
            match meta_dir {
                Some(d) => d@,
                None => crash_dir@,
            },
            crash_name(input_hash),
        ),
        is_timestamp(secs, r.metadata@.timestamp),
        r.metadata@ == with_actions(crash_view(session@, r.metadata@.timestamp, seed), opt_records(full_actions)),
{
    let id = crash_id(input_hash);
    let mut metadata = build_crash_metadata(session, seed, secs);
    match full_actions {
        Some(actions) => {
            metadata.actions = actions;
        },
        None => {},
    }
    let dir = match meta_dir {
        Some(d) => d,
        None => crash_dir,
    };
    let mut input = copy_str(crash_dir);
    input.append("/");
    input.append(id.as_str());
    CrashFiles { input_path: Some(input), meta_path: meta_file(dir, id.as_str()), metadata }
}

/// What is written of a crash, and where, with the actions of the history.
pub fn write_crash_metadata(
    session: &Session,
    crash_dir: &str,
    meta_dir: Option<&str>,
    input_hash: u64,
    seed: Option<u64>,
    secs: u64,
) -> (r: CrashFiles)
    ensures
        r.input_path is Some && r.input_path->0@ == crash_dir@ + "/"@ + crash_name(input_hash),
        r.meta_path@ == meta_name(
            match meta_dir {
                Some(d) => d@,
                None => crash_dir@,
            },
            crash_name(input_hash),
        ),
        is_timestamp(secs, r.metadata@.timestamp),
        r.metadata@ == crash_view(session@, r.metadata@.timestamp, seed),
{
    write_crash_metadata_with_actions(session, crash_dir, meta_dir, input_hash, seed, None, secs)
}

/// What is written of a crash that has a name already, and where.
pub fn write_crash_metadata_for_id(session: &Session, crash_dir: &str, crash_id: &str, seed: Option<u64>, secs: u64) -> (r:
    CrashFiles)
    ensures
        r.input_path is None,
        r.meta_path@ == meta_name(crash_dir@, crash_id@),
        is_timestamp(secs, r.metadata@.timestamp),
        r.metadata@ == crash_view(session@, r.metadata@.timestamp, seed),
{
    CrashFiles {
        input_path: None,
        meta_path: meta_file(crash_dir, crash_id),
        metadata: build_crash_metadata(session, seed, secs),
    }
}

/// What an action may return, taken as success or failure.
pub trait IntoActionSuccess: Sized {
    /// The action succeeded.
    spec fn succeeds(&self) -> bool;

    /// Whether the action succeeded.
    fn into_success(self) -> (r: bool)
        ensures
            r == self.succeeds(),
    ;
}

impl IntoActionSuccess for () {
    open spec fn succeeds(&self) -> bool {
        true
    }

    fn into_success(self) -> (r: bool) {
        true
    }
}

impl<T, E> IntoActionSuccess for Result<T, E> {
    open spec fn succeeds(&self) -> bool {
        *self is Ok
    }

    fn into_success(self) -> (r: bool) {
        self.is_ok()
    }
}

impl IntoActionSuccess for bool {
    open spec fn succeeds(&self) -> bool {
        *self
    }

    fn into_success(self) -> (r: bool) {
        self
    }
}

} // verus!
