//! The outcome of a transaction.
use vstd::prelude::*;
use litesvm::types::TransactionMetadata;
use solana_transaction_error::TransactionError;
use crate::session::{set_last_error_code, Session};
#[allow(unused_imports)]
use crate::session::SessionView;
use crate::text::push_dec;
#[allow(unused_imports)]
use crate::text::{dec, texts};
use crate::types::Pubkey;

verus! {

/// A call that a program made.
#[derive(Debug, Clone, PartialEq, Eq)]
pub struct InnerInstruction {
    pub program_id_index: u8,
    pub accounts: Vec<u8>,
    pub data: Vec<u8>,
    pub stack_height: u8,
}

/// A call that a program made, as a value.
pub struct InnerView {
    pub program_id_index: u8,
    pub accounts: Seq<u8>,
    pub data: Seq<u8>,
    pub stack_height: u8,
}

impl View for InnerInstruction {
    type V = InnerView;

    open spec fn view(&self) -> InnerView {
        InnerView {
            program_id_index: self.program_id_index,
            accounts: self.accounts@,
            data: self.data@,
            stack_height: self.stack_height,
        }
    }
}

/// The calls made by one instruction, as values.
pub open spec fn group_view(v: Seq<InnerInstruction>) -> Seq<InnerView> {
    Seq::new(v.len(), |i: int| v[i]@)
}

/// The calls made by each instruction, as values.
pub open spec fn inner_views(v: Seq<Vec<InnerInstruction>>) -> Seq<Seq<InnerView>> {
    Seq::new(v.len(), |i: int| group_view(v[i]@))
}

/// What a program returned.
#[derive(Debug, Clone, PartialEq, Eq)]
pub struct ReturnData {
    pub program_id: Pubkey,
    pub data: Vec<u8>,
}

/// What a program returned, as a value.
pub struct ReturnView {
    pub program_id: Pubkey,
    pub data: Seq<u8>,
}

impl View for ReturnData {
    type V = ReturnView;

    open spec fn view(&self) -> ReturnView {
        ReturnView { program_id: self.program_id, data: self.data@ }
    }
}

/// What the machine records of a transaction.
#[derive(Debug, Clone, PartialEq, Eq)]
pub struct TxMeta {
    pub signature: [u8; 64],
    pub logs: Vec<String>,
    pub inner_instructions: Vec<Vec<InnerInstruction>>,
    pub compute_units: u64,
    pub return_data: ReturnData,
    pub fee: u64,
}

/// What the machine records of a transaction, as a value.
pub struct MetaView {
    pub signature: Seq<u8>,
    pub logs: Seq<Seq<char>>,
    pub inner: Seq<Seq<InnerView>>,
    pub compute_units: u64,
    pub return_data: ReturnView,
    pub fee: u64,
}

impl View for TxMeta {
    type V = MetaView;

    open spec fn view(&self) -> MetaView {
        MetaView {
            signature: self.signature@,
            logs: texts(self.logs@),
            inner: inner_views(self.inner_instructions@),
            compute_units: self.compute_units,
            return_data: self.return_data@,
            fee: self.fee,
        }
    }
}

/// What is recorded of a transaction.
pub uninterp spec fn metadata_value(meta: TransactionMetadata) -> MetaView;

/// The fields of a `TransactionMetadata`, as plain values.
#[verifier::external_body]
pub(crate) fn read_metadata(meta: TransactionMetadata) -> (r: TxMeta)
    ensures
        r@ == metadata_value(meta),
{
    TxMeta {
        signature: meta.signature.into(),
        logs: meta.logs,
        inner_instructions: meta.inner_instructions.into_iter().map(|g| g.into_iter().map(|i| InnerInstruction {
            program_id_index: i.instruction.program_id_index,
            accounts: i.instruction.accounts,
            data: i.instruction.data,
            stack_height: i.stack_height,
        }).collect()).collect(),
        compute_units: meta.compute_units_consumed,
        return_data: ReturnData { program_id: Pubkey { bytes: meta.return_data.program_id.to_bytes() }, data: meta.return_data.data },
        fee: meta.fee,
    }
}

/// Why an instruction failed.
#[derive(Debug, Clone, PartialEq, Eq)]
pub enum InstructionFailure {
    /// An error code of the program.
    Custom(u32),
    /// Another error, by its name.
    Other(String),
}

/// Why a transaction failed.
#[derive(Debug, Clone, PartialEq, Eq)]
pub enum TxFailure {
    /// An instruction, by its place, and why it failed.
    InstructionError(u8, InstructionFailure),
    /// Another error, by its name.
    Other(String),
}

/// Why a transaction failed, as a value.
pub enum FailureView {
    Custom(u8, u32),
    Instruction(u8, Seq<char>),
    Other(Seq<char>),
}

impl View for TxFailure {
    type V = FailureView;

    open spec fn view(&self) -> FailureView {
        match self {
            TxFailure::InstructionError(i, InstructionFailure::Custom(c)) => FailureView::Custom(*i, *c),
            TxFailure::InstructionError(i, InstructionFailure::Other(s)) => FailureView::Instruction(*i, s@),
            TxFailure::Other(s) => FailureView::Other(s@),
        }
    }
}

/// A failure that may be missing, as a value.
pub open spec fn opt_failure(e: Option<TxFailure>) -> Option<FailureView> {
    match e {
        Some(e) => Some(e@),
        None => None,
    }
}

/// Why a transaction failed.
pub uninterp spec fn failure_value(e: TransactionError) -> FailureView;

/// The variants of `TransactionError`: an error code of a program and the place of the instruction that
/// failed as they are, all else by its `Debug` text.
#[verifier::external_body]
pub(crate) fn read_failure(e: TransactionError) -> (r: TxFailure)
    ensures
        r@ == failure_value(e),
{
    match e {
        TransactionError::InstructionError(i, solana_instruction::error::InstructionError::Custom(c)) => {
            TxFailure::InstructionError(i, InstructionFailure::Custom(c))
        },
        TransactionError::InstructionError(i, e) => TxFailure::InstructionError(i, InstructionFailure::Other(format!("{:?}", e))),
        e => TxFailure::Other(format!("{:?}", e)),
    }
}

/// The error code of a failure: the one that the program gave.
pub open spec fn failure_code(e: FailureView) -> Option<u32> {
    match e {
        FailureView::Custom(_, c) => Some(c),
        _ => None,
    }
}

/// The place of the instruction that failed.
pub open spec fn failure_index(e: FailureView) -> Option<u8> {
    match e {
        FailureView::Custom(i, _) => Some(i),
        FailureView::Instruction(i, _) => Some(i),
        FailureView::Other(_) => None,
    }
}

/// The error code that the program gave, where it gave one.
pub fn parse_error_code(err: &TxFailure) -> (r: Option<u32>)
    ensures
        r == failure_code(err@),
{
    match err {
        TxFailure::InstructionError(_, InstructionFailure::Custom(code)) => Some(*code),
        _ => None,
    }
}

/// The place of the instruction that failed, where one did.
pub fn parse_instruction_index(err: &TxFailure) -> (r: Option<u8>)
    ensures
        r == failure_index(err@),
{
    match err {
        TxFailure::InstructionError(idx, _) => Some(*idx),
        TxFailure::Other(_) => None,
    }
}

/// The outcome of a transaction.
#[derive(Debug, Clone)]
pub enum TxOutcome {
    Success {
        compute_units: u64,
        logs: Vec<String>,
        signature: [u8; 64],
        inner_instructions: Vec<Vec<InnerInstruction>>,
        return_data: ReturnData,
        fee: u64,
    },
    ProgramError {
        error: TxFailure,
        error_code: Option<u32>,
        instruction_index: Option<u8>,
        logs: Vec<String>,
        signature: [u8; 64],
        inner_instructions: Vec<Vec<InnerInstruction>>,
        return_data: ReturnData,
        fee: u64,
    },
}

/// Why a transaction failed, with what was recorded of it.
#[derive(Debug, Clone)]
pub struct TxError {
    pub error: TxFailure,
    pub error_code: Option<u32>,
    pub instruction_index: Option<u8>,
    pub logs: Vec<String>,
    pub signature: [u8; 64],
    pub inner_instructions: Vec<Vec<InnerInstruction>>,
    pub return_data: ReturnData,
    pub fee: u64,
}

/// A failure with what is known of it.
pub struct ErrorView {
    pub error: FailureView,
    pub error_code: Option<u32>,
    pub instruction_index: Option<u8>,
}

/// The outcome of a transaction, as a value. What it cost in compute units is kept of a success only.
pub struct OutcomeView {
    pub failure: Option<ErrorView>,
    pub compute_units: Option<u64>,
    pub logs: Seq<Seq<char>>,
    pub signature: Seq<u8>,
    pub inner: Seq<Seq<InnerView>>,
    pub return_data: ReturnView,
    pub fee: u64,
}

impl View for TxOutcome {
    type V = OutcomeView;

    open spec fn view(&self) -> OutcomeView {
        match self {
            TxOutcome::Success { compute_units, logs, signature, inner_instructions, return_data, fee } => OutcomeView {
                failure: None,
                compute_units: Some(*compute_units),
                logs: texts(logs@),
                signature: signature@,
                inner: inner_views(inner_instructions@),
                return_data: return_data@,
                fee: *fee,
            },
            TxOutcome::ProgramError {
                error,
                error_code,
                instruction_index,
                logs,
                signature,
                inner_instructions,
                return_data,
                fee,
            } => OutcomeView {
                failure: Some(
                    ErrorView { error: error@, error_code: *error_code, instruction_index: *instruction_index },
                ),
                compute_units: None,
                logs: texts(logs@),
                signature: signature@,
                inner: inner_views(inner_instructions@),
                return_data: return_data@,
                fee: *fee,
            },
        }
    }
}

impl View for TxError {
    type V = OutcomeView;

    open spec fn view(&self) -> OutcomeView {
        OutcomeView {
            failure: Some(
                ErrorView {
                    error: self.error@,
                    error_code: self.error_code,
                    instruction_index: self.instruction_index,
                },
            ),
            compute_units: None,
            logs: texts(self.logs@),
            signature: self.signature@,
            inner: inner_views(self.inner_instructions@),
            return_data: self.return_data@,
            fee: self.fee,
        }
    }
}

/// What is said of a code.
pub open spec fn code_text(open: Seq<char>, code: Option<u32>) -> Seq<char> {
    match code {
        Some(c) => open + dec(c as nat) + ")"@,
        None => Seq::empty(),
    }
}

/// What is said of a place.
pub open spec fn place_text(index: Option<u8>) -> Seq<char> {
    match index {
        Some(i) => " at instruction "@ + dec(i as nat),
        None => Seq::empty(),
    }
}

/// What is said of an error.
pub open spec fn error_text(e: ErrorView) -> Seq<char> {
    "Transaction failed"@ + code_text(" (error code: "@, e.error_code) + place_text(e.instruction_index)
}

impl TxError {
    /// What is said of the error.
    pub fn message(&self) -> (r: String)
        ensures
            r@ == error_text(self@.failure->0),
    {
        let mut s = String::from_str("Transaction failed");
        let mut code = String::new();
        match self.error_code {
            Some(c) => {
                code.append(" (error code: ");
                push_dec(&mut code, c as u64);
                code.append(")");
            },
            None => {},
        }
        let mut place = String::new();
        match self.instruction_index {
            Some(i) => {
                place.append(" at instruction ");
                push_dec(&mut place, i as u64);
            },
            None => {},
        }
        assert(code@ =~= code_text(" (error code: "@, self.error_code));
        assert(place@ =~= place_text(self.instruction_index));
        s.append(code.as_str());
        s.append(place.as_str());
        s
    }
}

/// The logs, one in each line.
pub open spec fn log_lines(logs: Seq<Seq<char>>) -> Seq<char>
    decreases logs.len(),
{
    if logs.len() == 0 {
        Seq::empty()
    } else {
        log_lines(logs.drop_last()) + ("  "@ + logs.last() + "\n"@)
    }
}

fn push_log_lines(s: &mut String, logs: &Vec<String>)
    ensures
        final(s)@ == old(s)@ + log_lines(texts(logs@)),
{
    let ghost all = texts(logs@);
    let ghost before = s@;
    let mut i: usize = 0;
    assert(s@ =~= before + log_lines(all.take(0)));
    while i < logs.len()
        invariant
            i <= logs@.len(),
            all == texts(logs@),
            s@ == before + log_lines(all.take(i as int)),
        decreases logs.len() - i,
    {
        assert(all.take(i + 1).drop_last() =~= all.take(i as int));
        assert(all.take(i + 1).last() == logs@[i as int]@);
        let mut line = String::from_str("  ");
        line.append(logs[i].as_str());
        line.append("\n");
        s.append(line.as_str());
        assert(s@ =~= before + log_lines(all.take(i + 1)));
        i += 1;
    }
    assert(all.take(i as int) =~= all);
}

impl TxOutcome {
    /// Whether the transaction succeeded.
    pub fn is_success(&self) -> (r: bool)
        ensures
            r == (self@.failure is None),
    {
        match self {
            TxOutcome::Success { .. } => true,
            TxOutcome::ProgramError { .. } => false,
        }
    }

    /// Whether the transaction failed.
    pub fn is_error(&self) -> (r: bool)
        ensures
            r == (self@.failure is Some),
    {
        !self.is_success()
    }

    /// The error code that the program gave.
    pub fn error_code(&self) -> (r: Option<u32>)
        ensures
            r == match self@.failure {
                Some(e) => e.error_code,
                None => None,
            },
    {
        match self {
            TxOutcome::ProgramError { error_code, .. } => *error_code,
            TxOutcome::Success { .. } => None,
        }
    }

    /// What was logged.
    pub fn logs(&self) -> (r: &Vec<String>)
        ensures
            texts(r@) == self@.logs,
    {
        match self {
            TxOutcome::Success { logs, .. } => logs,
            TxOutcome::ProgramError { logs, .. } => logs,
        }
    }

    /// What the transaction cost in compute units, where it succeeded.
    pub fn compute_units(&self) -> (r: Option<u64>)
        ensures
            r == self@.compute_units,
    {
        match self {
            TxOutcome::Success { compute_units, .. } => Some(*compute_units),
            TxOutcome::ProgramError { .. } => None,
        }
    }

    /// The signature of the transaction.
    pub fn signature(&self) -> (r: &[u8; 64])
        ensures
            r@ == self@.signature,
    {
        match self {
            TxOutcome::Success { signature, .. } => signature,
            TxOutcome::ProgramError { signature, .. } => signature,
        }
    }

    /// The fee.
    pub fn fee(&self) -> (r: u64)
        ensures
            r == self@.fee,
    {
        match self {
            TxOutcome::Success { fee, .. } => *fee,
            TxOutcome::ProgramError { fee, .. } => *fee,
        }
    }

    /// The calls that programs made.
    pub fn inner_instructions(&self) -> (r: &Vec<Vec<InnerInstruction>>)
        ensures
            inner_views(r@) == self@.inner,
    {
        match self {
            TxOutcome::Success { inner_instructions, .. } => inner_instructions,
            TxOutcome::ProgramError { inner_instructions, .. } => inner_instructions,
        }
    }

    /// What a program returned.
    pub fn return_data(&self) -> (r: &ReturnData)
        ensures
            r@ == self@.return_data,
    {
        match self {
            TxOutcome::Success { return_data, .. } => return_data,
            TxOutcome::ProgramError { return_data, .. } => return_data,
        }
    }

    /// What is reported of a failure: `head`, the code where there is one, and the logs. Nothing of a
    /// success.
    pub fn failure_report(&self, head: &str, with_code: bool) -> (r: Option<String>)
        ensures
            match r {
                Some(s) => self@.failure is Some && s@ == report_text(head@, with_code, self@),
                None => self@.failure is None,
            },
    {
        match self {
            TxOutcome::Success { .. } => None,
            TxOutcome::ProgramError { error_code, logs, .. } => {
                let mut s = crate::text::copy_str(head);
                let mut code = String::new();
                if with_code {
                    match error_code {
                        Some(c) => {
                            code.append(" (code: ");
                            push_dec(&mut code, *c as u64);
                            code.append(")");
                        },
                        None => {},
                    }
                }
                assert(code@ =~= report_code(with_code, *error_code));
                s.append(code.as_str());
                s.append("\nLogs:\n");
                push_log_lines(&mut s, logs);
                Some(s)
            },
        }
    }

    /// Takes a success.
    pub fn unwrap(self)
        requires
            self@.failure is None,
    {
    }

    /// Takes a success.
    pub fn expect(self, msg: &str)
        requires
            self@.failure is None,
    {
    }

    /// The failure as an error.
    pub fn into_result(self) -> (r: Result<(), TxError>)
        ensures
            match r {
                Ok(_) => self@.failure is None,
                Err(e) => self@.failure is Some && e@ == self@,
            },
    {
        match self {
            TxOutcome::Success { .. } => Ok(()),
            TxOutcome::ProgramError {
                error,
                error_code,
                instruction_index,
                logs,
                signature,
                inner_instructions,
                return_data,
                fee,
            } => Err(
                TxError { error, error_code, instruction_index, logs, signature, inner_instructions, return_data, fee },
            ),
        }
    }
}

/// What is reported of a code.
pub open spec fn report_code(with_code: bool, code: Option<u32>) -> Seq<char> {
    if with_code { code_text(" (code: "@, code) } else { Seq::empty() }
}

/// What is reported of a failure.
pub open spec fn report_text(head: Seq<char>, with_code: bool, o: OutcomeView) -> Seq<char> {
    head + report_code(with_code, o.failure->0.error_code) + "\nLogs:\n"@ + log_lines(o.logs)
}

/// The outcome that a record and a failure make up.
pub open spec fn outcome_view(m: MetaView, e: Option<FailureView>) -> OutcomeView {
    OutcomeView {
        failure: match e {
            Some(e) => Some(
                ErrorView { error: e, error_code: failure_code(e), instruction_index: failure_index(e) },
            ),
            None => None,
        },
        compute_units: if e is Some { None } else { Some(m.compute_units) },
        logs: m.logs,
        signature: m.signature,
        inner: m.inner,
        return_data: m.return_data,
        fee: m.fee,
    }
}

/// The outcome that a record and a failure make up.
pub fn outcome_of(meta: TxMeta, failure: Option<TxFailure>) -> (r: TxOutcome)
    ensures
        r@ == outcome_view(meta@, opt_failure(failure)),
{
    match failure {
        None => TxOutcome::Success {
            compute_units: meta.compute_units,
            logs: meta.logs,
            signature: meta.signature,
            inner_instructions: meta.inner_instructions,
            return_data: meta.return_data,
            fee: meta.fee,
        },
        Some(error) => {
            let error_code = parse_error_code(&error);
            let instruction_index = parse_instruction_index(&error);
            TxOutcome::ProgramError {
                error,
                error_code,
                instruction_index,
                logs: meta.logs,
                signature: meta.signature,
                inner_instructions: meta.inner_instructions,
                return_data: meta.return_data,
                fee: meta.fee,
            }
        },
    }
}

/// The failure of a transaction, where it failed.
pub open spec fn failure_of(e: Option<TransactionError>) -> Option<FailureView> {
    match e {
        Some(e) => Some(failure_value(e)),
        None => None,
    }
}

/// The outcome of a transaction. Its error code is noted for the record of the action.
pub fn tx_result_to_outcome(session: &mut Session, meta: TransactionMetadata, err: Option<TransactionError>) -> (r: TxOutcome)
    ensures
        r@ == outcome_view(metadata_value(meta), failure_of(err)),
        final(session)@ == (SessionView {
            last_error_code: match failure_of(err) {
                Some(e) => failure_code(e),
                None => None,
            },
            ..old(session)@
        }),
{
    let failure = match err {
        Some(e) => Some(read_failure(e)),
        None => None,
    };
    let outcome = outcome_of(read_metadata(meta), failure);
    set_last_error_code(session, outcome.error_code());
    outcome
}

} // verus!
