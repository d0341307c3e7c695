use crucible_test_context::outcome::{
    parse_error_code, parse_instruction_index, tx_result_to_outcome, InstructionFailure, ReturnData, TxFailure, TxOutcome,
};
use crucible_test_context::session::{take_last_error_code, Session};
use crucible_test_context::types::Pubkey;
use litesvm::types::TransactionMetadata;
use solana_instruction::error::InstructionError;
use solana_transaction_error::TransactionError;

fn read(err: TransactionError) -> (Option<u32>, Option<u8>) {
    let mut s = Session::new();
    match tx_result_to_outcome(&mut s, TransactionMetadata::default(), Some(err)) {
        TxOutcome::ProgramError { error, error_code, instruction_index, .. } => {
            assert_eq!(parse_error_code(&error), error_code);
            assert_eq!(parse_instruction_index(&error), instruction_index);
            (error_code, instruction_index)
        }
        TxOutcome::Success { .. } => panic!("no failure"),
    }
}

fn code(err: TransactionError) -> Option<u32> {
    read(err).0
}

fn index(err: TransactionError) -> Option<u8> {
    read(err).1
}

fn in_use() -> TxFailure {
    TxFailure::Other("AccountInUse".to_string())
}

fn no_data() -> ReturnData {
    ReturnData { program_id: Pubkey::default(), data: vec![] }
}

fn new_unique() -> Pubkey {
    Pubkey::new_from_array(solana_pubkey::Pubkey::new_unique().to_bytes())
}

#[test]
fn parse_error_code_custom() {
    assert_eq!(code(TransactionError::InstructionError(0, InstructionError::Custom(6051))), Some(6051));
}

#[test]
fn parse_error_code_custom_zero() {
    assert_eq!(code(TransactionError::InstructionError(1, InstructionError::Custom(0))), Some(0));
}

#[test]
fn parse_error_code_custom_large() {
    assert_eq!(code(TransactionError::InstructionError(0, InstructionError::Custom(u32::MAX))), Some(u32::MAX));
}

#[test]
fn parse_error_code_non_custom_instruction_error() {
    assert_eq!(code(TransactionError::InstructionError(0, InstructionError::GenericError)), None);
}

#[test]
fn parse_error_code_non_instruction_error() {
    assert_eq!(code(TransactionError::AccountInUse), None);
}

#[test]
fn parse_instruction_index_basic() {
    assert_eq!(index(TransactionError::InstructionError(0, InstructionError::Custom(42))), Some(0));
}

#[test]
fn parse_instruction_index_nonzero() {
    assert_eq!(index(TransactionError::InstructionError(3, InstructionError::GenericError)), Some(3));
}

#[test]
fn parse_instruction_index_max_u8() {
    assert_eq!(index(TransactionError::InstructionError(255, InstructionError::Custom(1))), Some(255));
}

#[test]
fn parse_instruction_index_non_instruction_error() {
    assert_eq!(index(TransactionError::AccountInUse), None);
}

#[test]
fn parse_error_code_anchor_custom_6000() {
    assert_eq!(code(TransactionError::InstructionError(0, InstructionError::Custom(6000))), Some(6000));
}

#[test]
fn parse_error_code_insufficient_funds() {
    assert_eq!(
        code(TransactionError::InstructionError(0, InstructionError::InsufficientFunds)),
        None,
        "InsufficientFunds has no Custom(N)"
    );
}

#[test]
fn parse_error_code_account_already_initialized() {
    let err = TransactionError::InstructionError(2, InstructionError::AccountAlreadyInitialized);
    assert_eq!(code(err.clone()), None);
    assert_eq!(index(err), Some(2));
}

#[test]
fn parse_error_code_duplicate_instruction() {
    let err = TransactionError::DuplicateInstruction(2);
    assert_eq!(code(err.clone()), None);
    assert_eq!(index(err), None);
}

#[test]
fn parse_instruction_index_with_non_custom_error() {
    let err = TransactionError::InstructionError(4, InstructionError::ComputationalBudgetExceeded);
    assert_eq!(code(err.clone()), None);
    assert_eq!(index(err), Some(4));
}

#[test]
fn parse_error_code_custom_one() {
    assert_eq!(code(TransactionError::InstructionError(0, InstructionError::Custom(1))), Some(1));
}

#[test]
fn parse_both_from_same_error() {
    let err = TransactionError::InstructionError(7, InstructionError::Custom(9999));
    assert_eq!(code(err.clone()), Some(9999));
    assert_eq!(index(err), Some(7));
}

#[test]
fn test_tx_outcome_helpers() {
    let success = TxOutcome::Success {
        compute_units: 100,
        logs: vec!["log1".to_string()],
        signature: [0; 64],
        inner_instructions: vec![],
        return_data: no_data(),
        fee: 5000,
    };

    assert!(success.is_success());
    assert!(!success.is_error());
    assert!(success.error_code().is_none());
    assert_eq!(success.compute_units(), Some(100));
    assert_eq!(success.logs().len(), 1);
    assert_eq!(success.fee(), 5000);

    let error = TxOutcome::ProgramError {
        error: in_use(),
        error_code: Some(6051),
        instruction_index: Some(0),
        logs: vec!["error log".to_string()],
        signature: [0; 64],
        inner_instructions: vec![],
        return_data: no_data(),
        fee: 0,
    };

    assert!(!error.is_success());
    assert!(error.is_error());
    assert_eq!(error.error_code(), Some(6051));
    assert!(error.compute_units().is_none());
    assert_eq!(error.fee(), 0);
}

#[test]
fn test_tx_outcome_into_result() {
    let success = TxOutcome::Success {
        compute_units: 100,
        logs: vec![],
        signature: [0; 64],
        inner_instructions: vec![],
        return_data: no_data(),
        fee: 0,
    };
    assert!(success.into_result().is_ok());

    let error = TxOutcome::ProgramError {
        error: in_use(),
        error_code: Some(6051),
        instruction_index: Some(0),
        logs: vec![],
        signature: [0; 64],
        inner_instructions: vec![],
        return_data: no_data(),
        fee: 0,
    };
    let err = error.into_result().unwrap_err();
    assert_eq!(err.error_code, Some(6051));
    assert_eq!(err.fee, 0);
}

#[test]
fn tx_result_to_outcome_success() {
    let meta = TransactionMetadata {
        compute_units_consumed: 42,
        logs: vec!["log".to_string()],
        ..Default::default()
    };
    let outcome = tx_result_to_outcome(&mut Session::new(), meta, None);
    assert!(outcome.is_success());
    assert_eq!(outcome.compute_units(), Some(42));
    assert_eq!(outcome.error_code(), None);
}

#[test]
fn tx_result_to_outcome_error_sets_tls() {
    let mut s = Session::new();
    let meta = TransactionMetadata { logs: vec!["err log".to_string()], ..Default::default() };
    let err = TransactionError::InstructionError(1, InstructionError::Custom(6051));
    let outcome = tx_result_to_outcome(&mut s, meta, Some(err));
    assert!(outcome.is_error());
    assert_eq!(outcome.error_code(), Some(6051));
    let tls_code = take_last_error_code(&mut s);
    assert_eq!(tls_code, Some(6051));
}

#[test]
fn tx_result_to_outcome_success_preserves_all_metadata() {
    let return_program = solana_pubkey::Pubkey::new_unique();
    let inner_ix = solana_message::inner_instruction::InnerInstruction {
        instruction: solana_message::compiled_instruction::CompiledInstruction {
            program_id_index: 2,
            accounts: vec![0, 1],
            data: vec![0xAB, 0xCD],
        },
        stack_height: 2,
    };

    let meta = TransactionMetadata {
        signature: solana_signature::Signature::from([1u8; 64]),
        logs: vec!["Program invoked".to_string()],
        inner_instructions: vec![vec![inner_ix]],
        compute_units_consumed: 12345,
        return_data: solana_transaction_context::TransactionReturnData {
            program_id: return_program,
            data: vec![1, 2, 3, 4],
        },
        fee: 5000,
    };

    let outcome = tx_result_to_outcome(&mut Session::new(), meta, None);

    assert!(outcome.is_success());
    assert_eq!(outcome.compute_units(), Some(12345));
    assert_eq!(outcome.logs(), &["Program invoked"]);
    assert_eq!(*outcome.signature(), [1u8; 64]);
    assert_eq!(outcome.fee(), 5000);
    assert_eq!(outcome.return_data().program_id.to_bytes(), return_program.to_bytes());
    assert_eq!(outcome.return_data().data, vec![1, 2, 3, 4]);
    assert_eq!(outcome.inner_instructions().len(), 1);
    assert_eq!(outcome.inner_instructions()[0].len(), 1);
    assert_eq!(outcome.inner_instructions()[0][0].stack_height, 2);
    assert_eq!(outcome.inner_instructions()[0][0].data, vec![0xAB, 0xCD]);
    assert_eq!(outcome.inner_instructions()[0][0].accounts, vec![0, 1]);
    assert_eq!(outcome.inner_instructions()[0][0].program_id_index, 2);
}

#[test]
fn tx_result_to_outcome_error_preserves_all_metadata() {
    let meta = TransactionMetadata {
        signature: solana_signature::Signature::from([1u8; 64]),
        logs: vec!["Program failed".to_string()],
        inner_instructions: vec![vec![], vec![]],
        compute_units_consumed: 500,
        return_data: solana_transaction_context::TransactionReturnData {
            program_id: solana_pubkey::Pubkey::new_unique(),
            data: vec![0xFF],
        },
        fee: 7500,
    };
    let err = TransactionError::InstructionError(2, InstructionError::Custom(9999));

    let outcome = tx_result_to_outcome(&mut Session::new(), meta, Some(err));

    assert!(outcome.is_error());
    assert_eq!(outcome.error_code(), Some(9999));
    assert_eq!(*outcome.signature(), [1u8; 64]);
    assert_eq!(outcome.fee(), 7500);
    assert_eq!(outcome.return_data().data, vec![0xFF]);
    assert_eq!(outcome.inner_instructions().len(), 2);
    assert_eq!(outcome.logs(), &["Program failed"]);
}

#[test]
fn tx_outcome_into_result_preserves_new_fields_in_tx_error() {
    let return_program = new_unique();

    let error = TxOutcome::ProgramError {
        error: in_use(),
        error_code: Some(42),
        instruction_index: Some(3),
        logs: vec!["log".to_string()],
        signature: [1; 64],
        inner_instructions: vec![vec![]],
        return_data: ReturnData { program_id: return_program, data: vec![10, 20] },
        fee: 3000,
    };

    let err = error.into_result().unwrap_err();

    assert_eq!(err.error_code, Some(42));
    assert_eq!(err.instruction_index, Some(3));
    assert_eq!(err.signature, [1; 64]);
    assert_eq!(err.fee, 3000);
    assert_eq!(err.return_data.program_id, return_program);
    assert_eq!(err.return_data.data, vec![10, 20]);
    assert_eq!(err.inner_instructions.len(), 1);
    assert_eq!(err.logs, vec!["log"]);
    assert_eq!(err.message(), "Transaction failed (error code: 42) at instruction 3");
}

#[test]
fn tx_outcome_accessors_agree_across_variants() {
    let rd = ReturnData { program_id: new_unique(), data: vec![42] };

    let success = TxOutcome::Success {
        compute_units: 0,
        logs: vec![],
        signature: [1; 64],
        inner_instructions: vec![],
        return_data: rd.clone(),
        fee: 100,
    };

    let error = TxOutcome::ProgramError {
        error: in_use(),
        error_code: None,
        instruction_index: None,
        logs: vec![],
        signature: [1; 64],
        inner_instructions: vec![],
        return_data: rd.clone(),
        fee: 100,
    };

    assert_eq!(*success.signature(), *error.signature());
    assert_eq!(success.fee(), error.fee());
    assert_eq!(success.return_data().data, error.return_data().data);
    assert_eq!(success.inner_instructions().len(), error.inner_instructions().len());
}

#[test]
fn failures_are_read_and_reported() {
    let mut s = Session::new();
    let meta = TransactionMetadata { logs: vec!["one".to_string(), "two".to_string()], ..Default::default() };
    let err = TransactionError::InstructionError(1, InstructionError::InvalidArgument);
    let outcome = tx_result_to_outcome(&mut s, meta.clone(), Some(err));
    match &outcome {
        TxOutcome::ProgramError { error, .. } => assert_eq!(
            *error,
            TxFailure::InstructionError(1, InstructionFailure::Other("InvalidArgument".to_string()))
        ),
        TxOutcome::Success { .. } => panic!("no failure"),
    }
    assert_eq!(outcome.failure_report("boom", false), Some("boom\nLogs:\n  one\n  two\n".to_string()));
    let custom = TransactionError::InstructionError(0, InstructionError::Custom(7));
    let outcome = tx_result_to_outcome(&mut s, meta.clone(), Some(custom));
    assert_eq!(outcome.failure_report("boom", true), Some("boom (code: 7)\nLogs:\n  one\n  two\n".to_string()));
    let fine = tx_result_to_outcome(&mut s, meta, None);
    assert_eq!(fine.failure_report("boom", true), None);
    fine.unwrap();
}
