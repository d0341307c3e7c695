use crucible_test_context::account_builders::AccountBuilderBase;
use crucible_test_context::builders::{mint_call, put_payer_first, transfer_call};
use crucible_test_context::context::TestContext;
use crucible_test_context::discriminators::InstructionRegistry;
use crucible_test_context::ids::{
    clock_id, epoch_rewards_id, instructions_id, last_restart_slot_id, rent_id, slot_hashes_id, slot_history_id,
    token_program_id, upgradeable_loader_id,
};
use crucible_test_context::keys::Keypair;
use crucible_test_context::mutation::cache::{reset_probed_account_mutations, ProbeCache, DEFAULT_PROBE_CAP_PER_IX};
use crucible_test_context::ready::{
    are_programs_early, can_keep, can_load, fits_rent, is_machine_ready, is_trial_needed,
};
use crucible_test_context::schema::TypeTags;
use crucible_test_context::send::HarnessState;
use crucible_test_context::session::{has_violation, take_violation, Session};
use crucible_test_context::snapshot::SvmSnapshot;
use crucible_test_context::token::TokenState;
use crucible_test_context::types::{Account, AccountMeta, Instruction, Pubkey};
use spl_token::solana_program::program_option::COption;
use spl_token::solana_program::program_pack::Pack;

type Key = solana_pubkey::Pubkey;

fn key(k: Key) -> Pubkey {
    Pubkey::new_from_array(k.to_bytes())
}

fn raw(k: &Pubkey) -> Key {
    Key::new_from_array(k.to_bytes())
}

fn new_unique() -> Pubkey {
    key(Key::new_unique())
}

fn account(lamports: u64, data: Vec<u8>, owner: Pubkey) -> Account {
    Account { lamports, data, owner, executable: false, rent_epoch: 0 }
}

fn raw_account(a: Account) -> solana_account::Account {
    solana_account::Account {
        lamports: a.lamports,
        data: a.data,
        owner: raw(&a.owner),
        executable: a.executable,
        rent_epoch: a.rent_epoch,
    }
}

fn held(ctx: &TestContext, k: &Pubkey) -> solana_account::Account {
    ctx.svm.get_account(&raw(k)).unwrap()
}

fn mint_at(ctx: &TestContext, k: &Pubkey) -> spl_token::state::Mint {
    spl_token::state::Mint::unpack(&held(ctx, k).data).unwrap()
}

fn token_at(ctx: &TestContext, k: &Pubkey) -> spl_token::state::Account {
    spl_token::state::Account::unpack(&held(ctx, k).data).unwrap()
}

fn harness() -> HarnessState {
    HarnessState {
        session: Session::new(),
        cache: ProbeCache::new(DEFAULT_PROBE_CAP_PER_IX),
        tags: TypeTags { accounts: None, schemas: None, fallback: None },
        instructions: InstructionRegistry::new(),
        demoted: Vec::new(),
    }
}

fn fund_keypair(ctx: &mut TestContext) -> Keypair {
    let kp = Keypair::new();
    ctx.svm.airdrop(&raw(&kp.pubkey()), 10_000_000_000).unwrap();
    kp
}

fn transfer(from: &Pubkey, to: &Pubkey, lamports: u64) -> Instruction {
    let mut data = vec![2, 0, 0, 0];
    data.extend_from_slice(&lamports.to_le_bytes());
    Instruction {
        program_id: Pubkey::default(),
        accounts: vec![
            AccountMeta { pubkey: *from, is_signer: true, is_writable: true },
            AccountMeta { pubkey: *to, is_signer: false, is_writable: true },
        ],
        data,
    }
}

fn balance(ctx: &TestContext, k: &Pubkey) -> u64 {
    ctx.svm.get_balance(&raw(k)).unwrap_or(0)
}

#[test]
fn test_snapshot_basic_roundtrip() {
    let mut ctx = TestContext::new();

    let pk1 = new_unique();
    let pk2 = new_unique();
    let owner = new_unique();

    ctx.write_account(&pk1, account(1_000_000, vec![1, 2, 3, 4], owner)).unwrap();
    ctx.write_account(&pk2, account(2_000_000, vec![10, 20, 30], owner)).unwrap();

    ctx.take_snapshot();
    assert!(ctx.has_snapshot());

    ctx.begin_iteration();

    ctx.write_account(&pk1, account(999, vec![99, 99, 99, 99], owner)).unwrap();
    ctx.write_account(&pk2, account(0, vec![], owner)).unwrap();

    let acc1 = ctx.read_account(&pk1).unwrap();
    assert_eq!(acc1.lamports, 999);
    assert_eq!(acc1.data, vec![99, 99, 99, 99]);

    let restored = ctx.restore_snapshot();
    assert_eq!(restored, 2);

    let acc1 = ctx.read_account(&pk1).unwrap();
    assert_eq!(acc1.lamports, 1_000_000);
    assert_eq!(acc1.data, vec![1, 2, 3, 4]);

    let acc2 = ctx.read_account(&pk2).unwrap();
    assert_eq!(acc2.lamports, 2_000_000);
    assert_eq!(acc2.data, vec![10, 20, 30]);
}

#[test]
fn test_snapshot_created_account_removed_on_restore() {
    let mut ctx = TestContext::new();

    let pk_initial = new_unique();
    let owner = new_unique();
    ctx.write_account(&pk_initial, account(1_000_000, vec![1, 2, 3], owner)).unwrap();

    ctx.take_snapshot();
    ctx.begin_iteration();

    let pk_new = new_unique();
    ctx.write_account(&pk_new, account(500_000, vec![42], owner)).unwrap();

    assert!(ctx.read_account(&pk_new).is_ok());

    ctx.restore_snapshot();

    match ctx.svm.get_account(&raw(&pk_new)) {
        Some(a) => assert_eq!(a.lamports, 0, "Created account should be zeroed on restore"),
        None => {}
    }

    let acc_initial = ctx.read_account(&pk_initial).unwrap();
    assert_eq!(acc_initial.lamports, 1_000_000);
}

#[test]
fn test_snapshot_clock_restore() {
    let mut ctx = TestContext::new();

    ctx.warp_to_slot(100);
    let original_slot = ctx.slot();
    assert_eq!(original_slot, 100);

    ctx.take_snapshot();
    ctx.begin_iteration();

    ctx.warp_to_slot(500);
    assert_eq!(ctx.slot(), 500);

    ctx.restore_snapshot();

    assert_eq!(ctx.slot(), 100);
}

#[test]
fn test_snapshot_multiple_iterations() {
    let mut ctx = TestContext::new();

    let pk = new_unique();
    let owner = new_unique();

    ctx.write_account(&pk, account(1_000_000, vec![0; 32], owner)).unwrap();

    ctx.take_snapshot();

    for i in 0..5 {
        ctx.begin_iteration();

        ctx.write_account(&pk, account((i + 1) * 100, vec![i as u8; 32], owner)).unwrap();

        let acc = ctx.read_account(&pk).unwrap();
        assert_eq!(acc.lamports, (i + 1) * 100);

        ctx.restore_snapshot();

        let acc = ctx.read_account(&pk).unwrap();
        assert_eq!(acc.lamports, 1_000_000, "Failed on iteration {}", i);
        assert_eq!(acc.data, vec![0; 32], "Failed on iteration {}", i);
    }
}

#[test]
fn test_snapshot_dirty_tracker_tracks_write_account() {
    let mut ctx = TestContext::new();

    let pk1 = new_unique();
    let pk2 = new_unique();
    let owner = new_unique();

    ctx.write_account(&pk1, account(100, vec![], owner)).unwrap();
    ctx.write_account(&pk2, account(200, vec![], owner)).unwrap();

    assert!(ctx.dirty_tracker.dirty_accounts().contains(&pk1));
    assert!(ctx.dirty_tracker.dirty_accounts().contains(&pk2));
    assert_eq!(ctx.dirty_tracker.dirty_count(), 2);

    ctx.begin_iteration();
    assert_eq!(ctx.dirty_tracker.dirty_count(), 0);
    assert!(ctx.pending_instructions.is_empty());
}

#[test]
fn test_snapshot_dirty_tracker_tracks_clock() {
    let mut ctx = TestContext::new();

    assert!(!ctx.dirty_tracker.is_clock_dirty());

    ctx.warp_to_slot(100);
    assert!(ctx.dirty_tracker.is_clock_dirty());

    ctx.begin_iteration();
    assert!(!ctx.dirty_tracker.is_clock_dirty());

    ctx.advance_slots(10);
    assert!(ctx.dirty_tracker.is_clock_dirty());
}

#[test]
fn test_snapshot_no_snapshot_returns_zero() {
    let mut ctx = TestContext::new();

    assert!(!ctx.has_snapshot());
    let restored = ctx.restore_snapshot();
    assert_eq!(restored, 0);
}

#[test]
fn test_snapshot_unmodified_accounts_untouched() {
    let mut ctx = TestContext::new();

    let pk_modified = new_unique();
    let pk_untouched = new_unique();
    let owner = new_unique();

    ctx.write_account(&pk_modified, account(100, vec![1, 2, 3], owner)).unwrap();
    ctx.write_account(&pk_untouched, account(200, vec![4, 5, 6], owner)).unwrap();

    ctx.take_snapshot();
    ctx.begin_iteration();

    ctx.write_account(&pk_modified, account(999, vec![9, 9, 9], owner)).unwrap();

    let restored = ctx.restore_snapshot();
    assert_eq!(restored, 1);

    let acc = ctx.read_account(&pk_modified).unwrap();
    assert_eq!(acc.lamports, 100);

    let acc = ctx.read_account(&pk_untouched).unwrap();
    assert_eq!(acc.lamports, 200);
    assert_eq!(acc.data, vec![4, 5, 6]);
}

#[test]
fn test_snapshot_clone_does_not_inherit_snapshot() {
    let mut ctx = TestContext::new();

    let pk = new_unique();
    ctx.write_account(&pk, account(100, vec![], new_unique())).unwrap();

    ctx.take_snapshot();
    assert!(ctx.has_snapshot());

    let cloned = ctx.clone();
    assert!(!cloned.has_snapshot());

    assert_eq!(cloned.dirty_tracker.dirty_count(), 0);
}

#[test]
fn test_snapshot_includes_dirty_tracker_accounts() {
    let mut ctx = TestContext::new();

    let pk_tracked = new_unique();
    let pk_cpi = new_unique();
    let owner = new_unique();

    ctx.write_account(&pk_tracked, account(100, vec![1], owner)).unwrap();

    let _ = ctx.svm.set_account(raw(&pk_cpi), raw_account(account(200, vec![2], owner)));
    ctx.dirty_tracker.mark_account_dirty(&pk_cpi);

    ctx.take_snapshot();
    assert!(ctx.has_snapshot());

    ctx.begin_iteration();

    let _ = ctx.svm.set_account(raw(&pk_cpi), raw_account(account(999, vec![9], owner)));
    ctx.dirty_tracker.mark_account_dirty(&pk_cpi);

    ctx.restore_snapshot();
    let acc = held(&ctx, &pk_cpi);
    assert_eq!(acc.lamports, 200);
    assert_eq!(acc.data, vec![2]);
}

#[test]
fn test_snapshot_programs_arc_clone() {
    let mut ctx = TestContext::new();

    let pk = new_unique();
    ctx.write_account(&pk, account(100, vec![0; 1024], new_unique())).unwrap();

    let cloned = ctx.clone();
    assert_eq!(ctx.programs_count(), cloned.programs_count());
}

#[test]
fn test_snapshot_multiple_writes_same_account() {
    let mut ctx = TestContext::new();
    let pk = new_unique();

    ctx.write_account(&pk, account(100, vec![1], new_unique())).unwrap();
    ctx.dirty_tracker.mark_account_dirty(&pk);

    ctx.take_snapshot();

    ctx.write_account(&pk, account(200, vec![2], new_unique())).unwrap();
    ctx.dirty_tracker.mark_account_dirty(&pk);

    ctx.write_account(&pk, account(300, vec![3], new_unique())).unwrap();
    ctx.dirty_tracker.mark_account_dirty(&pk);

    ctx.restore_snapshot();
    let acc = held(&ctx, &pk);
    assert_eq!(acc.lamports, 100, "restore should use snapshot value, not intermediate");
    assert_eq!(acc.data, vec![1]);
}

#[test]
fn test_snapshot_large_account_data_integrity() {
    let mut ctx = TestContext::new();
    let pk = new_unique();

    let original_data: Vec<u8> = (0..10_000).map(|i| (i % 256) as u8).collect();
    ctx.write_account(&pk, account(1_000_000, original_data.clone(), new_unique())).unwrap();
    ctx.dirty_tracker.mark_account_dirty(&pk);

    ctx.take_snapshot();

    ctx.write_account(&pk, account(1_000_000, vec![0xFF; 10_000], new_unique())).unwrap();
    ctx.dirty_tracker.mark_account_dirty(&pk);

    ctx.restore_snapshot();
    let acc = held(&ctx, &pk);
    assert_eq!(acc.data, original_data, "10KB data should be perfectly restored");
}

#[test]
fn generic_builder_create_basic() {
    let mut ctx = TestContext::new();
    let pk = new_unique();
    let owner = new_unique();

    let addr = ctx.create_account().pubkey(pk).owner(owner).lamports(1_000_000).size(128).create().unwrap();

    assert_eq!(addr, pk);
    let acc = held(&ctx, &pk);
    assert_eq!(acc.owner, raw(&owner));
    assert_eq!(acc.lamports, 1_000_000);
    assert_eq!(acc.data.len(), 128);
    assert!(!acc.executable);
}

#[test]
fn generic_builder_with_data() {
    let mut ctx = TestContext::new();
    let pk = new_unique();
    let data = vec![1, 2, 3, 4, 5];

    ctx.create_account().pubkey(pk).lamports(1).data(&data).create().unwrap();

    assert_eq!(held(&ctx, &pk).data, data);
}

#[test]
fn generic_builder_default_address_errors() {
    let mut ctx = TestContext::new();
    let err = ctx.create_account().lamports(100).create().unwrap_err();

    assert!(err.message().contains("Address must be set"), "expected address error: {}", err.message());
}

#[test]
fn generic_builder_tracks_account() {
    let mut ctx = TestContext::new();
    let pk = new_unique();
    let before = ctx.tracked_accounts_count();

    ctx.create_account().pubkey(pk).create().unwrap();

    assert_eq!(ctx.tracked_accounts_count(), before + 1);
}

#[test]
fn mint_builder_create_basic() {
    let mut ctx = TestContext::new();
    let mint_pk = new_unique();
    let authority = new_unique();

    let addr = ctx
        .create_mint()
        .pubkey(mint_pk)
        .mint_authority(authority)
        .decimals(6)
        .supply(1_000_000)
        .create()
        .unwrap();

    assert_eq!(addr, mint_pk);

    let acc = held(&ctx, &mint_pk);
    assert_eq!(acc.owner, spl_token::id());
    assert_eq!(acc.data.len(), spl_token::state::Mint::LEN);

    let mint = mint_at(&ctx, &mint_pk);
    assert_eq!(mint.decimals, 6);
    assert_eq!(mint.supply, 1_000_000);
    assert_eq!(mint.mint_authority, COption::Some(raw(&authority)));
    assert!(mint.is_initialized);
}

#[test]
fn mint_builder_default_is_initialized() {
    let mut ctx = TestContext::new();
    let pk = new_unique();

    ctx.create_mint().pubkey(pk).create().unwrap();

    assert!(mint_at(&ctx, &pk).is_initialized, "default mint should be initialized");
}

#[test]
fn mint_builder_freeze_authority() {
    let mut ctx = TestContext::new();
    let pk = new_unique();
    let freeze_auth = new_unique();

    ctx.create_mint().pubkey(pk).freeze_authority(Some(freeze_auth)).create().unwrap();

    assert_eq!(mint_at(&ctx, &pk).freeze_authority, COption::Some(raw(&freeze_auth)));
}

#[test]
fn mint_builder_freeze_authority_none() {
    let mut ctx = TestContext::new();
    let pk = new_unique();

    ctx.create_mint().pubkey(pk).freeze_authority(None).create().unwrap();

    assert_eq!(mint_at(&ctx, &pk).freeze_authority, COption::None);
}

#[test]
fn mint_builder_default_address_errors() {
    let mut ctx = TestContext::new();
    let err = ctx.create_mint().decimals(9).create().unwrap_err();

    assert!(err.message().contains("Address must be set"), "expected address error: {}", err.message());
}

#[test]
fn mint_builder_has_rent_exempt_lamports() {
    let mut ctx = TestContext::new();
    let pk = new_unique();

    ctx.create_mint().pubkey(pk).create().unwrap();

    let min_lamports = anchor_lang::prelude::Rent::default().minimum_balance(spl_token::state::Mint::LEN);
    assert_eq!(held(&ctx, &pk).lamports, min_lamports, "mint should have rent-exempt lamports by default");
    assert_eq!(min_lamports, 1_461_600);
}

#[test]
fn token_builder_create_basic() {
    let mut ctx = TestContext::new();
    let token_pk = new_unique();
    let mint_pk = new_unique();
    let owner_pk = new_unique();

    let addr = ctx
        .create_token_account()
        .pubkey(token_pk)
        .mint(mint_pk)
        .token_owner(owner_pk)
        .amount(500)
        .create()
        .unwrap();

    assert_eq!(addr, token_pk);

    let acc = held(&ctx, &token_pk);
    assert_eq!(acc.owner, spl_token::id());
    assert_eq!(acc.data.len(), spl_token::state::Account::LEN);

    let token = token_at(&ctx, &token_pk);
    assert_eq!(token.mint, raw(&mint_pk));
    assert_eq!(token.owner, raw(&owner_pk));
    assert_eq!(token.amount, 500);
    assert_eq!(token.state, spl_token::state::AccountState::Initialized);
}

#[test]
fn token_builder_missing_mint_errors() {
    let mut ctx = TestContext::new();
    let err = ctx.create_token_account().pubkey(new_unique()).token_owner(new_unique()).create().unwrap_err();

    assert!(err.message().contains("Mint must be set"), "expected mint error: {}", err.message());
}

#[test]
fn token_builder_missing_owner_errors() {
    let mut ctx = TestContext::new();
    let err = ctx.create_token_account().pubkey(new_unique()).mint(new_unique()).create().unwrap_err();

    assert!(err.message().contains("Owner must be set"), "expected owner error: {}", err.message());
}

#[test]
fn token_builder_default_address_errors() {
    let mut ctx = TestContext::new();
    let err = ctx.create_token_account().mint(new_unique()).token_owner(new_unique()).create().unwrap_err();

    assert!(err.message().contains("Address must be set"), "expected address error: {}", err.message());
}

#[test]
fn token_builder_delegate() {
    let mut ctx = TestContext::new();
    let pk = new_unique();
    let delegate = new_unique();

    ctx.create_token_account()
        .pubkey(pk)
        .mint(new_unique())
        .token_owner(new_unique())
        .delegate(Some(delegate))
        .delegated_amount(100)
        .create()
        .unwrap();

    let token = token_at(&ctx, &pk);
    assert_eq!(token.delegate, COption::Some(raw(&delegate)));
    assert_eq!(token.delegated_amount, 100);
}

#[test]
fn token_builder_close_authority() {
    let mut ctx = TestContext::new();
    let pk = new_unique();
    let close_auth = new_unique();

    ctx.create_token_account()
        .pubkey(pk)
        .mint(new_unique())
        .token_owner(new_unique())
        .close_authority(Some(close_auth))
        .create()
        .unwrap();

    assert_eq!(token_at(&ctx, &pk).close_authority, COption::Some(raw(&close_auth)));
}

#[test]
fn token_builder_is_native() {
    let mut ctx = TestContext::new();
    let pk = new_unique();

    ctx.create_token_account()
        .pubkey(pk)
        .mint(new_unique())
        .token_owner(new_unique())
        .is_native(Some(1_000_000))
        .create()
        .unwrap();

    assert_eq!(token_at(&ctx, &pk).is_native, COption::Some(1_000_000));
}

#[test]
fn token_builder_has_rent_exempt_lamports() {
    let mut ctx = TestContext::new();
    let pk = new_unique();

    ctx.create_token_account().pubkey(pk).mint(new_unique()).token_owner(new_unique()).create().unwrap();

    let min_lamports = anchor_lang::prelude::Rent::default().minimum_balance(spl_token::state::Account::LEN);
    assert_eq!(
        held(&ctx, &pk).lamports,
        min_lamports,
        "token account should have rent-exempt lamports by default"
    );
}

#[test]
fn builder_rent_epoch() {
    let mut ctx = TestContext::new();
    let pk = new_unique();

    ctx.create_account().pubkey(pk).lamports(1).rent_epoch(42).create().unwrap();

    assert_eq!(held(&ctx, &pk).rent_epoch, 42);
}

#[test]
fn builder_lamports_override_on_mint() {
    let mut ctx = TestContext::new();
    let pk = new_unique();

    ctx.create_mint().pubkey(pk).lamports(999).create().unwrap();

    assert_eq!(held(&ctx, &pk).lamports, 999);
}

#[test]
fn generic_builder_overwrite_same_pubkey() {
    let mut ctx = TestContext::new();
    let pk = new_unique();

    ctx.create_account().pubkey(pk).lamports(100).data(&[1, 2, 3]).create().unwrap();
    assert_eq!(held(&ctx, &pk).data, vec![1, 2, 3]);

    ctx.create_account().pubkey(pk).lamports(200).data(&[4, 5]).create().unwrap();
    let acc2 = held(&ctx, &pk);
    assert_eq!(acc2.data, vec![4, 5]);
    assert_eq!(acc2.lamports, 200);
}

#[test]
fn mint_builder_zero_decimals() {
    let mut ctx = TestContext::new();
    let pk = new_unique();

    ctx.create_mint().pubkey(pk).decimals(0).create().unwrap();

    assert_eq!(mint_at(&ctx, &pk).decimals, 0);
}

#[test]
fn token_builder_max_amount() {
    let mut ctx = TestContext::new();
    let pk = new_unique();

    ctx.create_token_account()
        .pubkey(pk)
        .mint(new_unique())
        .token_owner(new_unique())
        .amount(u64::MAX)
        .create()
        .unwrap();

    assert_eq!(token_at(&ctx, &pk).amount, u64::MAX);
}

#[test]
fn token_builder_frozen_state() {
    let mut ctx = TestContext::new();
    let pk = new_unique();

    ctx.create_token_account()
        .pubkey(pk)
        .mint(new_unique())
        .token_owner(new_unique())
        .state(TokenState::Frozen)
        .create()
        .unwrap();

    assert_eq!(token_at(&ctx, &pk).state, spl_token::state::AccountState::Frozen);
}

#[test]
fn builder_chaining_order_independent() {
    let mut ctx = TestContext::new();
    let mint = new_unique();
    let owner = new_unique();
    let pk1 = new_unique();
    let pk2 = new_unique();

    ctx.create_token_account().mint(mint).pubkey(pk1).token_owner(owner).amount(42).create().unwrap();
    ctx.create_token_account().amount(42).token_owner(owner).pubkey(pk2).mint(mint).create().unwrap();

    let token1 = token_at(&ctx, &pk1);
    let token2 = token_at(&ctx, &pk2);

    assert_eq!(token1.mint, token2.mint);
    assert_eq!(token1.owner, token2.owner);
    assert_eq!(token1.amount, token2.amount);
}

#[test]
fn generic_builder_zero_length_data_with_lamports() {
    let mut ctx = TestContext::new();
    let pk = new_unique();

    ctx.create_account().pubkey(pk).lamports(1_000_000).size(0).create().unwrap();

    let acc = held(&ctx, &pk);
    assert_eq!(acc.lamports, 1_000_000);
    assert!(acc.data.is_empty());
}

#[test]
fn a_mint_of_another_size_is_refused() {
    let mut ctx = TestContext::new();
    let pk = new_unique();
    let err = ctx.create_mint().pubkey(pk).size(10).create().unwrap_err();
    assert_eq!(err.message(), "An account's data contents was invalid");
    assert!(!ctx.account_exists(&pk));
}

#[test]
fn test_program_builder_fee_payer() {
    let mut ctx = TestContext::new();
    let program_id = new_unique();
    let fee_payer = Keypair::new();
    let signer = Keypair::new();

    let builder = ctx.program(program_id).fee_payer(&fee_payer).signers(&[&signer]);
    assert_eq!(builder.fee_payer.unwrap().pubkey(), fee_payer.pubkey());

    let builder = ctx.program(program_id).signers(&[&signer]).fee_payer(&fee_payer);
    assert_eq!(builder.fee_payer.unwrap().pubkey(), fee_payer.pubkey());
}

#[test]
fn program_coverage_totals_empty_without_program() {
    let ctx = TestContext::new();
    assert!(ctx.get_program_coverage_totals().is_empty(), "fresh context should have no coverage totals");

    let cloned = ctx.clone();
    assert!(cloned.get_program_coverage_totals().is_empty(), "clone of fresh context should also be empty");
}

#[test]
fn analyze_program_coverage_returns_none_for_garbage() {
    let garbage = vec![0u8; 64];
    assert!(
        TestContext::analyze_program_coverage(&garbage).is_none(),
        "garbage bytes should not parse as valid SBF"
    );
}

#[test]
fn analyze_program_coverage_returns_none_for_empty() {
    assert!(TestContext::analyze_program_coverage(&[]).is_none(), "empty bytes should not parse as valid SBF");
}

#[test]
fn account_mutation_enabled_keeps_real_tx_outcome() {
    let mut state = harness();
    let _ = take_violation(&mut state.session);
    reset_probed_account_mutations(&mut state.cache);
    let mut ctx = TestContext::new();
    let payer = fund_keypair(&mut ctx);
    let recipient = Keypair::new().pubkey();
    ctx.svm.airdrop(&raw(&recipient), 1).unwrap();

    ctx.enable_account_mutation();

    let original_owner = held(&ctx, &recipient).owner;
    let before_balance = balance(&ctx, &recipient);
    let ix = transfer(&payer.pubkey(), &recipient, 1000);

    let outcome = ctx.raw_call(ix).signers(&[&payer]).send(&mut state).unwrap();

    assert!(outcome.is_success());
    assert_eq!(balance(&ctx, &recipient), before_balance + 1000);
    assert_eq!(held(&ctx, &recipient).owner, original_owner);
    assert!(!has_violation(&state.session));
}

#[test]
fn account_mutation_probe_runs_in_send_batch_path() {
    let mut state = harness();
    let mut ctx = TestContext::new();
    let payer = fund_keypair(&mut ctx);
    let recipient = Keypair::new().pubkey();
    ctx.svm.airdrop(&raw(&recipient), 1).unwrap();

    ctx.enable_account_mutation();

    let before_balance = balance(&ctx, &recipient);
    let ix = transfer(&payer.pubkey(), &recipient, 2000);

    ctx.pending_instructions.push(ix);
    ctx.pending_signers.push(payer);
    let outcome = ctx.send_batch(&mut state).unwrap().expect("batch should send");

    assert!(outcome.is_success());
    assert_eq!(balance(&ctx, &recipient), before_balance + 2000);
    assert!(!has_violation(&state.session));
    assert_eq!(state.cache.marks.len(), 1, "the probe ran");
}

#[test]
fn raw_call_with_signers_no_fee_payer() {
    let mut state = harness();
    let mut ctx = TestContext::new();
    let payer = fund_keypair(&mut ctx);
    let recipient = new_unique();

    let ix = transfer(&payer.pubkey(), &recipient, 1000);
    let result = ctx.raw_call(ix).signers(&[&payer]).send(&mut state);
    assert!(result.is_ok(), "raw_call with signers should succeed: {:?}", result.err());
    assert!(result.unwrap().is_success());
}

#[test]
fn raw_call_with_explicit_fee_payer() {
    let mut state = harness();
    let mut ctx = TestContext::new();
    let payer = fund_keypair(&mut ctx);
    let recipient = new_unique();

    let ix = transfer(&payer.pubkey(), &recipient, 1000);
    let result = ctx.raw_call(ix).fee_payer(&payer).send(&mut state);
    assert!(result.is_ok(), "raw_call with fee_payer should succeed: {:?}", result.err());
    assert!(result.unwrap().is_success());
}

#[test]
fn raw_call_fee_payer_prepended_to_signers() {
    let mut state = harness();
    let mut ctx = TestContext::new();
    let payer = fund_keypair(&mut ctx);
    let other_signer = fund_keypair(&mut ctx);
    let recipient = new_unique();

    let ix = transfer(&payer.pubkey(), &recipient, 1000);
    let result = ctx.raw_call(ix).fee_payer(&payer).signers(&[&other_signer]).send(&mut state);
    assert!(result.is_ok(), "fee_payer + signers should succeed: {:?}", result.err());
}

#[test]
fn raw_call_no_signers_no_fee_payer_errors() {
    let mut state = harness();
    let mut ctx = TestContext::new();
    let ix = transfer(&new_unique(), &new_unique(), 1000);
    let result = ctx.raw_call(ix).send(&mut state);
    assert!(result.is_err(), "should error with no signers");
    assert_eq!(result.unwrap_err().message(), "At least one signer required");
}

#[test]
fn raw_call_duplicate_fee_payer_signer_no_double_sign() {
    let mut state = harness();
    let mut ctx = TestContext::new();
    let payer = fund_keypair(&mut ctx);
    let recipient = new_unique();

    let ix = transfer(&payer.pubkey(), &recipient, 1000);
    let result = ctx.raw_call(ix).fee_payer(&payer).signers(&[&payer]).send(&mut state);
    assert!(result.is_ok(), "duplicate fee_payer/signer should not cause double-sign error: {:?}", result.err());
    assert!(result.unwrap().is_success());
}

#[test]
fn send_batch_with_signers() {
    let mut state = harness();
    let mut ctx = TestContext::new();
    let payer = fund_keypair(&mut ctx);
    let recipient = new_unique();

    let ix = transfer(&payer.pubkey(), &recipient, 2000);
    ctx.pending_instructions.push(ix);
    ctx.pending_signers.push(payer);
    let result = ctx.send_batch(&mut state);
    assert!(result.is_ok(), "send_batch should succeed: {:?}", result.err());
    let outcome = result.unwrap();
    assert!(outcome.is_some());
    assert!(outcome.unwrap().is_success());
    assert_eq!(balance(&ctx, &recipient), 2000);
    assert!(ctx.pending_instructions.is_empty());
    assert!(ctx.pending_signers.is_empty());
    assert_eq!(ctx.dirty_tracker.dirty_accounts(), &vec![payer.pubkey(), recipient]);
    assert_eq!(state.session.total_dispatched, 1);
    assert_eq!(state.session.total_succeeded, 1);
}

#[test]
fn an_empty_batch_and_a_batch_without_signers_send_nothing() {
    let mut state = harness();
    let mut ctx = TestContext::new();
    assert!(ctx.send_batch(&mut state).unwrap().is_none());
    ctx.pending_instructions.push(transfer(&new_unique(), &new_unique(), 1));
    let err = ctx.send_batch(&mut state).unwrap_err();
    assert_eq!(
        err.message(),
        "At least one signer required for send_batch. The first signer is the fee payer."
    );
    assert_eq!(ctx.pending_instructions.len(), 1);
    assert_eq!(state.session.total_dispatched, 0);
}

#[test]
fn sigverify_false_uses_dummy_signatures() {
    let mut state = harness();
    let mut ctx = TestContext::new();
    assert!(!ctx.sigverify, "default sigverify should be false");
    let payer = fund_keypair(&mut ctx);
    let recipient = new_unique();

    let ix = transfer(&payer.pubkey(), &recipient, 1000);
    let result = ctx.raw_call(ix).signers(&[&payer]).send(&mut state);
    assert!(result.is_ok());
    let outcome = result.unwrap();
    assert!(outcome.is_success());
    assert_eq!(outcome.signature(), &[0u8; 64]);
}

#[test]
fn sigverify_true_uses_real_signatures() {
    let mut state = harness();
    let mut ctx = TestContext::new();
    ctx.sigverify = true;
    ctx.svm = ctx.svm.with_sigverify(true);
    let payer = fund_keypair(&mut ctx);
    let recipient = new_unique();

    let ix = transfer(&payer.pubkey(), &recipient, 1000);
    let result = ctx.raw_call(ix).signers(&[&payer]).send(&mut state);
    assert!(result.is_ok(), "real signing should work: {:?}", result.err());
    let outcome = result.unwrap();
    assert!(outcome.is_success());
    assert_ne!(outcome.signature(), &[0u8; 64]);
}

#[test]
fn a_missing_signature_is_an_error() {
    let mut state = harness();
    let mut ctx = TestContext::new();
    ctx.sigverify = true;
    ctx.svm = ctx.svm.with_sigverify(true);
    let payer = fund_keypair(&mut ctx);
    let other = fund_keypair(&mut ctx);

    let ix = transfer(&other.pubkey(), &new_unique(), 1000);
    let err = ctx.raw_call(ix).signers(&[&payer]).send(&mut state).unwrap_err();
    assert_eq!(err.message(), "not enough signers");
    assert_eq!(state.session.total_dispatched, 0);
}

#[test]
fn multiple_transactions_with_dummy_signing() {
    let mut state = harness();
    let mut ctx = TestContext::new();
    let payer = fund_keypair(&mut ctx);
    let recipient = new_unique();

    for i in 0..5 {
        let ix = transfer(&payer.pubkey(), &recipient, 1000);
        let result = ctx.raw_call(ix).signers(&[&payer]).send(&mut state);
        assert!(result.is_ok(), "tx {} should succeed: {:?}", i, result.err());
        assert!(result.unwrap().is_success(), "tx {} should be successful", i);
    }

    assert_eq!(balance(&ctx, &recipient), 5000, "recipient should have 5000 lamports after 5 transfers");
}

#[test]
fn sysvar_snapshot_excludes_large_sysvars() {
    let ctx = TestContext::new();
    let snapshot = SvmSnapshot::take_all(&ctx.svm);

    let sysvar_pubkeys: Vec<_> = snapshot.sysvars.iter().map(|(pk, _)| *pk).collect();

    assert!(sysvar_pubkeys.contains(&clock_id()), "Clock should be in snapshot");

    assert!(
        !sysvar_pubkeys.contains(&slot_history_id()),
        "SlotHistory (131KB) should be excluded from snapshots"
    );
    assert!(
        !sysvar_pubkeys.contains(&slot_hashes_id()),
        "SlotHashes (20KB) should be excluded from snapshots"
    );
}

#[test]
fn advance_slots_records_target_slot() {
    let mut ctx = TestContext::new();
    ctx.advance_slots(500);
    assert_eq!(ctx.dirty_tracker.clock_target_slot, Some(500 + ctx.slot() - 500));
    assert!(ctx.dirty_tracker.is_clock_dirty());
}

#[test]
fn warp_to_slot_records_target_slot() {
    let mut ctx = TestContext::new();
    ctx.warp_to_slot(12345);
    assert_eq!(ctx.dirty_tracker.clock_target_slot, Some(12345));
    assert!(ctx.dirty_tracker.is_clock_dirty());
}

#[test]
fn dirty_tracker_clear_resets_clock_target() {
    let mut ctx = TestContext::new();
    ctx.advance_slots(100);
    assert!(ctx.dirty_tracker.clock_target_slot.is_some());
    ctx.dirty_tracker.clear();
    assert!(ctx.dirty_tracker.clock_target_slot.is_none());
    assert!(!ctx.dirty_tracker.is_clock_dirty());
}

#[test]
fn the_clock_can_be_read_and_moved() {
    let mut ctx = TestContext::new();
    assert_eq!(ctx.clock_slot(), Some(0));
    assert_eq!(ctx.following_slot(), Some(1));
    assert!(ctx.try_warp_to_slot(u64::MAX));
    assert_eq!(ctx.slot(), u64::MAX);
    assert_eq!(ctx.following_slot(), None);
    assert!(!ctx.try_advance_slots(1));
    assert!(ctx.try_advance_slots(0));
    assert!(ctx.try_warp_to_slot(7));
    assert!(ctx.try_advance_slots(3));
    assert_eq!(ctx.next_slot(), 11);
}

#[test]
fn reads_behind_a_tag_are_checked() {
    let mut ctx = TestContext::new();
    let pk = new_unique();
    let missing = new_unique();
    ctx.write_account(&pk, account(5, vec![1, 2, 3, 4, 5, 6, 7, 8, 9, 10, 11], new_unique())).unwrap();

    assert_eq!(ctx.read_account_with_discriminator(&pk, 9).unwrap(), vec![10, 11]);
    assert_eq!(
        ctx.read_account_with_discriminator(&pk, 12).unwrap_err().message(),
        "Account data too small for discriminator (need 12 bytes, got 11)"
    );
    assert_eq!(
        ctx.read_account_with_discriminator(&missing, 0).unwrap_err().message(),
        format!("Account not found: {}", raw(&missing))
    );
    assert_eq!(ctx.read_zero_copy_account(&pk, 2).unwrap(), vec![9, 10]);
    assert_eq!(
        ctx.read_zero_copy_account(&pk, 4).unwrap_err().message(),
        "Account data too small for zero-copy struct: got 11 bytes, need 12 bytes (discriminator: 8)"
    );
    ctx.write_zero_copy_account(&pk, &[70, 80]).unwrap();
    assert_eq!(ctx.read_account(&pk).unwrap().data, vec![1, 2, 3, 4, 5, 6, 7, 8, 70, 80, 11]);
    assert_eq!(
        ctx.write_zero_copy_account(&pk, &[0; 4]).unwrap_err().message(),
        "Account data too small for zero-copy struct: got 11 bytes, need 12 bytes"
    );
    ctx.update_account(&pk, |data: Vec<u8>| -> Vec<u8> { data.into_iter().rev().collect() }).unwrap();
    assert_eq!(ctx.read_account(&pk).unwrap().data[0], 11);
    ctx.replace_account_data(&pk, vec![5]).unwrap();
    assert_eq!(ctx.get_account(&pk).unwrap().data, vec![5]);
    assert!(ctx.account_has_data(&pk, 1));
    assert!(!ctx.account_has_data(&pk, 2));
    assert!(!ctx.account_has_data(&missing, 0));
}

#[test]
fn tokens_are_moved_and_made() {
    let mut state = harness();
    let mut ctx = TestContext::new();
    let authority = fund_keypair(&mut ctx);
    let mint = new_unique();
    let from = new_unique();
    let to = new_unique();
    ctx.create_mint().pubkey(mint).mint_authority(authority.pubkey()).create().unwrap();
    for k in [from, to] {
        ctx.create_token_account().pubkey(k).mint(mint).token_owner(authority.pubkey()).create().unwrap();
    }
    ctx.mint_to(&mut state, &mint, &from, 70, &authority).unwrap();
    assert_eq!(ctx.token_balance(&from), 70);
    ctx.transfer_tokens(&mut state, &from, &to, &authority, 25).unwrap();
    assert_eq!(ctx.token_balance(&from), 45);
    assert_eq!(ctx.token_balance(&to), 25);
    assert_eq!(ctx.token_balance(&mint), 0);
    ctx.transfer_tokens(&mut state, &from, &to, &authority, 1000).unwrap();
    assert_eq!(ctx.token_balance(&to), 25, "a transfer that fails is no error and moves nothing");
    assert_eq!(state.session.total_dispatched, 3);
    assert_eq!(state.session.total_succeeded, 2);
}

#[test]
fn calls_are_put_together_and_wait_for_a_batch() {
    let mut state = harness();
    let mut ctx = TestContext::new();
    let payer = fund_keypair(&mut ctx);
    let recipient = new_unique();
    let call = transfer(&payer.pubkey(), &recipient, 10);
    ctx.program(Pubkey::default())
        .call(call.data.clone())
        .accounts(call.accounts.clone())
        .remaining_accounts(vec![new_unique()])
        .signers(&[&payer])
        .add_transaction()
        .unwrap();
    ctx.raw_call(transfer(&payer.pubkey(), &recipient, 5)).signers(&[&payer]).add_transaction().unwrap();
    assert_eq!(ctx.pending_instructions.len(), 2);
    assert_eq!(ctx.pending_instructions[0].accounts.len(), 3);
    assert!(!ctx.pending_instructions[0].accounts[2].is_writable);
    assert_eq!(ctx.pending_signers.len(), 2);
    assert!(ctx.send_batch(&mut state).unwrap().unwrap().is_success());
    assert_eq!(balance(&ctx, &recipient), 15);

    let outcome = ctx
        .program(Pubkey::default())
        .call(call.data.clone())
        .accounts(call.accounts.clone())
        .signers(&[&payer])
        .send(&mut state)
        .unwrap();
    assert!(outcome.is_success());
    assert_eq!(balance(&ctx, &recipient), 25);
}

#[test]
fn a_compute_limit_stops_a_transaction() {
    let mut state = harness();
    let mut ctx = TestContext::new().with_compute_budget(1);
    let payer = Keypair::new();
    ctx.create_account().pubkey(payer.pubkey()).lamports(10_000_000_000).create().unwrap();
    let ix = transfer(&payer.pubkey(), &new_unique(), 10);
    let outcome = ctx.raw_call(ix).signers(&[&payer]).send(&mut state).unwrap();
    assert!(outcome.is_error());
    assert_eq!(outcome.error_code(), None);
    assert!(outcome.failure_report("Transaction failed", true).unwrap().starts_with("Transaction failed\nLogs:\n"));
}

#[test]
fn a_program_that_cannot_be_loaded_is_refused() {
    let mut ctx = TestContext::new();
    let id = new_unique();
    let err = ctx.add_program_from_bytes(&id, &[1, 2, 3]).unwrap_err();
    assert!(err.message().starts_with(&format!("failed to load program {}: ", raw(&id))));
    assert_eq!(ctx.programs_count(), 0);
    assert!(ctx.get_program_binary(&id).is_none());
    assert!(ctx.get_program_binaries().is_empty());
}

#[test]
fn marks_and_counts_are_kept() {
    let mut ctx = TestContext::new();
    let a = new_unique();
    let b = new_unique();
    ctx.enable_account_mutation().set_owner_mutation_skip_pdas(false).mark_owner_unverified(a);
    ctx.mark_owners_unverified(&[a, b]);
    assert!(ctx.account_mutation.is_enabled());
    assert!(!ctx.account_mutation.skip_pda_candidates());
    assert_eq!(ctx.account_mutation.unverified_accounts, vec![a, b]);
    ctx.disable_account_mutation();
    assert!(!ctx.account_mutation.is_enabled());

    let before = ctx.svm_account_count();
    ctx.create_account().pubkey(a).lamports(1).create().unwrap();
    assert_eq!(ctx.svm_account_count(), before + 1);
    assert!(ctx.account_exists(&a));
    ctx.take_snapshot();
    assert_eq!(ctx.tracked_accounts_count(), before + 1);
    let svm = TestContext::from_svm(ctx.into_svm()).into_svm();
    assert!(svm.get_account(&raw(&a)).is_some());
    assert_eq!(token_program_id(), key(spl_token::id()));
}

/// The token program, as the machine holds it.
fn token_elf() -> Vec<u8> {
    TestContext::new().svm.get_account(&spl_token::id()).unwrap().data
}

#[test]
fn a_program_is_loaded_and_analysed() {
    let elf = token_elf();
    let mut ctx = TestContext::new();
    let id = new_unique();
    ctx.add_program_from_bytes(&id, &elf).unwrap();
    assert_eq!(ctx.programs_count(), 1);
    assert_eq!(ctx.get_program_binary(&id), Some(elf.as_slice()));
    let held = held(&ctx, &id);
    assert!(held.executable);
    assert_eq!(held.data, elf);
    assert_eq!(key(held.owner), crucible_test_context::ids::loader_v2_id());

    let (edges, instructions) = TestContext::analyze_program_coverage(&elf).unwrap();
    assert!(edges > 0);
    assert_eq!(edges % 2, 0, "each conditional branch has two edges");
    assert!(instructions > 0);
    assert!(edges < 2 * instructions);
    assert!(instructions <= elf.len() / 8);
    let totals = ctx.get_program_coverage_totals();
    assert_eq!(totals.len(), 1);
    assert_eq!((totals[0].program_id, totals[0].edges, totals[0].instructions), (id, edges, instructions));
    let cloned = ctx.clone();
    assert_eq!(cloned.get_program_coverage_totals(), totals);

    ctx.add_program_from_bytes(&id, &elf).unwrap();
    assert_eq!(ctx.programs_count(), 2);
    assert_eq!(ctx.get_program_binaries().len(), 1);
    assert_eq!(ctx.get_program_coverage_totals().len(), 1);
}

#[test]
fn a_bare_machine_refuses_programs_and_transactions() {
    let elf = token_elf();
    let mut ctx = TestContext::from_svm(litesvm::LiteSVM::default());
    let id = new_unique();
    let err = ctx.add_program_from_bytes(&id, &elf).unwrap_err();
    assert_eq!(err.message(), format!("failed to load program {}: the machine has no clock sysvar", raw(&id)));
    assert_eq!(ctx.clock_slot(), None);
    assert!(!ctx.try_warp_to_slot(1));

    let mut state = harness();
    let payer = Keypair::new();
    ctx.write_account(&payer.pubkey(), account(1_000_000, vec![], Pubkey::default())).unwrap();
    let err = ctx.raw_call(transfer(&payer.pubkey(), &new_unique(), 1)).signers(&[&payer]).send(&mut state).unwrap_err();
    assert_eq!(err.message(), "the machine has no rent sysvar");
}

#[test]
fn a_restored_machine_is_the_one_that_was_kept() {
    let mut state = harness();
    let mut ctx = TestContext::new();
    let payer = fund_keypair(&mut ctx);
    let recipient = new_unique();
    ctx.take_snapshot();
    ctx.begin_iteration();
    let before = balance(&ctx, &payer.pubkey());
    ctx.raw_call(transfer(&payer.pubkey(), &recipient, 5)).signers(&[&payer]).send(&mut state).unwrap();
    ctx.advance_slots(9);
    assert_eq!(balance(&ctx, &recipient), 5);
    ctx.restore_snapshot();
    assert_eq!(balance(&ctx, &recipient), 0);
    assert_eq!(balance(&ctx, &payer.pubkey()), before);
    assert_eq!(ctx.slot(), 0);
}

#[test]
fn the_named_payer_pays_wherever_it_stands_among_the_signers() {
    let mut state = harness();
    let mut ctx = TestContext::new();
    let payer = fund_keypair(&mut ctx);
    let other = fund_keypair(&mut ctx);
    let recipient = new_unique();

    let ix = transfer(&other.pubkey(), &recipient, 2_000_000);
    let outcome = ctx.raw_call(ix).fee_payer(&payer).signers(&[&other, &payer]).send(&mut state).unwrap();
    assert!(outcome.is_success());
    assert_eq!(balance(&ctx, &other.pubkey()), 10_000_000_000 - 2_000_000);
    assert_eq!(balance(&ctx, &payer.pubkey()), 10_000_000_000 - 10_000);
    assert_eq!(ctx.dirty_tracker.dirty_accounts()[0], payer.pubkey());

    let kept: Vec<Pubkey> =
        put_payer_first(&vec![other, payer], &Some(payer)).iter().map(|k| k.pubkey()).collect();
    assert_eq!(kept, vec![payer.pubkey(), other.pubkey()]);
    assert_eq!(put_payer_first(&vec![other, payer], &None).len(), 2);
}

#[test]
fn a_clone_has_noted_nothing() {
    let mut ctx = TestContext::new();
    let k = new_unique();
    ctx.take_snapshot();
    ctx.write_account(&k, account(5_000_000, vec![1], new_unique())).unwrap();
    ctx.warp_to_slot(9);
    assert_eq!(ctx.dirty_tracker.dirty_count(), 1);
    let copy = ctx.clone();
    assert_eq!(copy.dirty_tracker.dirty_count(), 0);
    assert!(!copy.dirty_tracker.is_clock_dirty());
    assert_eq!(held(&copy, &k), held(&ctx, &k));
}

#[test]
fn writes_and_transactions_are_taken_back() {
    let mut state = harness();
    let mut ctx = TestContext::new();
    let payer = fund_keypair(&mut ctx);
    let kept = new_unique();
    let written = new_unique();
    let paid = new_unique();
    for k in [kept, written, paid] {
        ctx.write_account(&k, account(5_000_000, vec![7; 4], new_unique())).unwrap();
    }
    ctx.take_snapshot();
    ctx.begin_iteration();
    let all = [kept, written, paid, payer.pubkey(), rent_id(), clock_id(), token_program_id()];
    let before: Vec<_> = all.iter().map(|k| held(&ctx, k)).collect();

    ctx.write_account(&written, account(1, vec![1], new_unique())).unwrap();
    ctx.write_account(&written, account(2, vec![2; 9], new_unique())).unwrap();
    ctx.write_account(&paid, account(3, vec![], new_unique())).unwrap();
    let mut rent = ctx.read_account(&rent_id()).unwrap();
    rent.lamports += 1;
    ctx.write_account(&rent_id(), rent).unwrap();
    assert_ne!(held(&ctx, &rent_id()), before[4]);
    assert_eq!(ctx.restore_snapshot(), 3);
    assert_eq!(all.iter().map(|k| held(&ctx, k)).collect::<Vec<_>>(), before);

    ctx.begin_iteration();
    let fresh = new_unique();
    for ix in [transfer(&payer.pubkey(), &fresh, 3_000_000), transfer(&payer.pubkey(), &paid, 10)] {
        assert!(ctx.raw_call(ix).signers(&[&payer]).send(&mut state).unwrap().is_success());
    }
    ctx.warp_to_slot(77);
    ctx.write_account(&written, account(4, vec![4], new_unique())).unwrap();
    assert_eq!(balance(&ctx, &fresh), 3_000_000);
    assert_eq!(ctx.restore_snapshot(), 4);
    assert_eq!(all.iter().map(|k| held(&ctx, k)).collect::<Vec<_>>(), before);
    assert!(ctx.svm.get_account(&raw(&fresh)).is_none());
}

#[test]
fn without_a_snapshot_nothing_is_taken_back() {
    let mut ctx = TestContext::new();
    let k = new_unique();
    ctx.write_account(&k, account(5_000_000, vec![1], new_unique())).unwrap();
    assert_eq!(ctx.restore_snapshot(), 0);
    assert_eq!(held(&ctx, &k).data, vec![1]);
}

#[test]
fn a_machine_that_lost_a_program_takes_no_call_of_it() {
    let mut state = harness();
    let mut ctx = TestContext::new();
    let payer = fund_keypair(&mut ctx);
    let (a, b) = (new_unique(), new_unique());
    let call = transfer_call(&a, &b, &payer.pubkey(), 5);
    assert_eq!(call.program_id, token_program_id());
    assert_eq!(call.data, vec![3, 5, 0, 0, 0, 0, 0, 0, 0]);
    assert_eq!(mint_call(&a, &b, &payer.pubkey(), 1).data[0], 7);
    assert!(is_machine_ready(&ctx.svm, &[call.clone()], &payer.pubkey()));
    ctx.svm.set_account(raw(&token_program_id()), solana_account::Account::default()).unwrap();
    assert!(!is_machine_ready(&ctx.svm, &[call.clone()], &payer.pubkey()));
    let err = ctx.raw_call(call).signers(&[&payer]).send(&mut state).unwrap_err();
    assert_eq!(err.message(), "the machine cannot take the transaction");
    let other = transfer(&payer.pubkey(), &new_unique(), 2_000_000);
    assert!(ctx.raw_call(other).signers(&[&payer]).send(&mut state).unwrap().is_success());
}

#[test]
fn a_rent_that_cannot_be_reckoned_with_takes_no_transaction() {
    let mut state = harness();
    let mut ctx = TestContext::new();
    let payer = fund_keypair(&mut ctx);
    let mut rent: solana_sysvar::rent::Rent = ctx.svm.get_sysvar();
    rent.lamports_per_byte_year = u64::MAX;
    ctx.svm.set_sysvar(&rent);
    let ix = transfer(&payer.pubkey(), &new_unique(), 2_000_000);
    let err = ctx.raw_call(ix).signers(&[&payer]).send(&mut state).unwrap_err();
    assert_eq!(err.message(), "the machine cannot take the transaction");
    assert!(fits_rent(3480, 1_000) && !fits_rent(u64::MAX, 1));
}

#[test]
fn calls_of_a_loader_are_tried_before_they_are_sent() {
    let mut state = harness();
    let mut ctx = TestContext::new();
    let payer = fund_keypair(&mut ctx);
    let ix = Instruction {
        program_id: upgradeable_loader_id(),
        accounts: vec![AccountMeta { pubkey: payer.pubkey(), is_signer: true, is_writable: true }],
        data: vec![9, 0, 0, 0],
    };
    assert!(can_load(&[ix.clone()]));
    assert!(!can_load(&[transfer(&payer.pubkey(), &new_unique(), 1)]));
    let outcome = ctx.raw_call(ix).signers(&[&payer]).send(&mut state).unwrap();
    assert!(!outcome.is_success());
    assert_eq!(balance(&ctx, &payer.pubkey()), 10_000_000_000 - 5_000);
}

#[test]
fn a_new_machine_checks_no_signatures_and_repeats_transactions() {
    let mut state = harness();
    let mut ctx = TestContext::new();
    assert!(!ctx.svm.get_sigverify());
    let payer = fund_keypair(&mut ctx);
    let to = new_unique();
    for _ in 0..2 {
        let ix = transfer(&payer.pubkey(), &to, 2_000_000);
        assert!(ctx.raw_call(ix).signers(&[&payer]).send(&mut state).unwrap().is_success());
    }
    assert_eq!(balance(&ctx, &to), 4_000_000);
}

#[test]
fn the_next_account_pays_in_place_of_the_instructions_sysvar() {
    let mut state = harness();
    let mut ctx = TestContext::new();
    let k = fund_keypair(&mut ctx).pubkey();
    let payer = Keypair { key: instructions_id(), secret: [0; 32] };
    let ix = Instruction {
        program_id: Pubkey::default(),
        accounts: vec![AccountMeta { pubkey: k, is_signer: false, is_writable: false }],
        data: vec![],
    };
    let outcome = ctx.raw_call(ix).signers(&[&payer]).send(&mut state).unwrap();
    assert!(!outcome.is_success());
    assert_eq!(balance(&ctx, &k), 10_000_000_000 - 5_000);
}

#[test]
fn a_program_stands_among_the_first_accounts() {
    let mut state = harness();
    let mut ctx = TestContext::new();
    let payer = fund_keypair(&mut ctx);
    let send = |ctx: &mut TestContext, state: &mut HarnessState, more: usize| {
        let mut ix = transfer(&payer.pubkey(), &new_unique(), 2_000_000);
        for _ in 0..more {
            ix.accounts.push(AccountMeta { pubkey: new_unique(), is_signer: false, is_writable: true });
        }
        ctx.raw_call(ix).signers(&[&payer]).send(state)
    };
    assert!(send(&mut ctx, &mut state, 35).unwrap().is_success());
    assert_eq!(
        send(&mut ctx, &mut state, 36).unwrap_err().message(),
        "the machine cannot take the transaction"
    );
    let keys: Vec<Pubkey> = (0..40).map(|_| new_unique()).collect();
    let call = |at: usize| Instruction { program_id: keys[at], accounts: vec![], data: vec![] };
    assert!(are_programs_early(&[call(0), call(37)], &keys));
    assert!(!are_programs_early(&[call(0), call(38)], &keys));
}

#[test]
fn a_dear_rent_is_reckoned_with_where_it_can_be() {
    let mut state = harness();
    let mut ctx = TestContext::new();
    let payer = fund_keypair(&mut ctx);
    let mut rent: solana_sysvar::rent::Rent = ctx.svm.get_sysvar();
    rent.lamports_per_byte_year = 5_000_000_000;
    ctx.svm.set_sysvar(&rent);
    let ix = transfer(&payer.pubkey(), &new_unique(), 2_000_000);
    assert!(ctx.raw_call(ix).signers(&[&payer]).send(&mut state).unwrap().is_success());
    rent.lamports_per_byte_year = 100_000_000_000_000_000;
    ctx.svm.set_sysvar(&rent);
    let read = |writable: bool| Instruction {
        program_id: Pubkey::default(),
        accounts: vec![AccountMeta { pubkey: new_unique(), is_signer: false, is_writable: writable }],
        data: vec![],
    };
    assert!(is_machine_ready(&ctx.svm, &[read(false)], &payer.pubkey()), "nothing grows");
    assert!(!is_machine_ready(&ctx.svm, &[read(true)], &payer.pubkey()), "an account can grow");
}

#[test]
fn a_program_is_paid_and_kept() {
    let mut state = harness();
    let mut ctx = TestContext::new();
    let payer = fund_keypair(&mut ctx);
    let ix = transfer(&payer.pubkey(), &token_program_id(), 7);
    assert!(is_trial_needed(&ctx.svm, &[ix.clone()], &payer.pubkey()));
    assert!(!is_trial_needed(&ctx.svm, &[transfer(&payer.pubkey(), &new_unique(), 1)], &payer.pubkey()));
    let before = balance(&ctx, &token_program_id());
    assert!(ctx.raw_call(ix).signers(&[&payer]).send(&mut state).unwrap().is_success());
    assert_eq!(balance(&ctx, &token_program_id()), before + 7);
}

#[test]
fn the_code_of_programs_is_kept_first() {
    let ctx = TestContext::new();
    let code_at = new_unique();
    let code = account(1, [vec![3, 0, 0, 0], vec![0; 41], held(&ctx, &token_program_id()).data].concat(), upgradeable_loader_id());
    let mut program = account(1, [vec![2, 0, 0, 0], code_at.to_bytes().to_vec()].concat(), upgradeable_loader_id());
    program.executable = true;
    let at = new_unique();
    let copy = |a: &Account| Account {
        lamports: a.lamports,
        data: a.data.clone(),
        owner: a.owner,
        executable: a.executable,
        rent_epoch: a.rent_epoch,
    };
    assert!(can_keep(&ctx.svm, &vec![(at, copy(&program)), (new_unique(), account(1, vec![], at)), (code_at, copy(&code))]));
    assert!(!can_keep(&ctx.svm, &vec![(at, copy(&program))]), "its code is missing");
    assert!(can_keep(&ctx.svm, &vec![(new_unique(), account(1, vec![5], at))]));
    let mut gone = copy(&code);
    gone.data = vec![];
    let mut kept = TestContext::new();
    kept.write_account(&code_at, copy(&code)).unwrap();
    kept.write_account(&at, copy(&program)).unwrap();
    assert!(can_keep(&kept.svm, &vec![(at, copy(&program)), (code_at, copy(&gone))]), "the program comes before");
    assert!(!can_keep(&kept.svm, &vec![(code_at, gone), (at, program)]), "the program comes behind");
}

#[test]
fn a_machine_without_room_for_programs_takes_no_transaction() {
    let payer = Keypair::new();
    let builtin = transfer(&payer.pubkey(), &new_unique(), 1);
    let ix = transfer_call(&new_unique(), &new_unique(), &payer.pubkey(), 1);
    for (heap, depth, fits) in [(32_768, 9, true), (262_144, 5, true), (300_000, 5, false), (1, 5, false), (32_768, 10, false)] {
        let mut budget = solana_compute_budget::compute_budget::ComputeBudget::new_with_defaults(true, true);
        budget.heap_size = heap;
        budget.max_instruction_stack_depth = depth;
        let svm = litesvm::LiteSVM::new().with_compute_budget(budget);
        assert_eq!(is_machine_ready(&svm, &[ix.clone()], &payer.pubkey()), fits, "{} {}", heap, depth);
        assert!(is_machine_ready(&svm, &[builtin.clone()], &payer.pubkey()), "no program runs");
    }
}

#[test]
fn sysvars_are_taken_back() {
    let mut ctx = TestContext::new();
    ctx.take_snapshot();
    ctx.begin_iteration();
    let sysvars = [clock_id(), rent_id(), epoch_rewards_id(), last_restart_slot_id()];
    let before: Vec<_> = sysvars.iter().map(|k| held(&ctx, k)).collect();
    for k in &sysvars {
        let mut a = ctx.read_account(k).unwrap();
        a.lamports += 5;
        a.data[0] ^= 1;
        ctx.write_account(k, a).unwrap();
    }
    assert!(sysvars.iter().zip(&before).all(|(k, a)| held(&ctx, k) != *a));
    assert_eq!(ctx.restore_snapshot(), sysvars.len());
    assert_eq!(sysvars.iter().map(|k| held(&ctx, k)).collect::<Vec<_>>(), before);
}
