use crucible_test_context::ids::{clock_id, rent_id, token_program_id};
use crucible_test_context::keys::Keypair;
use crucible_test_context::mutation::accounts::{
    account_has_signer_meta, clear_signer, decoy_for, rewrite_account, signer_meta_pubkeys, token_decoy_for, wrong_owner,
};
use crucible_test_context::mutation::alias::{collect_window_pubkeys, find_shared_pubkey_offset};
use crucible_test_context::mutation::cache::{
    edge_trace_signature, mark_probe_state_seen, probe_edge_capture_begin, probe_edge_capture_take, probe_key,
    probe_state_already_seen, record_probe_edge, reset_probed_account_mutations, EdgeCapture, ProbeBaseKey, ProbeCache,
    DEFAULT_PROBE_CAP_PER_IX,
};
use crucible_test_context::mutation::classes::AccountClassIndex;
use crucible_test_context::mutation::effects::{
    baseline_has_non_fee_effect_between, data_corruption_variants, post_state_matches, AccountMutationConfig,
};
use crucible_test_context::mutation::findings::{
    disc_prefix_hex, finding_id, finding_instruction_id, select_finding, Finding,
};
use crucible_test_context::mutation::identity::{
    collect_owner_candidates, collect_pda_candidates, collect_sysvar_candidates, OwnerCandidate,
};
use crucible_test_context::mutation::probe::forwarded_accounts_from_baseline;
use crucible_test_context::mutation::refs::{
    bidirectional_replacement_preserves_relation, collect_bidirectional_ref_pairs, collect_field_ref_edges,
    collect_semantic_swap_candidates_for_accounts, data_contains_pubkey, BidirectionalRefPair, FieldRefEdge,
    SemanticSwapCandidate,
};
use crucible_test_context::mutation::signers::{
    signer_candidates, signer_probe_ignored_accounts, SignerCandidate, SignerCandidateKind,
};
use crucible_test_context::mutation::tokens::{
    collect_token_relation_candidates, collect_token_shape_candidates, TokenShapeCandidate, TokenShapeKind,
};
use crucible_test_context::outcome::InnerInstruction;
use crucible_test_context::schema::TypeTags;
use crucible_test_context::sysvars::poison_canonical_sysvar;
use crucible_test_context::token::{read_coption_tag, spl_authority_offsets};
use crucible_test_context::types::{Account, AccountMeta, Instruction, Pubkey};
use litesvm::LiteSVM;
use spl_token::solana_program::program_option::COption;
use spl_token::solana_program::program_pack::Pack;

type Key = solana_pubkey::Pubkey;

fn key(k: Key) -> Pubkey {
    Pubkey::new_from_array(k.to_bytes())
}

fn raw(k: &Pubkey) -> Key {
    Key::new_from_array(k.to_bytes())
}

fn new_unique() -> Pubkey {
    key(Key::new_unique())
}

fn on_curve_pubkey() -> Pubkey {
    Keypair::new().pubkey()
}

fn make_account(owner: Pubkey, data: Vec<u8>) -> Account {
    Account { lamports: 1_000_000, data, owner, executable: false, rent_epoch: 0 }
}

fn put(svm: &mut LiteSVM, k: Pubkey, a: Account) {
    svm.set_account(
        raw(&k),
        solana_account::Account {
            lamports: a.lamports,
            data: a.data,
            owner: raw(&a.owner),
            executable: a.executable,
            rent_epoch: a.rent_epoch,
        },
    )
    .unwrap();
}

fn new(pubkey: Pubkey, is_signer: bool) -> AccountMeta {
    AccountMeta { pubkey, is_signer, is_writable: true }
}

fn new_readonly(pubkey: Pubkey, is_signer: bool) -> AccountMeta {
    AccountMeta { pubkey, is_signer, is_writable: false }
}

fn ix(program_id: Pubkey, accounts: Vec<AccountMeta>) -> Instruction {
    Instruction { program_id, accounts, data: vec![] }
}

fn no_tags() -> TypeTags {
    TypeTags { accounts: None, schemas: None, fallback: None }
}

fn packed_mint_with(authority: COption<Key>, decimals: u8) -> Vec<u8> {
    let mut data = vec![0; spl_token::state::Mint::LEN];
    spl_token::state::Mint::pack(
        spl_token::state::Mint {
            mint_authority: authority,
            supply: 0,
            decimals,
            is_initialized: true,
            freeze_authority: COption::None,
        },
        &mut data,
    )
    .unwrap();
    data
}

fn packed_mint(decimals: u8) -> Vec<u8> {
    packed_mint_with(COption::None, decimals)
}

fn packed_token(mint: Pubkey, owner: Pubkey, amount: u64, delegate: COption<Key>) -> Vec<u8> {
    let mut data = vec![0; spl_token::state::Account::LEN];
    spl_token::state::Account::pack(
        spl_token::state::Account {
            mint: raw(&mint),
            owner: raw(&owner),
            amount,
            delegate,
            state: spl_token::state::AccountState::Initialized,
            is_native: COption::None,
            delegated_amount: 0,
            close_authority: COption::None,
        },
        &mut data,
    )
    .unwrap();
    data
}

fn packed_token_account(mint: Pubkey, owner: Pubkey, amount: u64) -> Vec<u8> {
    packed_token(mint, owner, amount, COption::None)
}

fn joined(parts: &[&[u8]]) -> Vec<u8> {
    parts.concat()
}

#[test]
fn probe_key_is_deterministic_and_pads_short_data() {
    let prog = new_unique();
    let a = Instruction { program_id: prog, accounts: vec![], data: vec![1, 2, 3] };
    let b = a.clone();
    assert_eq!(probe_key(None, &a), probe_key(None, &b));
    assert_eq!(probe_key(None, &a), ProbeBaseKey { program_id: prog, disc: [1, 2, 3, 0, 0, 0, 0, 0] });

    let long = Instruction { program_id: prog, accounts: vec![], data: vec![1, 2, 3, 4, 5, 6, 7, 8, 9, 10] };
    assert_eq!(probe_key(None, &long), ProbeBaseKey { program_id: prog, disc: [1, 2, 3, 4, 5, 6, 7, 8] });
}

#[test]
fn disc_prefix_hex_collapses_argument_tail_to_discriminator() {
    let swap_a = vec![0x09, 0x76, 0x15, 0x00, 0x00, 0x00, 0x00, 0x00];
    let swap_b = vec![0x09, 0x10, 0x99, 0xab, 0xcd, 0x00, 0x00, 0x00];
    assert_eq!(disc_prefix_hex(&swap_a, 1), "09");
    assert_eq!(disc_prefix_hex(&swap_a, 1), disc_prefix_hex(&swap_b, 1));
    let other = vec![0x0b, 0x76, 0x15, 0x00, 0x00, 0x00, 0x00, 0x00];
    assert_ne!(disc_prefix_hex(&swap_a, 1), disc_prefix_hex(&other, 1));
    assert_eq!(disc_prefix_hex(&swap_a, 8), "0976150000000000");
    assert_eq!(disc_prefix_hex(&[0x01, 0x02], 8), "0102");
}

#[test]
fn finding_id_keys_on_discriminator_role_not_arguments() {
    let prog = Key::new_unique();
    let role = "a3";
    let id_a = format!("CC-1 owner:{prog}:{}:{role}", disc_prefix_hex(&[9, 1, 2], 1));
    let id_b = format!("CC-1 owner:{prog}:{}:{role}", disc_prefix_hex(&[9, 9, 9], 1));
    assert_eq!(id_a, id_b, "argument tail must not fork the finding id");
    let id_other_role = format!("CC-1 owner:{prog}:{}:a4", disc_prefix_hex(&[9, 1, 2], 1));
    assert_ne!(id_a, id_other_role);
    assert_eq!(finding_instruction_id(&id_a), format!("account-mutation:{prog}:09"));
    let legacy = format!("CC-1 owner:{prog}:09");
    assert_eq!(finding_instruction_id(&legacy), format!("account-mutation:{prog}:09"));
}

#[test]
fn finding_id_is_put_together_from_class_program_tag_and_role() {
    let prog = Key::new_unique();
    let call = Instruction { program_id: key(prog), accounts: vec![], data: vec![9, 1, 2] };
    assert_eq!(finding_id("CC-1 owner", Some(1), &call, "a3"), format!("CC-1 owner:{prog}:09:a3"));
    let other = Instruction { program_id: key(prog), accounts: vec![], data: vec![9, 9, 9] };
    assert_eq!(finding_id("CC-1 owner", Some(1), &call, "a3"), finding_id("CC-1 owner", Some(1), &other, "a3"));
}

#[test]
fn read_coption_tag_reads_le_discriminant() {
    let mut data = vec![0u8; 8];
    assert_eq!(read_coption_tag(&data, 0), Some(0));
    data[0] = 1;
    assert_eq!(read_coption_tag(&data, 0), Some(1));
    assert_eq!(read_coption_tag(&data, 100), None);
}

#[test]
fn spl_authority_offsets_token_account_excludes_non_authority_windows() {
    let acct = make_account(token_program_id(), packed_token_account(new_unique(), on_curve_pubkey(), 5));
    let offsets = spl_authority_offsets(&acct).expect("SPL token account is a known layout");
    assert_eq!(offsets, vec![32], "only owner is an authority when delegate is None");
    assert!(!offsets.contains(&77), "offset 77 must never be a candidate authority field");
}

#[test]
fn spl_authority_offsets_includes_present_delegate() {
    let acct = make_account(
        token_program_id(),
        packed_token(new_unique(), on_curve_pubkey(), 1, COption::Some(Key::new_unique())),
    );
    let offsets = spl_authority_offsets(&acct).unwrap();
    assert!(offsets.contains(&32), "owner is always an authority");
    assert!(offsets.contains(&76), "a present delegate is a candidate authority");
}

#[test]
fn spl_authority_offsets_mint_includes_present_authorities_only() {
    let none_mint = make_account(token_program_id(), packed_mint(6));
    assert_eq!(spl_authority_offsets(&none_mint), Some(vec![]));

    let with_auth = make_account(token_program_id(), packed_mint_with(COption::Some(Key::new_unique()), 6));
    assert_eq!(
        spl_authority_offsets(&with_auth),
        Some(vec![4]),
        "only the present mint_authority @ 4 is a candidate"
    );
}

#[test]
fn cross_authority_scan_demotes_shared_empty_delegate_window() {
    let left = make_account(token_program_id(), packed_token_account(new_unique(), on_curve_pubkey(), 10_000));
    let right = make_account(token_program_id(), packed_token_account(new_unique(), on_curve_pubkey(), 5_000));
    let signers: Vec<Pubkey> = vec![];
    let tags = no_tags();

    let left_offsets = spl_authority_offsets(&left);
    let right_offsets = spl_authority_offsets(&right);
    let canonical_left = collect_window_pubkeys(&tags, &left, &left_offsets, &signers);
    assert_eq!(
        find_shared_pubkey_offset(&tags, &right, &right_offsets, &canonical_left),
        None,
        "owners differ, so there is no shared authority field"
    );

    let blanket_left = collect_window_pubkeys(&tags, &left, &None, &signers);
    let blanket = find_shared_pubkey_offset(&tags, &right, &None, &blanket_left);
    assert_eq!(
        blanket,
        Some(77),
        "the layout-blind scan matches the shared empty-delegate window at offset 77"
    );
}

#[test]
fn spl_authority_offsets_none_for_non_spl_account() {
    let acct = make_account(new_unique(), vec![7u8; 200]);
    assert_eq!(spl_authority_offsets(&acct), None);
    let wrong_owner = make_account(new_unique(), packed_token_account(new_unique(), on_curve_pubkey(), 1));
    assert_eq!(spl_authority_offsets(&wrong_owner), None);
}

#[test]
fn select_finding_prefers_value_ref_unless_replay_targets_exact_id() {
    let call = Instruction { program_id: new_unique(), accounts: vec![], data: vec![1, 2, 3, 4, 5, 6, 7, 8] };
    let field_id = finding_id("CC-7 field-ref", None, &call, "a0");
    let value_id = finding_id("CC-7 value-ref", None, &call, "a0");
    let findings = vec![
        Finding { id: field_id.clone(), message: "field".to_string() },
        Finding { id: value_id.clone(), message: "value".to_string() },
    ];

    assert_eq!(select_finding(&findings, None).unwrap().id, value_id);
    assert_eq!(select_finding(&findings, Some(&field_id)).unwrap().id, field_id);
    let legacy_instruction_id = finding_instruction_id(&field_id);
    assert_eq!(select_finding(&findings, Some(&legacy_instruction_id)).unwrap().id, field_id);
    assert!(select_finding(&findings, Some("missing")).is_none());
}

#[test]
fn replay_target_bypasses_probe_state_cache() {
    let mut cache = ProbeCache::new(DEFAULT_PROBE_CAP_PER_IX);
    reset_probed_account_mutations(&mut cache);
    let call = Instruction { program_id: new_unique(), accounts: vec![], data: vec![1, 2, 3, 4] };
    let base = probe_key(None, &call);
    let sig = 0u64;

    mark_probe_state_seen(&mut cache, base, sig, false);
    assert!(probe_state_already_seen(&cache, &base, sig, false));
    assert!(
        !probe_state_already_seen(&cache, &base, sig, true),
        "replay/tmin must keep probing repeated discriminators until the expected finding is hit"
    );

    reset_probed_account_mutations(&mut cache);
    mark_probe_state_seen(&mut cache, base, sig, true);
    assert!(
        !probe_state_already_seen(&cache, &base, sig, false),
        "replay/tmin attempts must not burn the normal fuzzing cache"
    );
}

fn captured(ids: &[u64]) -> Vec<u64> {
    let mut capture = EdgeCapture::new();
    probe_edge_capture_begin(&mut capture);
    for id in ids {
        record_probe_edge(&mut capture, *id);
    }
    probe_edge_capture_take(&mut capture).unwrap()
}

#[test]
fn edge_trace_signature_is_order_independent_and_path_sensitive() {
    assert_eq!(
        edge_trace_signature(&captured(&[1, 2, 3])),
        edge_trace_signature(&captured(&[3, 1, 2]))
    );
    assert_ne!(
        edge_trace_signature(&captured(&[1, 2, 3])),
        edge_trace_signature(&captured(&[1, 2, 9]))
    );
    assert_ne!(
        edge_trace_signature(&captured(&[1, 2, 3])),
        edge_trace_signature(&captured(&[1, 2, 3, 4]))
    );
}

#[test]
fn probe_edge_capture_records_only_while_active() {
    let mut capture = EdgeCapture::new();
    let _ = probe_edge_capture_take(&mut capture);
    record_probe_edge(&mut capture, 99);
    probe_edge_capture_begin(&mut capture);
    record_probe_edge(&mut capture, 1);
    record_probe_edge(&mut capture, 2);
    record_probe_edge(&mut capture, 1);
    let captured = probe_edge_capture_take(&mut capture).expect("active capture returns a set");
    assert_eq!(captured.len(), 2);
    assert!(captured.contains(&1) && captured.contains(&2));
    assert!(!captured.contains(&99), "edges before begin must not be captured");
    record_probe_edge(&mut capture, 3);
    assert!(probe_edge_capture_take(&mut capture).is_none(), "capture is disabled after take");
}

#[test]
fn forwarded_accounts_resolves_inner_indices_excluding_programs_and_sysvars() {
    let payer = new_unique();
    let forwarded = new_unique();
    let other = new_unique();
    let cpi_program = new_unique();
    let clock = clock_id();
    let system = Pubkey::default();

    let call = Instruction {
        program_id: new_unique(),
        accounts: vec![
            new(forwarded, false),
            new_readonly(other, false),
            new_readonly(cpi_program, false),
            new_readonly(clock, false),
            new_readonly(system, false),
        ],
        data: vec![1, 2, 3],
    };
    let real = solana_instruction::Instruction {
        program_id: raw(&call.program_id),
        accounts: call
            .accounts
            .iter()
            .map(|m| solana_instruction::AccountMeta {
                pubkey: raw(&m.pubkey),
                is_signer: m.is_signer,
                is_writable: m.is_writable,
            })
            .collect(),
        data: call.data.clone(),
    };
    let message = solana_message::legacy::Message::new(&[real], Some(&raw(&payer)));
    let idx = |k: &Pubkey| message.account_keys.iter().position(|x| *x == raw(k)).unwrap() as u8;

    let inner = vec![vec![InnerInstruction {
        program_id_index: idx(&cpi_program),
        accounts: vec![idx(&forwarded), idx(&clock), idx(&system)],
        data: vec![],
        stack_height: 2,
    }]];

    let instructions = vec![call];
    let result = forwarded_accounts_from_baseline(&inner, &instructions, &payer);
    assert!(result.contains(&forwarded), "forwarded account must be detected");
    assert!(!result.contains(&clock), "sysvar must be excluded");
    assert!(!result.contains(&system), "system program excluded");
    assert!(!result.contains(&cpi_program), "CPI target program id excluded");
    assert!(!result.contains(&other), "a non-forwarded top-level meta is not flagged");
    assert_eq!(result.len(), 1);
}

#[test]
fn distinct_states_reprobe_until_per_type_cap() {
    let mut cache = ProbeCache::new(DEFAULT_PROBE_CAP_PER_IX);
    reset_probed_account_mutations(&mut cache);
    let base = ProbeBaseKey { program_id: new_unique(), disc: [7u8; 8] };

    mark_probe_state_seen(&mut cache, base, 1, false);
    assert!(
        probe_state_already_seen(&cache, &base, 1, false),
        "the same instruction type in the same state must be skipped"
    );
    assert!(
        !probe_state_already_seen(&cache, &base, 2, false),
        "a materially different state (new signature) must be probed, not skipped"
    );

    for sig in 2..=(DEFAULT_PROBE_CAP_PER_IX as u64) {
        assert!(!probe_state_already_seen(&cache, &base, sig, false));
        mark_probe_state_seen(&mut cache, base, sig, false);
    }
    assert!(
        probe_state_already_seen(&cache, &base, 999, false),
        "a fresh state must be skipped once the per-type probe cap is exhausted"
    );
}

#[test]
fn collect_owner_candidates_keeps_data_accounts_including_writable() {
    let mut svm = LiteSVM::new();
    let config = AccountMutationConfig::default();
    let owner = new_unique();
    let program_id = new_unique();
    let keep = on_curve_pubkey();
    let writable = on_curve_pubkey();
    let empty = on_curve_pubkey();

    put(&mut svm, keep, make_account(owner, vec![1, 2, 3, 4, 5, 6, 7, 8, 9]));
    put(&mut svm, writable, make_account(owner, vec![1, 2, 3, 4, 5, 6, 7, 8, 9]));
    put(&mut svm, empty, make_account(owner, vec![]));

    let call = ix(
        program_id,
        vec![
            new_readonly(keep, false),
            new(writable, false),
            new_readonly(empty, false),
            new_readonly(clock_id(), false),
            new_readonly(program_id, false),
        ],
    );

    let found = collect_owner_candidates(&svm, &[call], &config);
    assert_eq!(
        found.candidates,
        vec![
            OwnerCandidate { pubkey: keep, original_owner: owner },
            OwnerCandidate { pubkey: writable, original_owner: owner },
        ]
    );
}

#[test]
fn collect_owner_candidates_keeps_account_writable_in_any_instruction() {
    let mut svm = LiteSVM::new();
    let config = AccountMutationConfig::default();
    let owner = new_unique();
    let program_id = new_unique();
    let acct = on_curve_pubkey();
    put(&mut svm, acct, make_account(owner, vec![9; 16]));

    let ix0 = ix(program_id, vec![new_readonly(acct, false)]);
    let ix1 = ix(program_id, vec![new(acct, false)]);

    assert_eq!(
        collect_owner_candidates(&svm, &[ix0, ix1], &config).candidates,
        vec![OwnerCandidate { pubkey: acct, original_owner: owner }]
    );
}

#[test]
fn collect_owner_candidates_skips_pdas_by_default_and_can_include() {
    let mut svm = LiteSVM::new();
    let program_id = Key::new_unique();
    let owner = new_unique();
    let (pda, _) = Key::find_program_address(&[b"vault"], &program_id);
    let pda = key(pda);
    put(&mut svm, pda, make_account(owner, vec![7; 16]));

    let call = ix(key(program_id), vec![new_readonly(pda, false)]);

    let mut config = AccountMutationConfig::default();
    assert!(collect_owner_candidates(&svm, std::slice::from_ref(&call), &config).candidates.is_empty());

    config.set_skip_pda_candidates(false);
    assert_eq!(
        collect_owner_candidates(&svm, &[call], &config).candidates,
        vec![OwnerCandidate { pubkey: pda, original_owner: owner }]
    );
}

#[test]
fn collect_pda_candidates_keeps_offcurve_accounts_even_without_data() {
    let mut svm = LiteSVM::new();
    let config = AccountMutationConfig::default();
    let program_id = Key::new_unique();
    let owner = new_unique();
    let pda = key(Key::find_program_address(&[b"vault"], &program_id).0);
    let empty_pda = key(Key::find_program_address(&[b"authority"], &program_id).0);
    let on_curve = on_curve_pubkey();
    put(&mut svm, pda, make_account(owner, vec![7; 16]));
    put(&mut svm, empty_pda, make_account(owner, vec![]));
    put(&mut svm, on_curve, make_account(owner, vec![7; 16]));

    let call = ix(
        key(program_id),
        vec![
            new_readonly(pda, false),
            new_readonly(empty_pda, false),
            new_readonly(on_curve, false),
            new_readonly(clock_id(), false),
        ],
    );
    assert_eq!(collect_pda_candidates(&svm, &[call], &config), vec![pda, empty_pda]);
}

#[test]
fn collect_token_shape_candidates_picks_initialized_mint_and_token_account() {
    let mut svm = LiteSVM::new();
    let program_id = new_unique();
    let mint = on_curve_pubkey();
    let token_account = on_curve_pubkey();
    let owner = on_curve_pubkey();
    let random_data = on_curve_pubkey();

    put(&mut svm, mint, make_account(token_program_id(), packed_mint(6)));
    put(&mut svm, token_account, make_account(token_program_id(), packed_token_account(mint, owner, 10)));
    put(&mut svm, random_data, make_account(token_program_id(), vec![1; 32]));

    let call = ix(
        program_id,
        vec![new_readonly(mint, false), new_readonly(token_account, false), new_readonly(random_data, false)],
    );

    assert_eq!(
        collect_token_shape_candidates(&svm, &[call]),
        vec![
            TokenShapeCandidate { pubkey: mint, owner: token_program_id(), kind: TokenShapeKind::Mint },
            TokenShapeCandidate { pubkey: token_account, owner: token_program_id(), kind: TokenShapeKind::Account },
        ]
    );
}

#[test]
fn collect_token_relation_candidates_requires_a_mint_account() {
    let mut svm = LiteSVM::new();
    let program_id = new_unique();
    let mint = on_curve_pubkey();
    let token_account = on_curve_pubkey();
    let owner = on_curve_pubkey();

    put(&mut svm, token_account, make_account(token_program_id(), packed_token_account(mint, owner, 10)));

    let token_only_ix = ix(program_id, vec![new_readonly(token_account, false)]);
    let (token_accounts, mints) = collect_token_relation_candidates(&svm, &[token_only_ix]);
    assert_eq!(token_accounts.len(), 1);
    assert!(mints.is_empty());

    put(&mut svm, mint, make_account(token_program_id(), packed_mint(6)));
    let paired_ix = ix(program_id, vec![new_readonly(token_account, false), new_readonly(mint, false)]);
    let (token_accounts, mints) = collect_token_relation_candidates(&svm, &[paired_ix]);
    assert_eq!(token_accounts.len(), 1);
    assert_eq!(token_accounts[0].pubkey, token_account);
    assert_eq!(token_accounts[0].token.amount, 10);
    assert_eq!(mints, vec![mint]);
}

#[test]
fn baseline_has_non_fee_effect_ignores_payer_only_changes() {
    let mut before = LiteSVM::new();
    let mut after = LiteSVM::new();
    let program_id = new_unique();
    let owner = new_unique();
    let payer = on_curve_pubkey();
    let target = on_curve_pubkey();

    put(&mut before, payer, make_account(owner, vec![1; 8]));
    put(&mut before, target, make_account(owner, vec![2; 8]));
    put(&mut after, payer, make_account(owner, vec![1; 8]));
    put(&mut after, target, make_account(owner, vec![2; 8]));

    let call = ix(program_id, vec![new(payer, true), new(target, false)]);
    assert!(!baseline_has_non_fee_effect_between(&before, &after, std::slice::from_ref(&call), payer));

    put(&mut after, payer, make_account(owner, vec![9; 8]));
    assert!(!baseline_has_non_fee_effect_between(&before, &after, std::slice::from_ref(&call), payer));

    put(&mut after, target, make_account(owner, vec![3; 8]));
    assert!(baseline_has_non_fee_effect_between(&before, &after, &[call], payer));
}

#[test]
fn baseline_has_non_fee_effect_detects_account_closure() {
    let mut before = LiteSVM::new();
    let after = LiteSVM::new();
    let program_id = new_unique();
    let owner = new_unique();
    let payer = on_curve_pubkey();
    let target = on_curve_pubkey();

    put(&mut before, target, make_account(owner, vec![2; 8]));
    let call = ix(program_id, vec![new(target, false)]);
    assert!(baseline_has_non_fee_effect_between(&before, &after, &[call], payer));
}

#[test]
fn token_account_amount_equality_is_not_required_for_wrong_mint_gate() {
    let mut before = LiteSVM::new();
    let mut after = LiteSVM::new();
    let program_id = new_unique();
    let mint = on_curve_pubkey();
    let owner = on_curve_pubkey();
    let payer = on_curve_pubkey();
    let token_account = on_curve_pubkey();
    let state = on_curve_pubkey();

    for svm in [&mut before, &mut after] {
        put(svm, token_account, make_account(token_program_id(), packed_token_account(mint, owner, 10)));
    }
    put(&mut after, state, make_account(owner, vec![3; 8]));
    put(&mut before, state, make_account(owner, vec![2; 8]));
    let call = ix(program_id, vec![new(token_account, false), new(state, false)]);

    assert!(baseline_has_non_fee_effect_between(&before, &after, &[call], payer));
}

#[test]
fn account_class_index_groups_same_shape_and_skips_singletons() {
    let mut svm = LiteSVM::new();
    let owner = new_unique();
    let same_a = on_curve_pubkey();
    let same_b = on_curve_pubkey();
    let singleton = on_curve_pubkey();
    let empty = on_curve_pubkey();

    put(&mut svm, same_a, make_account(owner, joined(&[&[0xAA; 8], &[1; 8]])));
    put(&mut svm, same_b, make_account(owner, joined(&[&[0xAA; 8], &[2; 8]])));
    put(&mut svm, singleton, make_account(owner, joined(&[&[0xBB; 8], &[3; 16]])));
    put(&mut svm, empty, make_account(owner, Vec::new()));

    let observed = vec![same_a, same_b, singleton, empty];
    let index = AccountClassIndex::build(&svm, &observed, &AccountMutationConfig::default(), &no_tags());

    assert_eq!(index.class_count(&same_a), 2);
    assert_eq!(index.class_count(&singleton), 1);
    assert_eq!(index.class_count(&empty), 0);
    assert_eq!(index.same_class_replacements(&same_a), vec![same_b]);
    assert!(index.same_class_replacements(&singleton).is_empty());
}

#[test]
fn collect_field_ref_edges_finds_pubkey_embedded_in_account_data() {
    let mut svm = LiteSVM::new();
    let program_id = new_unique();
    let owner = new_unique();
    let source = Pubkey::new_from_array([1; 32]);
    let target = Pubkey::new_from_array([2; 32]);
    let unrelated = Pubkey::new_from_array([3; 32]);

    put(&mut svm, source, make_account(owner, joined(&[&[9; 7], &target.bytes, &[8; 5]])));
    put(&mut svm, target, make_account(owner, vec![4; 16]));
    put(&mut svm, unrelated, make_account(owner, vec![5; 16]));

    let call = ix(
        program_id,
        vec![new_readonly(source, false), new_readonly(target, false), new_readonly(unrelated, false)],
    );

    assert_eq!(collect_field_ref_edges(&svm, &[call]), vec![FieldRefEdge { source, target }]);
}

#[test]
fn collect_field_ref_edges_skips_spl_token_accounts() {
    let mut svm = LiteSVM::new();
    let program_id = new_unique();
    let mint = on_curve_pubkey();
    let token_owner = on_curve_pubkey();
    let token_account = on_curve_pubkey();

    put(&mut svm, mint, make_account(token_program_id(), packed_mint(6)));
    put(&mut svm, token_owner, make_account(Pubkey::default(), vec![1; 8]));
    put(&mut svm, token_account, make_account(token_program_id(), packed_token_account(mint, token_owner, 10)));

    let call = ix(
        program_id,
        vec![new_readonly(token_account, false), new_readonly(mint, false), new_readonly(token_owner, false)],
    );

    assert!(collect_field_ref_edges(&svm, &[call]).is_empty());
}

#[test]
fn semantic_swap_candidates_require_same_class_with_different_embedded_keys() {
    let mut svm = LiteSVM::new();
    let program_id = new_unique();
    let owner = new_unique();
    let target = Pubkey::new_from_array([1; 32]);
    let replacement = Pubkey::new_from_array([2; 32]);
    let target_key = Pubkey::new_from_array([3; 32]);
    let replacement_key = Pubkey::new_from_array([4; 32]);

    put(&mut svm, target, make_account(owner, joined(&[&[0xAA; 8], &target_key.bytes, &1u64.to_le_bytes()])));
    put(
        &mut svm,
        replacement,
        make_account(owner, joined(&[&[0xAA; 8], &replacement_key.bytes, &1u64.to_le_bytes()])),
    );

    let observed = vec![target, replacement, target_key, replacement_key];
    let config = AccountMutationConfig::default();
    let index = AccountClassIndex::build(&svm, &observed, &config, &no_tags());
    let call = ix(program_id, vec![new_readonly(target, false)]);

    assert_eq!(
        collect_semantic_swap_candidates_for_accounts(&svm, &[call], &observed, &config, &index),
        vec![SemanticSwapCandidate {
            target,
            replacement,
            target_keys: vec![target_key],
            replacement_keys: vec![replacement_key],
        }]
    );
}

#[test]
fn semantic_swap_candidates_skip_singletons_current_accounts_and_accounts_without_keys() {
    let mut svm = LiteSVM::new();
    let program_id = new_unique();
    let owner = new_unique();
    let target = Pubkey::new_from_array([1; 32]);
    let replacement = Pubkey::new_from_array([2; 32]);
    let target_key = Pubkey::new_from_array([3; 32]);
    let replacement_key = Pubkey::new_from_array([4; 32]);
    let tags = no_tags();

    put(&mut svm, target, make_account(owner, joined(&[&[0xAA; 8], &target_key.bytes])));
    let observed_singleton = vec![target, target_key];
    let config = AccountMutationConfig::default();
    let singleton_index = AccountClassIndex::build(&svm, &observed_singleton, &config, &tags);
    let singleton_ix = ix(program_id, vec![new_readonly(target, false)]);
    assert!(collect_semantic_swap_candidates_for_accounts(
        &svm,
        &[singleton_ix],
        &observed_singleton,
        &config,
        &singleton_index,
    )
    .is_empty());

    put(&mut svm, replacement, make_account(owner, joined(&[&[0xAA; 8], &replacement_key.bytes])));
    let observed = vec![target, replacement, target_key, replacement_key];
    let index = AccountClassIndex::build(&svm, &observed, &config, &tags);
    let replacement_present_ix =
        ix(program_id, vec![new_readonly(target, false), new_readonly(replacement, false)]);
    assert!(collect_semantic_swap_candidates_for_accounts(
        &svm,
        &[replacement_present_ix],
        &observed,
        &config,
        &index,
    )
    .is_empty());

    let no_key_target = Pubkey::new_from_array([5; 32]);
    let no_key_replacement = Pubkey::new_from_array([6; 32]);
    put(&mut svm, no_key_target, make_account(owner, vec![0xBB; 48]));
    put(&mut svm, no_key_replacement, make_account(owner, vec![0xBB; 48]));
    let observed_no_keys = vec![no_key_target, no_key_replacement];
    let no_key_index = AccountClassIndex::build(&svm, &observed_no_keys, &config, &tags);
    let no_key_ix = ix(program_id, vec![new_readonly(no_key_target, false)]);
    assert!(collect_semantic_swap_candidates_for_accounts(
        &svm,
        &[no_key_ix],
        &observed_no_keys,
        &config,
        &no_key_index,
    )
    .is_empty());
}

#[test]
fn semantic_swap_candidates_skip_accounts_explained_by_field_refs() {
    let mut svm = LiteSVM::new();
    let program_id = new_unique();
    let owner = new_unique();
    let target = Pubkey::new_from_array([1; 32]);
    let replacement = Pubkey::new_from_array([2; 32]);
    let related = Pubkey::new_from_array([3; 32]);
    let replacement_key = Pubkey::new_from_array([4; 32]);

    put(&mut svm, target, make_account(owner, joined(&[&[0xAA; 8], &related.bytes])));
    put(&mut svm, replacement, make_account(owner, joined(&[&[0xAA; 8], &replacement_key.bytes])));
    put(&mut svm, related, make_account(owner, vec![0xBB; 16]));

    let observed = vec![target, replacement, related, replacement_key];
    let config = AccountMutationConfig::default();
    let index = AccountClassIndex::build(&svm, &observed, &config, &no_tags());
    let call = ix(program_id, vec![new_readonly(target, false), new_readonly(related, false)]);

    assert!(collect_semantic_swap_candidates_for_accounts(&svm, &[call], &observed, &config, &index).is_empty());
}

#[test]
fn collect_bidirectional_ref_pairs_finds_mutual_account_refs() {
    let mut svm = LiteSVM::new();
    let program_id = new_unique();
    let owner = new_unique();
    let left = Pubkey::new_from_array([1; 32]);
    let right = Pubkey::new_from_array([2; 32]);

    put(&mut svm, left, make_account(owner, joined(&[&[0xAA; 8], &right.bytes])));
    put(&mut svm, right, make_account(owner, joined(&[&[0xBB; 8], &left.bytes])));

    let call = ix(program_id, vec![new_readonly(left, false), new_readonly(right, false)]);

    assert_eq!(
        collect_bidirectional_ref_pairs(&svm, &[call]),
        vec![BidirectionalRefPair { left, right, root: None }]
    );
}

#[test]
fn collect_bidirectional_ref_pairs_ignores_one_way_refs() {
    let mut svm = LiteSVM::new();
    let program_id = new_unique();
    let owner = new_unique();
    let left = Pubkey::new_from_array([1; 32]);
    let right = Pubkey::new_from_array([2; 32]);

    put(&mut svm, left, make_account(owner, joined(&[&[0xAA; 8], &right.bytes])));
    put(&mut svm, right, make_account(owner, vec![0xBB; 16]));

    let call = ix(program_id, vec![new_readonly(left, false), new_readonly(right, false)]);

    assert!(collect_bidirectional_ref_pairs(&svm, &[call]).is_empty());
}

#[test]
fn collect_bidirectional_ref_pairs_finds_shared_root_refs_only_when_root_is_present() {
    let mut svm = LiteSVM::new();
    let program_id = new_unique();
    let owner = new_unique();
    let left = Pubkey::new_from_array([1; 32]);
    let right = Pubkey::new_from_array([2; 32]);
    let root = Pubkey::new_from_array([3; 32]);

    put(&mut svm, left, make_account(owner, joined(&[&[0xAA; 8], &root.bytes])));
    put(&mut svm, right, make_account(owner, joined(&[&[0xBB; 8], &root.bytes])));
    put(&mut svm, root, make_account(owner, vec![0xCC; 16]));

    let root_present_ix =
        ix(program_id, vec![new_readonly(left, false), new_readonly(right, false), new_readonly(root, false)]);
    assert_eq!(
        collect_bidirectional_ref_pairs(&svm, &[root_present_ix]),
        vec![BidirectionalRefPair { left, right, root: Some(root) }]
    );

    let root_absent_ix = ix(program_id, vec![new_readonly(left, false), new_readonly(right, false)]);
    assert!(collect_bidirectional_ref_pairs(&svm, &[root_absent_ix]).is_empty());
}

#[test]
fn bidirectional_replacement_preserves_only_unbroken_relations() {
    let mut svm = LiteSVM::new();
    let owner = new_unique();
    let left = Pubkey::new_from_array([1; 32]);
    let right = Pubkey::new_from_array([2; 32]);
    let replacement_valid = Pubkey::new_from_array([3; 32]);
    let replacement_wrong = Pubkey::new_from_array([4; 32]);

    put(&mut svm, right, make_account(owner, joined(&[&[0xAA; 8], &left.bytes, &replacement_valid.bytes])));
    put(&mut svm, replacement_valid, make_account(owner, joined(&[&[0xBB; 8], &right.bytes])));
    put(&mut svm, replacement_wrong, make_account(owner, vec![0xCC; 40]));

    let pair = BidirectionalRefPair { left, right, root: None };
    assert!(bidirectional_replacement_preserves_relation(&svm, &pair, right, replacement_valid));
    assert!(!bidirectional_replacement_preserves_relation(&svm, &pair, right, replacement_wrong));
}

#[test]
fn data_contains_pubkey_matches_exact_32_byte_window() {
    let target = Pubkey::new_from_array([7; 32]);
    let data = joined(&[&[1; 3], &target.bytes, &[2; 3]]);

    assert!(data_contains_pubkey(&data, &target));
    assert!(!data_contains_pubkey(&data, &Pubkey::new_from_array([8; 32])));
}

#[test]
fn post_state_matches_ignores_intentional_target_mutation_but_checks_effects() {
    let mut baseline = LiteSVM::new();
    let mut mutated = LiteSVM::new();
    let owner = new_unique();
    let program_id = new_unique();
    let target = on_curve_pubkey();
    let recipient = on_curve_pubkey();
    let payer = on_curve_pubkey();

    put(&mut baseline, target, make_account(owner, vec![1; 8]));
    put(&mut mutated, target, make_account(new_unique(), vec![9; 8]));
    put(&mut baseline, recipient, make_account(owner, vec![2; 8]));
    put(&mut mutated, recipient, make_account(owner, vec![2; 8]));

    let call = ix(program_id, vec![new_readonly(target, false), new(recipient, false)]);
    let calls = std::slice::from_ref(&call);

    assert!(post_state_matches(&baseline, &mutated, calls, calls, &[], &[target], payer));

    put(&mut mutated, recipient, make_account(owner, vec![3; 8]));
    assert!(!post_state_matches(&baseline, &mutated, calls, calls, &[], &[target], payer));
}

#[test]
fn post_state_matches_maps_substitution_decoy_to_baseline_target() {
    let mut baseline = LiteSVM::new();
    let mut mutated = LiteSVM::new();
    let owner = new_unique();
    let program_id = new_unique();
    let target = on_curve_pubkey();
    let decoy = on_curve_pubkey();
    let recipient = on_curve_pubkey();
    let payer = on_curve_pubkey();

    put(&mut baseline, target, make_account(owner, vec![1; 8]));
    put(&mut mutated, target, make_account(owner, vec![9; 8]));
    put(&mut mutated, decoy, make_account(owner, vec![1; 8]));
    put(&mut baseline, recipient, make_account(owner, vec![2; 8]));
    put(&mut mutated, recipient, make_account(owner, vec![2; 8]));

    let baseline_ix = ix(program_id, vec![new_readonly(target, false), new(recipient, false)]);
    let mutated_ix = ix(program_id, vec![new_readonly(decoy, false), new(recipient, false)]);

    assert!(post_state_matches(
        &baseline,
        &mutated,
        &[baseline_ix],
        &[mutated_ix],
        &[(target, decoy)],
        &[],
        payer,
    ));
}

#[test]
fn signer_probe_ignores_only_out_of_instruction_fee_payer() {
    let mut baseline = LiteSVM::new();
    let mut mutated = LiteSVM::new();
    let owner = new_unique();
    let program_id = new_unique();
    let payer = on_curve_pubkey();
    let account = on_curve_pubkey();

    put(&mut baseline, payer, make_account(owner, vec![1; 8]));
    put(&mut mutated, payer, make_account(owner, vec![1; 8]));
    let mut mutated_payer = mutated.get_account(&raw(&payer)).unwrap();
    mutated_payer.lamports -= 5_000;
    mutated.set_account(raw(&payer), mutated_payer).unwrap();

    put(&mut baseline, account, make_account(owner, vec![2; 8]));
    put(&mut mutated, account, make_account(owner, vec![2; 8]));

    let ix_without_payer = ix(program_id, vec![new(account, false)]);
    let calls = std::slice::from_ref(&ix_without_payer);
    let ignored = signer_probe_ignored_accounts(calls, calls, payer);
    assert_eq!(ignored, vec![payer]);
    assert!(post_state_matches(&baseline, &mutated, calls, calls, &[], &ignored, payer));

    let ix_with_payer = ix(program_id, vec![new(payer, false), new(account, false)]);
    let calls = std::slice::from_ref(&ix_with_payer);
    let ignored = signer_probe_ignored_accounts(calls, calls, payer);
    assert!(ignored.is_empty());
    assert!(!post_state_matches(&baseline, &mutated, calls, calls, &[], &ignored, payer));
}

#[test]
fn rewrite_account_repoints_only_target() {
    let program_id = new_unique();
    let target = new_unique();
    let other = new_unique();
    let decoy = new_unique();
    let call = ix(program_id, vec![new(target, false), new_readonly(other, true)]);
    let out = rewrite_account(std::slice::from_ref(&call), target, decoy);
    assert_eq!(out[0].accounts[0].pubkey, decoy);
    assert!(out[0].accounts[0].is_writable);
    assert_eq!(out[0].accounts[1].pubkey, other);
    assert!(out[0].accounts[1].is_signer);
}

#[test]
fn decoy_for_uses_alt_when_equal() {
    let decoy = Pubkey::new_from_array([0xDD; 32]);
    assert_eq!(decoy_for(new_unique()), decoy);
    assert_eq!(decoy_for(decoy), Pubkey::new_from_array([0xDE; 32]));
}

#[test]
fn token_decoy_is_on_curve_and_not_target() {
    let target = new_unique();
    let decoy = token_decoy_for(target);
    assert_ne!(decoy, target);
    assert!(solana_pubkey::bytes_are_curve_point(decoy.bytes));
}

#[test]
fn collect_sysvar_candidates_picks_sysvars_only() {
    let program_id = new_unique();
    let other = new_unique();
    let call = ix(
        program_id,
        vec![new_readonly(clock_id(), false), new_readonly(other, false), new_readonly(clock_id(), false)],
    );
    assert_eq!(collect_sysvar_candidates(&[call]), vec![clock_id()]);
}

#[test]
fn poison_canonical_sysvar_changes_supported_sysvar_data() {
    let mut svm = LiteSVM::new();
    let rent = raw(&rent_id());
    let before = svm.get_account(&rent).unwrap().data;

    assert!(poison_canonical_sysvar(&mut svm, &rent_id()));

    let after = svm.get_account(&rent).unwrap().data;
    assert_ne!(before, after);
    assert!(!poison_canonical_sysvar(&mut svm, &new_unique()));
}

#[test]
fn wrong_owner_uses_alt_when_already_attacker() {
    let attacker = Pubkey::new_from_array([0xCC; 32]);
    assert_eq!(wrong_owner(new_unique()), attacker);
    assert_eq!(wrong_owner(attacker), Pubkey::new_from_array([0xCD; 32]));
}

#[test]
fn signer_candidates_dedupes_across_instructions() {
    let program_id = new_unique();
    let a = new_unique();
    let b = new_unique();
    let non_signer = new_unique();
    let ix0 = ix(program_id, vec![new(a, true), new_readonly(non_signer, false)]);
    let ix1 = ix(program_id, vec![new_readonly(a, true), new(b, true)]);
    assert_eq!(
        signer_candidates(&[ix0, ix1], &vec![]),
        vec![
            SignerCandidate { pubkey: a, kind: SignerCandidateKind::MetaSigner },
            SignerCandidate { pubkey: b, kind: SignerCandidateKind::MetaSigner },
        ]
    );
}

#[test]
fn signer_meta_pubkeys_and_meta_lookup_use_instruction_flags_only() {
    let program_id = new_unique();
    let signer = new_unique();
    let non_signer = new_unique();
    let call = ix(program_id, vec![new_readonly(signer, true), new_readonly(non_signer, false)]);

    assert_eq!(signer_meta_pubkeys(std::slice::from_ref(&call)), vec![signer]);
    assert!(account_has_signer_meta(std::slice::from_ref(&call), signer));
    assert!(!account_has_signer_meta(&[call], non_signer));
}

#[test]
fn signer_candidates_includes_supplied_signer_present_as_non_signer_account() {
    let program_id = new_unique();
    let supplied = Keypair::new();
    let payer = Keypair::new();
    let call = ix(program_id, vec![new_readonly(supplied.pubkey(), false), new_readonly(new_unique(), false)]);

    assert_eq!(
        signer_candidates(&[call], &vec![payer, supplied]),
        vec![SignerCandidate { pubkey: supplied.pubkey(), kind: SignerCandidateKind::SuppliedSigner }]
    );
}

#[test]
fn clear_signer_clears_only_target_in_all_instructions() {
    let program_id = new_unique();
    let target = new_unique();
    let other = new_unique();
    let call = ix(program_id, vec![new(target, true), new(other, true)]);

    let flipped = clear_signer(std::slice::from_ref(&call), target);
    assert!(!flipped[0].accounts[0].is_signer);
    assert!(flipped[0].accounts[1].is_signer);
}

#[test]
fn data_corruption_variants_cover_anchor_body_prefix_and_full_data() {
    let data: Vec<u8> = (0..16).collect();
    let variants = data_corruption_variants(&data);

    assert!(
        variants.iter().any(|v| v[..8] == data[..8] && v[8..] != data[8..]),
        "should preserve 8-byte discriminator and corrupt body"
    );
    assert!(
        variants.iter().any(|v| v[..8] != data[..8] && v[8..] == data[8..]),
        "should corrupt prefix for native/pinocchio layouts"
    );
    assert!(
        variants.iter().any(|v| v[..8] != data[..8] && v[8..] != data[8..]),
        "should include full-data corruption for closed-source layouts"
    );
}

#[test]
fn a_recording_without_branches_gives_none() {
    let mut capture = EdgeCapture::new();
    probe_edge_capture_begin(&mut capture);
    assert!(probe_edge_capture_take(&mut capture).is_none());
    record_probe_edge(&mut capture, 5);
    assert!(probe_edge_capture_take(&mut capture).is_none(), "the recording ended");
}

#[test]
fn pairs_stand_in_order_and_once() {
    let mut svm = LiteSVM::new();
    let program_id = new_unique();
    let owner = new_unique();
    let keys: Vec<Pubkey> = (1..5u8).map(|n| Pubkey::new_from_array([n; 32])).collect();
    put(&mut svm, keys[0], make_account(owner, joined(&[&[0xAA; 8], &keys[3].bytes])));
    put(&mut svm, keys[3], make_account(owner, joined(&[&[0xAA; 8], &keys[0].bytes])));
    put(&mut svm, keys[1], make_account(owner, joined(&[&[0xBB; 8], &keys[2].bytes, &keys[2].bytes])));
    put(&mut svm, keys[2], make_account(owner, joined(&[&[0xBB; 8], &keys[1].bytes])));
    let call = ix(program_id, keys.iter().rev().map(|k| new_readonly(*k, false)).collect());
    assert_eq!(
        collect_bidirectional_ref_pairs(&svm, &[call.clone(), call]),
        vec![
            BidirectionalRefPair { left: keys[0], right: keys[3], root: None },
            BidirectionalRefPair { left: keys[1], right: keys[2], root: None },
        ]
    );
}
