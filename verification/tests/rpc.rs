use crucible_test_context::context::TestContext;
use crucible_test_context::errors::ContextError;
use crucible_test_context::ids::upgradeable_loader_id;
use crucible_test_context::rpc::{
    accept_fetched, check_filters, check_program_accounts, extract_elf_bytes, fetch_chunks, is_program,
    is_upgradeable_program, parse_programdata_address, to_fetch, AccountCloner, CachedAccountMeta, Loading,
    DEFAULT_CACHE_DIR, DEFAULT_MAX_PROGRAM_ACCOUNTS,
};
use crucible_test_context::types::{Account, Pubkey};

fn new_unique() -> Pubkey {
    Pubkey::new_from_array(solana_pubkey::Pubkey::new_unique().to_bytes())
}

fn shown(k: &Pubkey) -> String {
    solana_pubkey::Pubkey::new_from_array(k.to_bytes()).to_string()
}

fn make_account(owner: Pubkey, lamports: u64, data: Vec<u8>, executable: bool) -> Account {
    Account { lamports, data, owner, executable, rent_epoch: 42 }
}

#[test]
fn cached_account_meta_roundtrip() {
    let owner = new_unique();
    let pubkey = new_unique();
    let data = vec![1, 2, 3, 4, 5];
    let account = make_account(owner, 999, data.clone(), true);

    let meta = CachedAccountMeta::from_account(&pubkey, &account);
    assert_eq!(meta.pubkey, shown(&pubkey));
    assert_eq!(meta.owner, shown(&owner));
    assert_eq!(meta.lamports, 999);
    assert!(meta.executable);
    assert_eq!(meta.rent_epoch, 42);
    assert_eq!(meta.data_len, 5);

    let restored = meta.to_account(data.clone()).unwrap();
    assert_eq!(restored.lamports, account.lamports);
    assert_eq!(restored.data, account.data);
    assert_eq!(restored.owner, account.owner);
    assert_eq!(restored.executable, account.executable);
    assert_eq!(restored.rent_epoch, account.rent_epoch);
}

#[test]
fn cached_account_meta_invalid_owner() {
    let meta = CachedAccountMeta {
        pubkey: shown(&new_unique()),
        owner: "not-a-pubkey".to_string(),
        lamports: 0,
        executable: false,
        rent_epoch: 0,
        data_len: 0,
    };
    assert!(meta.to_account(vec![]).is_err());
}

#[test]
fn parse_programdata_address_valid() {
    let expected_pk = new_unique();
    let mut data = vec![0u8; 36];
    data[0..4].copy_from_slice(&2u32.to_le_bytes());
    data[4..36].copy_from_slice(&expected_pk.bytes);

    let result = parse_programdata_address(&data).unwrap();
    assert_eq!(result, expected_pk);
}

#[test]
fn parse_programdata_address_extra_data_is_fine() {
    let expected_pk = new_unique();
    let mut data = vec![0u8; 100];
    data[4..36].copy_from_slice(&expected_pk.bytes);

    let result = parse_programdata_address(&data).unwrap();
    assert_eq!(result, expected_pk);
}

#[test]
fn parse_programdata_address_too_short() {
    assert!(parse_programdata_address(&[0u8; 35]).is_err());
    assert!(parse_programdata_address(&[]).is_err());
}

#[test]
fn extract_elf_bytes_valid() {
    let elf = b"ELF_PAYLOAD";
    let mut data = vec![0u8; 45 + elf.len()];
    data[45..].copy_from_slice(elf);

    let result = extract_elf_bytes(&data).unwrap();
    assert_eq!(result, elf);
}

#[test]
fn extract_elf_bytes_exact_header_returns_empty() {
    let data = vec![0u8; 45];
    let result = extract_elf_bytes(&data).unwrap();
    assert!(result.is_empty());
}

#[test]
fn extract_elf_bytes_too_short() {
    assert!(extract_elf_bytes(&[0u8; 44]).is_err());
    assert!(extract_elf_bytes(&[]).is_err());
}

#[test]
fn is_upgradeable_program_checks_owner_and_executable() {
    let upgradeable = make_account(upgradeable_loader_id(), 1, vec![], true);
    assert!(is_upgradeable_program(&upgradeable));

    let not_exec = make_account(upgradeable_loader_id(), 1, vec![], false);
    assert!(!is_upgradeable_program(&not_exec));

    let wrong_owner = make_account(new_unique(), 1, vec![], true);
    assert!(!is_upgradeable_program(&wrong_owner));
}

#[test]
fn is_program_checks_executable_flag() {
    let exec = make_account(new_unique(), 1, vec![], true);
    assert!(is_program(&exec));

    let not_exec = make_account(new_unique(), 1, vec![], false);
    assert!(!is_program(&not_exec));
}

#[test]
fn builder_defaults() {
    let mut ctx = TestContext::new();
    let cloner = AccountCloner::new(&mut ctx, "http://example.com");
    assert_eq!(cloner.cache_dir, DEFAULT_CACHE_DIR);
    assert!(!cloner.force_refresh);
    assert_eq!(cloner.max_program_accounts, DEFAULT_MAX_PROGRAM_ACCOUNTS);
    assert_eq!(cloner.rpc_url, "http://example.com");
}

#[test]
fn builder_overrides() {
    let mut ctx = TestContext::new();
    let cloner = AccountCloner::new(&mut ctx, "http://example.com")
        .cache_dir("/tmp/my-cache")
        .force_refresh()
        .max_program_accounts(50);
    assert_eq!(cloner.cache_dir, "/tmp/my-cache");
    assert!(cloner.force_refresh);
    assert_eq!(cloner.max_program_accounts, 50);
    assert!(cloner.accept_cached(Some(make_account(new_unique(), 1, vec![], false))).is_none());
}

#[test]
fn accounts_are_loaded_by_what_they_are() {
    let address = new_unique();
    let id = new_unique();
    let plain = new_unique();
    let elf = TestContext::new().svm.get_account(&spl_token::id()).unwrap().data;
    let mut data = vec![0u8; 36];
    data[0] = 2;
    data[4..36].copy_from_slice(&address.bytes);
    let program = make_account(upgradeable_loader_id(), 1, data, true);

    let mut ctx = TestContext::new();
    let mut cloner = AccountCloner::new(&mut ctx, "");
    assert!(cloner.accept_cached(Some(make_account(plain, 1, vec![], false))).is_some());
    assert!(matches!(cloner.load_account(&id, &program, None), Ok(Loading::NeedsData(k)) if k == address));
    let err = cloner.load_account(&id, &make_account(upgradeable_loader_id(), 1, vec![0; 35], true), None).unwrap_err();
    assert_eq!(err.message(), "Program account data too short (35 bytes) for BPF Upgradeable Loader");
    assert!(matches!(cloner.load_account(&plain, &make_account(address, 7, vec![1], false), None), Ok(Loading::Done)));
    let err = cloner.load_account(&id, &make_account(address, 7, vec![1], true), None).unwrap_err();
    assert!(matches!(err, ContextError::ProgramNotLoaded(k, _) if k == id));

    let short = make_account(upgradeable_loader_id(), 1, vec![0; 44], false);
    let err = cloner.load_upgradeable_program(&id, &program, &address, &short, None).unwrap_err();
    assert_eq!(err.message(), "ProgramData data too short (44 bytes)");
    assert!(!cloner.ctx.account_exists(&address));

    let mut bytes = vec![0u8; 45];
    bytes.extend_from_slice(&elf);
    let long = make_account(upgradeable_loader_id(), 1, bytes.clone(), false);
    cloner.load_upgradeable_program(&id, &program, &address, &long, None).unwrap();
    assert_eq!(ctx.read_account(&plain).unwrap().lamports, 7);
    assert_eq!(ctx.read_account(&address).unwrap().data, bytes);
    assert_eq!(ctx.read_account(&id).unwrap().owner, upgradeable_loader_id());
    assert_eq!(ctx.get_program_binary(&id), Some(elf.as_slice()));
}

#[test]
fn what_is_missing_is_fetched_in_chunks() {
    let cached = vec![None, Some(make_account(new_unique(), 1, vec![], false)), None];
    assert_eq!(to_fetch(&cached), vec![0, 2]);

    let all: Vec<usize> = (0..250).collect();
    let chunks = fetch_chunks(&all);
    assert_eq!(chunks.iter().map(|c| c.len()).collect::<Vec<_>>(), vec![100, 100, 50]);
    assert_eq!(chunks.concat(), all);
    assert_eq!(fetch_chunks(&(0..100).collect()).len(), 1);
    assert!(fetch_chunks(&vec![]).is_empty());

    let k = new_unique();
    let err = accept_fetched(&k, None).unwrap_err();
    assert_eq!(err.message(), format!("Account {} not found on RPC", shown(&k)));
    assert_eq!(accept_fetched(&k, Some(make_account(k, 3, vec![], false))).unwrap().lamports, 3);
}

#[test]
fn requests_for_program_accounts_are_limited() {
    assert!(check_filters(1).is_ok());
    assert!(matches!(check_filters(0), Err(ContextError::NoFilter)));
    assert!(check_program_accounts(10, 10).is_ok());
    assert_eq!(
        check_program_accounts(11, 10).unwrap_err().message(),
        "getProgramAccounts returned 11 accounts (max: 10). Add stricter filters or increase max with .max_program_accounts()."
    );
    assert!(check_filters(0).unwrap_err().message().starts_with("clone_program_accounts requires at least one filter."));
}

#[test]
fn another_program_is_loaded_in_place_of_one() {
    let mut ctx = TestContext::new();
    let elf = ctx.svm.get_account(&spl_token::id()).unwrap().data;
    let id = Pubkey::new_from_array([9; 32]);
    let address = Pubkey::new_from_array([8; 32]);
    let mut cloner = AccountCloner::new(&mut ctx, "url");
    let broken = make_account(address, 7, vec![1], true);
    assert!(cloner.load_account(&id, &broken, None).is_err());
    assert!(matches!(cloner.load_account(&id, &broken, Some(&elf)), Ok(Loading::Done)));
    assert_eq!(cloner.ctx.read_account(&id).unwrap().data, elf);
    let plain = Pubkey::new_from_array([7; 32]);
    assert!(cloner.load_account(&plain, &make_account(address, 7, vec![1], false), Some(&elf)).is_ok());
    assert_eq!(cloner.ctx.read_account(&plain).unwrap().data, vec![1]);
    let data = make_account(upgradeable_loader_id(), 7, vec![0; 50], false);
    let program = make_account(upgradeable_loader_id(), 7, vec![0; 36], true);
    assert!(cloner.load_upgradeable_program(&id, &program, &address, &data, None).is_err());
    assert!(cloner.load_upgradeable_program(&id, &program, &address, &data, Some(&elf)).is_ok());
}

#[test]
fn kept_accounts_are_named_by_their_address() {
    let mut ctx = TestContext::new();
    let cloner = AccountCloner::new(&mut ctx, "url").cache_dir("/kept");
    let (meta, data) = cloner.cache_files(&Pubkey::new_from_array(spl_token::id().to_bytes()));
    assert_eq!(meta, "/kept/TokenkegQfeZyiNwAJbNbGKPFXCWuBvf9Ss623VQ5DA.json");
    assert_eq!(data, "/kept/TokenkegQfeZyiNwAJbNbGKPFXCWuBvf9Ss623VQ5DA.bin");
}
