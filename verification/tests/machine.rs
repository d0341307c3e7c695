use crucible_test_context::account_builders::AccountBuilderBase;
use crucible_test_context::calendar::chrono_lite_timestamp;
use crucible_test_context::context::TestContext;
use crucible_test_context::debug::{
    compute_svm_debug_hash, hash_parts, list_debug_parts, list_found, try_svm_debug_hash, HashPart,
};
use crucible_test_context::ids;
use crucible_test_context::keys::{is_off_curve, Keypair};
use crucible_test_context::oracles::{decode_price_update, encode_price_update, default_pyth_receiver_id};
use crucible_test_context::sysvars::{poison_canonical_sysvar, read_clock};
use crucible_test_context::types::{Account, Pubkey};
use anchor_lang::solana_program::sysvar::SysvarId;
use solana_signer::Signer;

fn key(k: solana_pubkey::Pubkey) -> Pubkey {
    Pubkey::new_from_array(k.to_bytes())
}

fn new_unique() -> Pubkey {
    key(solana_pubkey::Pubkey::new_unique())
}

#[test]
fn addresses_are_those_of_the_cluster() {
    assert_eq!(ids::clock_id(), key(solana_clock::Clock::id()));
    assert_eq!(ids::slot_hashes_id(), key(solana_sysvar::slot_hashes::id()));
    assert_eq!(ids::slot_history_id(), key(solana_sysvar::slot_history::id()));
    assert_eq!(ids::epoch_schedule_id(), key(solana_sysvar::epoch_schedule::id()));
    assert_eq!(ids::epoch_rewards_id(), key(solana_sysvar::epoch_rewards::id()));
    assert_eq!(ids::last_restart_slot_id(), key(solana_sysvar::last_restart_slot::id()));
    assert_eq!(ids::rent_id(), key(solana_sysvar::rent::id()));
    assert_eq!(ids::token_program_id(), key(spl_token::id()));
    for (k, text) in [
        (ids::stake_history_id(), "SysvarStakeHistory1111111111111111111111111"),
        (ids::fees_id(), "SysvarFees111111111111111111111111111111111"),
        (ids::recent_blockhashes_id(), "SysvarRecentB1ockHashes11111111111111111111"),
        (ids::token_2022_program_id(), "TokenzQdBNbLqP5VEhdkAS6EPFicQfKkqPnx5xSvyJm"),
        (ids::upgradeable_loader_id(), "BPFLoaderUpgradeab1e11111111111111111111111"),
        (ids::instructions_id(), "Sysvar1nstructions1111111111111111111111111"),
        (ids::loader_v4_id(), "LoaderV411111111111111111111111111111111111"),
        (ids::loader_v2_id(), "BPFLoader2111111111111111111111111111111111"),
        (ids::loader_v1_id(), "BPFLoader1111111111111111111111111111111111"),
        (ids::native_loader_id(), "NativeLoader1111111111111111111111111111111"),
    ] {
        assert_eq!(k, key(solana_pubkey::Pubkey::from_str_const(text)), "{}", text);
    }
}

#[test]
fn key_pairs_have_their_address() {
    let pair = Keypair::from_secret([7; 32]);
    assert_eq!(pair.pubkey(), key(solana_keypair::Keypair::new_from_array([7; 32]).pubkey()));
    assert_ne!(Keypair::new().pubkey(), Keypair::new().pubkey());
    assert!(!is_off_curve(&pair.pubkey()));
    let (pda, _) = solana_pubkey::Pubkey::find_program_address(&[b"seed"], &spl_token::id());
    assert!(is_off_curve(&key(pda)));
}

#[test]
fn oracles_are_made_updated_and_refreshed() {
    let mut ctx = TestContext::new();
    let oracle = new_unique();
    let got = ctx
        .create_mock_pyth_oracle()
        .price(100_000_000)
        .exponent(-8)
        .confidence(50)
        .feed_id([3; 32])
        .build_at(oracle, 1_000)
        .unwrap();
    assert_eq!(got, oracle);
    let held = ctx.read_account(&oracle).unwrap();
    assert_eq!(held.owner, default_pyth_receiver_id());
    let u = decode_price_update(&held.data[8..]).unwrap();
    assert_eq!(u.price_message.price, 100_000_000);
    assert_eq!(u.price_message.exponent, -8);
    assert_eq!(u.price_message.conf, 50);
    assert_eq!(u.price_message.feed_id, [3; 32]);
    assert_eq!(u.price_message.publish_time, 1_000);
    assert_eq!(encode_price_update(&u), held.data);

    ctx.update_pyth_price(&oracle, 5, -2, 2_000).unwrap();
    let u = decode_price_update(&ctx.read_account(&oracle).unwrap().data[8..]).unwrap();
    assert_eq!((u.price_message.price, u.price_message.exponent, u.price_message.publish_time), (5, -2, 2_000));
    ctx.refresh_pyth_oracle(&oracle, 3_000).unwrap();
    let u = decode_price_update(&ctx.read_account(&oracle).unwrap().data[8..]).unwrap();
    assert_eq!((u.price_message.price, u.price_message.publish_time), (5, 3_000));
    assert!(ctx.update_pyth_price(&new_unique(), 1, 1, 1).is_err());
    assert!(decode_price_update(&[0; 8]).is_none());
}

#[test]
fn sysvars_are_poisoned() {
    let mut ctx = TestContext::new();
    let before = read_clock(&ctx.svm).unwrap();
    assert!(poison_canonical_sysvar(&mut ctx.svm, &ids::clock_id()));
    assert_ne!(read_clock(&ctx.svm).unwrap(), before);
    let rent: solana_sysvar::rent::Rent = ctx.svm.get_sysvar();
    assert!(poison_canonical_sysvar(&mut ctx.svm, &ids::rent_id()));
    let poisoned: solana_sysvar::rent::Rent = ctx.svm.get_sysvar();
    assert_ne!(rent, poisoned);
    assert!(!poison_canonical_sysvar(&mut ctx.svm, &new_unique()));
}

#[test]
fn the_debug_hash_follows_the_accounts() {
    let mut ctx = TestContext::new();
    let a = new_unique();
    let b = new_unique();
    ctx.create_account().pubkey(a).lamports(1).create().unwrap();
    let first = compute_svm_debug_hash(&ctx.svm, &[a, b]);
    assert_eq!(compute_svm_debug_hash(&ctx.svm, &[b, a]), first);
    assert_eq!(try_svm_debug_hash(&ctx.svm, &[a, b]), Some(first));
    ctx.create_account().pubkey(a).lamports(2).create().unwrap();
    let second = compute_svm_debug_hash(&ctx.svm, &[a, b]);
    assert_ne!(second, first);
    let mut held = ctx.read_account(&a).unwrap();
    held.data = vec![1, 2, 3];
    ctx.write_account(&a, held).unwrap();
    let third = compute_svm_debug_hash(&ctx.svm, &[a, b]);
    let mut held = ctx.read_account(&a).unwrap();
    held.data = vec![1, 2, 4];
    ctx.write_account(&a, held).unwrap();
    assert_ne!(compute_svm_debug_hash(&ctx.svm, &[a, b]), third, "the bytes count, not only their number");
}

#[test]
fn moments_are_written_as_dates() {
    assert_eq!(chrono_lite_timestamp(0), "1970-01-01T00:00:00Z");
    assert_eq!(chrono_lite_timestamp(951_827_696), "2000-02-29T12:34:56Z");
    assert_eq!(chrono_lite_timestamp(4_102_444_799), "2099-12-31T23:59:59Z");
}

#[test]
fn what_is_hashed_stands_in_one_order() {
    let owner = new_unique();
    let held = |lamports: u64, size: usize| Account { lamports, data: vec![1; size], owner, executable: false, rent_epoch: 0 };
    let parts = list_debug_parts(4, 2, &vec![held(9, 3), held(8, 5), held(9, 2)], &vec![30, 10, 20]);
    let words = [4u64, 2, 8, 5, 10, 9, 2, 20, 9, 3, 30];
    assert_eq!(parts.len(), words.len());
    for (i, (part, n)) in parts.iter().zip(words).enumerate() {
        match part {
            HashPart::Word(w) => assert!(*w == n && (i < 2 || i % 3 != 0), "{}", i),
            HashPart::Size(s) => assert!(*s as u64 == n && i >= 2 && i % 3 == 0, "{}", i),
        }
    }
    let turned = list_debug_parts(4, 2, &vec![held(9, 2), held(9, 3), held(8, 5)], &vec![20, 30, 10]);
    assert_eq!(hash_parts(&turned), hash_parts(&parts));
    assert_ne!(hash_parts(&parts), hash_parts(&Vec::new()));
    let other = list_debug_parts(4, 2, &vec![held(9, 3), held(8, 5), held(9, 2)], &vec![30, 11, 20]);
    assert_ne!(hash_parts(&other), hash_parts(&parts));
}

#[test]
fn only_accounts_that_there_are_are_found() {
    let mut ctx = TestContext::new();
    let (a, b, c) = (new_unique(), new_unique(), new_unique());
    ctx.create_account().pubkey(a).lamports(7).create().unwrap();
    ctx.create_account().pubkey(c).lamports(9).create().unwrap();
    let found = list_found(&ctx.svm, &[c, b, a]);
    assert_eq!(found.iter().map(|f| f.lamports).collect::<Vec<_>>(), vec![9, 7]);
}
