use crucible_test_context::json::{insert_field, JsonField, JsonNumber, JsonValue};
use crucible_test_context::keyorder::{drop_repeats, key_less, sort_keys};
use crucible_test_context::keys::Keypair;
use crucible_test_context::mutation::classes::AccountClassIndex;
use crucible_test_context::mutation::effects::AccountMutationConfig;
use crucible_test_context::number::{parse_i64, parse_u32, parse_u64, parse_usize};
use crucible_test_context::order::{sort_distinct, sorted_keys};
use crucible_test_context::schema::TypeTags;
use crucible_test_context::send::dedupe_signers;
use crucible_test_context::svm::fits_message;
use crucible_test_context::text::{
    escape_json, push_dec, push_dec_int, push_hex_bytes, push_joined, replace_text, split_at_first, split_text,
    strip_end, trim_end,
};
use crucible_test_context::types::{AccountMeta, Instruction, Pubkey};
use litesvm::LiteSVM;
use std::collections::HashMap;

fn numbered(n: u16) -> Pubkey {
    let mut bytes = [0u8; 32];
    bytes[0] = (n >> 8) as u8;
    bytes[1] = n as u8;
    bytes[31] = 1;
    Pubkey::new_from_array(bytes)
}

fn call(keys: std::ops::Range<u16>, is_signer: bool, is_writable: bool) -> Instruction {
    Instruction {
        program_id: numbered(9999),
        accounts: keys.map(|n| AccountMeta { pubkey: numbered(n), is_signer, is_writable }).collect(),
        data: vec![1],
    }
}

#[test]
fn a_header_counts_up_to_255_signers_and_readers() {
    let payer = numbered(0);
    assert!(fits_message(&[call(1..255, true, true)], &payer));
    assert!(!fits_message(&[call(1..256, true, true)], &payer));
    // The program is read, too.
    assert!(fits_message(&[call(1..255, false, false)], &payer));
    assert!(!fits_message(&[call(1..256, false, false)], &payer));
    // An account is named by one byte.
    assert!(fits_message(&[call(1..255, false, true)], &payer));
    assert!(!fits_message(&[call(1..256, false, true)], &payer));
}

#[test]
fn signers_are_kept_once_in_their_order() {
    let (a, b) = (Keypair::from_secret([1; 32]), Keypair::from_secret([2; 32]));
    let again = Keypair::from_secret([1; 32]);
    let (ka, kb) = (a.pubkey(), b.pubkey());
    let kept: Vec<Pubkey> = dedupe_signers(&vec![a, b, again]).iter().map(|k| k.pubkey()).collect();
    assert_eq!(kept, vec![ka, kb]);
}

#[test]
fn classes_do_not_depend_on_the_order_of_observation() {
    let mut svm = LiteSVM::new();
    let owner = numbered(77);
    for n in 1..4u16 {
        svm.set_account(
            solana_pubkey::Pubkey::new_from_array(numbered(n).to_bytes()),
            solana_account::Account {
                lamports: 1_000_000_000,
                data: vec![n as u8 / 3; 16],
                owner: solana_pubkey::Pubkey::new_from_array(owner.to_bytes()),
                executable: false,
                rent_epoch: 0,
            },
        )
        .unwrap();
    }
    let tags = TypeTags { accounts: None, schemas: None, fallback: Some(8) };
    let mut config = AccountMutationConfig::default();
    config.set_skip_pda_candidates(false);
    let one = AccountClassIndex::build(&svm, &vec![numbered(1), numbered(2), numbered(3)], &config, &tags);
    let other =
        AccountClassIndex::build(&svm, &vec![numbered(3), numbered(2), numbered(1), numbered(2)], &config, &tags);
    for n in 1..4 {
        assert_eq!(one.class_count(&numbered(n)), other.class_count(&numbered(n)));
        assert_eq!(one.same_class_replacements(&numbered(n)), other.same_class_replacements(&numbered(n)));
    }
    assert_eq!(one.same_class_replacements(&numbered(1)), vec![numbered(2)]);
}

#[test]
fn numbers_are_read_back() {
    for n in [0u64, 7, 10, 4294967295, u64::MAX] {
        let mut s = String::new();
        push_dec(&mut s, n);
        assert_eq!(parse_u64(&s), Some(n));
    }
    for n in [i64::MIN, -1, 0, i64::MAX] {
        let mut s = String::new();
        push_dec_int(&mut s, n);
        assert_eq!(parse_i64(&s), Some(n));
    }
    assert_eq!(parse_u64("18446744073709551616"), None);
    assert_eq!(parse_u64(""), None);
    assert_eq!(parse_u64("+5"), Some(5));
    assert_eq!(parse_u64("-5"), None);
    assert_eq!(parse_u32("4294967296"), None);
    assert_eq!(parse_usize("12"), Some(12));
}

#[test]
fn texts_are_joined_split_and_cut() {
    let parts: Vec<String> = ["a: 1", "b: 2", ""].iter().map(|s| s.to_string()).collect();
    let mut joined = String::new();
    push_joined(&mut joined, &parts, ", ");
    assert_eq!(joined, "a: 1, b: 2, ");
    assert_eq!(split_text(&joined, ", "), parts);
    assert_eq!(split_at_first("a=b=c", '='), Some(("a".to_string(), "b=c".to_string())));
    assert_eq!(split_at_first("abc", '='), None);
    assert_eq!(trim_end("dir//", '/'), "dir");
    assert_eq!(strip_end("name(x)", ")"), Some("name(x".to_string()));
    assert_eq!(strip_end("name", ")"), None);
    assert_eq!(replace_text("a::b::c", "::", "_"), "a_b_c");
    assert_eq!(escape_json("a\"b\\\n\t"), "a\\\"b\\\\\\n\\t");
    let mut hex = String::new();
    push_hex_bytes(&mut hex, &[0, 15, 255]);
    assert_eq!(hex, "000fff");
}

#[test]
fn sorting_keeps_each_member_once() {
    let keys = vec![numbered(3), numbered(1), numbered(3), numbered(2)];
    assert_eq!(drop_repeats(&keys), vec![numbered(3), numbered(1), numbered(2)]);
    assert_eq!(sort_keys(&drop_repeats(&keys)), vec![numbered(1), numbered(2), numbered(3)]);
    assert!(key_less(&numbered(1), &numbered(2)) && !key_less(&numbered(2), &numbered(2)));
    assert_eq!(sort_distinct(&vec![5, 1, 9]), vec![1, 5, 9]);
    let hits: HashMap<usize, u64> = [(4, 1), (2, 7)].into_iter().collect();
    assert_eq!(sorted_keys(&hits), vec![2, 4]);
}

#[test]
fn fields_are_replaced_and_stay_in_order() {
    let mut fields: Vec<JsonField> = Vec::new();
    for (k, n) in [("b", 1u64), ("a", 2), ("b", 3)] {
        insert_field(&mut fields, k.to_string(), JsonValue::Number(JsonNumber::Unsigned(n)));
    }
    let shown: Vec<(String, bool)> = fields
        .iter()
        .map(|f| (f.key.clone(), matches!(f.value, JsonValue::Number(JsonNumber::Unsigned(3)))))
        .collect();
    assert_eq!(shown, vec![("a".to_string(), false), ("b".to_string(), true)]);
}

#[test]
fn a_message_counts_in_two_bytes() {
    let payer = numbered(0);
    let mut long = call(1..3, false, true);
    long.data = vec![0; 65_535];
    assert!(fits_message(&[long.clone()], &payer));
    long.data.push(0);
    assert!(!fits_message(&[long], &payer));
    let mut many: Vec<Instruction> = Vec::new();
    for _ in 0..65_535 {
        many.push(Instruction { program_id: numbered(9), accounts: Vec::new(), data: Vec::new() });
    }
    assert!(fits_message(&many, &payer));
    many.push(Instruction { program_id: numbered(9), accounts: Vec::new(), data: Vec::new() });
    assert!(!fits_message(&many, &payer));
}
