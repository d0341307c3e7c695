use crucible_test_context::actions::{format_action_oneline, parse_action_desc, ActionRecord};
use crucible_test_context::json::{format_json_value, insert_field, JsonNumber, JsonValue};
use crucible_test_context::paths::{find_file_name, join_path};
use crucible_test_context::replay::{
    finding_id_in_metadata, list_metadata_paths, load_expected_mutation_finding_id_from_metadata,
};
use crucible_test_context::session::{
    backfill_action_params, build_crash_metadata, clear_action_history, clear_current_violation, clear_iteration_state,
    clear_violation_tracking,
    format_action_sequence, format_all_actions_oneline, format_last_action_oneline, get_action_history,
    get_current_iteration, get_current_test_name, get_iteration_dispatch_count, get_violation_action_index,
    has_variant_succeeded, has_violation, increment_action_count, is_corpus_loading,
    expect_first_finding, expected_mutation_finding_id, mark_variant_succeeded,
    mutation_finding_id, mutation_finding_message,
    push_action_record, push_action_record_lite, record_mutation_violation, record_violation,
    reset_iteration_dispatch_count, set_corpus_loading, set_current_iteration, set_current_test_name,
    set_last_error_code, set_total_actions, set_violation_action_index, succeeded_variant_count, take_last_error_code,
    take_violation, violation_from_mutation, write_crash_metadata, write_crash_metadata_for_id,
    write_crash_metadata_with_actions, IntoActionSuccess, Session,
};

fn num(n: u64) -> JsonValue {
    JsonValue::Number(JsonNumber::Unsigned(n))
}

fn text(s: &str) -> JsonValue {
    JsonValue::Text(s.to_string())
}

fn obj(fields: Vec<(&str, JsonValue)>) -> JsonValue {
    let mut v = Vec::new();
    for (k, value) in fields {
        insert_field(&mut v, k.to_string(), value);
    }
    JsonValue::Object(v)
}

fn field<'a>(v: &'a JsonValue, key: &str) -> &'a JsonValue {
    match v {
        JsonValue::Object(fields) => &fields.iter().find(|f| f.key == key).unwrap().value,
        _ => panic!("no object"),
    }
}

#[test]
fn test_violation_tracking_basic() {
    let mut s = Session::new();
    let _ = take_violation(&mut s);

    assert!(!has_violation(&s));
    assert!(take_violation(&mut s).is_none());

    record_violation(&mut s, "test violation".to_string());

    assert!(has_violation(&s));

    let v = take_violation(&mut s);
    assert_eq!(v, Some("test violation".to_string()));
    assert!(!has_violation(&s));
    assert!(take_violation(&mut s).is_none());
}

#[test]
fn test_violation_only_records_first() {
    let mut s = Session::new();
    let _ = take_violation(&mut s);

    record_violation(&mut s, "first".to_string());
    record_violation(&mut s, "second".to_string());
    record_violation(&mut s, "third".to_string());

    let v = take_violation(&mut s);
    assert_eq!(v, Some("first".to_string()));
}

#[test]
fn test_action_history() {
    let mut s = Session::new();
    clear_action_history(&mut s);

    assert!(get_action_history(&s).is_empty());

    push_action_record(&mut s, "action_deposit", obj(vec![("amount", num(100))]), true);
    push_action_record(&mut s, "action_withdraw", obj(vec![("amount", num(50))]), false);

    let history = get_action_history(&s);
    assert_eq!(history.len(), 2);
    assert_eq!(history[0].name, "action_deposit");
    assert!(history[0].success);
    assert_eq!(history[0].error_code, None);
    assert_eq!(history[1].name, "action_withdraw");
    assert!(!history[1].success);
    assert_eq!(history[1].error_code, None);

    clear_action_history(&mut s);
    set_last_error_code(&mut s, Some(6051));
    push_action_record(&mut s, "action_borrow", obj(vec![]), false);
    let history = get_action_history(&s);
    assert_eq!(history[0].error_code, Some(6051));
    push_action_record(&mut s, "action_deposit", obj(vec![]), true);
    let history = get_action_history(&s);
    assert_eq!(history[1].error_code, None);

    clear_action_history(&mut s);
    assert!(get_action_history(&s).is_empty());
}

#[test]
fn test_violation_action_index() {
    let mut s = Session::new();
    clear_violation_tracking(&mut s);

    assert!(get_violation_action_index(&s).is_none());

    set_total_actions(&mut s, 5);
    set_violation_action_index(&mut s, 2);

    assert_eq!(get_violation_action_index(&s), Some(2));

    set_violation_action_index(&mut s, 3);
    assert_eq!(get_violation_action_index(&s), Some(2));

    clear_violation_tracking(&mut s);
    assert!(get_violation_action_index(&s).is_none());
}

#[test]
fn test_into_action_success_unit() {
    assert!(().into_success());
}

#[test]
fn test_into_action_success_result() {
    let ok: Result<(), &str> = Ok(());
    let err: Result<(), &str> = Err("error");

    assert!(ok.into_success());
    assert!(!err.into_success());
}

#[test]
fn test_into_action_success_bool() {
    assert!(true.into_success());
    assert!(!false.into_success());
}

#[test]
fn test_iteration_tracking() {
    let mut s = Session::new();
    set_current_iteration(&mut s, 42);
    assert_eq!(get_current_iteration(&s), 42);

    set_current_iteration(&mut s, 100);
    assert_eq!(get_current_iteration(&s), 100);
}

#[test]
fn test_test_name_tracking() {
    let mut s = Session::new();
    set_current_test_name(&mut s, "my_test");
    assert_eq!(get_current_test_name(&s), Some("my_test".to_string()));
}

#[test]
fn test_build_crash_metadata() {
    let mut s = Session::new();
    clear_action_history(&mut s);
    set_current_test_name(&mut s, "test_func");
    set_current_iteration(&mut s, 999);

    push_action_record(&mut s, "action_a", obj(vec![("x", num(1))]), true);

    let meta = build_crash_metadata(&s, Some(12345), 0);

    assert_eq!(meta.test_name, "test_func");
    assert_eq!(meta.iteration, 999);
    assert_eq!(meta.seed, Some(12345));
    assert_eq!(meta.actions.len(), 1);
    assert_eq!(meta.actions[0].name, "action_a");
    assert_eq!(meta.actions[0].error_code, None);
}

#[test]
fn test_format_json_value() {
    assert_eq!(format_json_value(&JsonValue::Null), "null");
    assert_eq!(format_json_value(&JsonValue::Bool(true)), "true");
    assert_eq!(format_json_value(&num(42)), "42");
    assert_eq!(format_json_value(&text("hello")), "\"hello\"");
    assert_eq!(format_json_value(&JsonValue::Array(vec![num(1), num(2), num(3)])), "[1, 2, 3]");
    assert_eq!(format_json_value(&obj(vec![("a", num(1))])), "{a: 1}");
}

#[test]
fn format_action_sequence_empty() {
    let s = Session::new();
    let out = format_action_sequence(&s);
    assert!(out.is_empty(), "expected empty for no history: {:?}", out);
}

#[test]
fn format_action_sequence_single_ok() {
    let mut s = Session::new();
    set_total_actions(&mut s, 1);
    push_action_record(&mut s, "action_deposit", obj(vec![("amount", num(500))]), true);

    let out = format_action_sequence(&s);
    assert!(out.contains("1 executed, 0 skipped"), "header: {out}");
    assert!(out.contains("action_deposit(amount=500) -> OK"), "body: {out}");
}

#[test]
fn format_action_sequence_single_fail() {
    let mut s = Session::new();
    set_total_actions(&mut s, 1);
    push_action_record(&mut s, "action_withdraw", obj(vec![]), false);

    let out = format_action_sequence(&s);
    assert!(out.contains("action_withdraw -> FAIL"), "body: {out}");
}

#[test]
fn format_action_sequence_multiple_params() {
    let mut s = Session::new();
    set_total_actions(&mut s, 3);
    push_action_record(&mut s, "action_deposit", obj(vec![("user", num(0)), ("amount", num(100))]), true);
    push_action_record(&mut s, "action_borrow", obj(vec![("user", num(1))]), true);
    push_action_record(&mut s, "action_repay", obj(vec![]), false);

    let out = format_action_sequence(&s);
    assert!(out.contains("3 executed, 0 skipped"), "header: {out}");
    assert!(out.contains("1. action_deposit("), "first: {out}");
    assert!(out.contains("2. action_borrow(user=1) -> OK"), "second: {out}");
    assert!(out.contains("3. action_repay -> FAIL"), "third: {out}");
}

#[test]
fn format_action_sequence_with_violation_marker() {
    let mut s = Session::new();
    set_total_actions(&mut s, 3);
    push_action_record(&mut s, "action_a", obj(vec![]), true);
    push_action_record(&mut s, "action_b", obj(vec![]), true);
    set_violation_action_index(&mut s, 1);

    let out = format_action_sequence(&s);
    assert!(out.contains("2 executed, 1 skipped"), "header: {out}");
    assert!(
        !out.contains("1. action_a")
            || !out.contains("[VIOLATION]")
            || out.contains("action_a -> OK\n")
            || !out.matches("[VIOLATION]").count() > 1,
        "violation should only be on action_b"
    );
    assert!(out.contains("action_b -> OK [VIOLATION]"), "violation marker: {out}");
    assert!(out.contains("1 action(s) not executed"), "skipped: {out}");
}

#[test]
fn format_action_sequence_skipped_actions() {
    let mut s = Session::new();
    set_total_actions(&mut s, 10);
    push_action_record(&mut s, "action_only", obj(vec![]), true);

    let out = format_action_sequence(&s);
    assert!(out.contains("1 executed, 9 skipped"), "header: {out}");
    assert!(out.contains("9 action(s) not executed"), "footer: {out}");
}

#[test]
fn format_action_sequence_no_params_no_parens() {
    let mut s = Session::new();
    set_total_actions(&mut s, 1);
    s.history.push(ActionRecord {
        name: "action_foo".to_string(),
        params: JsonValue::Null,
        success: true,
        error_code: None,
    });

    let out = format_action_sequence(&s);
    assert!(out.contains("action_foo -> OK"), "body: {out}");
    assert!(!out.contains("action_foo("), "should not have parens: {out}");
}

#[test]
fn format_last_action_oneline_empty() {
    let s = Session::new();
    let out = format_last_action_oneline(&s);
    assert!(out.is_empty());
}

#[test]
fn format_last_action_oneline_success_with_params() {
    let mut s = Session::new();
    push_action_record(&mut s, "action_deposit", obj(vec![("amount", num(42))]), true);

    let out = format_last_action_oneline(&s);
    assert_eq!(out, "action_deposit(amount=42) -> OK");
}

#[test]
fn format_last_action_oneline_fail_no_params() {
    let mut s = Session::new();
    push_action_record(&mut s, "action_withdraw", obj(vec![]), false);

    let out = format_last_action_oneline(&s);
    assert_eq!(out, "action_withdraw -> FAIL");
}

#[test]
fn format_last_action_oneline_returns_last() {
    let mut s = Session::new();
    push_action_record(&mut s, "action_first", obj(vec![]), true);
    push_action_record(&mut s, "action_second", obj(vec![("x", num(1))]), false);

    let out = format_last_action_oneline(&s);
    assert!(out.starts_with("action_second"), "should return last: {out}");
    assert!(out.contains("FAIL"), "last was failure: {out}");
}

#[test]
fn format_last_action_oneline_null_params() {
    let mut s = Session::new();
    s.history.push(ActionRecord {
        name: "action_lite".to_string(),
        params: JsonValue::Null,
        success: true,
        error_code: None,
    });

    let out = format_last_action_oneline(&s);
    assert_eq!(out, "action_lite -> OK");
}

#[test]
fn format_action_sequence_nested_params() {
    let mut s = Session::new();
    set_total_actions(&mut s, 1);
    push_action_record(
        &mut s,
        "action_complex",
        obj(vec![
            ("arr", JsonValue::Array(vec![num(1), num(2)])),
            ("flag", JsonValue::Bool(true)),
            ("label", text("hi")),
        ]),
        true,
    );

    let out = format_action_sequence(&s);
    assert!(out.contains("arr=[1, 2]"), "array param: {out}");
    assert!(out.contains("flag=true"), "bool param: {out}");
    assert!(out.contains("label=\"hi\""), "string param: {out}");
}

#[test]
fn into_action_success_unit() {
    assert!(().into_success());
}

#[test]
fn into_action_success_result_ok() {
    let r: Result<(), String> = Ok(());
    assert!(r.into_success());
}

#[test]
fn into_action_success_result_err() {
    let r: Result<(), &str> = Err("boom");
    assert!(!r.into_success());
}

#[test]
fn into_action_success_bool() {
    assert!(true.into_success());
    assert!(!false.into_success());
}

#[test]
fn action_history_push_and_clear() {
    let mut s = Session::new();
    clear_action_history(&mut s);
    push_action_record(&mut s, "a1", obj(vec![]), true);
    push_action_record(&mut s, "a2", obj(vec![("k", text("v"))]), false);
    let h = get_action_history(&s);
    assert_eq!(h.len(), 2);
    assert_eq!(h[0].name, "a1");
    assert!(h[0].success);
    assert_eq!(h[1].name, "a2");
    assert!(!h[1].success);

    clear_action_history(&mut s);
    assert!(get_action_history(&s).is_empty());
}

#[test]
fn backfill_action_params_updates_entry() {
    let mut s = Session::new();
    clear_action_history(&mut s);
    push_action_record_lite(&mut s, "action_x", true);
    let h = get_action_history(&s);
    assert_eq!(h[0].params, JsonValue::Null, "lite record should have null params");

    backfill_action_params(&mut s, 0, obj(vec![("filled", JsonValue::Bool(true))]));
    let h = get_action_history(&s);
    assert_eq!(field(&h[0].params, "filled"), &JsonValue::Bool(true));
}

#[test]
fn backfill_action_params_out_of_bounds_noop() {
    let mut s = Session::new();
    clear_action_history(&mut s);
    push_action_record_lite(&mut s, "a", true);
    backfill_action_params(&mut s, 99, obj(vec![("x", num(1))]));
    let h = get_action_history(&s);
    assert_eq!(h[0].params, JsonValue::Null, "original should be unchanged");
}

#[test]
fn violation_action_index_only_records_first() {
    let mut s = Session::new();
    clear_violation_tracking(&mut s);
    set_violation_action_index(&mut s, 3);
    set_violation_action_index(&mut s, 7);
    assert_eq!(get_violation_action_index(&s), Some(3));
}

#[test]
fn clear_violation_tracking_resets_all() {
    let mut s = Session::new();
    set_total_actions(&mut s, 10);
    set_violation_action_index(&mut s, 5);
    clear_violation_tracking(&mut s);

    assert_eq!(get_violation_action_index(&s), None);
    clear_action_history(&mut s);
    let out = format_action_sequence(&s);
    assert!(out.is_empty(), "should be empty after full clear");
}

#[test]
fn succeeded_variants_tracking() {
    let mut s = Session::new();
    assert!(!has_variant_succeeded(&s, 0));
    assert!(!has_variant_succeeded(&s, 1));
    assert_eq!(succeeded_variant_count(&s), 0);

    mark_variant_succeeded(&mut s, 0);
    assert!(has_variant_succeeded(&s, 0));
    assert!(!has_variant_succeeded(&s, 1));
    assert_eq!(succeeded_variant_count(&s), 1);

    mark_variant_succeeded(&mut s, 0);
    assert_eq!(succeeded_variant_count(&s), 1);

    mark_variant_succeeded(&mut s, 5);
    assert_eq!(succeeded_variant_count(&s), 2);
}

#[test]
fn dispatch_count_reset_and_increment() {
    let mut s = Session::new();
    reset_iteration_dispatch_count(&mut s);
    assert_eq!(get_iteration_dispatch_count(&s), 1);

    increment_action_count(&mut s);
    increment_action_count(&mut s);
    assert_eq!(get_iteration_dispatch_count(&s), 2);

    reset_iteration_dispatch_count(&mut s);
    assert_eq!(get_iteration_dispatch_count(&s), 1);
}

#[test]
fn build_crash_metadata_captures_tls() {
    let mut s = Session::new();
    set_current_test_name(&mut s, "crash_test");
    set_current_iteration(&mut s, 99);
    push_action_record(&mut s, "act_a", obj(vec![("p", num(1))]), true);
    push_action_record(&mut s, "act_b", obj(vec![]), false);

    let meta = build_crash_metadata(&s, Some(12345), 0);
    assert_eq!(meta.test_name, "crash_test");
    assert_eq!(meta.iteration, 99);
    assert_eq!(meta.seed, Some(12345));
    assert_eq!(meta.actions.len(), 2);
    assert_eq!(meta.actions[0].name, "act_a");
    assert!(meta.actions[0].success);
    assert_eq!(meta.actions[1].name, "act_b");
    assert!(!meta.actions[1].success);
}

#[test]
fn build_crash_metadata_no_test_name() {
    let s = Session::new();
    let meta = build_crash_metadata(&s, None, 0);
    assert_eq!(meta.test_name, "unknown");
    assert!(meta.seed.is_none());
}

#[test]
fn mutation_finding_flag_round_trips_through_crash_metadata() {
    let mut s = Session::new();
    let _ = take_violation(&mut s);
    record_violation(&mut s, "plain invariant".to_string());
    assert!(!build_crash_metadata(&s, None, 0).mutation_finding);

    let _ = take_violation(&mut s);
    record_mutation_violation(&mut s, "[CC-1 owner] ...".to_string(), "CC-1 owner:Program:disc".to_string());
    let meta = build_crash_metadata(&s, None, 0);
    assert!(meta.mutation_finding);
    assert_eq!(meta.mutation_finding_id.as_deref(), Some("CC-1 owner:Program:disc"));
    assert_eq!(meta.mutation_finding_message.as_deref(), Some("[CC-1 owner] ..."));

    let mut back = Session::new();
    let bytes = metadata_bytes("mutation_finding_id", meta.mutation_finding_id.unwrap().into());
    load_expected_mutation_finding_id_from_metadata(&mut back, &vec![None, Some(bytes)]);
    assert_eq!(expected_mutation_finding_id(&back).as_deref(), Some("CC-1 owner:Program:disc"));

    let _ = take_violation(&mut s);
    clear_iteration_state(&mut s);
    assert!(!violation_from_mutation(&s));
}

#[test]
fn format_action_sequence_violation_at_index_0() {
    let mut s = Session::new();
    set_total_actions(&mut s, 2);
    push_action_record(&mut s, "action_first", obj(vec![]), false);
    push_action_record(&mut s, "action_second", obj(vec![]), true);
    set_violation_action_index(&mut s, 0);

    let out = format_action_sequence(&s);
    assert!(out.contains("action_first -> FAIL [VIOLATION]"), "violation should be on first: {out}");
    assert!(!out.contains("action_second -> OK [VIOLATION]"), "second should not have marker: {out}");
}

#[test]
fn format_action_sequence_deeply_nested_params() {
    let mut s = Session::new();
    set_total_actions(&mut s, 1);
    push_action_record(
        &mut s,
        "action_nested",
        obj(vec![("a", obj(vec![("b", obj(vec![("c", num(1))]))]))]),
        true,
    );

    let out = format_action_sequence(&s);
    assert!(out.contains("a={"), "nested object: {out}");
    assert!(out.contains("c: 1"), "deeply nested value: {out}");
}

#[test]
fn format_action_sequence_total_0_with_actions() {
    let mut s = Session::new();
    push_action_record(&mut s, "orphan", obj(vec![]), true);

    let out = format_action_sequence(&s);
    assert!(out.contains("1 executed, 0 skipped"), "should handle mismatch: {out}");
}

#[test]
fn format_action_sequence_many_actions() {
    let mut s = Session::new();
    set_total_actions(&mut s, 50);
    for i in 0..50u64 {
        push_action_record(&mut s, &format!("action_{}", i), obj(vec![("i", num(i))]), i % 3 != 0);
    }

    let out = format_action_sequence(&s);
    assert!(out.contains("50 executed, 0 skipped"), "header: {out}");
    assert!(out.contains("1. action_0"), "first: {out}");
    assert!(out.contains("50. action_49"), "last: {out}");
}

#[test]
fn format_last_action_oneline_multiple_params_ordering() {
    let mut s = Session::new();
    push_action_record(&mut s, "action_multi", obj(vec![("amount", num(100)), ("user", num(2))]), true);
    let out = format_last_action_oneline(&s);
    assert!(out.contains("amount=100"), "amount: {out}");
    assert!(out.contains("user=2"), "user: {out}");
    assert!(out.contains("-> OK"), "status: {out}");
}

#[test]
fn action_record_includes_params_in_sequence() {
    let mut s = Session::new();
    set_total_actions(&mut s, 3);
    push_action_record(
        &mut s,
        "delegate_stake",
        obj(vec![
            ("authority", JsonValue::Null),
            ("stake_account", num(1340788527)),
            ("vote_account", num(640494879)),
        ]),
        true,
    );
    push_action_record(&mut s, "advance_slots", obj(vec![("slots", num(54177))]), true);
    push_action_record(
        &mut s,
        "withdraw",
        obj(vec![("stake_account", num(3)), ("lamports", num(1000)), ("leave_reserve", JsonValue::Bool(true))]),
        false,
    );

    let out = format_action_sequence(&s);
    assert!(out.contains("authority=null"), "authority param missing: {out}");
    assert!(out.contains("stake_account=1340788527"), "stake_account param missing: {out}");
    assert!(out.contains("vote_account=640494879"), "vote_account param missing: {out}");
    assert!(out.contains("slots=54177"), "slots param missing: {out}");
    assert!(out.contains("leave_reserve=true"), "leave_reserve param missing: {out}");
    assert!(out.contains("lamports=1000"), "lamports param missing: {out}");
    assert!(out.contains("delegate_stake(") && out.contains(") -> OK"), "delegate_stake format: {out}");
    assert!(out.contains("withdraw(") && out.contains(") -> FAIL"), "withdraw format: {out}");
}

#[test]
fn action_record_params_in_oneline() {
    let mut s = Session::new();
    push_action_record(
        &mut s,
        "move_lamports",
        obj(vec![("dest_account", num(42)), ("lamports", JsonValue::Null), ("stake_account", num(99))]),
        true,
    );

    let out = format_last_action_oneline(&s);
    assert!(out.contains("move_lamports("), "should have parens: {out}");
    assert!(out.contains("dest_account=42"), "dest_account: {out}");
    assert!(out.contains("lamports=null"), "lamports null: {out}");
    assert!(out.contains("stake_account=99"), "stake_account: {out}");
    assert!(out.contains("-> OK"), "status: {out}");
}

#[test]
fn action_record_lite_omits_params_regression() {
    let mut s = Session::new();
    set_total_actions(&mut s, 1);
    push_action_record_lite(&mut s, "delegate_stake", true);

    let out = format_action_sequence(&s);
    assert!(out.contains("delegate_stake -> OK"), "should have no params: {out}");
    assert!(!out.contains("delegate_stake("), "should not have parens: {out}");
}

#[test]
fn corpus_loading_flag_defaults_false() {
    assert!(!is_corpus_loading(&Session::new()));
}

#[test]
fn corpus_loading_flag_roundtrip() {
    let mut s = Session::new();
    set_corpus_loading(&mut s, true);
    assert!(is_corpus_loading(&s));
    set_corpus_loading(&mut s, false);
    assert!(!is_corpus_loading(&s));
}

#[test]
fn crash_files_are_named_by_the_hash() {
    let mut s = Session::new();
    set_current_test_name(&mut s, "my_test");
    set_current_iteration(&mut s, 42);
    push_action_record(&mut s, "action_a", obj(vec![("x", num(1))]), true);

    let files = write_crash_metadata(&s, "/crashes", None, 0xDEADBEEF, Some(999), 0);
    assert_eq!(files.input_path.as_deref(), Some("/crashes/crash_00000000deadbeef"));
    assert_eq!(files.meta_path, "/crashes/crash_00000000deadbeef.meta.json");
    assert_eq!(files.metadata.test_name, "my_test");
    assert_eq!(files.metadata.iteration, 42);
    assert_eq!(files.metadata.seed, Some(999));
    assert_eq!(files.metadata.actions.len(), 1);
    assert_eq!(files.metadata.timestamp, "1970-01-01T00:00:00Z");

    let files = write_crash_metadata(&s, "/crashes", Some("/meta"), 0x1234, None, 951_782_400);
    assert_eq!(files.input_path.as_deref(), Some("/crashes/crash_0000000000001234"));
    assert_eq!(files.meta_path, "/meta/crash_0000000000001234.meta.json");
    assert_eq!(files.metadata.seed, None);
    assert_eq!(files.metadata.timestamp, "2000-02-29T00:00:00Z");

    let files = write_crash_metadata_for_id(&s, "/crashes", "crash_abc", Some(55), 0);
    assert_eq!(files.input_path, None);
    assert_eq!(files.meta_path, "/crashes/crash_abc.meta.json");
    assert_eq!(files.metadata.seed, Some(55));

    let files = write_crash_metadata_with_actions(&s, "/crashes", None, 1, None, Some(vec![]), 0);
    assert!(files.metadata.actions.is_empty());
}

#[test]
fn the_error_code_is_taken_once() {
    let mut s = Session::new();
    set_last_error_code(&mut s, Some(7));
    assert_eq!(take_last_error_code(&mut s), Some(7));
    assert_eq!(take_last_error_code(&mut s), None);
}

#[test]
fn an_action_is_read_from_its_line() {
    let r = parse_action_desc("move(a=1, b=-2, c=true, d=null, e=x) -> FAIL");
    assert_eq!(r.name, "move");
    assert!(!r.success);
    assert_eq!(field(&r.params, "a"), &num(1));
    assert_eq!(field(&r.params, "b"), &JsonValue::Number(JsonNumber::Negative(-2)));
    assert_eq!(field(&r.params, "c"), &JsonValue::Bool(true));
    assert_eq!(field(&r.params, "d"), &JsonValue::Null);
    assert_eq!(field(&r.params, "e"), &text("x"));
    assert_eq!(parse_action_desc("plain -> OK").name, "plain");
    assert!(parse_action_desc("plain").success);
}

#[test]
fn a_line_gives_its_action_back() {
    let record = ActionRecord {
        name: "move".to_string(),
        params: obj(vec![("amount", num(100)), ("down", JsonValue::Number(JsonNumber::Negative(-5))), ("on", JsonValue::Bool(false)), ("to", JsonValue::Null)]),
        success: true,
        error_code: None,
    };
    assert_eq!(parse_action_desc(&format_action_oneline(&record)), record);
}

#[test]
fn all_actions_stand_one_in_each_line() {
    let mut s = Session::new();
    push_action_record(&mut s, "a", obj(vec![]), true);
    push_action_record(&mut s, "b", obj(vec![("x", num(1))]), false);
    assert_eq!(format_all_actions_oneline(&s), "a -> OK\nb(x=1) -> FAIL");
}

#[test]
fn a_line_with_a_comma_in_a_name_gives_its_action_back() {
    let record = ActionRecord {
        name: "move".to_string(),
        params: obj(vec![("a,b", num(1)), ("c,", num(2)), ("d", num(3))]),
        success: false,
        error_code: Some(6),
    };
    let back = parse_action_desc(&format_action_oneline(&record));
    assert_eq!(back, ActionRecord { error_code: None, ..record });
}

#[test]
fn a_finding_goes_with_its_violation() {
    let mut s = Session::new();
    record_mutation_violation(&mut s, "found".to_string(), "CC-1".to_string());
    assert_eq!(mutation_finding_id(&s).as_deref(), Some("CC-1"));
    assert_eq!(mutation_finding_message(&s).as_deref(), Some("found"));
    assert_eq!(take_violation(&mut s).as_deref(), Some("found"));
    assert_eq!(mutation_finding_id(&s).as_deref(), Some("CC-1"));
    assert_eq!(mutation_finding_message(&s).as_deref(), Some("found"));
    clear_current_violation(&mut s);
    assert!(mutation_finding_id(&s).is_none() && mutation_finding_message(&s).is_none());
    assert!(s.finding_id.is_none() && s.finding_message.is_none());
    record_violation(&mut s, "plain".to_string());
    assert!(mutation_finding_id(&s).is_none() && mutation_finding_message(&s).is_none());
}

fn metadata_bytes(key: &str, value: serde_json::Value) -> Vec<u8> {
    let mut map = serde_json::Map::new();
    map.insert("test_name".to_string(), serde_json::Value::from("fuzz"));
    map.insert(key.to_string(), value);
    serde_json::to_vec_pretty(&serde_json::Value::Object(map)).unwrap()
}

#[test]
fn a_finding_is_read_from_metadata() {
    let id = "mutation_finding_id";
    assert_eq!(finding_id_in_metadata(&metadata_bytes(id, "CC-1 \"a\"".into())).as_deref(), Some("CC-1 \"a\""));
    assert_eq!(finding_id_in_metadata(&metadata_bytes(id, 7.into())), None);
    assert_eq!(finding_id_in_metadata(&metadata_bytes(id, serde_json::Value::Null)), None);
    assert_eq!(finding_id_in_metadata(&metadata_bytes("other", "CC-1".into())), None);
    assert_eq!(finding_id_in_metadata(b"[\"mutation_finding_id\"]"), None);
    assert_eq!(finding_id_in_metadata(b"{\"mutation_finding_id\": \"CC-1\""), None);
    assert_eq!(finding_id_in_metadata(b""), None);
}

#[test]
fn a_replay_waits_for_the_first_finding_that_a_file_names() {
    let id = "mutation_finding_id";
    let mut s = Session::new();
    let files = vec![
        None,
        Some(b"no json".to_vec()),
        Some(metadata_bytes("other", "x".into())),
        Some(metadata_bytes(id, "first".into())),
        Some(metadata_bytes(id, "second".into())),
    ];
    load_expected_mutation_finding_id_from_metadata(&mut s, &files);
    assert_eq!(expected_mutation_finding_id(&s).as_deref(), Some("first"));
    load_expected_mutation_finding_id_from_metadata(&mut s, &vec![None]);
    assert_eq!(expected_mutation_finding_id(&s), None);
    expect_first_finding(&mut s, &vec![None, Some("b".to_string()), Some("c".to_string())]);
    assert_eq!(expected_mutation_finding_id(&s).as_deref(), Some("b"));
}

#[test]
fn metadata_are_looked_for_where_they_were_written() {
    let s = Session::new();
    for (dir, meta) in [("/crashes", Some("/meta")), ("crashes/", Some("m")), ("", Some("../m/x")), ("/c", None)] {
        let files = write_crash_metadata(&s, dir, meta, 0xBEEF, None, 0);
        let paths = list_metadata_paths(files.input_path.as_deref().unwrap(), meta);
        assert_eq!(paths[0], files.meta_path);
        assert_eq!(paths.len(), if meta.is_some() { 2 } else { 1 });
    }
    let files = write_crash_metadata(&s, "/c", Some("/meta/"), 0xBEEF, None, 0);
    assert_eq!(files.meta_path, "/meta//crash_000000000000beef.meta.json");
    assert_eq!(
        list_metadata_paths("/c/crash_000000000000beef", Some("/meta/")),
        vec!["/meta/crash_000000000000beef.meta.json", "/c/crash_000000000000beef.meta.json"]
    );
    assert_eq!(list_metadata_paths("/c/..", Some("/meta")), vec!["/c/...meta.json"]);
    let files = write_crash_metadata_for_id(&s, "/c", "own", None, 0);
    assert_eq!(list_metadata_paths("/c/own", Some("/meta")).last(), Some(&files.meta_path));
}

#[test]
fn names_and_joined_paths_are_those_of_std() {
    for path in [
        "", "/", ".", "..", "a", "a/", "a//", "./a", "a/.", "a/./", "a/..", "../a", "/a/b.c", "a/b/./.", "a b", "...", "a/...",
        ".a", "//a", "/.", "./.", "a/../b",
    ] {
        let want = std::path::Path::new(path).file_name().and_then(|n| n.to_str()).map(str::to_string);
        assert_eq!(find_file_name(path), want, "{}", path);
        let joined = std::path::Path::new(path).join("x.json");
        assert_eq!(join_path(path, "x.json"), joined.to_str().unwrap(), "{}", path);
    }
}

#[test]
fn a_parameter_of_minus_nothing_is_nothing() {
    let r = parse_action_desc("move(a=-0, b=-00, c=+0, d=-1) -> OK");
    assert_eq!(field(&r.params, "a"), &num(0));
    assert_eq!(field(&r.params, "b"), &num(0));
    assert_eq!(field(&r.params, "c"), &num(0));
    assert_eq!(field(&r.params, "d"), &JsonValue::Number(JsonNumber::Negative(-1)));
}
