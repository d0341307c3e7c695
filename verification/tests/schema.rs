use crucible_test_context::discriminators::{
    get_registered_discriminators, instruction_discriminator_len, lookup_instruction_by_discriminator,
    register_instruction_discriminators, InstructionRegistry,
};
use crucible_test_context::schema::{
    has_schemas, lookup_diff_fn, lookup_discriminator_len, lookup_type_name, match_len, register_account_discriminators,
    register_account_schemas, registered_discriminator, AccountSchema, SchemaRegistry,
};

#[test]
fn test_lookup_no_registry() {
    let registry: SchemaRegistry<u8> = SchemaRegistry::new(None);
    let result = lookup_diff_fn(&registry, &[0u8; 16]);
    assert!(result.is_none());
}

#[test]
fn discriminator_len_is_framework_agnostic() {
    let native: Vec<u8> = vec![1, 0, 0, 0];
    let anchor: Vec<u8> = vec![9, 8, 7, 6, 5, 4, 3, 2];
    let discs = vec![native.clone(), anchor.clone()];

    let mut native_data = native.clone();
    native_data.extend_from_slice(&[0xAB; 12]);
    assert_eq!(match_len(&discs, &native_data), Some(4));

    let mut anchor_data = anchor.clone();
    anchor_data.extend_from_slice(&[0xCD; 20]);
    assert_eq!(match_len(&discs, &anchor_data), Some(8));

    assert_eq!(match_len(&discs, &[0xFF; 16]), None);
    assert_eq!(match_len(&discs, &[1, 0]), None);
}

#[test]
fn discriminator_len_prefers_longest_prefix_match() {
    let short = vec![1, 2, 3, 4];
    let long = vec![1, 2, 3, 4, 5, 6, 7, 8];
    let discs = vec![short, long.clone()];
    let mut data = long;
    data.extend_from_slice(&[0xAB; 8]);

    assert_eq!(match_len(&discs, &data), Some(8));
}

#[test]
fn types_are_found_by_their_tag() {
    let mut registry: SchemaRegistry<u32> = SchemaRegistry::new(None);
    assert!(!has_schemas(&registry));
    register_account_schemas(
        &mut registry,
        vec![
            AccountSchema { name: "Vault".to_string(), discriminator: vec![1, 2], diff_fn: 10 },
            AccountSchema { name: "User".to_string(), discriminator: vec![3], diff_fn: 20 },
        ],
    );
    assert!(has_schemas(&registry));
    assert_eq!(lookup_diff_fn(&registry, &[3, 9, 9]), Some(&20));
    assert_eq!(lookup_type_name(&registry, &[1, 2, 9]), Some("Vault"));
    assert_eq!(lookup_type_name(&registry, &[1]), None);
    register_account_discriminators(&mut registry, vec![vec![3, 4, 5]]);
    assert_eq!(lookup_discriminator_len(&registry.tags, &[3, 4, 5, 6]), Some(3));
    assert_eq!(registered_discriminator(&registry.tags, &[3, 4, 5, 6]), Some(vec![3, 4, 5]));
}

#[test]
fn instructions_are_found_by_their_tag() {
    let mut registry = InstructionRegistry::new();
    assert_eq!(lookup_instruction_by_discriminator(&registry, &[1, 2, 3]), None);
    assert_eq!(instruction_discriminator_len(&registry), None);
    register_instruction_discriminators(&mut registry, &[("deposit", vec![1, 2]), ("withdraw", vec![3, 4])]);
    assert_eq!(instruction_discriminator_len(&registry), Some(2));
    assert_eq!(lookup_instruction_by_discriminator(&registry, &[3, 4, 9]).as_deref(), Some("withdraw"));
    assert_eq!(lookup_instruction_by_discriminator(&registry, &[3]), None);
    assert_eq!(get_registered_discriminators(&registry).len(), 2);
}
