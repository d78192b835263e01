use greentic_cap_runtime::binding::{
    decode_executable_binding, encode_executable_binding, BindingError, BindingLimitsV1, BindingPolicyV1, BindingScopeV1, CapabilityId,
    ExecutableBindingInputV1, ExecutableBindingV1, ResolverBinding, ResolverOperation, ResolverProvider,
};
use greentic_cap_runtime::json::JsonValue;

fn text(s: &str) -> JsonValue {
    JsonValue::Text(s.to_string())
}

fn object(members: Vec<(&str, JsonValue)>) -> JsonValue {
    JsonValue::Object(members.into_iter().map(|(k, v)| (k.to_string(), v)).collect())
}

fn binding() -> ResolverBinding {
    let digest = format!("sha256:{}", "a".repeat(64));
    ResolverBinding {
        capability: CapabilityId("cap://example.echo@1".to_string()),
        provider: Some(ResolverProvider {
            component_ref: format!("oci://registry/example/echo@{digest}"),
            operation: "legacy".into(),
            operation_map: vec![
                ResolverOperation {
                    contract_operation: "echo".into(),
                    component_operation: "invoke-echo".into(),
                    input_schema: object(vec![("required", JsonValue::Array(vec![text("message")])), ("type", text("object"))]),
                    output_schema: object(vec![("required", JsonValue::Array(vec![text("message")])), ("type", text("object"))]),
                },
                ResolverOperation {
                    contract_operation: "health".into(),
                    component_operation: "health".into(),
                    input_schema: object(vec![("type", text("null"))]),
                    output_schema: object(vec![("type", text("boolean"))]),
                },
            ],
        }),
    }
}

fn input() -> ExecutableBindingInputV1 {
    ExecutableBindingInputV1 {
        contract_version: "1.0.0".into(),
        provider_digest: format!("sha256:{}", "a".repeat(64)),
        scope: BindingScopeV1 {
            tenant: "tenant-a".into(),
            environment: "prod".into(),
            team: Some("team-a".into()),
            profile: Some("default".into()),
        },
        policy: BindingPolicyV1 { reference: "policy://echo".into(), version: "sha256:policy-v1".into() },
        limits: BindingLimitsV1::default(),
        expires_at_unix_ms: None,
        revocation_id: Some("echo-binding-1".into()),
        resolution_id: "resolution-1".into(),
    }
}

#[test]
fn policy_and_limits_are_integrity_protected() {
    let original = ExecutableBindingV1::from_resolved(&binding(), input()).unwrap();
    let mut changed_input = input();
    changed_input.policy.version = "sha256:policy-v2".into();
    let changed = ExecutableBindingV1::from_resolved(&binding(), changed_input).unwrap();
    assert_ne!(original.binding_digest, changed.binding_digest);
    let mut tampered = original;
    tampered.limits.timeout_ms += 1;
    assert_eq!(tampered.validate(), Err(BindingError::Integrity));
}

#[test]
fn mutable_provider_fails_closed() {
    let mut legacy = binding();
    legacy.provider.as_mut().unwrap().component_ref = "oci://registry/example/echo:latest".into();
    assert_eq!(ExecutableBindingV1::from_resolved(&legacy, input()), Err(BindingError::MutableProviderReference));
}

#[test]
fn deterministic_id_digest_and_round_trip() {
    let first = ExecutableBindingV1::from_resolved(&binding(), input()).unwrap();
    let second = ExecutableBindingV1::from_resolved(&binding(), input()).unwrap();
    assert_eq!(first, second);
    assert_eq!(first.operations.len(), 2);
    let bytes = encode_executable_binding(&first).unwrap();
    assert_eq!(decode_executable_binding(&bytes).unwrap(), first);
}

#[test]
fn round_trip_keeps_optional_fields_and_numbers() {
    let mut changed_input = input();
    changed_input.expires_at_unix_ms = Some(1_700_000_000_000);
    changed_input.revocation_id = None;
    changed_input.scope.team = None;
    let mut resolver = binding();
    resolver.provider.as_mut().unwrap().operation_map[1].input_schema =
        object(vec![("maxLength", JsonValue::Number("12".into())), ("minimum", JsonValue::Number("-3".into()))]);
    let first = ExecutableBindingV1::from_resolved(&resolver, changed_input).unwrap();
    let bytes = encode_executable_binding(&first).unwrap();
    assert_eq!(decode_executable_binding(&bytes).unwrap(), first);
}

#[test]
fn decoding_rejects_tampering_and_trailing_bytes() {
    let first = ExecutableBindingV1::from_resolved(&binding(), input()).unwrap();
    let bytes = encode_executable_binding(&first).unwrap();
    let mut trailing = bytes.clone();
    trailing.push(0);
    assert!(matches!(decode_executable_binding(&trailing), Err(BindingError::Decode(_))));
    assert!(matches!(decode_executable_binding(&bytes[..bytes.len() - 1]), Err(BindingError::Decode(_))));
    assert!(matches!(decode_executable_binding(&[]), Err(BindingError::Decode(_))));
    let mut changed = bytes.clone();
    let at = changed.windows(2).position(|w| w == [0x19, 0x75]).unwrap();
    changed[at + 2] = changed[at + 2].wrapping_add(1);
    assert_eq!(decode_executable_binding(&changed), Err(BindingError::Integrity));
}

#[test]
fn validation_rejects_a_resealed_mutable_reference() {
    let mut b = ExecutableBindingV1::from_resolved(&binding(), input()).unwrap();
    b.provider_component_ref = "oci://registry/example/echo:latest".into();
    let digest: String = b.calculate_digest().unwrap().into_iter().collect();
    b.binding_id = greentic_cap_runtime::binding::BindingId::parse(format!("capb_{}", &digest[7..39])).unwrap();
    b.binding_digest = digest;
    assert_eq!(b.validate(), Err(BindingError::MutableProviderReference));
}

#[test]
fn decoding_takes_only_the_canonical_layout() {
    let first = ExecutableBindingV1::from_resolved(&binding(), input()).unwrap();
    let mut bytes = encode_executable_binding(&first).unwrap();
    // one more field, unknown to the record, at the end of the map
    bytes[0] += 1;
    bytes.extend_from_slice(&[0x65, b'e', b'x', b't', b'r', b'a', 0xf6]);
    assert!(matches!(decode_executable_binding(&bytes), Err(BindingError::Decode(_))));
}

#[test]
fn round_trip_keeps_integer_extremes_and_floats() {
    let mut resolver = binding();
    resolver.provider.as_mut().unwrap().operation_map[1].input_schema = object(vec![
        ("a", JsonValue::Number("0".into())),
        ("b", JsonValue::Number("18446744073709551615".into())),
        ("c", JsonValue::Number("-9223372036854775808".into())),
        ("d", JsonValue::Number("-1".into())),
        ("e", JsonValue::Number("1.5".into())),
    ]);
    let first = ExecutableBindingV1::from_resolved(&resolver, input()).unwrap();
    let digest = first.calculate_digest().unwrap();
    assert_eq!(digest.len(), 71);
    let bytes = encode_executable_binding(&first).unwrap();
    assert_eq!(decode_executable_binding(&bytes).unwrap(), first);
}

#[test]
fn digest_ignores_only_the_seal() {
    let first = ExecutableBindingV1::from_resolved(&binding(), input()).unwrap();
    let digest = first.calculate_digest().unwrap();
    let text: String = digest.iter().collect();
    assert!(text.starts_with("sha256:"));
    assert!(text[7..].chars().all(|c| c.is_ascii_digit() || ('a'..='f').contains(&c)));
    assert_eq!(text, first.binding_digest);
    let mut resealed = first.clone();
    resealed.binding_digest = format!("sha256:{}", "0".repeat(64));
    assert_eq!(resealed.calculate_digest().unwrap(), digest);
    let mut changed = first.clone();
    changed.resolution_id = "another-resolution".into();
    assert_ne!(changed.calculate_digest().unwrap(), digest);
}
