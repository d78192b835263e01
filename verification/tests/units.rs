use greentic_cap_runtime::abi::{handle_invoke, CapabilityError, CapabilityService, Request};
use greentic_cap_runtime::binding::{
    reference_is_pinned, validate_digest, BindingError, BindingId, BindingLimitsV1, BindingPolicyV1,
    BindingScopeV1, CapabilityErrorV1, CapabilityId, CapabilityInvocationRequestV1,
    CapabilityInvocationResponseV1, ExecutableBindingInputV1, ExecutableBindingV1, ResolverBinding,
    ResolverOperation, ResolverProvider, operation_map,
};
use greentic_cap_runtime::cbor::{cbor_depth, decode_canonical_bounded, decode_cbor, CborShape};
use greentic_cap_runtime::digest::{digest_chars, sha256_digest};
use greentic_cap_runtime::dispatcher::{
    dispatch_audit_event, error_name, invocation_deadline, map_provider_error, provider_invocation, InvocationContextV1,
    ProviderInvokeError,
};
use greentic_cap_runtime::decode::{read_head, read_json, read_text, read_uint};
use greentic_cap_runtime::encode::{encode_json_number, write_head, write_json, write_text};
use greentic_cap_runtime::gate::ConcurrencyGate;
use greentic_cap_runtime::json::{json_node_count, validate_schema, JsonValue};

const ID: &str = "capb_0123456789abcdef0123456789abcdef";

fn text(s: &str) -> JsonValue {
    JsonValue::Text(s.to_string())
}

fn object(members: Vec<(&str, JsonValue)>) -> JsonValue {
    JsonValue::Object(members.into_iter().map(|(k, v)| (k.to_string(), v)).collect())
}

fn serde_object(members: Vec<(&str, serde_json::Value)>) -> serde_json::Value {
    let mut map = serde_json::Map::new();
    for (k, v) in members {
        map.insert(k.to_string(), v);
    }
    serde_json::Value::Object(map)
}

#[test]
fn binding_ids_are_capb_and_32_lower_hex_digits() {
    let id = BindingId::parse(ID.to_string()).unwrap();
    assert_eq!(id.as_str(), ID);
    assert_eq!(BindingId::parse(ID.to_uppercase()), Err(BindingError::InvalidBindingId));
    assert_eq!(BindingId::parse("capb_0123456789ABCDEF0123456789abcdef".to_string()), Err(BindingError::InvalidBindingId));
    assert_eq!(BindingId::parse(format!("{ID}0")), Err(BindingError::InvalidBindingId));
    assert_eq!(BindingId::parse(ID[..36].to_string()), Err(BindingError::InvalidBindingId));
    assert_eq!(BindingId::parse(ID.replace("capb_", "capx_")), Err(BindingError::InvalidBindingId));
    assert_eq!(BindingId::parse("capb_0123456789abcdef0123456789abcdeé".to_string()), Err(BindingError::InvalidBindingId));
    assert_eq!(BindingId::parse(String::new()), Err(BindingError::InvalidBindingId));
}

#[test]
fn digests_are_sha256_with_64_hex_digits_of_either_case() {
    assert_eq!(validate_digest(&format!("sha256:{}", "aB".repeat(32))), Ok(()));
    assert_eq!(validate_digest(&format!("sha256:{}", "a".repeat(63))), Err(BindingError::InvalidDigest));
    assert_eq!(validate_digest(&format!("sha256:{}", "g".repeat(64))), Err(BindingError::InvalidDigest));
    assert_eq!(validate_digest(&format!("sha512:{}", "a".repeat(64))), Err(BindingError::InvalidDigest));
}

#[test]
fn pinning_ignores_ascii_case() {
    let digest = format!("sha256:{}", "ab".repeat(32));
    assert!(reference_is_pinned(&format!("oci://r/x@{}", digest.to_uppercase()), &digest));
    assert!(!reference_is_pinned("oci://r/x:latest", &digest));
    assert!(reference_is_pinned("anything", ""));
}

#[test]
fn sha256_and_digest_text_match_known_vectors() {
    assert_eq!(sha256_digest(b"").len(), 32);
    let text: String = digest_chars(b"abc").into_iter().collect();
    assert_eq!(text, "sha256:ba7816bf8f01cfea414140de5dae2223b00361a396177a9cb410ff61f20015ad");
}

#[test]
fn json_node_counts_every_value() {
    assert_eq!(json_node_count(&JsonValue::Null), 1);
    let schema = object(vec![("items", JsonValue::Array(vec![text("a"), JsonValue::Bool(true)])), ("type", text("array"))]);
    assert_eq!(json_node_count(&schema), 5);
}

#[test]
fn cbor_depth_counts_nesting_levels() {
    assert_eq!(cbor_depth(&CborShape::Leaf, 1), 1);
    let nested = CborShape::Array(vec![CborShape::Pairs(vec![(CborShape::Leaf, CborShape::Tag(Box::new(CborShape::Leaf)))])]);
    assert_eq!(cbor_depth(&nested, 1), 4);
    assert_eq!(cbor_depth(&nested, u32::MAX), u32::MAX);
    assert_eq!(cbor_depth(&CborShape::Array(vec![]), 7), 7);
}

#[test]
fn decoder_reports_shape_and_rejects_garbage() {
    let doc = decode_cbor(&[0x82, 0x01, 0x81, 0x02]).unwrap();
    assert_eq!(cbor_depth(doc.shape(), 1), 3);
    assert!(decode_cbor(&[0xff]).is_none());
}

#[test]
fn canonical_decoding_rejects_non_minimal_and_deep_items() {
    assert_eq!(decode_canonical_bounded(&[0x01], 1), Some(JsonValue::Number("1".to_string())));
    assert_eq!(decode_canonical_bounded(&[0x18, 0x01], 32), None);
    assert_eq!(decode_canonical_bounded(&[0x81, 0x81, 0x01], 2), None);
    assert!(decode_canonical_bounded(&[0x81, 0x81, 0x01], 3).is_some());
    assert_eq!(decode_canonical_bounded(&[0x9f, 0x01, 0xff], 8), None);
}

#[test]
fn json_framing_matches_serde_cbor() {
    let value = serde_object(vec![
        ("a", serde_json::Value::from(-3)),
        ("b", serde_json::Value::from(1.5)),
        ("c", serde_json::Value::Array(vec![serde_json::Value::Null, serde_json::Value::Bool(true)])),
        ("long", serde_json::Value::from(100_000u64)),
        ("text", serde_json::Value::String("é".repeat(30))),
    ]);
    let ours = object(vec![
        ("a", JsonValue::Number("-3".to_string())),
        ("b", JsonValue::Number("1.5".to_string())),
        ("c", JsonValue::Array(vec![JsonValue::Null, JsonValue::Bool(true)])),
        ("long", JsonValue::Number("100000".to_string())),
        ("text", text(&"é".repeat(30))),
    ]);
    let mut out = Vec::new();
    assert!(write_json(&mut out, &ours));
    assert_eq!(out, serde_cbor::to_vec(&value).unwrap());
    let mut bad = Vec::new();
    assert!(!write_json(&mut bad, &JsonValue::Number("one".to_string())));
    assert_eq!(encode_json_number("1"), Some(vec![0x01]));
    assert_eq!(encode_json_number("x"), None);
}

#[test]
fn heads_use_the_shortest_form() {
    for (n, expected) in [
        (0u64, vec![0x00]),
        (23, vec![0x17]),
        (24, vec![0x18, 24]),
        (255, vec![0x18, 0xff]),
        (256, vec![0x19, 0x01, 0x00]),
        (65_536, vec![0x1a, 0x00, 0x01, 0x00, 0x00]),
        (1u64 << 32, vec![0x1b, 0, 0, 0, 1, 0, 0, 0, 0]),
    ] {
        let mut out = Vec::new();
        write_head(&mut out, 0, n);
        assert_eq!(out, expected);
        assert_eq!(out, serde_cbor::to_vec(&n).unwrap());
    }
    let mut out = Vec::new();
    write_text(&mut out, "hé");
    assert_eq!(out, serde_cbor::to_vec(&"hé").unwrap());
}

#[test]
fn schemas_are_checked_by_jsonschema() {
    let schema = object(vec![("required", JsonValue::Array(vec![text("message")])), ("type", text("object"))]);
    assert!(validate_schema(&schema, &object(vec![("message", text("hi"))])));
    assert!(!validate_schema(&schema, &object(vec![])));
    assert!(!validate_schema(&object(vec![("type", text("no-such-type"))]), &JsonValue::Null));
}

#[test]
fn every_error_has_its_audit_name() {
    let names = [
        (CapabilityErrorV1::BindingNotFound, "binding_not_found"),
        (CapabilityErrorV1::OperationNotAllowed, "operation_not_allowed"),
        (CapabilityErrorV1::ProviderUnavailable, "provider_unavailable"),
        (CapabilityErrorV1::InvalidInput, "invalid_input"),
        (CapabilityErrorV1::InvalidOutput, "invalid_output"),
        (CapabilityErrorV1::PolicyDenied, "policy_denied"),
        (CapabilityErrorV1::Timeout, "timeout"),
        (CapabilityErrorV1::Cancelled, "cancelled"),
        (CapabilityErrorV1::Overloaded, "overloaded"),
        (CapabilityErrorV1::ProtocolError, "protocol_error"),
        (CapabilityErrorV1::Internal, "internal"),
    ];
    for (error, name) in names {
        assert_eq!(error_name(error), name);
    }
}

#[test]
fn provider_errors_lose_their_detail() {
    assert_eq!(map_provider_error(ProviderInvokeError::Unavailable("a".into())), CapabilityErrorV1::ProviderUnavailable);
    assert_eq!(map_provider_error(ProviderInvokeError::Timeout("b".into())), CapabilityErrorV1::Timeout);
    assert_eq!(map_provider_error(ProviderInvokeError::Cancelled("c".into())), CapabilityErrorV1::Cancelled);
    assert_eq!(map_provider_error(ProviderInvokeError::Overloaded("d".into())), CapabilityErrorV1::Overloaded);
    assert_eq!(map_provider_error(ProviderInvokeError::Protocol("e".into())), CapabilityErrorV1::ProtocolError);
    assert_eq!(map_provider_error(ProviderInvokeError::Internal("f".into())), CapabilityErrorV1::Internal);
}

#[test]
fn deadlines_take_the_earlier_and_saturate() {
    assert_eq!(invocation_deadline(1_000, 30_000, None), 31_000);
    assert_eq!(invocation_deadline(1_000, 30_000, Some(5_000)), 5_000);
    assert_eq!(invocation_deadline(1_000, 30_000, Some(50_000)), 31_000);
    assert_eq!(invocation_deadline(u64::MAX - 1, 30_000, None), u64::MAX);
}

#[test]
fn release_undoes_acquire_and_the_limit_holds() {
    let id = BindingId::parse(ID.to_string()).unwrap();
    let other = BindingId::parse(ID.replace('0', "1")).unwrap();
    let mut gate = ConcurrencyGate::new();
    assert!(gate.try_acquire(&id, 2));
    assert!(gate.try_acquire(&id, 2));
    assert!(!gate.try_acquire(&id, 2));
    assert!(gate.try_acquire(&other, 2));
    assert_eq!(gate.count(&id), 2);
    gate.release(&id);
    assert_eq!(gate.count(&id), 1);
    gate.release(&id);
    gate.release(&id);
    assert_eq!(gate.count(&id), 0);
    assert_eq!(gate.count(&other), 1);
    assert!(!gate.try_acquire(&id, 0));
}

fn resolver(ops: Vec<(&str, &str)>) -> ResolverBinding {
    ResolverBinding {
        capability: CapabilityId("cap://example.echo@1".to_string()),
        provider: Some(ResolverProvider {
            component_ref: format!("oci://r/e@sha256:{}", "c".repeat(64)),
            operation: String::new(),
            operation_map: ops
                .into_iter()
                .map(|(contract, component)| ResolverOperation {
                    contract_operation: contract.into(),
                    component_operation: component.into(),
                    input_schema: JsonValue::Bool(true),
                    output_schema: JsonValue::Bool(true),
                })
                .collect(),
        }),
    }
}

fn input() -> ExecutableBindingInputV1 {
    ExecutableBindingInputV1 {
        contract_version: "1.0.0".into(),
        provider_digest: format!("sha256:{}", "C".repeat(64)),
        scope: BindingScopeV1 { tenant: "t".into(), environment: "e".into(), team: None, profile: None },
        policy: BindingPolicyV1 { reference: "p".into(), version: "v".into() },
        limits: BindingLimitsV1::default(),
        expires_at_unix_ms: None,
        revocation_id: None,
        resolution_id: "r".into(),
    }
}

#[test]
fn operation_maps_are_sorted_and_reject_duplicates() {
    let map = operation_map(&resolver(vec![("zeta", "z"), ("alpha", "a")]).provider.unwrap().operation_map).unwrap();
    assert_eq!(map.len(), 2);
    assert_eq!(map.entry(0).0, "alpha");
    assert_eq!(map.get("zeta").unwrap().component_operation, "z");
    assert!(map.get("beta").is_none());
    assert_eq!(operation_map(&[]), Err(BindingError::EmptyOperationMap));
    let dup = resolver(vec![("a", "x"), ("b", "y"), ("a", "z"), ("b", "w")]).provider.unwrap().operation_map;
    assert_eq!(operation_map(&dup), Err(BindingError::DuplicateOperation("a".into())));
}

#[test]
fn promotion_reports_the_first_failing_check() {
    let ok = ExecutableBindingV1::from_resolved(&resolver(vec![("echo", "e")]), input()).unwrap();
    assert_eq!(ok.provider_digest, format!("sha256:{}", "c".repeat(64)));
    assert_eq!(BindingId::parse(ok.binding_id.as_str().to_string()).unwrap(), ok.binding_id);
    assert_eq!(&ok.binding_id.as_str()[5..], &ok.binding_digest[7..39]);
    assert_eq!(ok.validate(), Ok(()));

    let no_provider = ResolverBinding { capability: CapabilityId("c".into()), provider: None };
    assert_eq!(ExecutableBindingV1::from_resolved(&no_provider, input()), Err(BindingError::MissingProvider));
    let mut bad_digest = input();
    bad_digest.provider_digest = "sha256:zz".into();
    assert_eq!(ExecutableBindingV1::from_resolved(&resolver(vec![("echo", "e")]), bad_digest), Err(BindingError::InvalidDigest));
    let mut blank = input();
    blank.scope.tenant = " \t\u{3000}".into();
    assert_eq!(ExecutableBindingV1::from_resolved(&resolver(vec![("echo", "e")]), blank), Err(BindingError::Empty("tenant")));
    assert_eq!(
        ExecutableBindingV1::from_resolved(&resolver(vec![("echo", " ")]), input()),
        Err(BindingError::Empty("operation"))
    );
    let mut zero = input();
    zero.limits.max_concurrency = 0;
    assert_eq!(ExecutableBindingV1::from_resolved(&resolver(vec![("echo", "e")]), zero), Err(BindingError::InvalidLimits));
    let mut small = input();
    small.limits.max_schema_nodes = 1;
    let mut deep = resolver(vec![("echo", "e")]);
    deep.provider.as_mut().unwrap().operation_map[0].input_schema = JsonValue::Array(vec![JsonValue::Null]);
    assert_eq!(ExecutableBindingV1::from_resolved(&deep, small), Err(BindingError::SchemaTooComplex));
    assert_eq!(
        ExecutableBindingV1::from_resolved(&resolver(vec![("a", "x"), ("a", "y")]), input()),
        Err(BindingError::DuplicateOperation("a".into()))
    );
    let mut version = ok.clone();
    version.schema_version = 2;
    assert_eq!(version.validate(), Err(BindingError::UnsupportedVersion(2)));
    let mut id = ok.clone();
    id.binding_id = BindingId::from_raw("capb_ffffffffffffffffffffffffffffffff".into());
    assert_eq!(id.validate(), Err(BindingError::Integrity));
}

struct Echo;
impl CapabilityService for Echo {
    fn invoke(
        &mut self,
        request: CapabilityInvocationRequestV1,
    ) -> Result<CapabilityInvocationResponseV1, CapabilityErrorV1> {
        if request.operation == "fail" {
            return Err(CapabilityErrorV1::PolicyDenied);
        }
        Ok(CapabilityInvocationResponseV1 { output_cbor: request.payload_cbor, metadata_cbor: None })
    }
}

#[test]
fn abi_calls_parse_the_binding_id_before_the_service() {
    let mut service = Echo;
    let bad = Request { binding_id: "not-an-id".into(), operation: "echo".into(), payload_cbor: vec![1] };
    assert_eq!(handle_invoke(&mut service, bad), Err(CapabilityError::InvalidInput));
    let good = Request { binding_id: ID.into(), operation: "echo".into(), payload_cbor: vec![1, 2] };
    assert_eq!(handle_invoke(&mut service, good).unwrap().output_cbor, vec![1, 2]);
    let denied = Request { binding_id: ID.into(), operation: "fail".into(), payload_cbor: vec![] };
    assert_eq!(handle_invoke(&mut service, denied), Err(CapabilityError::PolicyDenied));
}

#[test]
fn provider_calls_carry_host_context_and_extend_the_chain() {
    let binding = ExecutableBindingV1::from_resolved(&resolver(vec![("echo", "component-echo")]), input()).unwrap();
    let op = binding.operations.get("echo").unwrap();
    let earlier = BindingId::parse(ID.to_string()).unwrap();
    let request = CapabilityInvocationRequestV1 { binding_id: binding.binding_id.clone(), operation: "echo".into(), payload_cbor: vec![7] };
    let context = InvocationContextV1 {
        tenant: "t".into(),
        environment: "e".into(),
        team: None,
        correlation_id: "corr".into(),
        deadline_unix_ms: None,
        cancelled: false,
        dispatch_chain: vec![earlier.clone()],
    };
    let call = provider_invocation(&binding, op, &request, &context, 99);
    assert_eq!(call.component_operation, "component-echo");
    assert_eq!(call.provider_component_ref, binding.provider_component_ref);
    assert_eq!(call.payload_cbor, vec![7]);
    assert_eq!(call.deadline_unix_ms, 99);
    assert_eq!(call.dispatch_chain, vec![earlier, binding.binding_id.clone()]);
}

#[test]
fn heads_are_read_back_only_in_their_shortest_form() {
    for n in [0u64, 23, 24, 255, 256, 65_535, 65_536, 4_294_967_295, 4_294_967_296, u64::MAX] {
        let mut out = Vec::new();
        write_head(&mut out, 2, n);
        assert_eq!(read_head(&out, 0), Some((2, n, out.len())));
    }
    assert_eq!(read_head(&[0x18, 0x17], 0), None);
    assert_eq!(read_head(&[0x19, 0x00, 0xff], 0), None);
    assert_eq!(read_head(&[0x19, 0x01], 0), None);
    assert_eq!(read_head(&[0x1c], 0), None);
    assert_eq!(read_uint(&[0x18, 0x2a], 0), Some((42, 2)));
    assert_eq!(read_uint(&[0x38, 0x2a], 0), None);
}

#[test]
fn texts_and_documents_are_read_back() {
    let mut out = Vec::new();
    write_text(&mut out, "héllo");
    assert_eq!(read_text(&out, 0), Some(("héllo".to_string(), out.len())));
    assert_eq!(read_text(&[0x62, 0xff, 0xfe], 0), None);
    let doc = object(vec![
        ("items", JsonValue::Array(vec![JsonValue::Null, JsonValue::Bool(true), text("x")])),
        ("size", JsonValue::Number("7".into())),
    ]);
    let mut out = Vec::new();
    assert!(write_json(&mut out, &doc));
    assert_eq!(read_json(&out, 0, 8), Some((doc, out.len())));
    let nested = JsonValue::Array(vec![JsonValue::Array(vec![JsonValue::Array(vec![])])]);
    let mut out = Vec::new();
    assert!(write_json(&mut out, &nested));
    assert_eq!(read_json(&out, 0, 2), None);
    assert_eq!(read_json(&out, 0, 3), Some((nested, out.len())));
}

#[test]
fn audit_events_carry_host_context_and_a_fixed_outcome() {
    let request = CapabilityInvocationRequestV1 {
        binding_id: BindingId::parse(ID.to_string()).unwrap(),
        operation: "echo".into(),
        payload_cbor: vec![1, 2, 3],
    };
    let context = InvocationContextV1 {
        tenant: "t".into(),
        environment: "e".into(),
        team: Some("team".into()),
        correlation_id: "corr".into(),
        deadline_unix_ms: None,
        cancelled: false,
        dispatch_chain: vec![],
    };
    let denied = dispatch_audit_event(&request, &context, &Err((None, CapabilityErrorV1::PolicyDenied)), 5);
    assert_eq!(denied.outcome, "policy_denied");
    assert_eq!(denied.capability, None);
    assert_eq!(denied.correlation_id, "corr");
    assert_eq!(denied.team, Some("team".to_string()));
    assert_eq!(denied.elapsed_ms, 5);
    let response = CapabilityInvocationResponseV1 { output_cbor: vec![9], metadata_cbor: None };
    let ok = dispatch_audit_event(&request, &context, &Ok((CapabilityId("cap://x@1".into()), response)), 0);
    assert_eq!(ok.outcome, "success");
    assert_eq!(ok.capability, Some(CapabilityId("cap://x@1".into())));
    assert_eq!(ok.operation, "echo");
}

#[test]
fn integers_are_written_and_read_as_cbor_integers() {
    for (text, item) in [
        ("0", vec![0x00]),
        ("-1", vec![0x20]),
        ("24", vec![0x18, 24]),
        ("-25", vec![0x38, 24]),
        ("18446744073709551615", vec![0x1b, 0xff, 0xff, 0xff, 0xff, 0xff, 0xff, 0xff, 0xff]),
        ("-9223372036854775808", vec![0x3b, 0x7f, 0xff, 0xff, 0xff, 0xff, 0xff, 0xff, 0xff]),
    ] {
        assert_eq!(encode_json_number(text), Some(item.clone()));
        let number = JsonValue::Number(text.to_string());
        let mut out = Vec::new();
        assert!(write_json(&mut out, &number));
        assert_eq!(out, item);
        assert_eq!(read_json(&item, 0, 0), Some((number, item.len())));
    }
    // a float item is read back as the text serde_json prints for it
    let mut out = Vec::new();
    assert!(write_json(&mut out, &JsonValue::Number("1.5".to_string())));
    assert_eq!(read_json(&out, 0, 0), Some((JsonValue::Number("1.5".to_string()), out.len())));
}
