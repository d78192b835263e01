use std::sync::{Arc, Mutex};

use greentic_cap_runtime::binding::{
    BindingId, BindingLimitsV1, BindingPolicyV1, BindingScopeV1, BindingStatusV1, CapabilityAuditEventV1,
    CapabilityErrorV1, CapabilityId, CapabilityInvocationRequestV1, ExecutableBindingInputV1, ExecutableBindingV1,
    ResolverBinding, ResolverOperation, ResolverProvider,
};
use greentic_cap_runtime::dispatcher::{
    BindingStore, BindingStoreError, CapabilityDispatcher, CapabilityObserver, DispatcherClock, InvocationContextV1,
    PolicyDecisionV1, PolicyEvaluationError, PolicyEvaluator, ProviderInvocationV1, ProviderInvokeError,
    ProviderInvoker, ProviderOutputV1, StoredBindingV1,
};
use greentic_cap_runtime::json::JsonValue;

#[derive(Clone)]
struct Store(Arc<Mutex<Option<StoredBindingV1>>>);
impl BindingStore for Store {
    fn get(&self, _: &BindingId) -> Result<Option<StoredBindingV1>, BindingStoreError> {
        Ok(self.0.lock().unwrap().clone())
    }
}

#[derive(Clone)]
struct Policy(Arc<Mutex<PolicyDecisionV1>>);
impl PolicyEvaluator for Policy {
    fn evaluate(
        &self,
        _: &ExecutableBindingV1,
        _: &str,
        _: &InvocationContextV1,
    ) -> Result<PolicyDecisionV1, PolicyEvaluationError> {
        Ok(self.0.lock().unwrap().clone())
    }
}

#[derive(Clone)]
struct Invoker {
    result: Arc<Mutex<Result<ProviderOutputV1, ProviderInvokeError>>>,
    calls: Arc<Mutex<Vec<ProviderInvocationV1>>>,
}
impl ProviderInvoker for Invoker {
    fn invoke(&self, request: ProviderInvocationV1) -> Result<ProviderOutputV1, ProviderInvokeError> {
        self.calls.lock().unwrap().push(request);
        self.result.lock().unwrap().clone()
    }
}

#[derive(Clone, Default)]
struct Observer(Arc<Mutex<Vec<CapabilityAuditEventV1>>>);
impl CapabilityObserver for Observer {
    fn observe(&self, event: CapabilityAuditEventV1) {
        self.0.lock().unwrap().push(event);
    }
}

#[derive(Clone)]
struct Clock(Arc<Mutex<u64>>);
impl DispatcherClock for Clock {
    fn now_unix_ms(&self) -> u64 {
        *self.0.lock().unwrap()
    }
}

type TestDispatcher = CapabilityDispatcher<Store, Policy, Invoker, Observer, Clock>;

struct Fixture {
    dispatcher: TestDispatcher,
    binding: ExecutableBindingV1,
    store: Store,
    policy: Policy,
    invoker: Invoker,
    observer: Observer,
    clock: Clock,
}

fn text(s: &str) -> JsonValue {
    JsonValue::Text(s.to_string())
}

fn object(members: Vec<(&str, JsonValue)>) -> JsonValue {
    JsonValue::Object(members.into_iter().map(|(k, v)| (k.to_string(), v)).collect())
}

fn json_object(members: Vec<(&str, serde_json::Value)>) -> serde_json::Value {
    let mut map = serde_json::Map::new();
    for (k, v) in members {
        map.insert(k.to_string(), v);
    }
    serde_json::Value::Object(map)
}

fn cbor(value: serde_json::Value) -> Vec<u8> {
    serde_cbor::to_vec(&value).unwrap()
}

fn message(s: &str) -> serde_json::Value {
    json_object(vec![("message", serde_json::Value::String(s.to_string()))])
}

fn message_schema() -> JsonValue {
    object(vec![
        ("additionalProperties", JsonValue::Bool(false)),
        ("properties", object(vec![("message", object(vec![("type", text("string"))]))])),
        ("required", JsonValue::Array(vec![text("message")])),
        ("type", text("object")),
    ])
}

fn make_binding() -> ExecutableBindingV1 {
    let digest = format!("sha256:{}", "b".repeat(64));
    let legacy = ResolverBinding {
        capability: CapabilityId("cap://example.echo@1".to_string()),
        provider: Some(ResolverProvider {
            component_ref: format!("oci://example/echo@{digest}"),
            operation: String::new(),
            operation_map: vec![
                ResolverOperation {
                    contract_operation: "echo".into(),
                    component_operation: "component-echo".into(),
                    input_schema: message_schema(),
                    output_schema: message_schema(),
                },
                ResolverOperation {
                    contract_operation: "health".into(),
                    component_operation: "component-health".into(),
                    input_schema: object(vec![("type", text("null"))]),
                    output_schema: object(vec![("type", text("boolean"))]),
                },
            ],
        }),
    };
    ExecutableBindingV1::from_resolved(
        &legacy,
        ExecutableBindingInputV1 {
            contract_version: "1.0.0".into(),
            provider_digest: digest,
            scope: BindingScopeV1 {
                tenant: "tenant-a".into(),
                environment: "prod".into(),
                team: Some("team-a".into()),
                profile: None,
            },
            policy: BindingPolicyV1 { reference: "policy://echo".into(), version: "policy-v1".into() },
            limits: BindingLimitsV1 {
                max_request_bytes: 256,
                max_response_bytes: 256,
                max_metadata_bytes: 64,
                ..BindingLimitsV1::default()
            },
            expires_at_unix_ms: Some(10_000),
            revocation_id: Some("revoke-1".into()),
            resolution_id: "resolve-1".into(),
        },
    )
    .unwrap()
}

fn fixture() -> Fixture {
    let binding = make_binding();
    let store = Store(Arc::new(Mutex::new(Some(StoredBindingV1 {
        binding: binding.clone(),
        status: BindingStatusV1::Active,
    }))));
    let policy = Policy(Arc::new(Mutex::new(PolicyDecisionV1 {
        allowed: true,
        evaluated_version: "policy-v1".into(),
    })));
    let invoker = Invoker {
        result: Arc::new(Mutex::new(Ok(ProviderOutputV1 {
            output_cbor: cbor(message("hello")),
            metadata_cbor: Some(cbor(json_object(vec![("cached", serde_json::Value::Bool(false))]))),
        }))),
        calls: Arc::default(),
    };
    let observer = Observer::default();
    let clock = Clock(Arc::new(Mutex::new(1_000)));
    let dispatcher =
        CapabilityDispatcher::new(store.clone(), policy.clone(), invoker.clone(), observer.clone(), clock.clone());
    Fixture { dispatcher, binding, store, policy, invoker, observer, clock }
}

fn context() -> InvocationContextV1 {
    InvocationContextV1 {
        tenant: "tenant-a".into(),
        environment: "prod".into(),
        team: Some("team-a".into()),
        correlation_id: "corr-1".into(),
        deadline_unix_ms: None,
        cancelled: false,
        dispatch_chain: Vec::new(),
    }
}

fn request(binding: &ExecutableBindingV1) -> CapabilityInvocationRequestV1 {
    CapabilityInvocationRequestV1 {
        binding_id: binding.binding_id.clone(),
        operation: "echo".into(),
        payload_cbor: cbor(message("hello")),
    }
}

#[test]
fn dispatches_only_the_pinned_mapped_operation_and_propagates_context() {
    let fixture = fixture();
    let response = fixture.dispatcher.invoke(request(&fixture.binding), &context()).unwrap();
    assert_eq!(response.output_cbor, cbor(message("hello")));
    let calls = fixture.invoker.calls.lock().unwrap();
    assert_eq!(calls.len(), 1);
    assert_eq!(calls[0].component_operation, "component-echo");
    assert_eq!(calls[0].provider_digest, fixture.binding.provider_digest);
    assert_eq!(calls[0].correlation_id, "corr-1");
    assert_eq!(calls[0].dispatch_chain, vec![fixture.binding.binding_id.clone()]);
    let events = fixture.observer.0.lock().unwrap();
    assert_eq!(events[0].outcome, "success");
    assert_eq!(events[0].correlation_id, "corr-1");
}

#[test]
fn missing_unknown_operation_and_scope_mismatch_fail_before_provider() {
    let fixture = fixture();
    *fixture.store.0.lock().unwrap() = None;
    assert_eq!(
        fixture.dispatcher.invoke(request(&fixture.binding), &context()),
        Err(CapabilityErrorV1::BindingNotFound)
    );
    *fixture.store.0.lock().unwrap() =
        Some(StoredBindingV1 { binding: fixture.binding.clone(), status: BindingStatusV1::Active });
    let mut unknown = request(&fixture.binding);
    unknown.operation = "admin".into();
    assert_eq!(fixture.dispatcher.invoke(unknown, &context()), Err(CapabilityErrorV1::OperationNotAllowed));
    let mut wrong_scope = context();
    wrong_scope.tenant = "tenant-b".into();
    assert_eq!(
        fixture.dispatcher.invoke(request(&fixture.binding), &wrong_scope),
        Err(CapabilityErrorV1::BindingNotFound)
    );
    assert!(fixture.invoker.calls.lock().unwrap().is_empty());
}

#[test]
fn revoked_expired_policy_drift_cycles_and_deadlines_fail_closed() {
    let fixture = fixture();
    *fixture.store.0.lock().unwrap() = Some(StoredBindingV1 {
        binding: fixture.binding.clone(),
        status: BindingStatusV1::Revoked { revoked_at_unix_ms: 2, reason_code: "security".into() },
    });
    assert_eq!(
        fixture.dispatcher.invoke(request(&fixture.binding), &context()),
        Err(CapabilityErrorV1::BindingNotFound)
    );
    *fixture.store.0.lock().unwrap() =
        Some(StoredBindingV1 { binding: fixture.binding.clone(), status: BindingStatusV1::Active });
    *fixture.clock.0.lock().unwrap() = 10_000;
    assert_eq!(
        fixture.dispatcher.invoke(request(&fixture.binding), &context()),
        Err(CapabilityErrorV1::BindingNotFound)
    );
    *fixture.clock.0.lock().unwrap() = 1_000;
    fixture.policy.0.lock().unwrap().evaluated_version = "policy-v2".into();
    assert_eq!(
        fixture.dispatcher.invoke(request(&fixture.binding), &context()),
        Err(CapabilityErrorV1::PolicyDenied)
    );
    fixture.policy.0.lock().unwrap().evaluated_version = "policy-v1".into();
    let mut cycle = context();
    cycle.dispatch_chain.push(fixture.binding.binding_id.clone());
    assert_eq!(fixture.dispatcher.invoke(request(&fixture.binding), &cycle), Err(CapabilityErrorV1::PolicyDenied));
    let mut timed_out = context();
    timed_out.deadline_unix_ms = Some(1_000);
    assert_eq!(fixture.dispatcher.invoke(request(&fixture.binding), &timed_out), Err(CapabilityErrorV1::Timeout));
    assert!(fixture.invoker.calls.lock().unwrap().is_empty());
}

#[test]
fn rejects_malformed_noncanonical_deep_oversized_and_schema_invalid_input() {
    let fixture = fixture();
    let mut deep = serde_json::Value::from(0);
    for _ in 0..40 {
        deep = serde_json::Value::Array(vec![deep]);
    }
    for payload in [
        vec![0xff],
        vec![0x18, 0x01],
        cbor(deep),
        vec![0; 257],
        cbor(json_object(vec![("wrong", serde_json::Value::Bool(true))])),
    ] {
        let mut invalid = request(&fixture.binding);
        invalid.payload_cbor = payload;
        assert_eq!(fixture.dispatcher.invoke(invalid, &context()), Err(CapabilityErrorV1::InvalidInput));
    }
    assert!(fixture.invoker.calls.lock().unwrap().is_empty());
}

#[test]
fn rejects_bad_provider_output_and_redacts_provider_errors() {
    let fixture = fixture();
    *fixture.invoker.result.lock().unwrap() = Ok(ProviderOutputV1 {
        output_cbor: cbor(json_object(vec![("secret", serde_json::Value::String("leak".to_string()))])),
        metadata_cbor: None,
    });
    assert_eq!(
        fixture.dispatcher.invoke(request(&fixture.binding), &context()),
        Err(CapabilityErrorV1::InvalidOutput)
    );
    *fixture.invoker.result.lock().unwrap() = Err(ProviderInvokeError::Unavailable("credential secret".into()));
    assert_eq!(
        fixture.dispatcher.invoke(request(&fixture.binding), &context()),
        Err(CapabilityErrorV1::ProviderUnavailable)
    );
    let events = fixture.observer.0.lock().unwrap();
    assert!(events.iter().all(|event| !event.outcome.contains("secret")));
}

#[test]
fn cancellation_and_concurrency_overload_are_safe() {
    let fixture = fixture();
    let mut cancelled = context();
    cancelled.cancelled = true;
    assert_eq!(fixture.dispatcher.invoke(request(&fixture.binding), &cancelled), Err(CapabilityErrorV1::Cancelled));
    for _ in 0..fixture.binding.limits.max_concurrency {
        fixture.dispatcher.acquire(&fixture.binding).unwrap();
    }
    assert_eq!(
        fixture.dispatcher.invoke(request(&fixture.binding), &context()),
        Err(CapabilityErrorV1::Overloaded)
    );
}
