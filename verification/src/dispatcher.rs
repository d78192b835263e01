//! Runtime-neutral, fail-closed capability dispatcher.
use vstd::prelude::*;
use vstd::rwlock::{RwLock, RwLockPredicate};
use crate::binding::{
    BindingId, BindingStatusV1, CapabilityAuditEventV1, CapabilityErrorV1, CapabilityId,
    CapabilityInvocationRequestV1, CapabilityInvocationResponseV1, ExecutableBindingV1,
    ExecutableOperationV1, check_binding,
};
use crate::cbor::{canonical_bounded_json, decode_canonical_bounded};
use crate::gate::{ConcurrencyGate, acquire_effect, release_effect};
use crate::json::{schema_accepts, validate_schema};
use crate::operations::lookup;
use crate::text::{opt_text, same_text, same_opt_text, clone_opt_text};

verus! {

/// Host-owned identity and execution state. No field comes from the guest request.
#[derive(Clone, Debug, PartialEq, Eq)]
pub struct InvocationContextV1 {
    pub tenant: String,
    pub environment: String,
    pub team: Option<String>,
    pub correlation_id: String,
    /// An earlier outer deadline, if one exists.
    pub deadline_unix_ms: Option<u64>,
    pub cancelled: bool,
    /// Binding IDs already active in the host-owned dispatch chain.
    pub dispatch_chain: Vec<BindingId>,
}

/// Binding plus its independently mutable lifecycle state.
#[derive(Clone, Debug, PartialEq, Eq)]
pub struct StoredBindingV1 {
    pub binding: ExecutableBindingV1,
    pub status: BindingStatusV1,
}

#[derive(Clone, Copy, Debug, PartialEq, Eq)]
pub struct BindingStoreError;

/// Trusted binding lookup. Implementations must provide a coherent binding/status snapshot.
pub trait BindingStore: Send + Sync {
    /// `answer` is an answer this store gives when asked for the binding `id`.
    closed spec fn gives(&self, id: Seq<char>, answer: Result<Option<StoredBindingV1>, BindingStoreError>) -> bool {
        true
    }

    fn get(&self, id: &BindingId) -> (answer: Result<Option<StoredBindingV1>, BindingStoreError>)
        ensures
            self.gives(id@, answer),
    ;
}

/// Policy result includes the version actually evaluated to detect policy drift.
#[derive(Clone, Debug, PartialEq, Eq)]
pub struct PolicyDecisionV1 {
    pub allowed: bool,
    pub evaluated_version: String,
}

#[derive(Clone, Copy, Debug, PartialEq, Eq)]
pub struct PolicyEvaluationError;

/// Host policy boundary.
pub trait PolicyEvaluator: Send + Sync {
    /// `answer` is a decision this evaluator gives about `operation` of `binding` in `context`.
    closed spec fn decides(
        &self,
        binding: ExecutableBindingV1,
        operation: Seq<char>,
        context: InvocationContextV1,
        answer: Result<PolicyDecisionV1, PolicyEvaluationError>,
    ) -> bool {
        true
    }

    fn evaluate(
        &self,
        binding: &ExecutableBindingV1,
        operation: &str,
        context: &InvocationContextV1,
    ) -> (answer: Result<PolicyDecisionV1, PolicyEvaluationError>)
        ensures
            self.decides(*binding, operation@, *context, answer),
    ;
}

/// Fully trusted provider call assembled by the dispatcher.
#[derive(Clone, Debug, PartialEq, Eq)]
pub struct ProviderInvocationV1 {
    pub provider_component_ref: String,
    pub provider_digest: String,
    pub component_operation: String,
    pub payload_cbor: Vec<u8>,
    pub tenant: String,
    pub environment: String,
    pub team: Option<String>,
    pub correlation_id: String,
    pub deadline_unix_ms: u64,
    pub dispatch_chain: Vec<BindingId>,
}

#[derive(Clone, Debug, PartialEq, Eq)]
pub struct ProviderOutputV1 {
    pub output_cbor: Vec<u8>,
    pub metadata_cbor: Option<Vec<u8>>,
}

/// Internal provider failures. Detail is deliberately discarded at the guest boundary.
#[derive(Clone, Debug, PartialEq, Eq)]
pub enum ProviderInvokeError {
    Unavailable(String),
    Timeout(String),
    Cancelled(String),
    Overloaded(String),
    Protocol(String),
    Internal(String),
}

/// Generic ordinary-component invocation boundary.
pub trait ProviderInvoker: Send + Sync {
    /// `answer` is a result this invoker gives for the call `request`.
    closed spec fn responds(&self, request: ProviderInvocationV1, answer: Result<ProviderOutputV1, ProviderInvokeError>) -> bool {
        true
    }

    fn invoke(&self, request: ProviderInvocationV1) -> (answer: Result<ProviderOutputV1, ProviderInvokeError>)
        ensures
            self.responds(request, answer),
    ;
}

/// Protected audit sink. Observer failure never changes or exposes invocation results.
pub trait CapabilityObserver: Send + Sync {
    /// `event` is an event this observer has been handed.
    closed spec fn records(&self, event: CapabilityAuditEventV1) -> bool {
        true
    }

    fn observe(&self, event: CapabilityAuditEventV1)
        ensures
            self.records(event),
    ;
}

/// Monotonic-enough host clock expressed in Unix milliseconds for deadlines and audit.
pub trait DispatcherClock: Send + Sync {
    /// `now` is a reading this clock gives.
    closed spec fn reads(&self, now: u64) -> bool {
        true
    }

    fn now_unix_ms(&self) -> (now: u64)
        ensures
            self.reads(now),
    ;
}

/// The safe error that a provider failure becomes; its detail text is dropped.
pub open spec fn provider_error_class(error: ProviderInvokeError) -> CapabilityErrorV1 {
    match error {
        ProviderInvokeError::Unavailable(_) => CapabilityErrorV1::ProviderUnavailable,
        ProviderInvokeError::Timeout(_) => CapabilityErrorV1::Timeout,
        ProviderInvokeError::Cancelled(_) => CapabilityErrorV1::Cancelled,
        ProviderInvokeError::Overloaded(_) => CapabilityErrorV1::Overloaded,
        ProviderInvokeError::Protocol(_) => CapabilityErrorV1::ProtocolError,
        ProviderInvokeError::Internal(_) => CapabilityErrorV1::Internal,
    }
}

/// Maps a provider failure to the safe public error of the same kind.
pub fn map_provider_error(error: ProviderInvokeError) -> (res: CapabilityErrorV1)
    ensures
        res == provider_error_class(error),
{
    match error {
        ProviderInvokeError::Unavailable(_) => CapabilityErrorV1::ProviderUnavailable,
        ProviderInvokeError::Timeout(_) => CapabilityErrorV1::Timeout,
        ProviderInvokeError::Cancelled(_) => CapabilityErrorV1::Cancelled,
        ProviderInvokeError::Overloaded(_) => CapabilityErrorV1::Overloaded,
        ProviderInvokeError::Protocol(_) => CapabilityErrorV1::ProtocolError,
        ProviderInvokeError::Internal(_) => CapabilityErrorV1::Internal,
    }
}

/// The audit name of a safe error.
pub open spec fn error_label(error: CapabilityErrorV1) -> Seq<char> {
    match error {
        CapabilityErrorV1::BindingNotFound => "binding_not_found"@,
        CapabilityErrorV1::OperationNotAllowed => "operation_not_allowed"@,
        CapabilityErrorV1::ProviderUnavailable => "provider_unavailable"@,
        CapabilityErrorV1::InvalidInput => "invalid_input"@,
        CapabilityErrorV1::InvalidOutput => "invalid_output"@,
        CapabilityErrorV1::PolicyDenied => "policy_denied"@,
        CapabilityErrorV1::Timeout => "timeout"@,
        CapabilityErrorV1::Cancelled => "cancelled"@,
        CapabilityErrorV1::Overloaded => "overloaded"@,
        CapabilityErrorV1::ProtocolError => "protocol_error"@,
        CapabilityErrorV1::Internal => "internal"@,
    }
}

/// The audit name of a safe error.
pub fn error_name(error: CapabilityErrorV1) -> (name: &'static str)
    ensures
        name@ == error_label(error),
{
    match error {
        CapabilityErrorV1::BindingNotFound => "binding_not_found",
        CapabilityErrorV1::OperationNotAllowed => "operation_not_allowed",
        CapabilityErrorV1::ProviderUnavailable => "provider_unavailable",
        CapabilityErrorV1::InvalidInput => "invalid_input",
        CapabilityErrorV1::InvalidOutput => "invalid_output",
        CapabilityErrorV1::PolicyDenied => "policy_denied",
        CapabilityErrorV1::Timeout => "timeout",
        CapabilityErrorV1::Cancelled => "cancelled",
        CapabilityErrorV1::Overloaded => "overloaded",
        CapabilityErrorV1::ProtocolError => "protocol_error",
        CapabilityErrorV1::Internal => "internal",
    }
}

} // verus!

verus! {

/// A capability by its text.
pub open spec fn cap_view(c: Option<CapabilityId>) -> Option<Seq<char>> {
    match c {
        Some(x) => Some(x@),
        None => None,
    }
}

/// A dispatch failure by its content: the capability involved, if known, and the safe error.
pub open spec fn failure_view(f: (Option<CapabilityId>, CapabilityErrorV1)) -> (Option<Seq<char>>, CapabilityErrorV1) {
    (cap_view(f.0), f.1)
}

/// Optional bytes by their content.
pub open spec fn opt_bytes(o: Option<Vec<u8>>) -> Option<Seq<u8>> {
    match o {
        Some(b) => Some(b@),
        None => None,
    }
}

/// The identifiers of a dispatch chain.
pub open spec fn chain_view(chain: Seq<BindingId>) -> Seq<Seq<char>> {
    chain.map_values(|id: BindingId| id@)
}

/// The binding's tenant, environment and team are the caller's.
pub open spec fn scope_matches(b: ExecutableBindingV1, c: InvocationContextV1) -> bool {
    &&& b.scope.tenant@ == c.tenant@
    &&& b.scope.environment@ == c.environment@
    &&& opt_text(b.scope.team) == opt_text(c.team)
}

/// The payload is acceptable input for `op`: within the size limit, one canonical CBOR item
/// no deeper than the depth limit, and accepted by the input schema.
pub open spec fn input_ok(b: ExecutableBindingV1, op: ExecutableOperationV1, payload: Seq<u8>) -> bool {
    &&& payload.len() <= b.limits.max_request_bytes
    &&& canonical_bounded_json(payload, b.limits.max_cbor_depth) matches Some(j)
    &&& schema_accepts(op.input_schema@, j)
}

/// The checks between the store lookup and the policy, in order: `Ok` when the stored binding
/// may serve the request, otherwise the failure the first failing check gives.
pub open spec fn admission(
    request: CapabilityInvocationRequestV1,
    context: InvocationContextV1,
    stored: Result<Option<StoredBindingV1>, BindingStoreError>,
    now: u64,
) -> Result<(), (Option<Seq<char>>, CapabilityErrorV1)> {
    match stored {
        Err(_) => Err((None, CapabilityErrorV1::Internal)),
        Ok(None) => Err((None, CapabilityErrorV1::BindingNotFound)),
        Ok(Some(s)) => {
            let b = s.binding;
            let cap = Some(b.capability@);
            if check_binding(b) is Err {
                Err((cap, CapabilityErrorV1::ProtocolError))
            } else if !(s.status is Active) {
                Err((cap, CapabilityErrorV1::BindingNotFound))
            } else if b.expires_at_unix_ms matches Some(e) && now >= e {
                Err((cap, CapabilityErrorV1::BindingNotFound))
            } else if !scope_matches(b, context) {
                Err((cap, CapabilityErrorV1::BindingNotFound))
            } else if chain_view(context.dispatch_chain@).contains(request.binding_id@) {
                Err((cap, CapabilityErrorV1::PolicyDenied))
            } else if context.dispatch_chain@.len() >= b.limits.max_dispatch_depth {
                Err((cap, CapabilityErrorV1::PolicyDenied))
            } else {
                match lookup(b.operations.entries(), request.operation@) {
                    None => Err((cap, CapabilityErrorV1::OperationNotAllowed)),
                    Some(op) => if !input_ok(b, op, request.payload_cbor@) {
                        Err((cap, CapabilityErrorV1::InvalidInput))
                    } else {
                        Ok(())
                    },
                }
            }
        },
    }
}

/// Whether `chain` holds `id`.
pub fn chain_contains(chain: &Vec<BindingId>, id: &BindingId) -> (res: bool)
    ensures
        res == chain_view(chain@).contains(id@),
{
    let mut i: usize = 0;
    while i < chain.len()
        invariant
            i <= chain.len(),
            forall|j: int| 0 <= j < i ==> (#[trigger] chain@[j])@ != id@,
        decreases chain.len() - i,
    {
        if chain[i].same_as(id) {
            proof {
                assert(chain_view(chain@)[i as int] == id@);
            }
            return true;
        }
        i = i + 1;
    }
    proof {
        assert forall|j: int| 0 <= j < chain_view(chain@).len() implies #[trigger] chain_view(chain@)[j] != id@ by {
            assert(chain_view(chain@)[j] == chain@[j]@);
        }
    }
    false
}

/// Whether `payload` is acceptable input for `op`.
pub fn check_input(binding: &ExecutableBindingV1, op: &ExecutableOperationV1, payload: &[u8]) -> (ok: bool)
    ensures
        ok == input_ok(*binding, *op, payload@),
{
    if payload.len() as u64 > binding.limits.max_request_bytes {
        return false;
    }
    match decode_canonical_bounded(payload, binding.limits.max_cbor_depth) {
        Some(instance) => validate_schema(&op.input_schema, &instance),
        None => false,
    }
}

/// Runs the checks between the store lookup and the policy on what the store returned, and
/// hands back the binding when it may serve the request.
pub fn screen_stored(
    request: &CapabilityInvocationRequestV1,
    context: &InvocationContextV1,
    stored: Result<Option<StoredBindingV1>, BindingStoreError>,
    now: u64,
) -> (res: Result<ExecutableBindingV1, (Option<CapabilityId>, CapabilityErrorV1)>)
    ensures
        match res {
            Ok(b) => admission(*request, *context, stored, now) is Ok && (stored matches Ok(Some(s)) && s.binding == b),
            Err(f) => admission(*request, *context, stored, now) == Err::<(), (Option<Seq<char>>, CapabilityErrorV1)>(failure_view(f)),
        },
{
    let stored_binding = match stored {
        Err(_) => return Err((None, CapabilityErrorV1::Internal)),
        Ok(None) => return Err((None, CapabilityErrorV1::BindingNotFound)),
        Ok(Some(s)) => s,
    };
    let StoredBindingV1 { binding, status } = stored_binding;
    if binding.validate().is_err() {
        return Err((Some(binding.capability.clone()), CapabilityErrorV1::ProtocolError));
    }
    match status {
        BindingStatusV1::Active => {},
        _ => return Err((Some(binding.capability.clone()), CapabilityErrorV1::BindingNotFound)),
    }
    match binding.expires_at_unix_ms {
        Some(expiry) => {
            if now >= expiry {
                return Err((Some(binding.capability.clone()), CapabilityErrorV1::BindingNotFound));
            }
        },
        None => {},
    }
    if !same_text(&binding.scope.tenant, &context.tenant) || !same_text(&binding.scope.environment, &context.environment)
        || !same_opt_text(&binding.scope.team, &context.team) {
        return Err((Some(binding.capability.clone()), CapabilityErrorV1::BindingNotFound));
    }
    if chain_contains(&context.dispatch_chain, &request.binding_id) {
        return Err((Some(binding.capability.clone()), CapabilityErrorV1::PolicyDenied));
    }
    if context.dispatch_chain.len() >= binding.limits.max_dispatch_depth as usize {
        return Err((Some(binding.capability.clone()), CapabilityErrorV1::PolicyDenied));
    }
    let accepted = match binding.operations.get(request.operation.as_str()) {
        None => {
            return Err((Some(binding.capability.clone()), CapabilityErrorV1::OperationNotAllowed));
        },
        Some(op) => check_input(&binding, op, request.payload_cbor.as_slice()),
    };
    if !accepted {
        return Err((Some(binding.capability.clone()), CapabilityErrorV1::InvalidInput));
    }
    Ok(binding)
}

/// The policy allowed the call, evaluating the version the binding pins.
pub open spec fn policy_allows(b: ExecutableBindingV1, decision: Result<PolicyDecisionV1, PolicyEvaluationError>) -> bool {
    decision matches Ok(d) && d.allowed && d.evaluated_version@ == b.policy.version@
}

/// Whether the policy's answer lets the call proceed.
pub fn check_policy_decision(binding: &ExecutableBindingV1, decision: &Result<PolicyDecisionV1, PolicyEvaluationError>) -> (ok: bool)
    ensures
        ok == policy_allows(*binding, *decision),
{
    match decision {
        Ok(d) => d.allowed && same_text(&d.evaluated_version, &binding.policy.version),
        Err(_) => false,
    }
}

/// The deadline of a call started at `now`: its own timeout, saturating, or the earlier
/// outer deadline.
pub open spec fn deadline_for(now: u64, timeout: u64, outer: Option<u64>) -> u64 {
    let own: u64 = if now + timeout > u64::MAX { u64::MAX } else { (now + timeout) as u64 };
    match outer {
        Some(o) => if o < own { o } else { own },
        None => own,
    }
}

/// The deadline of a call started at `now`.
pub fn invocation_deadline(now: u64, timeout: u64, outer: Option<u64>) -> (d: u64)
    ensures
        d == deadline_for(now, timeout, outer),
{
    let own = now.saturating_add(timeout);
    match outer {
        Some(o) => if o < own { o } else { own },
        None => own,
    }
}

/// The provider's output may be released: within the size limits, canonical and shallow
/// enough, accepted by the output schema, with well-formed metadata if any.
pub open spec fn output_ok(b: ExecutableBindingV1, op: ExecutableOperationV1, out: ProviderOutputV1) -> bool {
    &&& out.output_cbor@.len() <= b.limits.max_response_bytes
    &&& !(out.metadata_cbor matches Some(m) && m@.len() > b.limits.max_metadata_bytes)
    &&& canonical_bounded_json(out.output_cbor@, b.limits.max_cbor_depth) matches Some(j)
    &&& schema_accepts(op.output_schema@, j)
    &&& !(out.metadata_cbor matches Some(m) && canonical_bounded_json(m@, b.limits.max_cbor_depth) is None)
}

/// Whether the provider's output may be released.
pub fn check_output(binding: &ExecutableBindingV1, op: &ExecutableOperationV1, out: &ProviderOutputV1) -> (ok: bool)
    ensures
        ok == output_ok(*binding, *op, *out),
{
    if out.output_cbor.len() as u64 > binding.limits.max_response_bytes {
        return false;
    }
    match &out.metadata_cbor {
        Some(m) => {
            if m.len() as u64 > binding.limits.max_metadata_bytes {
                return false;
            }
        },
        None => {},
    }
    let instance = match decode_canonical_bounded(out.output_cbor.as_slice(), binding.limits.max_cbor_depth) {
        Some(j) => j,
        None => return false,
    };
    if !validate_schema(&op.output_schema, &instance) {
        return false;
    }
    match &out.metadata_cbor {
        Some(m) => decode_canonical_bounded(m.as_slice(), binding.limits.max_cbor_depth).is_some(),
        None => true,
    }
}

/// What the provider's answer, observed at `finished`, makes of the call.
pub open spec fn settlement(
    b: ExecutableBindingV1,
    op: ExecutableOperationV1,
    provider: Result<ProviderOutputV1, ProviderInvokeError>,
    finished: u64,
    deadline: u64,
) -> Result<(), CapabilityErrorV1> {
    match provider {
        Err(e) => Err(provider_error_class(e)),
        Ok(out) => if finished > deadline {
            Err(CapabilityErrorV1::Timeout)
        } else if !output_ok(b, op, out) {
            Err(CapabilityErrorV1::InvalidOutput)
        } else {
            Ok(())
        },
    }
}

/// `inv` is the call the dispatcher makes for `request`: the pinned provider and mapped
/// operation, the caller's payload and host context, the deadline, and the dispatch chain
/// extended by this binding.
pub open spec fn invocation_for(
    b: ExecutableBindingV1,
    op: ExecutableOperationV1,
    request: CapabilityInvocationRequestV1,
    context: InvocationContextV1,
    deadline: u64,
    inv: ProviderInvocationV1,
) -> bool {
    &&& inv.provider_component_ref@ == b.provider_component_ref@
    &&& inv.provider_digest@ == b.provider_digest@
    &&& inv.component_operation@ == op.component_operation@
    &&& inv.payload_cbor@ == request.payload_cbor@
    &&& inv.tenant@ == context.tenant@
    &&& inv.environment@ == context.environment@
    &&& opt_text(inv.team) == opt_text(context.team)
    &&& inv.correlation_id@ == context.correlation_id@
    &&& inv.deadline_unix_ms == deadline
    &&& chain_view(inv.dispatch_chain@) == chain_view(context.dispatch_chain@).push(request.binding_id@)
}

/// A copy of a dispatch chain.
fn clone_chain(chain: &Vec<BindingId>) -> (res: Vec<BindingId>)
    ensures
        chain_view(res@) == chain_view(chain@),
{
    let mut res: Vec<BindingId> = Vec::new();
    let mut i: usize = 0;
    while i < chain.len()
        invariant
            i <= chain.len(),
            res@.len() == i,
            forall|j: int| 0 <= j < i ==> (#[trigger] res@[j])@ == chain@[j]@,
        decreases chain.len() - i,
    {
        res.push(chain[i].clone());
        i = i + 1;
    }
    proof {
        assert(chain_view(res@) =~= chain_view(chain@));
    }
    res
}

/// Assembles the provider call for `request` from the binding, the mapped operation and the
/// host context; the guest supplies only the payload.
pub fn provider_invocation(
    binding: &ExecutableBindingV1,
    op: &ExecutableOperationV1,
    request: &CapabilityInvocationRequestV1,
    context: &InvocationContextV1,
    deadline: u64,
) -> (inv: ProviderInvocationV1)
    ensures
        invocation_for(*binding, *op, *request, *context, deadline, inv),
{
    let mut chain = clone_chain(&context.dispatch_chain);
    chain.push(request.binding_id.clone());
    proof {
        assert(chain_view(chain@) =~= chain_view(context.dispatch_chain@).push(request.binding_id@));
    }
    ProviderInvocationV1 {
        provider_component_ref: binding.provider_component_ref.clone(),
        provider_digest: binding.provider_digest.clone(),
        component_operation: op.component_operation.clone(),
        payload_cbor: vstd::slice::slice_to_vec(request.payload_cbor.as_slice()),
        tenant: context.tenant.clone(),
        environment: context.environment.clone(),
        team: clone_opt_text(&context.team),
        correlation_id: context.correlation_id.clone(),
        deadline_unix_ms: deadline,
        dispatch_chain: chain,
    }
}

} // verus!

verus! {

/// What the outside collaborators answered during one dispatch, and what the dispatch did
/// to the concurrency gate.
pub struct DispatchTrace {
    pub stored: Result<Option<StoredBindingV1>, BindingStoreError>,
    pub decision: Result<PolicyDecisionV1, PolicyEvaluationError>,
    pub admitted: bool,
    pub invocation: ProviderInvocationV1,
    pub provider: Result<ProviderOutputV1, ProviderInvokeError>,
    pub finished: u64,
    /// The in-flight counts just before and just after the dispatch asked to admit the call.
    pub gate_on_acquire: Option<(ConcurrencyGate, ConcurrencyGate)>,
    /// The in-flight counts just before and just after the dispatch reported the call finished.
    pub gate_on_release: Option<(ConcurrencyGate, ConcurrencyGate)>,
}

/// What a dispatch did to the in-flight counts, by binding identifier: an
/// admitted call took one slot of its binding below `max_concurrency` and gave exactly one
/// back; a call that was turned away found its binding at the limit and left the count as
/// it was; no other binding's count moved; a call never admitted gave nothing back.
pub open spec fn gate_accounting(t: DispatchTrace) -> bool {
    let id = traced_binding(t).binding_id@;
    let max = traced_binding(t).limits.max_concurrency;
    &&& t.admitted ==> t.gate_on_acquire is Some
    &&& t.gate_on_acquire matches Some((g0, g1)) ==> {
        &&& t.admitted ==> g0.count_of(id) < max && g1.count_of(id) == g0.count_of(id) + 1
        &&& !t.admitted ==> g0.count_of(id) >= max && g1.count_of(id) == g0.count_of(id)
        &&& forall|k: Seq<char>| k != id ==> #[trigger] g1.count_of(k) == g0.count_of(k)
    }
    &&& t.admitted <==> t.gate_on_release is Some
    &&& t.gate_on_release matches Some((h0, h1)) ==> {
        &&& h0.count_of(id) > 0 ==> h1.count_of(id) + 1 == h0.count_of(id)
        &&& h0.count_of(id) == 0 ==> h1.count_of(id) == 0
        &&& forall|k: Seq<char>| k != id ==> #[trigger] h1.count_of(k) == h0.count_of(k)
    }
}

/// A dispatch hands back the slot it took: when no other call touched the counts between
/// its admission and its end, every binding's in-flight count afterwards is what it was
/// before the dispatch, whatever the dispatch's outcome.
pub proof fn lemma_dispatch_restores_gate(t: DispatchTrace)
    requires
        gate_accounting(t),
        t.admitted,
        t.gate_on_release->Some_0.0 == t.gate_on_acquire->Some_0.1,
    ensures
        forall|k: Seq<char>| #[trigger] t.gate_on_release->Some_0.1.count_of(k) == t.gate_on_acquire->Some_0.0.count_of(k),
{
    let id = traced_binding(t).binding_id@;
    let (g0, g1) = t.gate_on_acquire->Some_0;
    let (h0, h1) = t.gate_on_release->Some_0;
    assert forall|k: Seq<char>| #[trigger] h1.count_of(k) == g0.count_of(k) by {
        if k != id {
            assert(g1.count_of(k) == g0.count_of(k));
            assert(h1.count_of(k) == h0.count_of(k));
        }
    }
}

/// The collaborators' answers in `t` are theirs, each to the question the dispatch asks:
/// the store about the requested binding identifier, the policy about the stored binding,
/// the requested operation and the host context, the invoker about the assembled call, and
/// the clock for the time the provider returned.
pub open spec fn answered_by<S: BindingStore, P: PolicyEvaluator, I: ProviderInvoker, C: DispatcherClock>(
    store: S,
    policy: P,
    invoker: I,
    clock: C,
    request: CapabilityInvocationRequestV1,
    context: InvocationContextV1,
    now: u64,
    t: DispatchTrace,
) -> bool {
    &&& !context.cancelled ==> store.gives(request.binding_id@, t.stored)
    &&& (!context.cancelled && admission(request, context, t.stored, now) is Ok) ==> policy.decides(
        traced_binding(t),
        request.operation@,
        context,
        t.decision,
    )
    &&& reached_provider(request, context, now, t) ==> invoker.responds(t.invocation, t.provider)
    &&& (reached_provider(request, context, now, t) && t.provider is Ok) ==> clock.reads(t.finished)
}

/// A dispatch outcome by its content: the capability and response on success, the
/// capability (if known) and safe error on failure.
pub type OutcomeView = Result<(Seq<char>, Seq<u8>, Option<Seq<u8>>), (Option<Seq<char>>, CapabilityErrorV1)>;

/// The binding a successful lookup returned.
pub open spec fn traced_binding(t: DispatchTrace) -> ExecutableBindingV1 {
    t.stored->Ok_0->Some_0.binding
}

/// The operation `request` names in the binding a successful lookup returned.
pub open spec fn traced_operation(request: CapabilityInvocationRequestV1, t: DispatchTrace) -> ExecutableOperationV1 {
    lookup(traced_binding(t).operations.entries(), request.operation@)->Some_0
}

/// The dispatch got as far as calling the provider.
pub open spec fn reached_provider(
    request: CapabilityInvocationRequestV1,
    context: InvocationContextV1,
    now: u64,
    t: DispatchTrace,
) -> bool {
    let b = traced_binding(t);
    &&& !context.cancelled
    &&& admission(request, context, t.stored, now) is Ok
    &&& policy_allows(b, t.decision)
    &&& deadline_for(now, b.limits.timeout_ms, context.deadline_unix_ms) > now
    &&& t.admitted
}

/// The outcome of dispatching `request` in `context` at `now`, given what the store, the
/// policy, the concurrency gate, the provider and the clock returned. Checks run in order:
/// cancellation, screening of the stored binding, policy, deadline, concurrency, provider result.
pub open spec fn dispatch_outcome(
    request: CapabilityInvocationRequestV1,
    context: InvocationContextV1,
    now: u64,
    t: DispatchTrace,
) -> OutcomeView {
    if context.cancelled {
        Err((None, CapabilityErrorV1::Cancelled))
    } else {
        match admission(request, context, t.stored, now) {
            Err(f) => Err(f),
            Ok(()) => {
                let b = traced_binding(t);
                let op = traced_operation(request, t);
                let cap = Some(b.capability@);
                let deadline = deadline_for(now, b.limits.timeout_ms, context.deadline_unix_ms);
                if !policy_allows(b, t.decision) {
                    Err((cap, CapabilityErrorV1::PolicyDenied))
                } else if deadline <= now {
                    Err((cap, CapabilityErrorV1::Timeout))
                } else if !t.admitted {
                    Err((cap, CapabilityErrorV1::Overloaded))
                } else {
                    match settlement(b, op, t.provider, t.finished, deadline) {
                        Err(e) => Err((cap, e)),
                        Ok(()) => Ok((
                            b.capability@,
                            t.provider->Ok_0.output_cbor@,
                            opt_bytes(t.provider->Ok_0.metadata_cbor),
                        )),
                    }
                }
            },
        }
    }
}

/// An inner result by its content.
pub open spec fn inner_view(
    r: Result<(CapabilityId, CapabilityInvocationResponseV1), (Option<CapabilityId>, CapabilityErrorV1)>,
) -> OutcomeView {
    match r {
        Ok((cap, resp)) => Ok((cap@, resp.output_cbor@, opt_bytes(resp.metadata_cbor))),
        Err(f) => Err(failure_view(f)),
    }
}

/// A public result by its content, without the capability.
pub open spec fn response_view(r: Result<CapabilityInvocationResponseV1, CapabilityErrorV1>) -> Result<(Seq<u8>, Option<Seq<u8>>), CapabilityErrorV1> {
    match r {
        Ok(resp) => Ok((resp.output_cbor@, opt_bytes(resp.metadata_cbor))),
        Err(e) => Err(e),
    }
}

/// An outcome without the capability.
pub open spec fn public_view(o: OutcomeView) -> Result<(Seq<u8>, Option<Seq<u8>>), CapabilityErrorV1> {
    match o {
        Ok((_, out, meta)) => Ok((out, meta)),
        Err((_, e)) => Err(e),
    }
}

/// The milliseconds from `start` to `end`, zero when the clock went back.
pub open spec fn elapsed_between(start: u64, end: u64) -> u64 {
    if end >= start { (end - start) as u64 } else { 0 }
}

/// The audit outcome text of a dispatch outcome.
pub open spec fn outcome_label(o: OutcomeView) -> Seq<char> {
    match o {
        Ok(_) => "success"@,
        Err((_, e)) => error_label(e),
    }
}

/// The audit record of a dispatch: the host context, the requested binding and operation,
/// the capability when known, the outcome's label, and the elapsed time.
pub open spec fn audit_record(
    request: CapabilityInvocationRequestV1,
    context: InvocationContextV1,
    o: OutcomeView,
    elapsed: u64,
    event: CapabilityAuditEventV1,
) -> bool {
    &&& event.correlation_id@ == context.correlation_id@
    &&& event.binding_id@ == request.binding_id@
    &&& cap_view(event.capability) == match o {
        Ok((cap, _, _)) => Some(cap),
        Err((cap, _)) => cap,
    }
    &&& event.operation@ == request.operation@
    &&& event.tenant@ == context.tenant@
    &&& event.environment@ == context.environment@
    &&& opt_text(event.team) == opt_text(context.team)
    &&& event.outcome@ == outcome_label(o)
    &&& event.elapsed_ms == elapsed
}

/// Status and policy are read afresh on every call: a dispatch that succeeds acted on the
/// store's answer for the requested binding identifier, which was an active binding, and on
/// the policy's answer about that binding, the requested operation and the host context.
pub proof fn lemma_every_success_reads_store_and_policy<S: BindingStore, P: PolicyEvaluator, I: ProviderInvoker, C: DispatcherClock>(
    store: S,
    policy: P,
    invoker: I,
    clock: C,
    request: CapabilityInvocationRequestV1,
    context: InvocationContextV1,
    now: u64,
    t: DispatchTrace,
)
    requires
        answered_by(store, policy, invoker, clock, request, context, now, t),
        dispatch_outcome(request, context, now, t) is Ok,
    ensures
        store.gives(request.binding_id@, t.stored),
        t.stored matches Ok(Some(s)) && s.status is Active,
        policy.decides(traced_binding(t), request.operation@, context, t.decision),
        policy_allows(traced_binding(t), t.decision),
        invoker.responds(t.invocation, t.provider),
{
    lemma_success_is_fully_checked(request, context, now, t);
}

/// Status and policy are read afresh on every call, never carried over: after a call that
/// succeeded, a later call for the same request whose store now reports that binding
/// revoked finds no binding, and a later call that sees the same store answer at the same
/// time but whose policy now evaluates another version than the pinned one is denied.
pub proof fn lemma_status_and_policy_read_afresh<S: BindingStore, P: PolicyEvaluator, I: ProviderInvoker, C: DispatcherClock>(
    store: S,
    policy: P,
    invoker: I,
    clock: C,
    request: CapabilityInvocationRequestV1,
    context: InvocationContextV1,
    first_now: u64,
    first: DispatchTrace,
    now: u64,
    t: DispatchTrace,
)
    requires
        answered_by(store, policy, invoker, clock, request, context, first_now, first),
        dispatch_outcome(request, context, first_now, first) is Ok,
        answered_by(store, policy, invoker, clock, request, context, now, t),
    ensures
        (t.stored matches Ok(Some(s)) && s.binding == traced_binding(first) && s.status is Revoked)
            ==> dispatch_outcome(request, context, now, t) == Err::<(Seq<char>, Seq<u8>, Option<Seq<u8>>), (Option<Seq<char>>, CapabilityErrorV1)>(
            (Some(traced_binding(first).capability@), CapabilityErrorV1::BindingNotFound),
        ),
        (t.stored == first.stored && now == first_now && (t.decision matches Ok(d)
            && d.evaluated_version@ != traced_binding(first).policy.version@))
            ==> dispatch_outcome(request, context, now, t) == Err::<(Seq<char>, Seq<u8>, Option<Seq<u8>>), (Option<Seq<char>>, CapabilityErrorV1)>(
            (Some(traced_binding(first).capability@), CapabilityErrorV1::PolicyDenied),
        ),
{
    lemma_success_is_fully_checked(request, context, first_now, first);
}

/// Dispatch fails closed: a request succeeds only when the binding was found, intact,
/// active, unexpired and in the caller's scope, the call is not a cycle and not too deep,
/// the operation is mapped, the input is valid, the policy allows the pinned version, the
/// deadline has not passed, the concurrency limit admitted the call, and the provider returned valid,
/// bounded output in time.
pub proof fn lemma_success_is_fully_checked(
    request: CapabilityInvocationRequestV1,
    context: InvocationContextV1,
    now: u64,
    t: DispatchTrace,
)
    requires
        dispatch_outcome(request, context, now, t) is Ok,
    ensures
        !context.cancelled,
        t.stored matches Ok(Some(s)) && s.binding == traced_binding(t) && s.status is Active,
        check_binding(traced_binding(t)) is Ok,
        scope_matches(traced_binding(t), context),
        !(traced_binding(t).expires_at_unix_ms matches Some(e) && now >= e),
        !chain_view(context.dispatch_chain@).contains(request.binding_id@),
        context.dispatch_chain@.len() < traced_binding(t).limits.max_dispatch_depth,
        lookup(traced_binding(t).operations.entries(), request.operation@) == Some(traced_operation(request, t)),
        input_ok(traced_binding(t), traced_operation(request, t), request.payload_cbor@),
        policy_allows(traced_binding(t), t.decision),
        deadline_for(now, traced_binding(t).limits.timeout_ms, context.deadline_unix_ms) > now,
        t.admitted,
        t.provider matches Ok(out) && output_ok(traced_binding(t), traced_operation(request, t), out),
        t.finished <= deadline_for(now, traced_binding(t).limits.timeout_ms, context.deadline_unix_ms),
{
}

/// The policy's own answer decides: a dispatch succeeds only when the policy answered a
/// decision that allows the call and evaluated the version the binding pins, and once the
/// binding passed screening, a decision that does not allow the call, an evaluation that
/// failed, or one of another version ends the dispatch as `PolicyDenied`, before the
/// provider is called, whatever the provider would have answered.
pub proof fn lemma_policy_decision_is_binding(
    request: CapabilityInvocationRequestV1,
    context: InvocationContextV1,
    now: u64,
    t: DispatchTrace,
    u: DispatchTrace,
)
    ensures
        dispatch_outcome(request, context, now, t) is Ok ==> (t.decision matches Ok(d) && d.allowed
            && d.evaluated_version@ == traced_binding(t).policy.version@),
        !context.cancelled && admission(request, context, t.stored, now) is Ok && !(t.decision matches Ok(d) && d.allowed
            && d.evaluated_version@ == traced_binding(t).policy.version@) ==> {
            &&& dispatch_outcome(request, context, now, t) == Err::<(Seq<char>, Seq<u8>, Option<Seq<u8>>), (Option<Seq<char>>, CapabilityErrorV1)>(
                (Some(traced_binding(t).capability@), CapabilityErrorV1::PolicyDenied))
            &&& !reached_provider(request, context, now, t)
            &&& (u.stored == t.stored && u.decision == t.decision ==> dispatch_outcome(request, context, now, u)
                == dispatch_outcome(request, context, now, t))
        },
{
}

/// What the provider answers (and when) cannot change a dispatch that never reached it,
/// and every such dispatch fails.
pub proof fn lemma_unreached_provider_is_irrelevant(
    request: CapabilityInvocationRequestV1,
    context: InvocationContextV1,
    now: u64,
    t1: DispatchTrace,
    t2: DispatchTrace,
)
    requires
        t1.stored == t2.stored,
        t1.decision == t2.decision,
        t1.admitted == t2.admitted,
        !reached_provider(request, context, now, t1),
    ensures
        dispatch_outcome(request, context, now, t1) == dispatch_outcome(request, context, now, t2),
        dispatch_outcome(request, context, now, t1) is Err,
{
}

/// Provider error detail never reaches the caller: two provider failures of the same kind,
/// whatever their text, give the same outcome.
pub proof fn lemma_provider_detail_is_redacted(
    request: CapabilityInvocationRequestV1,
    context: InvocationContextV1,
    now: u64,
    t1: DispatchTrace,
    t2: DispatchTrace,
    e1: ProviderInvokeError,
    e2: ProviderInvokeError,
)
    requires
        t1.stored == t2.stored,
        t1.decision == t2.decision,
        t1.admitted == t2.admitted,
        t1.provider == Err::<ProviderOutputV1, ProviderInvokeError>(e1),
        t2.provider == Err::<ProviderOutputV1, ProviderInvokeError>(e2),
        provider_error_class(e1) == provider_error_class(e2),
    ensures
        dispatch_outcome(request, context, now, t1) == dispatch_outcome(request, context, now, t2),
{
}

/// The audit outcome of any dispatch is `success` or the fixed name of a safe error.
pub proof fn lemma_audit_outcome_is_fixed_text(o: OutcomeView)
    ensures
        outcome_label(o) == "success"@ || exists|e: CapabilityErrorV1| outcome_label(o) == #[trigger] error_label(e),
{
    match o {
        Ok(_) => {},
        Err((_, e)) => {
            assert(outcome_label(o) == error_label(e));
        },
    }
}

/// Lock predicate of the concurrency gate: its entries stay well formed.
pub struct GateInvariant;

impl RwLockPredicate<ConcurrencyGate> for GateInvariant {
    open spec fn inv(self, g: ConcurrencyGate) -> bool {
        g.wf()
    }
}

/// Runtime-neutral dispatcher with an in-process concurrency gate.
pub struct CapabilityDispatcher<S, P, I, O, C> {
    store: S,
    policy: P,
    invoker: I,
    observer: O,
    clock: C,
    active: RwLock<ConcurrencyGate, GateInvariant>,
}

impl<S, P, I, O, C> CapabilityDispatcher<S, P, I, O, C> where
    S: BindingStore,
    P: PolicyEvaluator,
    I: ProviderInvoker,
    O: CapabilityObserver,
    C: DispatcherClock,
 {
    /// The binding store the dispatcher reads.
    pub closed spec fn store(&self) -> S {
        self.store
    }

    /// The policy evaluator the dispatcher asks.
    pub closed spec fn policy(&self) -> P {
        self.policy
    }

    /// The provider invoker the dispatcher calls.
    pub closed spec fn invoker(&self) -> I {
        self.invoker
    }

    /// The observer the dispatcher reports audit events to.
    pub closed spec fn observer(&self) -> O {
        self.observer
    }

    /// The clock the dispatcher reads.
    pub closed spec fn clock(&self) -> C {
        self.clock
    }

    /// A dispatcher over the given collaborators, with no invocation in flight.
    pub fn new(store: S, policy: P, invoker: I, observer: O, clock: C) -> (d: Self)
        ensures
            d.store() == store,
            d.policy() == policy,
            d.invoker() == invoker,
            d.observer() == observer,
            d.clock() == clock,
    {
        CapabilityDispatcher {
            store,
            policy,
            invoker,
            observer,
            clock,
            active: RwLock::new(ConcurrencyGate::new(), Ghost(GateInvariant)),
        }
    }

    /// Resolves, authorizes, validates, maps, invokes, validates, and audits one request.
    pub fn invoke(&self, request: CapabilityInvocationRequestV1, context: &InvocationContextV1) -> (res: Result<
        CapabilityInvocationResponseV1,
        CapabilityErrorV1,
    >)
        ensures
            context.cancelled ==> res == Err::<CapabilityInvocationResponseV1, CapabilityErrorV1>(CapabilityErrorV1::Cancelled),
            exists|now: u64, t: DispatchTrace, last: u64, event: CapabilityAuditEventV1| {
                &&& self.clock().reads(now)
                &&& answered_by(self.store(), self.policy(), self.invoker(), self.clock(), request, *context, now, t)
                &&& response_view(res) == public_view(dispatch_outcome(request, *context, now, t))
                &&& self.clock().reads(last)
                &&& self.observer().records(event)
                &&& #[trigger] audit_record(request, *context, dispatch_outcome(request, *context, now, t), elapsed_between(now, last), event)
                &&& gate_accounting(t)
                &&& reached_provider(request, *context, now, t) ==> invocation_for(
                    traced_binding(t),
                    traced_operation(request, t),
                    request,
                    *context,
                    deadline_for(now, traced_binding(t).limits.timeout_ms, context.deadline_unix_ms),
                    t.invocation,
                )
            },
    {
        let started = self.clock.now_unix_ms();
        let (result, Ghost(trace)) = self.invoke_inner(&request, context, started);
        let last = self.clock.now_unix_ms();
        let elapsed = last.saturating_sub(started);
        let event = dispatch_audit_event(&request, context, &result, elapsed);
        let ghost recorded = event;
        self.observer.observe(event);
        proof {
            assert(elapsed == elapsed_between(started, last));
            assert(audit_record(request, *context, dispatch_outcome(request, *context, started, trace), elapsed_between(started, last), recorded));
            assert(reached_provider(request, *context, started, trace) ==> invocation_for(
                traced_binding(trace),
                traced_operation(request, trace),
                request,
                *context,
                deadline_for(started, traced_binding(trace).limits.timeout_ms, context.deadline_unix_ms),
                trace.invocation,
            ));
            assert(gate_accounting(trace));
            assert(response_view(match result {
                Ok((_, response)) => Ok(response),
                Err((_, error)) => Err(error),
            }) == public_view(dispatch_outcome(request, *context, started, trace)));
        }
        match result {
            Ok((_, response)) => Ok(response),
            Err((_, error)) => Err(error),
        }
    }

    /// One dispatch, reporting what the collaborators answered.
    fn invoke_inner(
        &self,
        request: &CapabilityInvocationRequestV1,
        context: &InvocationContextV1,
        now: u64,
    ) -> (res: (
        Result<(CapabilityId, CapabilityInvocationResponseV1), (Option<CapabilityId>, CapabilityErrorV1)>,
        Ghost<DispatchTrace>,
    ))
        ensures
            inner_view(res.0) == dispatch_outcome(*request, *context, now, res.1@),
            gate_accounting(res.1@),
            answered_by(self.store(), self.policy(), self.invoker(), self.clock(), *request, *context, now, res.1@),
            reached_provider(*request, *context, now, res.1@) ==> invocation_for(
                traced_binding(res.1@),
                traced_operation(*request, res.1@),
                *request,
                *context,
                deadline_for(now, traced_binding(res.1@).limits.timeout_ms, context.deadline_unix_ms),
                res.1@.invocation,
            ),
    {
        let ghost mut trace = DispatchTrace {
            stored: arbitrary(),
            decision: arbitrary(),
            admitted: false,
            invocation: arbitrary(),
            provider: arbitrary(),
            finished: arbitrary(),
            gate_on_acquire: None,
            gate_on_release: None,
        };
        if context.cancelled {
            return (Err((None, CapabilityErrorV1::Cancelled)), Ghost(trace));
        }
        let stored = self.store.get(&request.binding_id);
        proof {
            trace.stored = stored;
        }
        let binding = match screen_stored(request, context, stored, now) {
            Ok(b) => b,
            Err(f) => return (Err(f), Ghost(trace)),
        };
        let op = match binding.operations.get(request.operation.as_str()) {
            Some(op) => op,
            None => return (Err((Some(binding.capability.clone()), CapabilityErrorV1::OperationNotAllowed)), Ghost(trace)),
        };
        let decision = self.policy.evaluate(&binding, request.operation.as_str(), context);
        proof {
            trace.decision = decision;
        }
        if !check_policy_decision(&binding, &decision) {
            return (Err((Some(binding.capability.clone()), CapabilityErrorV1::PolicyDenied)), Ghost(trace));
        }
        let deadline = invocation_deadline(now, binding.limits.timeout_ms, context.deadline_unix_ms);
        if deadline <= now {
            return (Err((Some(binding.capability.clone()), CapabilityErrorV1::Timeout)), Ghost(trace));
        }
        let (admitted, Ghost(taken)) = self.acquire_gate(&binding);
        proof {
            trace.admitted = admitted;
            trace.gate_on_acquire = Some(taken);
        }
        if !admitted {
            return (Err((Some(binding.capability.clone()), CapabilityErrorV1::Overloaded)), Ghost(trace));
        }
        let invocation = provider_invocation(&binding, op, request, context, deadline);
        proof {
            trace.invocation = invocation;
        }
        let provider_result = self.invoker.invoke(invocation);
        proof {
            trace.provider = provider_result;
        }
        let output = match provider_result {
            Ok(out) => out,
            Err(error) => {
                let Ghost(given) = self.release_gate(&binding.binding_id);
                proof {
                    trace.gate_on_release = Some(given);
                }
                return (Err((Some(binding.capability.clone()), map_provider_error(error))), Ghost(trace));
            },
        };
        let finished = self.clock.now_unix_ms();
        proof {
            trace.finished = finished;
        }
        if finished > deadline {
            let Ghost(given) = self.release_gate(&binding.binding_id);
            proof {
                trace.gate_on_release = Some(given);
            }
            return (Err((Some(binding.capability.clone()), CapabilityErrorV1::Timeout)), Ghost(trace));
        }
        let output_ok = check_output(&binding, op, &output);
        let Ghost(given) = self.release_gate(&binding.binding_id);
        proof {
            trace.gate_on_release = Some(given);
        }
        if !output_ok {
            return (Err((Some(binding.capability.clone()), CapabilityErrorV1::InvalidOutput)), Ghost(trace));
        }
        let ProviderOutputV1 { output_cbor, metadata_cbor } = output;
        (Ok((binding.capability.clone(), CapabilityInvocationResponseV1 { output_cbor, metadata_cbor })), Ghost(trace))
    }

    /// Admits one more in-flight invocation of `binding` when fewer than its
    /// `max_concurrency` are running; otherwise fails with `Overloaded`. How many are
    /// running is held behind the dispatcher's lock, so only a limit of zero decides the
    /// outcome in advance: nothing is ever admitted under it.
    pub fn acquire(&self, binding: &ExecutableBindingV1) -> (res: Result<(), CapabilityErrorV1>)
        ensures
            res is Err ==> res == Err::<(), CapabilityErrorV1>(CapabilityErrorV1::Overloaded),
            binding.limits.max_concurrency == 0 ==> res == Err::<(), CapabilityErrorV1>(CapabilityErrorV1::Overloaded),
    {
        let (granted, _) = self.acquire_gate(binding);
        if granted {
            Ok(())
        } else {
            Err(CapabilityErrorV1::Overloaded)
        }
    }

    /// Records that an invocation of `binding_id` finished.
    pub fn release(&self, binding_id: &BindingId) {
        let _ = self.release_gate(binding_id);
    }

    /// Asks to admit one more invocation of `binding`, and reports the in-flight counts as
    /// this call found and left them.
    fn acquire_gate(&self, binding: &ExecutableBindingV1) -> (res: (bool, Ghost<(ConcurrencyGate, ConcurrencyGate)>))
        ensures
            acquire_effect(res.1@.0, binding.binding_id@, binding.limits.max_concurrency, res.1@.1, res.0),
    {
        let (mut gate, handle) = self.active.acquire_write();
        let ghost before = gate;
        let granted = gate.try_acquire(&binding.binding_id, binding.limits.max_concurrency);
        let ghost after = gate;
        handle.release_write(gate);
        (granted, Ghost((before, after)))
    }

    /// Reports that an invocation of `binding_id` finished, and reports the in-flight counts
    /// as this call found and left them.
    fn release_gate(&self, binding_id: &BindingId) -> (res: Ghost<(ConcurrencyGate, ConcurrencyGate)>)
        ensures
            release_effect(res@.0, binding_id@, res@.1),
    {
        let (mut gate, handle) = self.active.acquire_write();
        let ghost before = gate;
        gate.release(binding_id);
        let ghost after = gate;
        handle.release_write(gate);
        Ghost((before, after))
    }
}

/// A copy of an optional capability.
fn clone_opt_cap(c: &Option<CapabilityId>) -> (res: Option<CapabilityId>)
    ensures
        cap_view(res) == cap_view(*c),
{
    match c {
        Some(x) => Some(x.clone()),
        None => None,
    }
}

/// The audit event of a dispatch that ended with `result`, `elapsed_ms` after it started.
pub fn dispatch_audit_event(
    request: &CapabilityInvocationRequestV1,
    context: &InvocationContextV1,
    result: &Result<(CapabilityId, CapabilityInvocationResponseV1), (Option<CapabilityId>, CapabilityErrorV1)>,
    elapsed_ms: u64,
) -> (event: CapabilityAuditEventV1)
    ensures
        audit_record(*request, *context, inner_view(*result), elapsed_ms, event),
{
    let (capability, outcome_text) = match result {
        Ok((cap, _)) => (Some(cap.clone()), String::from_str("success")),
        Err((cap, error)) => (clone_opt_cap(cap), String::from_str(error_name(*error))),
    };
    proof {
        reveal_strlit("success");
    }
    audit_event(request, context, capability, outcome_text, elapsed_ms)
}

/// Builds the audit record of a dispatch from the host context and the request; it carries
/// no payload and no provider text.
pub fn audit_event(
    request: &CapabilityInvocationRequestV1,
    context: &InvocationContextV1,
    capability: Option<CapabilityId>,
    outcome: String,
    elapsed_ms: u64,
) -> (event: CapabilityAuditEventV1)
    ensures
        event.correlation_id@ == context.correlation_id@,
        event.binding_id@ == request.binding_id@,
        cap_view(event.capability) == cap_view(capability),
        event.operation@ == request.operation@,
        event.tenant@ == context.tenant@,
        event.environment@ == context.environment@,
        opt_text(event.team) == opt_text(context.team),
        event.outcome@ == outcome@,
        event.elapsed_ms == elapsed_ms,
{
    CapabilityAuditEventV1 {
        correlation_id: context.correlation_id.clone(),
        binding_id: request.binding_id.clone(),
        capability,
        operation: request.operation.clone(),
        tenant: context.tenant.clone(),
        environment: context.environment.clone(),
        team: clone_opt_text(&context.team),
        outcome,
        elapsed_ms,
    }
}

} // verus!
