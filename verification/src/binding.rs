//! Executable bindings: the immutable, integrity-protected record that pins a provider.
use vstd::prelude::*;
use crate::json::{JsonValue, JsonModel, json_nodes, cap_usize, json_node_count, json_sorted};
use crate::operations::{OperationMap, lookup, keys_sorted, model_sorted, lemma_lookup_index};
use crate::text::{
    chars_of, starts_with, all_lower_hex_from, all_hex_from, is_lower_hex, is_hex, has_prefix, is_blank,
    trims_to_empty, lower_ascii, lower_ascii_chars, contains, contains_chars, chars_equal, string_of, opt_text,
};
use crate::digest::{sha256_prefix, digest_text, digest_chars, hex_lower, sha256, lemma_hex_lower};
use crate::decode::{binding_at, read_binding};
use vstd::string::StringExecFns;
use crate::encode::{
    material_cbor, encode_material, binding_cbor, encode_binding, optional_text_field, opt_text_cbor, scope_cbor,
    policy_cbor, scope_policy_limits_cbor, integer_schemas, lemma_integer_schemas_encode,
};

verus! {

/// Version of the executable binding serialization contract.
pub const EXECUTABLE_BINDING_SCHEMA_VERSION: u32 = 1;

/// The characters every binding identifier starts with.
pub open spec fn binding_id_prefix() -> Seq<char> {
    seq!['c', 'a', 'p', 'b', '_']
}

/// `s` is `capb_` followed by exactly 32 lower-case hexadecimal digits.
pub open spec fn is_binding_id(s: Seq<char>) -> bool {
    &&& s.len() == 37
    &&& has_prefix(s, binding_id_prefix())
    &&& forall|j: int| 5 <= j < 37 ==> is_lower_hex(#[trigger] s[j])
}

/// An opaque identifier safe to disclose to a consumer.
#[derive(Debug, PartialEq, Eq, PartialOrd, Ord, Hash)]
pub struct BindingId(String);

impl View for BindingId {
    type V = Seq<char>;

    closed spec fn view(&self) -> Seq<char> {
        self.0@
    }
}

impl Clone for BindingId {
    fn clone(&self) -> (res: Self)
        ensures
            res@ == self@,
    {
        BindingId(self.0.clone())
    }
}

impl BindingId {
    /// Parses an opaque binding identifier received through the capability ABI.
    pub fn parse(value: String) -> (res: Result<BindingId, BindingError>)
        ensures
            match res {
                Ok(id) => is_binding_id(value@) && id@ == value@,
                Err(e) => !is_binding_id(value@) && e == BindingError::InvalidBindingId,
            },
    {
        let chars = chars_of(value.as_str());
        let prefix: Vec<char> = vec!['c', 'a', 'p', 'b', '_'];
        proof {
            assert(prefix@ =~= binding_id_prefix());
        }
        if !starts_with(&chars, &prefix) || chars.len() != 37 || !all_lower_hex_from(&chars, 5) {
            return Err(BindingError::InvalidBindingId);
        }
        Ok(BindingId(value))
    }

    /// Returns the opaque identifier.
    pub fn as_str(&self) -> (s: &str)
        ensures
            s@ == self@,
    {
        self.0.as_str()
    }

    /// An identifier holding `value` as it is, without checking its form, as a deserialized
    /// artifact holds it; `validate` rejects a binding whose identifier does not match its digest.
    pub fn from_raw(value: String) -> (id: BindingId)
        ensures
            id@ == value@,
    {
        BindingId(value)
    }

    /// Whether `self` and `other` are the same identifier.
    pub fn same_as(&self, other: &BindingId) -> (b: bool)
        ensures
            b == (self@ == other@),
    {
        self.0 == other.0
    }
}

/// Construction and artifact validation failures.
#[derive(Debug, PartialEq, Eq)]
pub enum BindingError {
    InvalidBindingId,
    MissingProvider,
    MutableProviderReference,
    Empty(&'static str),
    EmptyOperationMap,
    DuplicateOperation(String),
    InvalidDigest,
    InvalidLimits,
    SchemaTooComplex,
    Integrity,
    UnsupportedVersion(u32),
    Encode(&'static str),
    Decode(String),
}

/// One immutable logical-to-component operation mapping.
#[derive(Debug, PartialEq, Eq)]
pub struct ExecutableOperationV1 {
    pub component_operation: String,
    pub input_schema: JsonValue,
    pub output_schema: JsonValue,
}

impl ExecutableOperationV1 {
    /// The content of the mapping: component operation, input schema, output schema.
    pub open spec fn model(self) -> (Seq<char>, JsonModel, JsonModel) {
        (self.component_operation@, self.input_schema@, self.output_schema@)
    }
}

impl Clone for ExecutableOperationV1 {
    fn clone(&self) -> (res: Self)
        ensures
            res.model() == self.model(),
    {
        ExecutableOperationV1 {
            component_operation: self.component_operation.clone(),
            input_schema: self.input_schema.clone(),
            output_schema: self.output_schema.clone(),
        }
    }
}

/// The identifier of a logical capability, such as `cap://example.echo@1`.
#[derive(Debug, PartialEq, Eq)]
pub struct CapabilityId(pub String);

impl View for CapabilityId {
    type V = Seq<char>;

    open spec fn view(&self) -> Seq<char> {
        self.0@
    }
}

impl Clone for CapabilityId {
    fn clone(&self) -> (res: Self)
        ensures
            res@ == self@,
    {
        CapabilityId(self.0.clone())
    }
}

/// Host-owned deployment scope. Empty tenant and environment values are invalid.
#[derive(Clone, Debug, PartialEq, Eq)]
pub struct BindingScopeV1 {
    pub tenant: String,
    pub environment: String,
    pub team: Option<String>,
    pub profile: Option<String>,
}

/// A policy snapshot checked again by the host at invocation time.
#[derive(Clone, Debug, PartialEq, Eq)]
pub struct BindingPolicyV1 {
    pub reference: String,
    pub version: String,
}

/// Fail-closed resource limits captured at resolution time.
#[derive(Clone, Copy, Debug, PartialEq, Eq)]
pub struct BindingLimitsV1 {
    pub timeout_ms: u64,
    pub max_request_bytes: u64,
    pub max_response_bytes: u64,
    pub max_metadata_bytes: u64,
    pub max_cbor_depth: u32,
    pub max_schema_nodes: u32,
    pub max_concurrency: u32,
    pub max_dispatch_depth: u32,
}

impl Default for BindingLimitsV1 {
    fn default() -> (l: Self)
        ensures
            l == (BindingLimitsV1 {
                timeout_ms: 30_000,
                max_request_bytes: 1_048_576,
                max_response_bytes: 1_048_576,
                max_metadata_bytes: 16_384,
                max_cbor_depth: 32,
                max_schema_nodes: 4_096,
                max_concurrency: 16,
                max_dispatch_depth: 8,
            }),
    {
        BindingLimitsV1 {
            timeout_ms: 30_000,
            max_request_bytes: 1_048_576,
            max_response_bytes: 1_048_576,
            max_metadata_bytes: 16_384,
            max_cbor_depth: 32,
            max_schema_nodes: 4_096,
            max_concurrency: 16,
            max_dispatch_depth: 8,
        }
    }
}

/// Immutable executable state installed by bundle/setup resolution.
#[derive(Clone, Debug, PartialEq, Eq)]
pub struct ExecutableBindingV1 {
    pub schema_version: u32,
    pub binding_id: BindingId,
    pub binding_digest: String,
    pub capability: CapabilityId,
    pub contract_version: String,
    /// Digest-pinned ordinary component reference.
    pub provider_component_ref: String,
    pub provider_digest: String,
    pub operations: OperationMap,
    pub scope: BindingScopeV1,
    pub policy: BindingPolicyV1,
    pub limits: BindingLimitsV1,
    pub expires_at_unix_ms: Option<u64>,
    pub revocation_id: Option<String>,
    pub resolution_id: String,
}

/// Trusted inputs used to promote a resolver binding to executable state.
#[derive(Clone, Debug, PartialEq, Eq)]
pub struct ExecutableBindingInputV1 {
    pub contract_version: String,
    pub provider_digest: String,
    pub scope: BindingScopeV1,
    pub policy: BindingPolicyV1,
    pub limits: BindingLimitsV1,
    pub expires_at_unix_ms: Option<u64>,
    pub revocation_id: Option<String>,
    pub resolution_id: String,
}

/// One contract operation of a resolved provider, mapped to a component operation.
#[derive(Clone, Debug, PartialEq, Eq)]
pub struct ResolverOperation {
    pub contract_operation: String,
    pub component_operation: String,
    pub input_schema: JsonValue,
    pub output_schema: JsonValue,
}

/// The provider a resolver selected for a capability.
#[derive(Clone, Debug, PartialEq, Eq)]
pub struct ResolverProvider {
    pub component_ref: String,
    pub operation: String,
    pub operation_map: Vec<ResolverOperation>,
}

/// A deterministic resolver result: a capability and, when one was selected, its provider.
#[derive(Clone, Debug, PartialEq, Eq)]
pub struct ResolverBinding {
    pub capability: CapabilityId,
    pub provider: Option<ResolverProvider>,
}

/// Binding lifecycle state held in trusted storage, separate from the immutable record.
#[derive(Clone, Debug, PartialEq, Eq)]
pub enum BindingStatusV1 {
    Active,
    Revoked { revoked_at_unix_ms: u64, reason_code: String },
}

/// ABI-equivalent request for hosts that do not consume generated WIT bindings.
#[derive(Clone, Debug, PartialEq, Eq)]
pub struct CapabilityInvocationRequestV1 {
    pub binding_id: BindingId,
    pub operation: String,
    pub payload_cbor: Vec<u8>,
}

/// ABI-equivalent response.
#[derive(Clone, Debug, PartialEq, Eq)]
pub struct CapabilityInvocationResponseV1 {
    pub output_cbor: Vec<u8>,
    pub metadata_cbor: Option<Vec<u8>>,
}

/// Stable safe errors exposed across the guest boundary.
#[derive(Clone, Copy, Debug, PartialEq, Eq, Structural)]
pub enum CapabilityErrorV1 {
    BindingNotFound,
    OperationNotAllowed,
    ProviderUnavailable,
    InvalidInput,
    InvalidOutput,
    PolicyDenied,
    Timeout,
    Cancelled,
    Overloaded,
    ProtocolError,
    Internal,
}

/// Redacted audit input. It deliberately contains no payload or provider error text.
#[derive(Clone, Debug, PartialEq, Eq)]
pub struct CapabilityAuditEventV1 {
    pub correlation_id: String,
    pub binding_id: BindingId,
    pub capability: Option<CapabilityId>,
    pub operation: String,
    pub tenant: String,
    pub environment: String,
    pub team: Option<String>,
    pub outcome: String,
    pub elapsed_ms: u64,
}

} // verus!

verus! {

/// `s` is `sha256:` followed by exactly 64 hexadecimal digits of either case.
pub open spec fn is_sha256_digest(s: Seq<char>) -> bool {
    &&& s.len() == 71
    &&& has_prefix(s, sha256_prefix())
    &&& forall|j: int| 7 <= j < 71 ==> is_hex(#[trigger] s[j])
}

/// Accepts a `sha256:` digest with 64 hexadecimal digits.
pub fn validate_digest(value: &str) -> (res: Result<(), BindingError>)
    ensures
        match res {
            Ok(()) => is_sha256_digest(value@),
            Err(e) => !is_sha256_digest(value@) && e == BindingError::InvalidDigest,
        },
{
    let chars = chars_of(value);
    let prefix: Vec<char> = vec!['s', 'h', 'a', '2', '5', '6', ':'];
    proof {
        assert(prefix@ =~= sha256_prefix());
    }
    if !starts_with(&chars, &prefix) || chars.len() != 71 || !all_hex_from(&chars, 7) {
        return Err(BindingError::InvalidDigest);
    }
    Ok(())
}

/// `reference` names the digest `digest`: it contains it, ignoring ASCII case.
pub open spec fn is_pinned(reference: Seq<char>, digest: Seq<char>) -> bool {
    contains_chars(lower_ascii(reference), lower_ascii(digest))
}

/// Whether `reference` contains `digest`, ignoring ASCII case.
pub fn reference_is_pinned(reference: &str, digest: &str) -> (res: bool)
    ensures
        res == is_pinned(reference@, digest@),
{
    let r = lower_ascii_chars(&chars_of(reference));
    let d = lower_ascii_chars(&chars_of(digest));
    contains(&r, &d)
}

/// The identifier derived from a digest text: `capb_` and the first 32 digits of the digest.
pub open spec fn id_for_digest(digest: Seq<char>) -> Seq<char> {
    binding_id_prefix() + digest.subrange(7, 39)
}

/// Some limit is zero.
pub open spec fn has_zero_limit(l: BindingLimitsV1) -> bool {
    ||| l.timeout_ms == 0
    ||| l.max_request_bytes == 0
    ||| l.max_response_bytes == 0
    ||| l.max_metadata_bytes == 0
    ||| l.max_cbor_depth == 0
    ||| l.max_schema_nodes == 0
    ||| l.max_concurrency == 0
    ||| l.max_dispatch_depth == 0
}

/// Some operation has a blank logical name or a blank component operation.
pub open spec fn has_blank_operation(ops: Seq<(Seq<char>, (Seq<char>, JsonModel, JsonModel))>) -> bool {
    exists|i: int| 0 <= i < ops.len() && (is_blank((#[trigger] ops[i]).0) || is_blank(ops[i].1.0))
}

/// Some operation schema has more nodes than `max` (counting saturates at `usize::MAX`).
pub open spec fn has_oversized_schema(ops: Seq<(Seq<char>, (Seq<char>, JsonModel, JsonModel))>, max: u32) -> bool {
    exists|i: int| 0 <= i < ops.len() && (cap_usize(json_nodes((#[trigger] ops[i]).1.1)) > max as usize
        || cap_usize(json_nodes(ops[i].1.2)) > max as usize)
}

/// The field checks of a binding, in order; the first that fails decides the error.
#[verifier::opaque]
pub open spec fn fields_check_parts(
    contract_version: Seq<char>,
    scope: BindingScopeV1,
    policy: BindingPolicyV1,
    resolution_id: Seq<char>,
    provider_digest: Seq<char>,
    provider_component_ref: Seq<char>,
    ops: Seq<(Seq<char>, (Seq<char>, JsonModel, JsonModel))>,
    limits: BindingLimitsV1,
) -> Result<(), BindingError> {
    if is_blank(contract_version) {
        Err(BindingError::Empty("contract_version"))
    } else if is_blank(scope.tenant@) {
        Err(BindingError::Empty("tenant"))
    } else if is_blank(scope.environment@) {
        Err(BindingError::Empty("environment"))
    } else if is_blank(policy.reference@) {
        Err(BindingError::Empty("policy reference"))
    } else if is_blank(policy.version@) {
        Err(BindingError::Empty("policy version"))
    } else if is_blank(resolution_id) {
        Err(BindingError::Empty("resolution_id"))
    } else if !is_sha256_digest(provider_digest) {
        Err(BindingError::InvalidDigest)
    } else if !is_pinned(provider_component_ref, provider_digest) {
        Err(BindingError::MutableProviderReference)
    } else if ops.len() == 0 {
        Err(BindingError::EmptyOperationMap)
    } else if has_blank_operation(ops) {
        Err(BindingError::Empty("operation"))
    } else if has_zero_limit(limits) {
        Err(BindingError::InvalidLimits)
    } else if has_oversized_schema(ops, limits.max_schema_nodes) {
        Err(BindingError::SchemaTooComplex)
    } else {
        Ok(())
    }
}

/// The field checks of `b`.
pub open spec fn fields_check(b: ExecutableBindingV1) -> Result<(), BindingError> {
    fields_check_parts(
        b.contract_version@,
        b.scope,
        b.policy,
        b.resolution_id@,
        b.provider_digest@,
        b.provider_component_ref@,
        b.operations.model(),
        b.limits,
    )
}

/// The digest text of `b`'s material; `None` when the material cannot be encoded.
pub open spec fn binding_digest_of(b: ExecutableBindingV1) -> Option<Seq<char>> {
    match material_cbor(b) {
        Some(m) => Some(digest_text(m)),
        None => None,
    }
}

/// The message carried when a binding cannot be framed.
pub open spec fn encode_failure() -> &'static str {
    "schema number is not a JSON number"
}

/// The outcome of validating `b`: version, then fields, then integrity of digest and identifier.
pub open spec fn check_binding(b: ExecutableBindingV1) -> Result<(), BindingError> {
    if b.schema_version != EXECUTABLE_BINDING_SCHEMA_VERSION {
        Err(BindingError::UnsupportedVersion(b.schema_version))
    } else if fields_check(b) is Err {
        fields_check(b)
    } else {
        match binding_digest_of(b) {
            None => Err(BindingError::Encode(encode_failure())),
            Some(d) => if d != b.binding_digest@ || b.binding_id@ != id_for_digest(d) {
                Err(BindingError::Integrity)
            } else {
                Ok(())
            },
        }
    }
}

/// Every object in the schemas of `ops` holds its keys sorted and once each.
pub open spec fn schemas_sorted(ops: Seq<(Seq<char>, (Seq<char>, JsonModel, JsonModel))>) -> bool {
    forall|i: int| 0 <= i < ops.len() ==> json_sorted((#[trigger] ops[i]).1.1) && json_sorted(ops[i].1.2)
}

/// `a` and `b` hold the same scope.
pub open spec fn same_scope(a: BindingScopeV1, b: BindingScopeV1) -> bool {
    &&& a.tenant@ == b.tenant@
    &&& a.environment@ == b.environment@
    &&& opt_text(a.team) == opt_text(b.team)
    &&& opt_text(a.profile) == opt_text(b.profile)
}

/// `a` and `b` hold the same policy snapshot.
pub open spec fn same_policy(a: BindingPolicyV1, b: BindingPolicyV1) -> bool {
    a.reference@ == b.reference@ && a.version@ == b.version@
}

/// `a` and `b` hold the same binding: every field has the same content.
pub open spec fn same_binding(a: ExecutableBindingV1, b: ExecutableBindingV1) -> bool {
    &&& a.schema_version == b.schema_version
    &&& a.binding_id@ == b.binding_id@
    &&& a.binding_digest@ == b.binding_digest@
    &&& a.capability@ == b.capability@
    &&& a.contract_version@ == b.contract_version@
    &&& a.provider_component_ref@ == b.provider_component_ref@
    &&& a.provider_digest@ == b.provider_digest@
    &&& a.operations.model() == b.operations.model()
    &&& same_scope(a.scope, b.scope)
    &&& same_policy(a.policy, b.policy)
    &&& a.limits == b.limits
    &&& a.expires_at_unix_ms == b.expires_at_unix_ms
    &&& opt_text(a.revocation_id) == opt_text(b.revocation_id)
    &&& a.resolution_id@ == b.resolution_id@
}

/// Bindings with the same content validate alike and are written alike.
pub proof fn lemma_same_binding(a: ExecutableBindingV1, b: ExecutableBindingV1)
    requires
        same_binding(a, b),
    ensures
        check_binding(a) == check_binding(b),
        binding_cbor(a) == binding_cbor(b),
        material_cbor(a) == material_cbor(b),
{
    reveal(material_cbor);
    reveal(binding_cbor);
    reveal(fields_check_parts);
    assert(optional_text_field("team"@, a.scope.team) == optional_text_field("team"@, b.scope.team));
    assert(optional_text_field("profile"@, a.scope.profile) == optional_text_field("profile"@, b.scope.profile));
    assert(optional_text_field("revocation_id"@, a.revocation_id) == optional_text_field("revocation_id"@, b.revocation_id));
    assert(opt_text_cbor(a.revocation_id) == opt_text_cbor(b.revocation_id));
    assert(scope_cbor(a.scope) == scope_cbor(b.scope));
    assert(policy_cbor(a.policy) == policy_cbor(b.policy));
    assert(scope_policy_limits_cbor(a) == scope_policy_limits_cbor(b));
}

impl ExecutableBindingV1 {
    /// Validates fields and cryptographic integrity.
    pub fn validate(&self) -> (res: Result<(), BindingError>)
        ensures
            res == check_binding(*self),
    {
        if self.schema_version != EXECUTABLE_BINDING_SCHEMA_VERSION {
            return Err(BindingError::UnsupportedVersion(self.schema_version));
        }
        match self.validate_fields() {
            Ok(()) => {},
            Err(e) => return Err(e),
        }
        let digest = match self.calculate_digest() {
            Some(d) => d,
            None => return Err(BindingError::Encode("schema number is not a JSON number")),
        };
        let stored = chars_of(self.binding_digest.as_str());
        let id = chars_of(self.binding_id.as_str());
        let expected_id = derived_id(&digest);
        if !chars_equal(&digest, &stored) || !chars_equal(&id, &expected_id) {
            return Err(BindingError::Integrity);
        }
        Ok(())
    }

    /// Checks that every field is present and within bounds.
    #[verifier::loop_isolation(false)]
    pub fn validate_fields(&self) -> (res: Result<(), BindingError>)
        ensures
            res == fields_check(*self),
    {
        reveal(fields_check_parts);
        if trims_to_empty(self.contract_version.as_str()) {
            return Err(BindingError::Empty("contract_version"));
        }
        if trims_to_empty(self.scope.tenant.as_str()) {
            return Err(BindingError::Empty("tenant"));
        }
        if trims_to_empty(self.scope.environment.as_str()) {
            return Err(BindingError::Empty("environment"));
        }
        if trims_to_empty(self.policy.reference.as_str()) {
            return Err(BindingError::Empty("policy reference"));
        }
        if trims_to_empty(self.policy.version.as_str()) {
            return Err(BindingError::Empty("policy version"));
        }
        if trims_to_empty(self.resolution_id.as_str()) {
            return Err(BindingError::Empty("resolution_id"));
        }
        match validate_digest(self.provider_digest.as_str()) {
            Ok(()) => {},
            Err(e) => return Err(e),
        }
        if !reference_is_pinned(self.provider_component_ref.as_str(), self.provider_digest.as_str()) {
            return Err(BindingError::MutableProviderReference);
        }
        if self.operations.is_empty() {
            return Err(BindingError::EmptyOperationMap);
        }
        let ghost ops = self.operations.model();
        let n = self.operations.len();
        let mut i: usize = 0;
        while i < n
            invariant
                n == ops.len(),
                ops == self.operations.model(),
                i <= n,
                forall|j: int| 0 <= j < i ==> !(is_blank((#[trigger] ops[j]).0) || is_blank(ops[j].1.0)),
            decreases n - i,
        {
            let entry = self.operations.entry(i);
            if trims_to_empty(entry.0.as_str()) || trims_to_empty(entry.1.component_operation.as_str()) {
                proof {
                    assert(ops[i as int] == (entry.0@, entry.1.model()));
                    assert(is_blank(ops[i as int].0) || is_blank(ops[i as int].1.0));
                    assert(has_blank_operation(ops));
                }
                return Err(BindingError::Empty("operation"));
            }
            i = i + 1;
        }
        let l = &self.limits;
        if l.timeout_ms == 0 || l.max_request_bytes == 0 || l.max_response_bytes == 0
            || l.max_metadata_bytes == 0 || l.max_cbor_depth == 0 || l.max_schema_nodes == 0
            || l.max_concurrency == 0 || l.max_dispatch_depth == 0 {
            return Err(BindingError::InvalidLimits);
        }
        let max = l.max_schema_nodes as usize;
        let mut i: usize = 0;
        while i < n
            invariant
                n == ops.len(),
                ops == self.operations.model(),
                max == self.limits.max_schema_nodes as usize,
                i <= n,
                forall|j: int| 0 <= j < i ==> !(cap_usize(json_nodes((#[trigger] ops[j]).1.1)) > max
                    || cap_usize(json_nodes(ops[j].1.2)) > max),
            decreases n - i,
        {
            let entry = self.operations.entry(i);
            proof {
                assert(ops[i as int] == (entry.0@, entry.1.model()));
            }
            if json_node_count(&entry.1.input_schema) > max || json_node_count(&entry.1.output_schema) > max {
                proof {
                    assert(has_oversized_schema(ops, self.limits.max_schema_nodes));
                    assert(!has_blank_operation(ops));
                }
                return Err(BindingError::SchemaTooComplex);
            }
            i = i + 1;
        }
        proof {
            assert(!has_blank_operation(ops));
            assert(!has_oversized_schema(ops, self.limits.max_schema_nodes));
        }
        Ok(())
    }

    /// The digest text of the binding's material: `sha256:` and 64 lower-case hex digits.
    /// `None` when a schema number cannot be encoded, which never happens when every schema
    /// number is an integer.
    pub fn calculate_digest(&self) -> (res: Option<Vec<char>>)
        ensures
            match res {
                Some(d) => binding_digest_of(*self) == Some(d@) && d@.len() == 71 && is_sha256_digest(d@),
                None => binding_digest_of(*self) is None,
            },
            integer_schemas(self.operations.model()) ==> res is Some,
    {
        proof {
            if integer_schemas(self.operations.model()) {
                lemma_integer_material(*self);
            }
        }
        match encode_material(self) {
            Some(bytes) => {
                let d = digest_chars(bytes.as_slice());
                proof {
                    lemma_hex_lower(sha256(bytes@));
                    assert(d@.take(7) =~= sha256_prefix());
                    assert forall|j: int| 7 <= j < 71 implies is_hex(#[trigger] d@[j]) by {
                        assert(d@[j] == hex_lower(sha256(bytes@))[j - 7]);
                    }
                }
                Some(d)
            },
            None => None,
        }
    }
}

/// The identifier derived from a digest text.
fn derived_id(digest: &Vec<char>) -> (id: Vec<char>)
    requires
        digest@.len() == 71,
    ensures
        id@ == id_for_digest(digest@),
{
    let mut id: Vec<char> = vec!['c', 'a', 'p', 'b', '_'];
    let mut i: usize = 7;
    while i < 39
        invariant
            7 <= i <= 39,
            digest@.len() == 71,
            id@ == binding_id_prefix() + digest@.subrange(7, i as int),
        decreases 39 - i,
    {
        id.push(digest[i]);
        proof {
            assert(digest@.subrange(7, i + 1) =~= digest@.subrange(7, i as int).push(digest@[i as int]));
        }
        i = i + 1;
    }
    id
}

} // verus!

verus! {

/// The contract-operation names of `ops[..n]` are pairwise different.
pub open spec fn distinct_names(ops: Seq<ResolverOperation>, n: int) -> bool {
    forall|i: int, j: int| 0 <= i < j < n ==> (#[trigger] ops[i]).contract_operation@ != (#[trigger] ops[j]).contract_operation@
}

/// The content of a resolver operation, as an executable operation holds it.
pub open spec fn resolver_op_model(o: ResolverOperation) -> (Seq<char>, JsonModel, JsonModel) {
    (o.component_operation@, o.input_schema@, o.output_schema@)
}

/// `entries` maps `key` to an operation with content `model`.
pub open spec fn maps_to(entries: Seq<(String, ExecutableOperationV1)>, key: Seq<char>, model: (Seq<char>, JsonModel, JsonModel)) -> bool {
    lookup(entries, key) matches Some(op) && op.model() == model
}

/// `m` maps exactly the contract operations of `ops`, each to its component operation and schemas.
pub open spec fn maps_operations(ops: Seq<ResolverOperation>, m: OperationMap) -> bool {
    &&& m.entries().len() == ops.len()
    &&& keys_sorted(m.entries())
    &&& forall|i: int| 0 <= i < ops.len() ==> #[trigger] maps_to(m.entries(), ops[i].contract_operation@, resolver_op_model(ops[i]))
    &&& forall|j: int| 0 <= j < m.entries().len() ==> names_operation(ops, (#[trigger] m.entries()[j]).0@)
}

/// Some operation of `ops` has the contract operation `key`.
pub open spec fn names_operation(ops: Seq<ResolverOperation>, key: Seq<char>) -> bool {
    exists|k: int| 0 <= k < ops.len() && (#[trigger] ops[k]).contract_operation@ == key
}

/// Every object in the schemas of `ops` holds its keys sorted and once each, as the
/// `serde_json` values a resolver produces hold them.
pub open spec fn resolver_schemas_sorted(ops: Seq<ResolverOperation>) -> bool {
    forall|k: int| 0 <= k < ops.len() ==> json_sorted((#[trigger] ops[k]).input_schema@) && json_sorted(ops[k].output_schema@)
}

/// `j` is the first index of `ops` whose name repeats an earlier one.
pub open spec fn first_duplicate_at(ops: Seq<ResolverOperation>, j: int) -> bool {
    0 < j < ops.len() && distinct_names(ops, j) && !distinct_names(ops, j + 1)
}

/// What building an operation map from `ops` yields.
pub open spec fn operation_map_outcome(ops: Seq<ResolverOperation>, res: Result<OperationMap, BindingError>) -> bool {
    match res {
        Ok(m) => ops.len() > 0 && distinct_names(ops, ops.len() as int) && maps_operations(ops, m),
        Err(e) => {
            ||| ops.len() == 0 && e == BindingError::EmptyOperationMap
            ||| exists|j: int| #[trigger] first_duplicate_at(ops, j)
                && (e matches BindingError::DuplicateOperation(name) && name@ == ops[j].contract_operation@)
        },
    }
}

/// Builds the operation map, rejecting an empty list and a repeated contract operation.
pub fn operation_map(entries: &[ResolverOperation]) -> (res: Result<OperationMap, BindingError>)
    ensures
        operation_map_outcome(entries@, res),
{
    if entries.len() == 0 {
        return Err(BindingError::EmptyOperationMap);
    }
    let mut result = OperationMap::new();
    let mut i: usize = 0;
    while i < entries.len()
        invariant
            i <= entries.len(),
            entries.len() > 0,
            result.entries().len() == i,
            keys_sorted(result.entries()),
            distinct_names(entries@, i as int),
            forall|k: int| 0 <= k < i ==> #[trigger] maps_to(result.entries(), entries@[k].contract_operation@, resolver_op_model(entries@[k])),
            forall|key: Seq<char>| (#[trigger] lookup(result.entries(), key)) is Some
                ==> exists|k: int| 0 <= k < i && entries@[k].contract_operation@ == key,
        decreases entries.len() - i,
    {
        let entry = &entries[i];
        let value = ExecutableOperationV1 {
            component_operation: entry.component_operation.clone(),
            input_schema: entry.input_schema.clone(),
            output_schema: entry.output_schema.clone(),
        };
        let ghost before = result.entries();
        let prev = result.insert(entry.contract_operation.clone(), value);
        if prev.is_some() {
            proof {
                let key = entries@[i as int].contract_operation@;
                assert(lookup(before, key) is Some);
                let k = choose|k: int| 0 <= k < i && entries@[k].contract_operation@ == key;
                assert(entries@[k].contract_operation@ == entries@[i as int].contract_operation@);
                assert(first_duplicate_at(entries@, i as int));
            }
            return Err(BindingError::DuplicateOperation(entry.contract_operation.clone()));
        }
        proof {
            let key = entries@[i as int].contract_operation@;
            assert forall|a: int, b: int| 0 <= a < b < i + 1 implies
                (#[trigger] entries@[a]).contract_operation@ != (#[trigger] entries@[b]).contract_operation@ by {
                if b == i {
                    if entries@[a].contract_operation@ == key {
                        assert(maps_to(before, entries@[a].contract_operation@, resolver_op_model(entries@[a])));
                        assert(lookup(before, entries@[a].contract_operation@) is Some);
                    }
                }
            }
            assert forall|k: int| 0 <= k < i + 1 implies #[trigger] maps_to(result.entries(), entries@[k].contract_operation@, resolver_op_model(entries@[k])) by {
                if k < i {
                    assert(maps_to(before, entries@[k].contract_operation@, resolver_op_model(entries@[k])));
                }
            }
            assert forall|key2: Seq<char>| (#[trigger] lookup(result.entries(), key2)) is Some
                implies exists|k: int| 0 <= k < i + 1 && entries@[k].contract_operation@ == key2 by {
                if key2 != key {
                    assert(lookup(before, key2) is Some);
                } else {
                    assert(entries@[i as int].contract_operation@ == key2);
                }
            }
        }
        i = i + 1;
    }
    proof {
        assert forall|j: int| 0 <= j < result.entries().len() implies names_operation(entries@, (#[trigger] result.entries()[j]).0@) by {
            lemma_lookup_index(result.entries(), result.entries()[j].0@, j);
            assert(lookup(result.entries(), result.entries()[j].0@) is Some);
            let k = choose|k: int| 0 <= k < entries@.len() && entries@[k].contract_operation@ == result.entries()[j].0@;
            assert(entries@[k].contract_operation@ == result.entries()[j].0@);
        }
    }
    Ok(result)
}

/// What promoting `binding` with `input` yields, when every check passes: a binding whose
/// fields come from the two, whose operations map the provider's, and whose digest and
/// identifier are derived from its material.
pub open spec fn promoted_from(binding: ResolverBinding, input: ExecutableBindingInputV1, b: ExecutableBindingV1) -> bool {
    &&& unsealed_from(binding, input, b)
    &&& is_sha256_digest(input.provider_digest@)
    &&& is_pinned(binding.provider->Some_0.component_ref@, input.provider_digest@)
    &&& binding_digest_of(b) == Some(b.binding_digest@)
    &&& b.binding_id@ == id_for_digest(b.binding_digest@)
}

/// `b` holds the fields that promoting `binding` with `input` gives, whatever its digest
/// and identifier.
pub open spec fn unsealed_from(binding: ResolverBinding, input: ExecutableBindingInputV1, b: ExecutableBindingV1) -> bool {
    &&& binding.provider matches Some(provider)
    &&& b.schema_version == EXECUTABLE_BINDING_SCHEMA_VERSION
    &&& b.capability@ == binding.capability@
    &&& b.contract_version@ == input.contract_version@
    &&& b.provider_component_ref@ == provider.component_ref@
    &&& b.provider_digest@ == lower_ascii(input.provider_digest@)
    &&& maps_operations(provider.operation_map@, b.operations)
    &&& b.scope == input.scope
    &&& b.policy == input.policy
    &&& b.limits == input.limits
    &&& b.expires_at_unix_ms == input.expires_at_unix_ms
    &&& b.revocation_id == input.revocation_id
    &&& b.resolution_id@ == input.resolution_id@
}

/// The field checks of a binding promoted from `input` with the operation map `m`.
pub open spec fn promoted_fields_check(reference: Seq<char>, input: ExecutableBindingInputV1, m: OperationMap) -> Result<(), BindingError> {
    fields_check_parts(
        input.contract_version@,
        input.scope,
        input.policy,
        input.resolution_id@,
        lower_ascii(input.provider_digest@),
        reference,
        m.model(),
        input.limits,
    )
}

/// Why promoting `binding` with `input` fails with `e`: the first check that rejects it.
pub open spec fn promotion_fails_with(binding: ResolverBinding, input: ExecutableBindingInputV1, e: BindingError) -> bool {
    match binding.provider {
        None => e == BindingError::MissingProvider,
        Some(provider) => if !is_sha256_digest(input.provider_digest@) {
            e == BindingError::InvalidDigest
        } else if !is_pinned(provider.component_ref@, input.provider_digest@) {
            e == BindingError::MutableProviderReference
        } else {
            ||| operation_map_outcome(provider.operation_map@, Err(e))
            ||| exists|m: OperationMap| #[trigger] maps_operations(provider.operation_map@, m)
                && provider.operation_map@.len() > 0
                && distinct_names(provider.operation_map@, provider.operation_map@.len() as int)
                && promoted_fields_check(provider.component_ref@, input, m) == Err::<(), BindingError>(e)
            ||| exists|b: ExecutableBindingV1| #[trigger] unsealed_from(binding, input, b)
                && provider.operation_map@.len() > 0
                && distinct_names(provider.operation_map@, provider.operation_map@.len() as int)
                && promoted_fields_check(provider.component_ref@, input, b.operations) is Ok
                && binding_digest_of(b) is None && e == BindingError::Encode(encode_failure())
        },
    }
}

impl ExecutableBindingV1 {
    /// Promotes an existing deterministic resolver result using host-supplied immutable data.
    pub fn from_resolved(binding: &ResolverBinding, input: ExecutableBindingInputV1) -> (res: Result<
        ExecutableBindingV1,
        BindingError,
    >)
        requires
            binding.provider matches Some(p) ==> resolver_schemas_sorted(p.operation_map@),
        ensures
            match res {
                Ok(b) => promoted_from(*binding, input, b) && check_binding(b) == Ok::<(), BindingError>(())
                    && is_binding_id(b.binding_id@) && schemas_sorted(b.operations.model()),
                Err(e) => promotion_fails_with(*binding, input, e),
            },
    {
        let provider = match &binding.provider {
            Some(p) => p,
            None => return Err(BindingError::MissingProvider),
        };
        match validate_digest(input.provider_digest.as_str()) {
            Ok(()) => {},
            Err(e) => return Err(e),
        }
        if !reference_is_pinned(provider.component_ref.as_str(), input.provider_digest.as_str()) {
            return Err(BindingError::MutableProviderReference);
        }
        let operations = match operation_map(provider.operation_map.as_slice()) {
            Ok(m) => m,
            Err(e) => return Err(e),
        };
        let lowered = string_of(&lower_ascii_chars(&chars_of(input.provider_digest.as_str())));
        let mut value = ExecutableBindingV1 {
            schema_version: EXECUTABLE_BINDING_SCHEMA_VERSION,
            binding_id: BindingId::from_raw(String::new()),
            binding_digest: String::new(),
            capability: binding.capability.clone(),
            contract_version: input.contract_version,
            provider_component_ref: provider.component_ref.clone(),
            provider_digest: lowered,
            operations,
            scope: input.scope,
            policy: input.policy,
            limits: input.limits,
            expires_at_unix_ms: input.expires_at_unix_ms,
            revocation_id: input.revocation_id,
            resolution_id: input.resolution_id,
        };
        match value.validate_fields() {
            Ok(()) => {},
            Err(e) => return Err(e),
        }
        let digest = match value.calculate_digest() {
            Some(d) => d,
            None => {
                proof {
                    assert(unsealed_from(*binding, input, value));
                }
                return Err(BindingError::Encode("schema number is not a JSON number"));
            },
        };
        let id = derived_id(&digest);
        let ghost unsealed = value;
        value.binding_digest = string_of(&digest);
        value.binding_id = BindingId::from_raw(string_of(&id));
        proof {
            let ops = provider.operation_map@;
            let es = value.operations.entries();
            assert forall|j: int| 0 <= j < value.operations.model().len() implies json_sorted(
                (#[trigger] value.operations.model()[j]).1.1,
            ) && json_sorted(value.operations.model()[j].1.2) by {
                assert(names_operation(ops, es[j].0@));
                let k = choose|k: int| 0 <= k < ops.len() && (#[trigger] ops[k]).contract_operation@ == es[j].0@;
                assert(maps_to(es, ops[k].contract_operation@, resolver_op_model(ops[k])));
                lemma_lookup_index(es, es[j].0@, j);
                assert(value.operations.model()[j] == (es[j].0@, es[j].1.model()));
            }
            lemma_material_ignores_seal(unsealed, value);
            lemma_derived_id_is_binding_id(material_cbor(unsealed).unwrap(), digest@);
        }
        Ok(value)
    }
}

/// A binding that validates has no schema over its complexity limit: for every operation,
/// its input schema and its output schema each have at most `max_schema_nodes` nodes
/// (counting saturates at `usize::MAX`, as the node count does).
pub proof fn lemma_valid_schemas_within_limit(b: ExecutableBindingV1)
    requires
        check_binding(b) is Ok,
    ensures
        forall|i: int| 0 <= i < b.operations.model().len() ==> {
            &&& cap_usize(json_nodes((#[trigger] b.operations.model()[i]).1.1)) <= b.limits.max_schema_nodes as usize
            &&& cap_usize(json_nodes(b.operations.model()[i].1.2)) <= b.limits.max_schema_nodes as usize
        },
{
    reveal(fields_check_parts);
    let ops = b.operations.model();
    assert forall|i: int| 0 <= i < ops.len() implies {
        &&& cap_usize(json_nodes((#[trigger] ops[i]).1.1)) <= b.limits.max_schema_nodes as usize
        &&& cap_usize(json_nodes(ops[i].1.2)) <= b.limits.max_schema_nodes as usize
    } by {
        if cap_usize(json_nodes(ops[i].1.1)) > b.limits.max_schema_nodes as usize
            || cap_usize(json_nodes(ops[i].1.2)) > b.limits.max_schema_nodes as usize {
            assert(has_oversized_schema(ops, b.limits.max_schema_nodes));
        }
    }
}

/// A binding whose schema numbers are all integers has a material to digest.
proof fn lemma_integer_material(b: ExecutableBindingV1)
    requires
        integer_schemas(b.operations.model()),
    ensures
        material_cbor(b) is Some,
{
    lemma_integer_schemas_encode(b.operations.model());
    reveal(material_cbor);
}

/// The digest is determined by everything but the binding's identifier and digest fields:
/// bindings that agree on all other fields have the same material, hence the same digest.
pub proof fn lemma_material_ignores_seal(a: ExecutableBindingV1, b: ExecutableBindingV1)
    requires
        a.schema_version == b.schema_version,
        a.capability == b.capability,
        a.contract_version == b.contract_version,
        a.provider_component_ref == b.provider_component_ref,
        a.provider_digest == b.provider_digest,
        a.operations == b.operations,
        a.scope == b.scope,
        a.policy == b.policy,
        a.limits == b.limits,
        a.expires_at_unix_ms == b.expires_at_unix_ms,
        a.revocation_id == b.revocation_id,
        a.resolution_id == b.resolution_id,
    ensures
        material_cbor(a) == material_cbor(b),
        binding_digest_of(a) == binding_digest_of(b),
{
    reveal(material_cbor);
}

/// The identifier derived from a digest text is a well-formed binding identifier.
proof fn lemma_derived_id_is_binding_id(material: Seq<u8>, digest: Seq<char>)
    requires
        digest == digest_text(material),
        digest.len() == 71,
    ensures
        is_binding_id(id_for_digest(digest)),
{
    let hex = hex_lower(sha256(material));
    lemma_hex_lower(sha256(material));
    let id = id_for_digest(digest);
    assert(id.take(5) =~= binding_id_prefix());
    assert forall|j: int| 5 <= j < 37 implies is_lower_hex(#[trigger] id[j]) by {
        assert(id[j] == hex[j - 5]);
    }
}

/// Deterministically encodes and validates an executable binding.
pub fn encode_executable_binding(binding: &ExecutableBindingV1) -> (res: Result<Vec<u8>, BindingError>)
    ensures
        match check_binding(*binding) {
            Err(e) => res == Err::<Vec<u8>, BindingError>(e),
            Ok(()) => match res {
                Ok(bytes) => binding_cbor(*binding) == Some(bytes@),
                Err(e) => binding_cbor(*binding) is None && e == BindingError::Encode(encode_failure()),
            },
        },
{
    match binding.validate() {
        Ok(()) => {},
        Err(e) => return Err(e),
    }
    match encode_binding(binding) {
        Some(bytes) => Ok(bytes),
        None => Err(BindingError::Encode("schema number is not a JSON number")),
    }
}

/// `d` is what `bytes` hold: its operation names are sorted, the objects in its schemas
/// hold their keys sorted and once each, and `bytes` are exactly its encoding.
pub open spec fn decoded_from(bytes: Seq<u8>, d: ExecutableBindingV1) -> bool {
    model_sorted(d.operations.model()) && schemas_sorted(d.operations.model()) && binding_cbor(d) == Some(bytes)
}

/// Decodes and verifies an executable binding before returning it.
///
/// This reader is narrower than a derived `serde` deserializer: it takes only the canonical
/// layout that `encode_executable_binding` writes. Fields come in that order and no other
/// field is present; integer heads are in their shortest form and lengths are definite;
/// an absent optional field is left out rather than written as `null`; schema numbers are
/// in the form their encoder writes; object keys come sorted, each once. Any other layout
/// is a `Decode` error, also where a derived deserializer would take the record and then
/// report its validation error or accept it. Whatever decodes has exactly `bytes` as its
/// encoding. Every binding with sorted operation names whose schemas are readable (their
/// numbers integers from `i64::MIN` to `u64::MAX`, or floats that `serde_cbor` writes and
/// reads back as the same text; their objects sorted by key; their nesting at most
/// `MAX_SCHEMA_NESTING`) is read back from its encoding, and validation then decides the
/// result.
pub fn decode_executable_binding(bytes: &[u8]) -> (res: Result<ExecutableBindingV1, BindingError>)
    ensures
        res matches Ok(d) ==> check_binding(d) == Ok::<(), BindingError>(()) && decoded_from(bytes@, d),
        res matches Err(e) ==> e is Decode || exists|d: ExecutableBindingV1| check_binding(d) == Err::<(), BindingError>(e)
            && decoded_from(bytes@, d),
        forall|b: ExecutableBindingV1| #[trigger] binding_at(bytes@, b) ==> match check_binding(b) {
            Ok(()) => res matches Ok(d) && same_binding(d, b),
            Err(e) => res == Err::<ExecutableBindingV1, BindingError>(e),
        },
{
    match read_binding(bytes) {
        None => Err(BindingError::Decode(String::from_str("bytes are not an encoded executable binding"))),
        Some(d) => {
            proof {
                if let Err(e) = check_binding(d) {
                    assert(check_binding(d) == Err::<(), BindingError>(e) && decoded_from(bytes@, d));
                }
                assert forall|b: ExecutableBindingV1| #[trigger] binding_at(bytes@, b) implies check_binding(d)
                    == check_binding(b) by {
                    lemma_same_binding(d, b);
                }
            }
            match d.validate() {
                Ok(()) => Ok(d),
                Err(e) => Err(e),
            }
        },
    }
}

} // verus!
