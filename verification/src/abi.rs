//! The guest-facing capability ABI (`greentic:cap-runtime@1.0.0`, interface
//! `capability-client`): its records, its error enum, and the host-side handling of a call.
use vstd::prelude::*;
use crate::binding::{
    BindingId, CapabilityErrorV1, CapabilityInvocationRequestV1, CapabilityInvocationResponseV1,
    is_binding_id,
};
use crate::dispatcher::error_label;

verus! {

/// The ABI's `capability-error` enum.
#[derive(Clone, Copy, Debug, PartialEq, Eq, Structural)]
pub enum CapabilityError {
    BindingNotFound,
    OperationNotAllowed,
    ProviderUnavailable,
    InvalidInput,
    InvalidOutput,
    PolicyDenied,
    Timeout,
    Cancelled,
    Overloaded,
    ProtocolError,
    Internal,
}

/// The ABI error of the same name as `error`.
pub open spec fn abi_error(error: CapabilityErrorV1) -> CapabilityError {
    match error {
        CapabilityErrorV1::BindingNotFound => CapabilityError::BindingNotFound,
        CapabilityErrorV1::OperationNotAllowed => CapabilityError::OperationNotAllowed,
        CapabilityErrorV1::ProviderUnavailable => CapabilityError::ProviderUnavailable,
        CapabilityErrorV1::InvalidInput => CapabilityError::InvalidInput,
        CapabilityErrorV1::InvalidOutput => CapabilityError::InvalidOutput,
        CapabilityErrorV1::PolicyDenied => CapabilityError::PolicyDenied,
        CapabilityErrorV1::Timeout => CapabilityError::Timeout,
        CapabilityErrorV1::Cancelled => CapabilityError::Cancelled,
        CapabilityErrorV1::Overloaded => CapabilityError::Overloaded,
        CapabilityErrorV1::ProtocolError => CapabilityError::ProtocolError,
        CapabilityErrorV1::Internal => CapabilityError::Internal,
    }
}

/// The name of an ABI error: its variant's name.
pub open spec fn abi_error_label(error: CapabilityError) -> Seq<char> {
    match error {
        CapabilityError::BindingNotFound => "binding_not_found"@,
        CapabilityError::OperationNotAllowed => "operation_not_allowed"@,
        CapabilityError::ProviderUnavailable => "provider_unavailable"@,
        CapabilityError::InvalidInput => "invalid_input"@,
        CapabilityError::InvalidOutput => "invalid_output"@,
        CapabilityError::PolicyDenied => "policy_denied"@,
        CapabilityError::Timeout => "timeout"@,
        CapabilityError::Cancelled => "cancelled"@,
        CapabilityError::Overloaded => "overloaded"@,
        CapabilityError::ProtocolError => "protocol_error"@,
        CapabilityError::Internal => "internal"@,
    }
}

/// A safe error reaches the guest as the ABI error of the same name, and two different
/// safe errors never reach it as the same ABI error.
pub proof fn lemma_abi_error_keeps_name(e1: CapabilityErrorV1, e2: CapabilityErrorV1)
    ensures
        abi_error_label(abi_error(e1)) == error_label(e1),
        abi_error(e1) == abi_error(e2) ==> e1 == e2,
{
}

/// Maps a safe error to the ABI error of the same name, carrying no detail.
pub fn map_error(error: CapabilityErrorV1) -> (res: CapabilityError)
    ensures
        res == abi_error(error),
{
    match error {
        CapabilityErrorV1::BindingNotFound => CapabilityError::BindingNotFound,
        CapabilityErrorV1::OperationNotAllowed => CapabilityError::OperationNotAllowed,
        CapabilityErrorV1::ProviderUnavailable => CapabilityError::ProviderUnavailable,
        CapabilityErrorV1::InvalidInput => CapabilityError::InvalidInput,
        CapabilityErrorV1::InvalidOutput => CapabilityError::InvalidOutput,
        CapabilityErrorV1::PolicyDenied => CapabilityError::PolicyDenied,
        CapabilityErrorV1::Timeout => CapabilityError::Timeout,
        CapabilityErrorV1::Cancelled => CapabilityError::Cancelled,
        CapabilityErrorV1::Overloaded => CapabilityError::Overloaded,
        CapabilityErrorV1::ProtocolError => CapabilityError::ProtocolError,
        CapabilityErrorV1::Internal => CapabilityError::Internal,
    }
}

/// The ABI's `request` record: what a guest may say.
#[derive(Clone, Debug, PartialEq, Eq)]
pub struct Request {
    pub binding_id: String,
    pub operation: String,
    pub payload_cbor: Vec<u8>,
}

/// The ABI's `response` record.
#[derive(Clone, Debug, PartialEq, Eq)]
pub struct Response {
    pub output_cbor: Vec<u8>,
    pub metadata_cbor: Option<Vec<u8>>,
}

/// Object-safe boundary implemented by host state around a configured dispatcher.
pub trait CapabilityService: Send {
    /// `answer` is an answer this service, in its present state, gives to `request`.
    closed spec fn answers(&self, request: CapabilityInvocationRequestV1, answer: Result<CapabilityInvocationResponseV1, CapabilityErrorV1>) -> bool {
        true
    }

    fn invoke(
        &mut self,
        request: CapabilityInvocationRequestV1,
    ) -> (answer: Result<CapabilityInvocationResponseV1, CapabilityErrorV1>)
        ensures
            old(self).answers(request, answer),
    ;
}

/// The service request for an ABI request whose binding identifier is well formed.
pub open spec fn service_request_for(request: Request, r: CapabilityInvocationRequestV1) -> bool {
    &&& r.binding_id@ == request.binding_id@
    &&& r.operation@ == request.operation@
    &&& r.payload_cbor@ == request.payload_cbor@
}

/// The ABI answer for a service answer: the response as it is, or the ABI error of the same name.
pub open spec fn abi_answer(
    answer: Result<CapabilityInvocationResponseV1, CapabilityErrorV1>,
    res: Result<Response, CapabilityError>,
) -> bool {
    match (answer, res) {
        (Ok(a), Ok(r)) => r.output_cbor@ == a.output_cbor@ && r.metadata_cbor == a.metadata_cbor,
        (Err(e), Err(r)) => r == abi_error(e),
        _ => false,
    }
}

/// Converts a service answer to the ABI answer.
pub fn to_abi_answer(answer: Result<CapabilityInvocationResponseV1, CapabilityErrorV1>) -> (res: Result<Response, CapabilityError>)
    ensures
        abi_answer(answer, res),
{
    match answer {
        Ok(CapabilityInvocationResponseV1 { output_cbor, metadata_cbor }) => Ok(Response { output_cbor, metadata_cbor }),
        Err(e) => Err(map_error(e)),
    }
}

/// Handles one `invoke` call of a guest: a malformed binding identifier is invalid input
/// and never reaches the service; otherwise the service answers the same request.
pub fn handle_invoke<S: CapabilityService + ?Sized>(service: &mut S, request: Request) -> (res: Result<Response, CapabilityError>)
    ensures
        !is_binding_id(request.binding_id@) ==> res == Err::<Response, CapabilityError>(CapabilityError::InvalidInput),
        is_binding_id(request.binding_id@) ==> exists|r: CapabilityInvocationRequestV1, answer: Result<CapabilityInvocationResponseV1, CapabilityErrorV1>|
            #[trigger] service_request_for(request, r) && old(service).answers(r, answer) && #[trigger] abi_answer(answer, res),
{
    let ghost original = request;
    let Request { binding_id, operation, payload_cbor } = request;
    let id = match BindingId::parse(binding_id) {
        Ok(id) => id,
        Err(_) => return Err(CapabilityError::InvalidInput),
    };
    let service_request = CapabilityInvocationRequestV1 { binding_id: id, operation, payload_cbor };
    let ghost sent = service_request;
    let answer = service.invoke(service_request);
    let ghost given = answer;
    let res = to_abi_answer(answer);
    proof {
        assert(service_request_for(original, sent));
        assert(old(service).answers(sent, given));
    }
    res
}

} // verus!
