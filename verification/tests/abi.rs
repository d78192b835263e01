use greentic_cap_runtime::abi::{map_error, CapabilityError};
use greentic_cap_runtime::binding::CapabilityErrorV1;

#[test]
fn maps_every_safe_error_without_detail() {
    let errors = [
        CapabilityErrorV1::BindingNotFound,
        CapabilityErrorV1::OperationNotAllowed,
        CapabilityErrorV1::ProviderUnavailable,
        CapabilityErrorV1::InvalidInput,
        CapabilityErrorV1::InvalidOutput,
        CapabilityErrorV1::PolicyDenied,
        CapabilityErrorV1::Timeout,
        CapabilityErrorV1::Cancelled,
        CapabilityErrorV1::Overloaded,
        CapabilityErrorV1::ProtocolError,
        CapabilityErrorV1::Internal,
    ];
    for error in errors {
        let _ = map_error(error);
    }
    assert_eq!(map_error(CapabilityErrorV1::Timeout), CapabilityError::Timeout);
}
