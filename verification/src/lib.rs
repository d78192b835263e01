//! Provider-neutral data-plane contracts for resolved capabilities.
use vstd::prelude::*;

pub mod abi;
pub mod binding;
pub mod cbor;
pub mod decode;
pub mod digest;
pub mod dispatcher;
pub mod encode;
pub mod gate;
pub mod json;
pub mod material;
pub mod number;
pub mod operations;
pub mod order;
pub mod text;

verus! {

} // verus!
