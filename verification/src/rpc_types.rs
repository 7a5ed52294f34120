//! Errors that can occur while a remote procedure call is served.

use vstd::prelude::*;

verus! {

/// `prost::DecodeError`, carried through as it comes.
#[verifier::external_type_specification]
#[verifier::external_body]
pub struct ExDecodeError(prost::DecodeError);

/// `prost::EncodeError`, carried through as it comes.
#[verifier::external_type_specification]
#[verifier::external_body]
pub struct ExEncodeError(prost::EncodeError);

/// Why a remote procedure call failed.
pub enum Error {
    /// The handler failed while it ran; the text is what it reported.
    ExecutionError(String),
    /// The request could not be decoded.
    DecodeError(prost::DecodeError),
    /// The answer could not be encoded.
    EncodeError(prost::EncodeError),
    /// The service has no method with this index.
    InvalidMethodIndex(u8, &'static str),
    /// No service is registered under this name and protocol name.
    InvalidServiceKey(String, String),
}

/// The result of serving a remote procedure call.
pub type Result<T> = std::result::Result<T, Error>;

} // verus!
