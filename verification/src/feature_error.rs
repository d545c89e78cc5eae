//! What can go wrong with feature hooks.

use vstd::prelude::*;
use vstd::std_specs::convert::FromSpecImpl;
use vstd::string::*;

use crate::hook::HookApiError;
use crate::memory::MemoryApiError;
use crate::mutation::MutationApiError;
use crate::process::ProcessApiError;
use crate::rpc::{failure, Failure, RpcError, RpcErrorCode};
use crate::text::{chars_of, numeral, parse_numeral, string_of};

verus! {

/// A failed request on feature hooks.
#[derive(Debug)]
pub enum FeatureHookApiError {
    Hook(HookApiError),
    Memory(MemoryApiError),
    Mutation(MutationApiError),
    Process(ProcessApiError),
    Request { code: RpcErrorCode, message: String },
}

impl View for FeatureHookApiError {
    type V = Failure;

    open spec fn view(&self) -> Failure {
        match self {
            FeatureHookApiError::Hook(error) => error@,
            FeatureHookApiError::Memory(error) => error@,
            FeatureHookApiError::Mutation(error) => error@,
            FeatureHookApiError::Process(error) => error@,
            FeatureHookApiError::Request { code, message } => failure(*code, message@),
        }
    }
}

impl From<HookApiError> for FeatureHookApiError {
    fn from(error: HookApiError) -> (wrapped: Self) {
        FeatureHookApiError::Hook(error)
    }
}

impl FromSpecImpl<HookApiError> for FeatureHookApiError {
    open spec fn obeys_from_spec() -> bool {
        true
    }

    open spec fn from_spec(error: HookApiError) -> Self {
        FeatureHookApiError::Hook(error)
    }
}

impl From<MemoryApiError> for FeatureHookApiError {
    fn from(error: MemoryApiError) -> (wrapped: Self) {
        FeatureHookApiError::Memory(error)
    }
}

impl FromSpecImpl<MemoryApiError> for FeatureHookApiError {
    open spec fn obeys_from_spec() -> bool {
        true
    }

    open spec fn from_spec(error: MemoryApiError) -> Self {
        FeatureHookApiError::Memory(error)
    }
}

impl From<MutationApiError> for FeatureHookApiError {
    fn from(error: MutationApiError) -> (wrapped: Self) {
        FeatureHookApiError::Mutation(error)
    }
}

impl FromSpecImpl<MutationApiError> for FeatureHookApiError {
    open spec fn obeys_from_spec() -> bool {
        true
    }

    open spec fn from_spec(error: MutationApiError) -> Self {
        FeatureHookApiError::Mutation(error)
    }
}

impl From<ProcessApiError> for FeatureHookApiError {
    fn from(error: ProcessApiError) -> (wrapped: Self) {
        FeatureHookApiError::Process(error)
    }
}

impl FromSpecImpl<ProcessApiError> for FeatureHookApiError {
    open spec fn obeys_from_spec() -> bool {
        true
    }

    open spec fn from_spec(error: ProcessApiError) -> Self {
        FeatureHookApiError::Process(error)
    }
}

impl FeatureHookApiError {
    /// An error of the request itself.
    pub fn request(code: RpcErrorCode, message: String) -> (error: Self)
        ensures
            error@ == failure(code, message@),
    {
        FeatureHookApiError::Request { code, message }
    }

    /// The error as the answer to one request.
    pub fn into_rpc_error(self, request_id: u64, operation: &str) -> (error: RpcError)
        ensures
            error.answers(self@, request_id, operation@),
            error.native_context is None,
    {
        match self {
            FeatureHookApiError::Hook(error) => error.into_rpc_error(request_id, operation),
            FeatureHookApiError::Memory(error) => error.into_rpc_error(request_id, operation),
            FeatureHookApiError::Mutation(error) => error.into_rpc_error(request_id, operation),
            FeatureHookApiError::Process(error) => error.into_rpc_error(request_id, operation),
            FeatureHookApiError::Request { code, message } => RpcError::new(
                code,
                message,
                request_id,
                operation,
                None,
            ),
        }
    }
}

/// A result agrees with an outcome.
pub open spec fn gives<T>(result: Result<T, FeatureHookApiError>, outcome: Result<T, Failure>) -> bool {
    match (result, outcome) {
        (Ok(a), Ok(b)) => a == b,
        (Err(error), Err(fault)) => error@ == fault,
        _ => false,
    }
}

/// The address that text denotes.
pub open spec fn feature_address(text: Seq<char>) -> Result<usize, Failure> {
    if !(text.len() >= 2 && text[0] == '0' && text[1] == 'x') {
        Err(
            failure(
                RpcErrorCode::MemoryInvalidAddress,
                "feature-hook address was not hexadecimal"@,
            ),
        )
    } else {
        match numeral(text.skip(2), 16) {
            Some(value) if value <= usize::MAX => Ok(value as usize),
            _ => Err(
                failure(
                    RpcErrorCode::MemoryInvalidAddress,
                    "feature-hook address exceeded the agent address width"@,
                ),
            ),
        }
    }
}

/// Reads an address.
pub fn parse_address(value: &str) -> (address: Result<usize, FeatureHookApiError>)
    ensures
        gives(address, feature_address(value@)),
{
    let chars = chars_of(value);
    if !(chars.len() >= 2 && chars[0] == '0' && chars[1] == 'x') {
        return Err(
            FeatureHookApiError::request(
                RpcErrorCode::MemoryInvalidAddress,
                "feature-hook address was not hexadecimal".to_owned(),
            ),
        );
    }
    let digits = vstd::slice::slice_subrange(chars.as_slice(), 2, chars.len());
    proof {
        assert(digits@ =~= value@.skip(2));
    }
    let digits = string_of(digits);
    match parse_numeral(digits.as_str(), 16, usize::MAX as u64) {
        Some(address) => Ok(address as usize),
        None => Err(
            FeatureHookApiError::request(
                RpcErrorCode::MemoryInvalidAddress,
                "feature-hook address exceeded the agent address width".to_owned(),
            ),
        ),
    }
}

}
