//! Reading the memory of a session's process.

use vstd::prelude::*;
use vstd::std_specs::convert::FromSpecImpl;
use vstd::string::*;

use crate::backend::{MemoryBackend, ProcessBackendError};
use crate::codec::{
    be_value, eight_bytes_count, four_bytes_count, from_bits, le_value, lemma_pow256, pow256, read_be,
    read_le, signed32, spelled_le, spelled_numbers_are_values,
};
use crate::order::{sorted_by, stable_sort};
use crate::process::{
    after_admission, after_check, checked, checked_at_entry, process_error_text, ProcessApiError,
    ProcessSessionRegistry, Sessions,
};
pub use crate::search::{
    decode_pointer, finish_scan, parse_signature, pointer_chain, scan,
    scan_optional_unique_signatures, validate_scan_limits,
};
use crate::protocol::{
    ByteOrder, MemoryBatchReadRequest, MemoryBatchReadResponse, MemoryItemError,
    MemoryItemErrorCode, MemoryReadItem, MemoryReadItemResult, MemoryReadRequest,
    MemoryReadResponse, MemoryRegionDescriptor, MemoryRegionsResponse, MemorySessionRequest,
    MemoryValueType, ProcessSessionId, TypedMemoryReadRequest, TypedMemoryReadResponse,
    TypedMemoryValue, MAX_BATCH_BYTES, MAX_BATCH_ITEMS, MAX_MEMORY_READ_BYTES, MAX_SCAN_REGIONS,
};
use crate::rpc::{describe_fields, failure, fields_text, Details, Failure, RpcError, RpcErrorCode};
use crate::text::{
    address_text, chars_of, dec_text, format_address, format_decimal, format_signed, join2, join3,
    join4, numeral, parse_numeral, quoted, quoted_text, signed_text, string_of,
};

verus! {

/// A failed request on memory.
#[derive(Debug)]
pub enum MemoryApiError {
    Process(ProcessApiError),
    Request { code: RpcErrorCode, message: String, details: Details },
}

impl View for MemoryApiError {
    type V = Failure;

    open spec fn view(&self) -> Failure {
        match self {
            MemoryApiError::Process(error) => error@,
            MemoryApiError::Request { code, message, details } => Failure {
                code: *code,
                message: message@,
                details: details@,
            },
        }
    }
}

impl MemoryApiError {
    /// The error in debug form.
    pub open spec fn text(&self) -> Seq<char> {
        match self {
            MemoryApiError::Process(error) => "Process("@ + process_error_text(error@) + ")"@,
            MemoryApiError::Request { code, message, details } => "Request"@ + fields_text(self@),
        }
    }

    /// Writes the error in debug form.
    pub fn describe(&self) -> (text: String)
        ensures
            text@ == self.text(),
    {
        match self {
            MemoryApiError::Process(error) => {
                let shown = error.describe();
                join3("Process(", shown.as_str(), ")")
            },
            MemoryApiError::Request { code, message, details } => {
                let fields = describe_fields(*code, message.as_str(), details);
                join2("Request", fields.as_str())
            },
        }
    }
}

impl From<ProcessApiError> for MemoryApiError {
    fn from(error: ProcessApiError) -> (wrapped: Self) {
        MemoryApiError::Process(error)
    }
}

impl FromSpecImpl<ProcessApiError> for MemoryApiError {
    open spec fn obeys_from_spec() -> bool {
        true
    }

    open spec fn from_spec(error: ProcessApiError) -> Self {
        MemoryApiError::Process(error)
    }
}

/// How a failed read is reported.
pub open spec fn read_failure(error: ProcessBackendError) -> Failure {
    let bare = failure(RpcErrorCode::MemoryReadFailed, error.message@);
    match error.native_code {
        Some(code) => bare.with("native_code"@, signed_text(code as int)),
        None => bare,
    }
}

impl MemoryApiError {
    /// An error without details.
    pub fn request(code: RpcErrorCode, message: String) -> (error: Self)
        ensures
            error@ == failure(code, message@),
            error is Request,
    {
        MemoryApiError::Request { code, message, details: Details::new() }
    }

    /// Reports a failed read.
    pub fn from_backend(error: ProcessBackendError) -> (reported: Self)
        ensures
            reported@ == read_failure(error),
            reported is Request,
    {
        let mut details = Details::new();
        if let Some(code) = error.native_code {
            details.insert("native_code", format_signed(code));
        }
        MemoryApiError::Request {
            code: RpcErrorCode::MemoryReadFailed,
            message: error.message,
            details,
        }
    }

    /// The same error with one more detail; a failure of the session is left
    /// as it is.
    pub fn with_detail(self, name: &str, value: String) -> (error: Self)
        ensures
            self is Request ==> error@ == self@.with(name@, value@),
            self is Process ==> error == self,
    {
        match self {
            MemoryApiError::Request { code, message, details } => {
                let mut details = details;
                details.insert(name, value);
                MemoryApiError::Request { code, message, details }
            },
            other => other,
        }
    }

    /// The error as the answer to one request.
    pub fn into_rpc_error(self, request_id: u64, operation: &str) -> (error: RpcError)
        ensures
            error.answers(self@, request_id, operation@),
            error.native_context is None,
    {
        match self {
            MemoryApiError::Process(error) => error.into_rpc_error(request_id, operation),
            MemoryApiError::Request { code, message, details } => RpcError {
                code,
                message,
                request_id,
                operation: operation.to_owned(),
                native_context: None,
                details,
            },
        }
    }
}

/// A result that fails with the given failure.
pub open spec fn fails<T>(result: Result<T, MemoryApiError>, fault: Failure) -> bool {
    result matches Err(error) && error@ == fault
}

/// The address that text denotes.
pub open spec fn address_of(text: Seq<char>) -> Result<usize, Failure> {
    let prefixed = text.len() >= 2 && text[0] == '0' && (text[1] == 'x' || text[1] == 'X');
    let digits = text.skip(2);
    if !prefixed {
        Err(
            failure(
                RpcErrorCode::MemoryInvalidAddress,
                "address "@ + quoted_text(text) + " must use 0x hexadecimal notation"@,
            ),
        )
    } else if digits.len() == 0 {
        Err(
            failure(
                RpcErrorCode::MemoryInvalidAddress,
                "address contains no hexadecimal digits"@,
            ),
        )
    } else {
        match numeral(digits, 16) {
            Some(value) if value <= usize::MAX => Ok(value as usize),
            _ => Err(
                failure(
                    RpcErrorCode::MemoryInvalidAddress,
                    "address "@ + quoted_text(text) + " is not representable on this agent"@,
                ),
            ),
        }
    }
}

/// Reads an address in `0x` notation.
pub fn parse_address(value: &str) -> (address: Result<usize, MemoryApiError>)
    ensures
        match (address, address_of(value@)) {
            (Ok(n), Ok(m)) => n == m,
            (Err(error), Err(fault)) => error@ == fault && error is Request,
            _ => false,
        },
{
    let chars = chars_of(value);
    if !(chars.len() >= 2 && chars[0] == '0' && (chars[1] == 'x' || chars[1] == 'X')) {
        let shown = quoted(value);
        return Err(
            MemoryApiError::request(
                RpcErrorCode::MemoryInvalidAddress,
                join3("address ", shown.as_str(), " must use 0x hexadecimal notation"),
            ),
        );
    }
    let digits = vstd::slice::slice_subrange(chars.as_slice(), 2, chars.len());
    proof {
        assert(digits@ =~= value@.skip(2));
    }
    if digits.len() == 0 {
        return Err(
            MemoryApiError::request(
                RpcErrorCode::MemoryInvalidAddress,
                "address contains no hexadecimal digits".to_owned(),
            ),
        );
    }
    let digits = string_of(digits);
    match parse_numeral(digits.as_str(), 16, usize::MAX as u64) {
        Some(address) => Ok(address as usize),
        None => {
            let shown = quoted(value);
            Err(
                MemoryApiError::request(
                    RpcErrorCode::MemoryInvalidAddress,
                    join3("address ", shown.as_str(), " is not representable on this agent"),
                ),
            )
        },
    }
}

pub open spec fn read_size_message() -> Seq<char> {
    "read size must be between 1 and "@ + dec_text(MAX_MEMORY_READ_BYTES as nat)
}

pub open spec fn range_overflow_message() -> Seq<char> {
    "address plus size overflowed"@
}

/// Where a read of so many bytes begins, if it may be made.
pub open spec fn range_of(text: Seq<char>, size: usize) -> Result<usize, Failure> {
    if size == 0 || size > MAX_MEMORY_READ_BYTES {
        Err(failure(RpcErrorCode::MemoryLimitExceeded, read_size_message()))
    } else {
        match address_of(text) {
            Err(fault) => Err(fault),
            Ok(address) => if address + size > usize::MAX {
                Err(failure(RpcErrorCode::MemoryInvalidAddress, range_overflow_message()))
            } else {
                Ok(address)
            },
        }
    }
}

/// Checks the range of a read.
pub fn validate_range(value: &str, size: usize) -> (address: Result<usize, MemoryApiError>)
    ensures
        match (address, range_of(value@, size)) {
            (Ok(n), Ok(m)) => n == m,
            (Err(error), Err(fault)) => error@ == fault && error is Request,
            _ => false,
        },
{
    if size == 0 || size > MAX_MEMORY_READ_BYTES {
        let most = format_decimal(MAX_MEMORY_READ_BYTES as u64);
        return Err(
            MemoryApiError::request(
                RpcErrorCode::MemoryLimitExceeded,
                join2("read size must be between 1 and ", most.as_str()),
            ),
        );
    }
    let address = parse_address(value)?;
    if address.checked_add(size).is_none() {
        return Err(
            MemoryApiError::request(
                RpcErrorCode::MemoryInvalidAddress,
                "address plus size overflowed".to_owned(),
            ),
        );
    }
    Ok(address)
}

/// The value that bytes hold, if there are as many as its type takes.
pub open spec fn typed_value(
    value_type: MemoryValueType,
    order: ByteOrder,
    bytes: Seq<u8>,
) -> Option<TypedMemoryValue> {
    let number = match order {
        ByteOrder::LittleEndian => le_value(bytes),
        ByteOrder::BigEndian => be_value(bytes),
    };
    match value_type {
        MemoryValueType::U8 => if bytes.len() >= 1 {
            Some(TypedMemoryValue::U8 { value: bytes[0] })
        } else {
            None
        },
        _ => if bytes.len() != value_type.width() {
            None
        } else {
            Some(
                match value_type {
                    MemoryValueType::I32 => TypedMemoryValue::I32 {
                        value: signed32(number) as i32,
                    },
                    MemoryValueType::U32 => TypedMemoryValue::U32 { value: number as u32 },
                    MemoryValueType::U64 => TypedMemoryValue::U64 { value: number as u64 },
                    MemoryValueType::F32 => TypedMemoryValue::F32 { bits: number as u32 },
                    _ => TypedMemoryValue::F64 { bits: number as u64 },
                },
            )
        },
    }
}

/// The byte of a value that counts 256 to the given power.
pub open spec fn place_value(order: ByteOrder, bytes: Seq<u8>, power: int) -> int {
    match order {
        ByteOrder::LittleEndian => bytes[power] as int,
        ByteOrder::BigEndian => bytes[bytes.len() - 1 - power] as int,
    }
}

/// The number that four bytes hold, from one of its places on.
pub open spec fn quad(order: ByteOrder, bytes: Seq<u8>, from: int) -> int {
    place_value(order, bytes, from) + 0x100 * place_value(order, bytes, from + 1) + 0x1_0000
        * place_value(order, bytes, from + 2) + 0x100_0000 * place_value(order, bytes, from + 3)
}

/// A value is decoded from just as many bytes as its type takes, and each of them counts
/// by its place in the byte order: in little endian the first byte is the least
/// significant one, in big endian the last. A signed value is the number in two's
/// complement; of a floating-point value the bits are given.
pub proof fn decoded_values_count_their_bytes(
    value_type: MemoryValueType,
    order: ByteOrder,
    bytes: Seq<u8>,
)
    ensures
        match (value_type, typed_value(value_type, order, bytes)) {
            (MemoryValueType::U8, Some(decoded)) => bytes.len() >= 1 && decoded
                == (TypedMemoryValue::U8 { value: bytes[0] }),
            (MemoryValueType::U8, None) => bytes.len() == 0,
            (MemoryValueType::I32, Some(decoded)) => bytes.len() == 4 && (decoded matches TypedMemoryValue::I32 {
                value,
            } && value == if quad(order, bytes, 0) < 0x8000_0000 {
                quad(order, bytes, 0)
            } else {
                quad(order, bytes, 0) - 0x1_0000_0000
            }),
            (MemoryValueType::U32, Some(decoded)) => bytes.len() == 4 && (decoded matches TypedMemoryValue::U32 {
                value,
            } && value == quad(order, bytes, 0)),
            (MemoryValueType::F32, Some(decoded)) => bytes.len() == 4 && (decoded matches TypedMemoryValue::F32 {
                bits,
            } && bits == quad(order, bytes, 0)),
            (MemoryValueType::U64, Some(decoded)) => bytes.len() == 8 && (decoded matches TypedMemoryValue::U64 {
                value,
            } && value == quad(order, bytes, 0) + 0x1_0000_0000 * quad(order, bytes, 4)),
            (MemoryValueType::F64, Some(decoded)) => bytes.len() == 8 && (decoded matches TypedMemoryValue::F64 {
                bits,
            } && bits == quad(order, bytes, 0) + 0x1_0000_0000 * quad(order, bytes, 4)),
            (MemoryValueType::I32, None) | (MemoryValueType::U32, None) | (
                MemoryValueType::F32,
                None,
            ) => bytes.len() != 4,
            (MemoryValueType::U64, None) | (MemoryValueType::F64, None) => bytes.len() != 8,
        },
{
    if bytes.len() == 4 {
        four_bytes_count(bytes);
    }
    if bytes.len() == 8 {
        eight_bytes_count(bytes);
    }
}

/// A value that was written as bytes is decoded from them: least significant byte first in
/// little endian, and from the reversed bytes in big endian.
pub proof fn encoded_values_are_decoded(value_type: MemoryValueType, number: nat, bytes: Seq<u8>)
    requires
        spelled_le(bytes, number),
        bytes.len() == match value_type {
            MemoryValueType::U8 => 1nat,
            MemoryValueType::I32 | MemoryValueType::U32 | MemoryValueType::F32 => 4nat,
            MemoryValueType::U64 | MemoryValueType::F64 => 8nat,
        },
    ensures
        ({
            let value = match value_type {
                MemoryValueType::U8 => TypedMemoryValue::U8 { value: number as u8 },
                MemoryValueType::I32 => TypedMemoryValue::I32 {
                    value: (if number < 0x8000_0000 {
                        number as int
                    } else {
                        number - 0x1_0000_0000
                    }) as i32,
                },
                MemoryValueType::U32 => TypedMemoryValue::U32 { value: number as u32 },
                MemoryValueType::F32 => TypedMemoryValue::F32 { bits: number as u32 },
                MemoryValueType::U64 => TypedMemoryValue::U64 { value: number as u64 },
                MemoryValueType::F64 => TypedMemoryValue::F64 { bits: number as u64 },
            };
            &&& typed_value(value_type, ByteOrder::LittleEndian, bytes) == Some(value)
            &&& typed_value(value_type, ByteOrder::BigEndian, bytes.reverse()) == Some(value)
        }),
{
    spelled_numbers_are_values(bytes, number);
    lemma_pow256();
    if bytes.len() == 1 {
        assert(bytes[0] == number / pow256(0) % 256);
        assert(number / 1 == number);
    }
}

pub open spec fn typed_mismatch() -> Failure {
    failure(RpcErrorCode::MemoryReadFailed, "typed read size mismatch"@)
}

/// Decodes a value.
pub fn decode_typed(value_type: MemoryValueType, order: ByteOrder, bytes: &[u8]) -> (value: Result<
    TypedMemoryValue,
    MemoryApiError,
>)
    ensures
        match typed_value(value_type, order, bytes@) {
            Some(expected) => value == Ok::<_, MemoryApiError>(expected),
            None => fails(value, typed_mismatch()),
        },
{
    let enough = match value_type {
        MemoryValueType::U8 => bytes.len() >= 1,
        _ => bytes.len() == value_type.size(),
    };
    if !enough {
        return Err(
            MemoryApiError::request(
                RpcErrorCode::MemoryReadFailed,
                "typed read size mismatch".to_owned(),
            ),
        );
    }
    if let MemoryValueType::U8 = value_type {
        return Ok(TypedMemoryValue::U8 { value: bytes[0] });
    }
    let width: usize = bytes.len();
    proof {
        lemma_pow256();
        assert(bytes@.subrange(0, width as int) =~= bytes@);
    }
    let number: u64 = match order {
        ByteOrder::LittleEndian => read_le(bytes, 0, width),
        ByteOrder::BigEndian => read_be(bytes, 0, width),
    };
    Ok(
        match value_type {
            MemoryValueType::I32 => TypedMemoryValue::I32 { value: from_bits(number as u32) },
            MemoryValueType::U32 => TypedMemoryValue::U32 { value: number as u32 },
            MemoryValueType::U64 => TypedMemoryValue::U64 { value: number },
            MemoryValueType::F32 => TypedMemoryValue::F32 { bits: number as u32 },
            _ => TypedMemoryValue::F64 { bits: number },
        },
    )
}

/// What an operation on a session gives whose own result is known: the session
/// must admit it, and its process must still be there afterwards.
pub open spec fn live_outcome<H, T>(
    held: Sessions<H>,
    id: Seq<char>,
    before: Result<(), ProcessBackendError>,
    value: Result<T, Failure>,
    after: Result<(), ProcessBackendError>,
) -> (Sessions<H>, Result<T, Failure>) {
    let (entered, refusal) = after_admission(held, id, false, before);
    match refusal {
        Some(fault) => (entered, Err(fault)),
        None => {
            let (left, lapse) = after_check(entered, id, after);
            match lapse {
                Some(fault) => (left, Err(fault)),
                None => (left, value),
            }
        },
    }
}

/// Whether a session admits a reading operation.
pub open spec fn admits<H>(
    held: Sessions<H>,
    id: Seq<char>,
    before: Result<(), ProcessBackendError>,
) -> bool {
    after_admission(held, id, false, before).1 is None
}

/// The checks that a reading operation on a session makes.
pub open spec fn live_checks<B: MemoryBackend>(
    backend: &B,
    held: Sessions<B::Handle>,
    id: Seq<char>,
    before: Result<(), ProcessBackendError>,
    after: Result<(), ProcessBackendError>,
) -> bool {
    &&& checked_at_entry(backend, held, id, false, before)
    &&& admits(held, id, before) ==> checked(backend, held, id, after)
}

/// The calls that a read makes.
pub open spec fn read_calls<B: MemoryBackend>(
    backend: &B,
    held: Sessions<B::Handle>,
    id: Seq<char>,
    address: usize,
    size: usize,
    before: Result<(), ProcessBackendError>,
    value: Result<Vec<u8>, ProcessBackendError>,
    after: Result<(), ProcessBackendError>,
) -> bool {
    &&& live_checks(backend, held, id, before, after)
    &&& admits(held, id, before) ==> call_ensures(
        B::read_memory,
        (backend, &held.handle(id), address, size),
        value,
    )
}

/// The bytes of a read, or how its failure is reported.
pub open spec fn read_value(value: Result<Vec<u8>, ProcessBackendError>) -> Result<
    Vec<u8>,
    Failure,
> {
    match value {
        Ok(bytes) => Ok(bytes),
        Err(error) => Err(read_failure(error)),
    }
}

/// Reads bytes of a live session.
pub(crate) fn read_live<B: MemoryBackend>(
    sessions: &mut ProcessSessionRegistry<B::Handle>,
    backend: &B,
    session_id: &ProcessSessionId,
    address: usize,
    size: usize,
) -> (bytes: Result<Vec<u8>, MemoryApiError>)
    requires
        old(sessions).wf(),
    ensures
        final(sessions).wf(),
        old(sessions)@.leads_to(final(sessions)@),
        exists|
            before: Result<(), ProcessBackendError>,
            value: Result<Vec<u8>, ProcessBackendError>,
            after: Result<(), ProcessBackendError>,
        |
            {
                &&& #[trigger] read_calls(
                    backend,
                    old(sessions)@,
                    session_id.0@,
                    address,
                    size,
                    before,
                    value,
                    after,
                )
                &&& ({
                    let (later, outcome) = live_outcome(
                        old(sessions)@,
                        session_id.0@,
                        before,
                        read_value(value),
                        after,
                    );
                    final(sessions)@ == later && agrees(bytes, outcome)
                })
            },
{
    let ghost held = sessions@;
    let ghost id = session_id.0@;
    let (verdict, Ghost(before)) = sessions.enter(backend, session_id, false);
    if let Err(error) = verdict {
        proof {
            assert(read_calls(backend, held, id, address, size, before, arbitrary(), arbitrary()));
        }
        return Err(MemoryApiError::Process(error));
    }
    let (handle, _) = sessions.live(session_id);
    let value = backend.read_memory(handle, address, size);
    let (verdict, Ghost(after)) = sessions.recheck(backend, session_id);
    assert(read_calls(backend, held, id, address, size, before, value, after));
    if let Err(error) = verdict {
        return Err(MemoryApiError::Process(error));
    }
    match value {
        Ok(bytes) => Ok(bytes),
        Err(error) => Err(MemoryApiError::from_backend(error)),
    }
}

/// A result that agrees with what is expected of it.
pub open spec fn agrees<T>(result: Result<T, MemoryApiError>, expected: Result<T, Failure>) -> bool {
    match (result, expected) {
        (Ok(value), Ok(wanted)) => value == wanted,
        (Err(error), Err(fault)) => error@ == fault,
        _ => false,
    }
}

/// A response to a read.
pub open spec fn shows_bytes(
    response: MemoryReadResponse,
    id: Seq<char>,
    address: usize,
    bytes: Seq<u8>,
) -> bool {
    &&& response.session_id.0@ == id
    &&& response.address@ == address_text(address as nat)
    &&& response.bytes@ == bytes
}

/// What a read does: the sessions after it and its answer.
pub open spec fn read_does<B: MemoryBackend>(
    backend: &B,
    held: Sessions<B::Handle>,
    request: MemoryReadRequest,
    later: Sessions<B::Handle>,
    answer: Result<MemoryReadResponse, MemoryApiError>,
) -> bool {
    let id = request.session_id.0@;
    match range_of(request.address@, request.size) {
        Err(fault) => later == held && fails(answer, fault),
        Ok(address) => exists|
            before: Result<(), ProcessBackendError>,
            value: Result<Vec<u8>, ProcessBackendError>,
            after: Result<(), ProcessBackendError>,
        |
            {
                &&& #[trigger] read_calls(
                    backend,
                    held,
                    id,
                    address,
                    request.size,
                    before,
                    value,
                    after,
                )
                &&& ({
                    let (left, outcome) = live_outcome(held, id, before, read_value(value), after);
                    later == left && match (answer, outcome) {
                        (Ok(response), Ok(bytes)) => shows_bytes(response, id, address, bytes@),
                        (Err(error), Err(fault)) => error@ == fault,
                        _ => false,
                    }
                })
            },
    }
}

/// Reads bytes.
pub fn read<B: MemoryBackend>(
    sessions: &mut ProcessSessionRegistry<B::Handle>,
    backend: &B,
    request: &MemoryReadRequest,
) -> (answer: Result<MemoryReadResponse, MemoryApiError>)
    requires
        old(sessions).wf(),
    ensures
        final(sessions).wf(),
        old(sessions)@.leads_to(final(sessions)@),
        read_does(backend, old(sessions)@, *request, final(sessions)@, answer),
{
    let address = validate_range(request.address.as_str(), request.size)?;
    let bytes = read_live(sessions, backend, &request.session_id, address, request.size)?;
    Ok(
        MemoryReadResponse {
            session_id: request.session_id.clone(),
            address: format_address(address),
            bytes,
        },
    )
}

/// What a typed read does: the sessions after it and its answer.
pub open spec fn read_typed_does<B: MemoryBackend>(
    backend: &B,
    held: Sessions<B::Handle>,
    request: TypedMemoryReadRequest,
    later: Sessions<B::Handle>,
    answer: Result<TypedMemoryReadResponse, MemoryApiError>,
) -> bool {
    let id = request.session_id.0@;
    let size = request.value_type.width();
    match range_of(request.address@, size) {
        Err(fault) => later == held && fails(answer, fault),
        Ok(address) => exists|
            before: Result<(), ProcessBackendError>,
            value: Result<Vec<u8>, ProcessBackendError>,
            after: Result<(), ProcessBackendError>,
        |
            {
                &&& #[trigger] read_calls(backend, held, id, address, size, before, value, after)
                &&& ({
                    let (left, outcome) = live_outcome(held, id, before, read_value(value), after);
                    later == left && match outcome {
                        Err(fault) => fails(answer, fault),
                        Ok(bytes) => match typed_value(
                            request.value_type,
                            request.byte_order,
                            bytes@,
                        ) {
                            None => fails(answer, typed_mismatch()),
                            Some(decoded) => answer matches Ok(response) && {
                                &&& response.session_id.0@ == id
                                &&& response.address@ == address_text(address as nat)
                                &&& response.value_type == request.value_type
                                &&& response.byte_order == request.byte_order
                                &&& response.raw_bytes@ == bytes@
                                &&& response.value == decoded
                            },
                        },
                    }
                })
            },
    }
}

/// A typed read that is answered asked for as many bytes as the type takes, at the address
/// of the request, shows those bytes, and decodes them in the byte order of the request.
pub proof fn typed_reads_tell_what_was_read<B: MemoryBackend>(
    backend: &B,
    held: Sessions<B::Handle>,
    request: TypedMemoryReadRequest,
    later: Sessions<B::Handle>,
    response: TypedMemoryReadResponse,
)
    requires
        read_typed_does(backend, held, request, later, Ok(response)),
    ensures
        exists|address: usize, bytes: Vec<u8>|
            {
                &&& #[trigger] call_ensures(
                    B::read_memory,
                    (
                        backend,
                        &held.handle(request.session_id.0@),
                        address,
                        request.value_type.width(),
                    ),
                    Ok(bytes),
                )
                &&& address_of(request.address@) == Ok::<usize, Failure>(address)
                &&& response.address@ == address_text(address as nat)
                &&& response.raw_bytes@ == bytes@
            },
        response.value_type == request.value_type,
        response.byte_order == request.byte_order,
        typed_value(request.value_type, request.byte_order, response.raw_bytes@) == Some(
            response.value,
        ),
{
    let id = request.session_id.0@;
    let size = request.value_type.width();
    let address = range_of(request.address@, size)->Ok_0;
    let (before, value, after) = choose|
        before: Result<(), ProcessBackendError>,
        value: Result<Vec<u8>, ProcessBackendError>,
        after: Result<(), ProcessBackendError>,
    |
        {
            &&& #[trigger] read_calls(backend, held, id, address, size, before, value, after)
            &&& live_outcome(held, id, before, read_value(value), after).1 matches Ok(bytes)
            &&& response.address@ == address_text(address as nat)
            &&& response.raw_bytes@ == bytes@
        };
    let bytes = value->Ok_0;
    assert(value == Ok::<Vec<u8>, ProcessBackendError>(bytes));
}

/// Reads a value.
pub fn read_typed<B: MemoryBackend>(
    sessions: &mut ProcessSessionRegistry<B::Handle>,
    backend: &B,
    request: &TypedMemoryReadRequest,
) -> (answer: Result<TypedMemoryReadResponse, MemoryApiError>)
    requires
        old(sessions).wf(),
    ensures
        final(sessions).wf(),
        old(sessions)@.leads_to(final(sessions)@),
        read_typed_does(backend, old(sessions)@, *request, final(sessions)@, answer),
{
    let size = request.value_type.size();
    let address = validate_range(request.address.as_str(), size)?;
    let raw_bytes = read_live(sessions, backend, &request.session_id, address, size)?;
    let value = decode_typed(request.value_type, request.byte_order, raw_bytes.as_slice())?;
    Ok(
        TypedMemoryReadResponse {
            session_id: request.session_id.clone(),
            address: format_address(address),
            value_type: request.value_type,
            byte_order: request.byte_order,
            raw_bytes,
            value,
        },
    )
}

/// How many bytes a batch asks for.
pub open spec fn batch_total(reads: Seq<MemoryReadItem>) -> nat
    decreases reads.len(),
{
    if reads.len() == 0 {
        0
    } else {
        batch_total(reads.drop_last()) + reads.last().size as nat
    }
}

/// Why a batch is refused as a whole.
pub open spec fn batch_refusal(reads: Seq<MemoryReadItem>) -> Option<Failure> {
    if reads.len() == 0 || reads.len() > MAX_BATCH_ITEMS {
        Some(
            failure(
                RpcErrorCode::MemoryLimitExceeded,
                "batch must contain between 1 and "@ + dec_text(MAX_BATCH_ITEMS as nat)
                    + " reads"@,
            ),
        )
    } else if exists|i: int|
        0 <= i < reads.len() && ((#[trigger] reads[i]).size == 0 || reads[i].size
            > MAX_MEMORY_READ_BYTES) {
        Some(
            failure(
                RpcErrorCode::MemoryLimitExceeded,
                "batch item size must be between 1 and "@ + dec_text(
                    MAX_MEMORY_READ_BYTES as nat,
                ),
            ),
        )
    } else if batch_total(reads) > MAX_BATCH_BYTES {
        Some(
            failure(
                RpcErrorCode::MemoryLimitExceeded,
                "batch requests "@ + dec_text(batch_total(reads)) + " bytes; maximum is "@
                    + dec_text(MAX_BATCH_BYTES as nat),
            ),
        )
    } else {
        None
    }
}

/// Checks the limits of a batch.
fn validate_batch(reads: &Vec<MemoryReadItem>) -> (valid: Result<(), MemoryApiError>)
    ensures
        match batch_refusal(reads@) {
            Some(fault) => fails(valid, fault),
            None => valid is Ok,
        },
{
    if reads.len() == 0 || reads.len() > MAX_BATCH_ITEMS {
        let most = format_decimal(MAX_BATCH_ITEMS as u64);
        return Err(
            MemoryApiError::request(
                RpcErrorCode::MemoryLimitExceeded,
                join3("batch must contain between 1 and ", most.as_str(), " reads"),
            ),
        );
    }
    let mut total: usize = 0;
    let mut i: usize = 0;
    while i < reads.len()
        invariant
            i <= reads@.len(),
            0 < reads@.len() <= MAX_BATCH_ITEMS,
            total == batch_total(reads@.take(i as int)),
            total <= i * MAX_MEMORY_READ_BYTES,
            forall|j: int|
                0 <= j < i ==> 0 < (#[trigger] reads@[j]).size <= MAX_MEMORY_READ_BYTES,
        decreases reads@.len() - i,
    {
        let size: usize = reads[i].size;
        if size == 0 || size > MAX_MEMORY_READ_BYTES {
            let most = format_decimal(MAX_MEMORY_READ_BYTES as u64);
            assert(reads@[i as int].size == size);
            return Err(
                MemoryApiError::request(
                    RpcErrorCode::MemoryLimitExceeded,
                    join2("batch item size must be between 1 and ", most.as_str()),
                ),
            );
        }
        proof {
            assert(reads@.take(i + 1).drop_last() =~= reads@.take(i as int));
            assert(i * MAX_MEMORY_READ_BYTES <= 256 * 1048576) by (nonlinear_arith)
                requires
                    i <= 256,
                    MAX_MEMORY_READ_BYTES == 1048576,
            ;
        }
        total = total + size;
        i += 1;
    }
    proof {
        assert(reads@.take(i as int) =~= reads@);
    }
    if total > MAX_BATCH_BYTES {
        let asked = format_decimal(total as u64);
        let most = format_decimal(MAX_BATCH_BYTES as u64);
        return Err(
            MemoryApiError::request(
                RpcErrorCode::MemoryLimitExceeded,
                join4("batch requests ", asked.as_str(), " bytes; maximum is ", most.as_str()),
            ),
        );
    }
    Ok(())
}

/// The outcome of one read of a batch for what the backend gave.
pub open spec fn item_answer(
    item: MemoryReadItem,
    value: Result<Vec<u8>, ProcessBackendError>,
    result: MemoryReadItemResult,
) -> bool {
    &&& result.requested_size == item.size
    &&& match range_of(item.address@, item.size) {
        Ok(address) => match value {
            Ok(bytes) => {
                &&& result.address@ == address_text(address as nat)
                &&& result.bytes == Some(bytes)
                &&& result.error is None
            },
            Err(error) => {
                &&& result.address@ == item.address@
                &&& result.bytes is None
                &&& result.error matches Some(fault) && fault.code
                    == MemoryItemErrorCode::ReadFailed && fault.message@ == error.message@
            },
        },
        Err(refusal) => {
            &&& result.address@ == item.address@
            &&& result.bytes is None
            &&& result.error matches Some(fault) && fault.code == (if item.size == 0 || item.size
                > MAX_MEMORY_READ_BYTES {
                MemoryItemErrorCode::InvalidSize
            } else {
                MemoryItemErrorCode::InvalidAddress
            }) && fault.message@ == refusal.message
        },
    }
}

/// Checks the range of one read of a batch.
fn validate_range_for_item(value: &str, size: usize) -> (address: Result<usize, MemoryItemError>)
    ensures
        match (address, range_of(value@, size)) {
            (Ok(n), Ok(m)) => n == m,
            (Err(error), Err(fault)) => error.message@ == fault.message && error.code == (if size
                == 0 || size > MAX_MEMORY_READ_BYTES {
                MemoryItemErrorCode::InvalidSize
            } else {
                MemoryItemErrorCode::InvalidAddress
            }),
            _ => false,
        },
{
    match validate_range(value, size) {
        Ok(address) => Ok(address),
        Err(error) => {
            let code = if size == 0 || size > MAX_MEMORY_READ_BYTES {
                MemoryItemErrorCode::InvalidSize
            } else {
                MemoryItemErrorCode::InvalidAddress
            };
            Err(MemoryItemError { code, message: error_message(error) })
        },
    }
}

fn error_message(error: MemoryApiError) -> (message: String)
    ensures
        error is Request ==> message@ == error@.message,
        error is Process ==> message@ == "process session is no longer usable"@,
{
    match error {
        MemoryApiError::Process(_) => "process session is no longer usable".to_owned(),
        MemoryApiError::Request { code: _, message, details: _ } => message,
    }
}

/// The reads of a batch that the backend was asked for.
pub open spec fn batch_calls<B: MemoryBackend>(
    backend: &B,
    handle: &B::Handle,
    reads: Seq<MemoryReadItem>,
    values: Seq<Result<Vec<u8>, ProcessBackendError>>,
) -> bool {
    forall|i: int|
        #![trigger values[i]]
        0 <= i < reads.len() ==> match range_of(reads[i].address@, reads[i].size) {
            Ok(address) => call_ensures(
                B::read_memory,
                (backend, handle, address, reads[i].size),
                values[i],
            ),
            Err(_) => true,
        }
}

/// The calls that a batch makes.
pub open spec fn batch_made<B: MemoryBackend>(
    backend: &B,
    held: Sessions<B::Handle>,
    id: Seq<char>,
    reads: Seq<MemoryReadItem>,
    before: Result<(), ProcessBackendError>,
    values: Seq<Result<Vec<u8>, ProcessBackendError>>,
    after: Result<(), ProcessBackendError>,
) -> bool {
    &&& live_checks(backend, held, id, before, after)
    &&& admits(held, id, before) ==> batch_calls(backend, &held.handle(id), reads, values)
}

/// The outcomes of a batch, in order.
pub open spec fn batch_answers(
    reads: Seq<MemoryReadItem>,
    values: Seq<Result<Vec<u8>, ProcessBackendError>>,
    results: Seq<MemoryReadItemResult>,
) -> bool {
    &&& results.len() == reads.len()
    &&& forall|i: int|
        0 <= i < reads.len() ==> item_answer(reads[i], values[i], #[trigger] results[i])
}

/// What a batch does: the sessions after it and its answer.
pub open spec fn read_batch_does<B: MemoryBackend>(
    backend: &B,
    held: Sessions<B::Handle>,
    request: MemoryBatchReadRequest,
    later: Sessions<B::Handle>,
    answer: Result<MemoryBatchReadResponse, MemoryApiError>,
) -> bool {
    let id = request.session_id.0@;
    match batch_refusal(request.reads@) {
        Some(fault) => later == held && fails(answer, fault),
        None => exists|
            before: Result<(), ProcessBackendError>,
            values: Seq<Result<Vec<u8>, ProcessBackendError>>,
            after: Result<(), ProcessBackendError>,
        |
            {
                &&& #[trigger] batch_made(
                    backend,
                    held,
                    id,
                    request.reads@,
                    before,
                    values,
                    after,
                )
                &&& ({
                    let (left, outcome) = live_outcome(held, id, before, Ok(()), after);
                    later == left && match outcome {
                        Err(fault) => fails(answer, fault),
                        Ok(_) => answer matches Ok(response) && response.session_id.0@ == id
                            && batch_answers(request.reads@, values, response.results@),
                    }
                })
            },
    }
}

/// Makes several reads at once. One that fails does not stop the others.
pub fn read_batch<B: MemoryBackend>(
    sessions: &mut ProcessSessionRegistry<B::Handle>,
    backend: &B,
    request: &MemoryBatchReadRequest,
) -> (answer: Result<MemoryBatchReadResponse, MemoryApiError>)
    requires
        old(sessions).wf(),
    ensures
        final(sessions).wf(),
        old(sessions)@.leads_to(final(sessions)@),
        read_batch_does(backend, old(sessions)@, *request, final(sessions)@, answer),
{
    validate_batch(&request.reads)?;
    let ghost held = sessions@;
    let ghost id = request.session_id.0@;
    let ghost mut values: Seq<Result<Vec<u8>, ProcessBackendError>> = Seq::empty();
    let (verdict, Ghost(before)) = sessions.enter(backend, &request.session_id, false);
    if let Err(error) = verdict {
        proof {
            let after: Result<(), ProcessBackendError> = arbitrary();
            assert(batch_made(backend, held, id, request.reads@, before, values, after));
        }
        return Err(MemoryApiError::Process(error));
    }
    let (handle, _) = sessions.live(&request.session_id);
    let mut results: Vec<MemoryReadItemResult> = Vec::new();
    let mut i: usize = 0;
    while i < request.reads.len()
        invariant
            i <= request.reads@.len(),
            values.len() == i,
            results@.len() == i,
            forall|j: int|
                #![trigger values[j]]
                0 <= j < i ==> match range_of(request.reads@[j].address@, request.reads@[j].size) {
                    Ok(address) => call_ensures(
                        B::read_memory,
                        (backend, handle, address, request.reads@[j].size),
                        values[j],
                    ),
                    Err(_) => true,
                },
            forall|j: int|
                0 <= j < i ==> item_answer(
                    request.reads@[j],
                    values[j],
                    #[trigger] results@[j],
                ),
        decreases request.reads@.len() - i,
    {
        let item = &request.reads[i];
        let ghost mut value: Result<Vec<u8>, ProcessBackendError> = arbitrary();
        let result = match validate_range_for_item(item.address.as_str(), item.size) {
            Ok(address) => {
                let read = backend.read_memory(handle, address, item.size);
                proof {
                    value = read;
                }
                match read {
                    Ok(bytes) => MemoryReadItemResult {
                        address: format_address(address),
                        requested_size: item.size,
                        bytes: Some(bytes),
                        error: None,
                    },
                    Err(error) => MemoryReadItemResult {
                        address: item.address.clone(),
                        requested_size: item.size,
                        bytes: None,
                        error: Some(
                            MemoryItemError {
                                code: MemoryItemErrorCode::ReadFailed,
                                message: error.message,
                            },
                        ),
                    },
                }
            },
            Err(item_error) => MemoryReadItemResult {
                address: item.address.clone(),
                requested_size: item.size,
                bytes: None,
                error: Some(item_error),
            },
        };
        proof {
            assert(item_answer(*item, value, result));
            values = values.push(value);
        }
        results.push(result);
        i += 1;
    }
    let (verdict, Ghost(after)) = sessions.recheck(backend, &request.session_id);
    proof {
        assert(batch_made(backend, held, id, request.reads@, before, values, after));
    }
    if let Err(error) = verdict {
        return Err(MemoryApiError::Process(error));
    }
    Ok(MemoryBatchReadResponse { session_id: request.session_id.clone(), results })
}

/// Where a region is sorted: by its address, or last if it has none.
pub open spec fn region_key() -> spec_fn(MemoryRegionDescriptor) -> int {
    |region: MemoryRegionDescriptor|
        match address_of(region.base_address@) {
            Ok(address) => address as int,
            Err(_) => usize::MAX as int,
        }
}

/// Sorts regions by address.
pub(crate) fn sort_regions(regions: Vec<MemoryRegionDescriptor>) -> (sorted: Vec<
    MemoryRegionDescriptor,
>)
    ensures
        sorted@ == sorted_by(regions@, region_key()),
        sorted@.len() == regions@.len(),
{
    let mut keys: Vec<i128> = Vec::new();
    let mut i: usize = 0;
    while i < regions.len()
        invariant
            i <= regions@.len(),
            keys@.len() == i,
            forall|j: int| 0 <= j < i ==> #[trigger] keys@[j] == region_key()(regions@[j]),
        decreases regions@.len() - i,
    {
        let address: usize = match parse_address(regions[i].base_address.as_str()) {
            Ok(address) => address,
            Err(_) => usize::MAX,
        };
        keys.push(address as i128);
        i += 1;
    }
    proof {
        crate::order::sorting_orders_the_items(regions@, region_key());
    }
    stable_sort(regions, keys, Ghost(region_key()))
}

pub open spec fn too_many_regions(message: Seq<char>) -> Failure {
    failure(RpcErrorCode::MemoryLimitExceeded, message)
}

/// The regions of a process by address, or how the failure is reported.
pub open spec fn regions_value(
    reported: Result<Vec<MemoryRegionDescriptor>, ProcessBackendError>,
    limit_message: Seq<char>,
) -> Result<Seq<MemoryRegionDescriptor>, Failure> {
    match reported {
        Err(error) => Err(read_failure(error)),
        Ok(regions) => if regions@.len() > MAX_SCAN_REGIONS {
            Err(too_many_regions(limit_message))
        } else {
            Ok(sorted_by(regions@, region_key()))
        },
    }
}

/// Sorts what the backend reported.
pub(crate) fn take_regions(
    reported: Result<Vec<MemoryRegionDescriptor>, ProcessBackendError>,
    limit_message: &str,
) -> (regions: Result<Vec<MemoryRegionDescriptor>, MemoryApiError>)
    ensures
        match (regions, regions_value(reported, limit_message@)) {
            (Ok(sorted), Ok(expected)) => sorted@ == expected && sorted@.len() <= MAX_SCAN_REGIONS,
            (Err(error), Err(fault)) => error@ == fault,
            _ => false,
        },
{
    match reported {
        Err(error) => Err(MemoryApiError::from_backend(error)),
        Ok(regions) => {
            let regions = sort_regions(regions);
            if regions.len() > MAX_SCAN_REGIONS {
                return Err(
                    MemoryApiError::request(
                        RpcErrorCode::MemoryLimitExceeded,
                        limit_message.to_owned(),
                    ),
                );
            }
            Ok(regions)
        },
    }
}

/// The calls that a listing of regions makes.
pub open spec fn regions_calls<B: MemoryBackend>(
    backend: &B,
    held: Sessions<B::Handle>,
    id: Seq<char>,
    before: Result<(), ProcessBackendError>,
    reported: Result<Vec<MemoryRegionDescriptor>, ProcessBackendError>,
    after: Result<(), ProcessBackendError>,
) -> bool {
    &&& live_checks(backend, held, id, before, after)
    &&& admits(held, id, before) ==> call_ensures(
        B::enumerate_memory_regions,
        (backend, &held.handle(id), &held.identity(id)),
        reported,
    )
}

/// What a listing of regions does: the sessions after it and its answer.
pub open spec fn regions_does<B: MemoryBackend>(
    backend: &B,
    held: Sessions<B::Handle>,
    request: MemorySessionRequest,
    later: Sessions<B::Handle>,
    answer: Result<MemoryRegionsResponse, MemoryApiError>,
) -> bool {
    let id = request.session_id.0@;
    exists|
        before: Result<(), ProcessBackendError>,
        reported: Result<Vec<MemoryRegionDescriptor>, ProcessBackendError>,
        after: Result<(), ProcessBackendError>,
    |
        {
            &&& #[trigger] regions_calls(backend, held, id, before, reported, after)
            &&& ({
                let (left, outcome) = live_outcome(
                    held,
                    id,
                    before,
                    regions_value(
                        reported,
                        "readable region result exceeds the protocol limit"@,
                    ),
                    after,
                );
                later == left && match (answer, outcome) {
                    (Ok(response), Ok(regions)) => response.session_id.0@ == id
                        && response.regions@ == regions,
                    (Err(error), Err(fault)) => error@ == fault,
                    _ => false,
                }
            })
        }
}

/// Lists the readable regions of a process by address.
pub fn regions<B: MemoryBackend>(
    sessions: &mut ProcessSessionRegistry<B::Handle>,
    backend: &B,
    request: &MemorySessionRequest,
) -> (answer: Result<MemoryRegionsResponse, MemoryApiError>)
    requires
        old(sessions).wf(),
    ensures
        final(sessions).wf(),
        old(sessions)@.leads_to(final(sessions)@),
        regions_does(backend, old(sessions)@, *request, final(sessions)@, answer),
{
    let ghost held = sessions@;
    let ghost id = request.session_id.0@;
    let (verdict, Ghost(before)) = sessions.enter(backend, &request.session_id, false);
    if let Err(error) = verdict {
        proof {
            assert(regions_calls(backend, held, id, before, arbitrary(), arbitrary()));
        }
        return Err(MemoryApiError::Process(error));
    }
    let (handle, process) = sessions.live(&request.session_id);
    let reported = match &process.identity {
        Some(identity) => backend.enumerate_memory_regions(handle, identity),
        None => {
            assert(false);
            vstd::pervasive::unreached()
        },
    };
    let ghost seen = reported;
    let regions = take_regions(reported, "readable region result exceeds the protocol limit");
    let (verdict, Ghost(after)) = sessions.recheck(backend, &request.session_id);
    assert(regions_calls(backend, held, id, before, seen, after));
    if let Err(error) = verdict {
        return Err(MemoryApiError::Process(error));
    }
    Ok(MemoryRegionsResponse { session_id: request.session_id.clone(), regions: regions? })
}

}
