//! Changing the process of a mutation session, and owning what was made there.

use vstd::prelude::*;
use vstd::std_specs::convert::FromSpecImpl;
use vstd::string::*;

use crate::backend::{
    MutationBackend, ProcessBackend, ProcessBackendError, RemoteThreadPoll, StartedRemoteThread,
};
use crate::calls::{
    agrees, calls_made, flush_of, read_of, resume_of, start_answer, suspend_of, Call,
    Caller, Calls, Wish,
};
use crate::ordered::{text_before, TextMap};
use crate::process::{
    after_admission, after_check, after_ensure_live, checked, checked_at_entry,
    lemma_hex_padded_injective, process_error_text, reports, session_read_only, ProcessApiError,
    ProcessSessionRegistry, Sessions,
};
use crate::protocol::{
    MemoryAllocateRequest, MemoryAllocationResponse, MemoryFreeRequest, MemoryFreeResponse,
    MemoryProtectRequest, MemoryProtectResponse, MemoryProtection, MemoryWriteRequest,
    MemoryWriteResponse, ProcessAccessMode, ProcessIdentity, ProcessSessionId,
    RemoteThreadStartRequest, RemoteThreadStartResponse, MAX_ALLOCATION_BYTES, MAX_MEMORY_WRITE_BYTES,
    MAX_REMOTE_THREAD_WAIT_MS,
};
use crate::rpc::{describe_fields, failure, fields_text, Details, Failure, RpcError, RpcErrorCode};
use crate::text::{
    address_text, chars_of, dec_text, format_address, format_decimal, format_padded, format_signed,
    hex_padded, hex_text, hexadecimal_reads_back, join2, join3, join4, join5, join_all, joined,
    numeral, parse_numeral, quoted, quoted_text, signed_text, string_of, texts,
};
use crate::threads::ThreadList;

verus! {

/// A failed change to a process.
#[derive(Debug)]
pub enum MutationApiError {
    Process(ProcessApiError),
    Request { code: RpcErrorCode, message: String, details: Details },
}

impl View for MutationApiError {
    type V = Failure;

    open spec fn view(&self) -> Failure {
        match self {
            MutationApiError::Process(error) => error@,
            MutationApiError::Request { code, message, details } => Failure {
                code: *code,
                message: message@,
                details: details@,
            },
        }
    }
}

impl MutationApiError {
    /// The error in debug form.
    pub open spec fn text(&self) -> Seq<char> {
        match self {
            MutationApiError::Process(error) => "Process("@ + process_error_text(error@) + ")"@,
            MutationApiError::Request { code, message, details } => "Request"@ + fields_text(self@),
        }
    }

    /// Writes the error in debug form.
    pub fn describe(&self) -> (text: String)
        ensures
            text@ == self.text(),
    {
        match self {
            MutationApiError::Process(error) => {
                let shown = error.describe();
                join3("Process(", shown.as_str(), ")")
            },
            MutationApiError::Request { code, message, details } => {
                let fields = describe_fields(*code, message.as_str(), details);
                join2("Request", fields.as_str())
            },
        }
    }
}

impl From<ProcessApiError> for MutationApiError {
    fn from(error: ProcessApiError) -> (wrapped: Self) {
        MutationApiError::Process(error)
    }
}

impl FromSpecImpl<ProcessApiError> for MutationApiError {
    open spec fn obeys_from_spec() -> bool {
        true
    }

    open spec fn from_spec(error: ProcessApiError) -> Self {
        MutationApiError::Process(error)
    }
}

/// How a failed platform call is reported under a code.
pub open spec fn effect_failure(code: RpcErrorCode, error: ProcessBackendError) -> Failure {
    let bare = failure(code, error.message@);
    match error.native_code {
        Some(native) => bare.with("native_code"@, signed_text(native as int)),
        None => bare,
    }
}

impl MutationApiError {
    /// An error without details.
    pub fn request(code: RpcErrorCode, message: String) -> (error: Self)
        ensures
            error@ == failure(code, message@),
            error is Request,
    {
        MutationApiError::Request { code, message, details: Details::new() }
    }

    /// Reports a failed platform call under a code.
    pub fn backend(code: RpcErrorCode, error: ProcessBackendError) -> (reported: Self)
        ensures
            reported@ == effect_failure(code, error),
            reported is Request,
    {
        let mut details = Details::new();
        if let Some(native) = error.native_code {
            details.insert("native_code", format_signed(native));
        }
        MutationApiError::Request { code, message: error.message, details }
    }

    /// The same error with one more detail; a failure of the session is left
    /// as it is.
    pub fn with_detail(self, name: &str, value: String) -> (error: Self)
        ensures
            self is Request ==> error@ == self@.with(name@, value@) && error is Request,
            self is Process ==> error == self,
    {
        match self {
            MutationApiError::Request { code, message, details } => {
                let mut details = details;
                details.insert(name, value);
                MutationApiError::Request { code, message, details }
            },
            other => other,
        }
    }

    /// The error as the answer to one request.
    pub fn into_rpc_error(self, request_id: u64, operation: &str) -> (error: RpcError)
        ensures
            error.answers(self@, request_id, operation@),
            error.native_context is None,
    {
        match self {
            MutationApiError::Process(error) => error.into_rpc_error(request_id, operation),
            MutationApiError::Request { code, message, details } => RpcError {
                code,
                message,
                request_id,
                operation: operation.to_owned(),
                native_context: None,
                details,
            },
        }
    }

    /// What the error says in words.
    pub fn summary(&self) -> (message: String)
        ensures
            message@ == self@.message,
    {
        match self {
            MutationApiError::Process(error) => error.message().to_owned(),
            MutationApiError::Request { code: _, message, details: _ } => message.clone(),
        }
    }
}

/// A result that fails with the given failure.
pub open spec fn refuses<T>(result: Result<T, MutationApiError>, fault: Failure) -> bool {
    result matches Err(error) && error@ == fault
}

/// The address that text denotes.
pub open spec fn target_of(text: Seq<char>) -> Result<usize, Failure> {
    let digits = text.skip(2);
    if !(text.len() >= 2 && text[0] == '0' && text[1] == 'x') {
        Err(
            failure(
                RpcErrorCode::MemoryInvalidAddress,
                "address "@ + quoted_text(text) + " must use 0x-prefixed hexadecimal notation"@,
            ),
        )
    } else if digits.len() == 0 {
        Err(
            failure(
                RpcErrorCode::MemoryInvalidAddress,
                "address must contain hexadecimal digits after 0x"@,
            ),
        )
    } else {
        match numeral(digits, 16) {
            Some(value) if value <= usize::MAX => Ok(value as usize),
            _ => Err(
                failure(
                    RpcErrorCode::MemoryInvalidAddress,
                    "address "@ + quoted_text(text)
                        + " is not valid for this agent architecture"@,
                ),
            ),
        }
    }
}

/// An address is read back as it was written.
pub proof fn written_address_reads_back(address: usize)
    ensures
        target_of(address_text(address as nat)) == Ok::<usize, Failure>(address),
{
    hexadecimal_reads_back(address as nat);
    assert(address_text(address as nat).skip(2) =~= hex_text(address as nat));
}

/// Reads an address in `0x` notation.
pub fn validate_address(text: &str) -> (address: Result<usize, MutationApiError>)
    ensures
        match (address, target_of(text@)) {
            (Ok(n), Ok(m)) => n == m,
            (Err(error), Err(fault)) => error@ == fault,
            _ => false,
        },
{
    let chars = chars_of(text);
    if !(chars.len() >= 2 && chars[0] == '0' && chars[1] == 'x') {
        let shown = quoted(text);
        return Err(
            MutationApiError::request(
                RpcErrorCode::MemoryInvalidAddress,
                join3("address ", shown.as_str(), " must use 0x-prefixed hexadecimal notation"),
            ),
        );
    }
    let digits = vstd::slice::slice_subrange(chars.as_slice(), 2, chars.len());
    proof {
        assert(digits@ =~= text@.skip(2));
    }
    if digits.len() == 0 {
        return Err(
            MutationApiError::request(
                RpcErrorCode::MemoryInvalidAddress,
                "address must contain hexadecimal digits after 0x".to_owned(),
            ),
        );
    }
    let digits = string_of(digits);
    match parse_numeral(digits.as_str(), 16, usize::MAX as u64) {
        Some(address) => Ok(address as usize),
        None => {
            let shown = quoted(text);
            Err(
                MutationApiError::request(
                    RpcErrorCode::MemoryInvalidAddress,
                    join3(
                        "address ",
                        shown.as_str(),
                        " is not valid for this agent architecture",
                    ),
                ),
            )
        },
    }
}

/// Where a range of so many bytes begins, if it is one.
pub open spec fn target_range(text: Seq<char>, size: usize) -> Result<usize, Failure> {
    if size == 0 {
        Err(
            failure(
                RpcErrorCode::InvalidRequest,
                "memory range size must be greater than zero"@,
            ),
        )
    } else {
        match target_of(text) {
            Err(fault) => Err(fault),
            Ok(address) => if address + size > usize::MAX {
                Err(
                    failure(
                        RpcErrorCode::MemoryInvalidAddress,
                        "memory range at "@ + text + " with size "@ + dec_text(size as nat)
                            + " overflows the address space"@,
                    ),
                )
            } else {
                Ok(address)
            },
        }
    }
}

/// Checks a range.
pub fn validate_range(text: &str, size: usize) -> (address: Result<usize, MutationApiError>)
    ensures
        match (address, target_range(text@, size)) {
            (Ok(n), Ok(m)) => n == m,
            (Err(error), Err(fault)) => error@ == fault,
            _ => false,
        },
{
    if size == 0 {
        return Err(
            MutationApiError::request(
                RpcErrorCode::InvalidRequest,
                "memory range size must be greater than zero".to_owned(),
            ),
        );
    }
    let address = validate_address(text)?;
    if address.checked_add(size).is_none() {
        let count = format_decimal(size as u64);
        return Err(
            MutationApiError::request(
                RpcErrorCode::MemoryInvalidAddress,
                join5(
                    "memory range at ",
                    text,
                    " with size ",
                    count.as_str(),
                    " overflows the address space",
                ),
            ),
        );
    }
    Ok(address)
}

/// What came of an effect on a session's process.
pub ghost enum Outcome<R> {
    /// The session did not admit it.
    Refused { fault: Failure },
    /// The platform call failed.
    Failed { error: ProcessBackendError },
    /// It took place; the process may have been lost afterwards.
    Done { value: R, lapse: Option<Failure> },
}

/// The sessions after an effect and what came of it.
pub open spec fn effect_outcome<H, R>(
    held: Sessions<H>,
    id: Seq<char>,
    before: Result<(), ProcessBackendError>,
    value: Result<R, ProcessBackendError>,
    after: Result<(), ProcessBackendError>,
) -> (Sessions<H>, Outcome<R>) {
    let (entered, refusal) = after_admission(held, id, true, before);
    match (refusal, value) {
        (Some(fault), _) => (entered, Outcome::Refused { fault }),
        (None, Err(error)) => (entered, Outcome::Failed { error }),
        (None, Ok(value)) => {
            let (left, lapse) = after_check(entered, id, after);
            (left, Outcome::Done { value, lapse })
        },
    }
}

/// Whether a session admits an effect.
pub open spec fn admits_effect<H>(
    held: Sessions<H>,
    id: Seq<char>,
    before: Result<(), ProcessBackendError>,
) -> bool {
    after_admission(held, id, true, before).1 is None
}

/// The checks round an effect.
pub open spec fn effect_checks<B: ProcessBackend, R>(
    backend: &B,
    held: Sessions<B::Handle>,
    id: Seq<char>,
    before: Result<(), ProcessBackendError>,
    value: Result<R, ProcessBackendError>,
    after: Result<(), ProcessBackendError>,
) -> bool {
    &&& checked_at_entry(backend, held, id, true, before)
    &&& admits_effect(held, id, before) && value is Ok ==> checked(backend, held, id, after)
}

/// What came of an effect, as it is handled further.
pub enum Effect<R> {
    Refused(ProcessApiError),
    Failed(ProcessBackendError),
    Done(R, Option<ProcessApiError>),
}

impl<R> Effect<R> {
    pub open spec fn outcome(self) -> Outcome<R> {
        match self {
            Effect::Refused(error) => Outcome::Refused { fault: error@ },
            Effect::Failed(error) => Outcome::Failed { error },
            Effect::Done(value, lapse) => Outcome::Done {
                value,
                lapse: match lapse {
                    Some(error) => Some(error@),
                    None => None,
                },
            },
        }
    }
}

/// The outcomes of the calls round an effect.
pub ghost struct Around<R> {
    pub before: Result<(), ProcessBackendError>,
    pub value: Result<R, ProcessBackendError>,
    pub after: Result<(), ProcessBackendError>,
}

/// Runs an effect on the process of a mutation session.
pub(crate) fn run_effect<B, F, R>(
    sessions: &mut ProcessSessionRegistry<B::Handle>,
    backend: &B,
    session_id: &ProcessSessionId,
    operation: F,
) -> (effect: (Effect<R>, Ghost<Around<R>>)) where
    B: ProcessBackend,
    F: FnOnce(&B, &B::Handle) -> Result<R, ProcessBackendError>,

    requires
        old(sessions).wf(),
        old(sessions)@.is_open(session_id.0@) ==> operation.requires(
            (backend, &old(sessions)@.handle(session_id.0@)),
        ),
    ensures
        final(sessions).wf(),
        old(sessions)@.leads_to(final(sessions)@),
        effect_checks(
            backend,
            old(sessions)@,
            session_id.0@,
            effect.1@.before,
            effect.1@.value,
            effect.1@.after,
        ),
        admits_effect(old(sessions)@, session_id.0@, effect.1@.before) ==> call_ensures(
            operation,
            (backend, &old(sessions)@.handle(session_id.0@)),
            effect.1@.value,
        ),
        (final(sessions)@, effect.0.outcome()) == effect_outcome(
            old(sessions)@,
            session_id.0@,
            effect.1@.before,
            effect.1@.value,
            effect.1@.after,
        ),
{
    let (verdict, Ghost(before)) = sessions.enter(backend, session_id, true);
    if let Err(error) = verdict {
        return (
            Effect::Refused(error),
            Ghost(Around { before, value: arbitrary(), after: arbitrary() }),
        );
    }
    let (handle, _) = sessions.live(session_id);
    let value = operation(backend, handle);
    match value {
        Err(error) => (
            Effect::Failed(error),
            Ghost(Around { before, value: Err(error), after: arbitrary() }),
        ),
        Ok(value) => {
            let (verdict, Ghost(after)) = sessions.recheck(backend, session_id);
            let lapse = match verdict {
                Ok(()) => None,
                Err(error) => Some(error),
            };
            (Effect::Done(value, lapse), Ghost(Around { before, value: Ok(value), after }))
        },
    }
}

/// Bytes that the backend was asked to write.
pub open spec fn wrote<B: MutationBackend>(
    backend: &B,
    handle: &B::Handle,
    address: usize,
    bytes: Seq<u8>,
    outcome: Result<(), ProcessBackendError>,
) -> bool {
    exists|slice: &[u8]|
        slice@ == bytes && #[trigger] call_ensures(
            B::write_memory,
            (backend, handle, address, slice),
            outcome,
        )
}

/// The calls that a write makes.
pub open spec fn write_calls<B: MutationBackend>(
    backend: &B,
    held: Sessions<B::Handle>,
    id: Seq<char>,
    address: usize,
    bytes: Seq<u8>,
    around: Around<()>,
) -> bool {
    &&& effect_checks(backend, held, id, around.before, around.value, around.after)
    &&& admits_effect(held, id, around.before) ==> wrote(
        backend,
        &held.handle(id),
        address,
        bytes,
        around.value,
    )
}

/// Why a write may not be made, or where it goes.
pub open spec fn write_target(request: MemoryWriteRequest) -> Result<usize, Failure> {
    if request.bytes@.len() == 0 || request.bytes@.len() > MAX_MEMORY_WRITE_BYTES {
        Err(
            failure(
                RpcErrorCode::MemoryLimitExceeded,
                "memory writes must contain between 1 and "@ + dec_text(
                    MAX_MEMORY_WRITE_BYTES as nat,
                ) + " bytes"@,
            ),
        )
    } else {
        target_range(request.address@, request.bytes@.len() as usize)
    }
}

/// What a write does: the sessions after it and its answer.
pub open spec fn write_does<B: MutationBackend>(
    backend: &B,
    held: Sessions<B::Handle>,
    request: MemoryWriteRequest,
    later: Sessions<B::Handle>,
    answer: Result<MemoryWriteResponse, MutationApiError>,
) -> bool {
    let id = request.session_id.0@;
    match write_target(request) {
        Err(fault) => later == held && refuses(answer, fault),
        Ok(address) => exists|around: Around<()>|
            {
                &&& #[trigger] write_calls(backend, held, id, address, request.bytes@, around)
                &&& ({
                    let (left, outcome) = effect_outcome(
                        held,
                        id,
                        around.before,
                        around.value,
                        around.after,
                    );
                    later == left && match outcome {
                        Outcome::Refused { fault } => refuses(answer, fault),
                        Outcome::Failed { error } => refuses(
                            answer,
                            effect_failure(RpcErrorCode::MemoryWriteFailed, error),
                        ),
                        Outcome::Done { value, lapse: Some(fault) } => refuses(
                            answer,
                            fault.with("write_completed"@, "true"@),
                        ),
                        Outcome::Done { value, lapse: None } => answer matches Ok(response) && {
                            &&& response.session_id.0@ == id
                            &&& response.address@ == address_text(address as nat)
                            &&& response.bytes_written == request.bytes@.len()
                        },
                    }
                })
            },
    }
}

/// Writes bytes.
pub fn write<B: MutationBackend>(
    sessions: &mut ProcessSessionRegistry<B::Handle>,
    backend: &B,
    request: &MemoryWriteRequest,
) -> (answer: Result<MemoryWriteResponse, MutationApiError>)
    requires
        old(sessions).wf(),
    ensures
        final(sessions).wf(),
        old(sessions)@.leads_to(final(sessions)@),
        write_does(backend, old(sessions)@, *request, final(sessions)@, answer),
{
    if request.bytes.len() == 0 || request.bytes.len() > MAX_MEMORY_WRITE_BYTES {
        let most = format_decimal(MAX_MEMORY_WRITE_BYTES as u64);
        return Err(
            MutationApiError::request(
                RpcErrorCode::MemoryLimitExceeded,
                join3("memory writes must contain between 1 and ", most.as_str(), " bytes"),
            ),
        );
    }
    let address = validate_range(request.address.as_str(), request.bytes.len())?;
    let bytes = request.bytes.as_slice();
    let ghost held = sessions@;
    let ghost id = request.session_id.0@;
    let operation = |b: &B, h: &B::Handle| -> (r: Result<(), ProcessBackendError>)
        ensures
            call_ensures(B::write_memory, (b, h, address, bytes), r),
        {
            b.write_memory(h, address, bytes)
        };
    let (effect, Ghost(around)) = run_effect(sessions, backend, &request.session_id, operation);
    assert(write_calls(backend, held, id, address, request.bytes@, around));
    match effect {
        Effect::Refused(error) => Err(MutationApiError::Process(error)),
        Effect::Failed(error) => Err(
            MutationApiError::backend(RpcErrorCode::MemoryWriteFailed, error),
        ),
        Effect::Done(_, Some(error)) => Err(
            MutationApiError::Process(error.with_detail("write_completed", "true".to_owned())),
        ),
        Effect::Done(_, None) => Ok(
            MemoryWriteResponse {
                session_id: request.session_id.clone(),
                address: format_address(address),
                bytes_written: request.bytes.len(),
            },
        ),
    }
}

/// The calls that a flush makes.
pub open spec fn flush_calls<B: MutationBackend>(
    backend: &B,
    held: Sessions<B::Handle>,
    id: Seq<char>,
    address: usize,
    size: usize,
    around: Around<()>,
) -> bool {
    &&& effect_checks(backend, held, id, around.before, around.value, around.after)
    &&& admits_effect(held, id, around.before) ==> call_ensures(
        B::flush_instruction_cache,
        (backend, &held.handle(id), address, size),
        around.value,
    )
}

/// What a flush does: the sessions after it and its answer.
pub open spec fn flush_does<B: MutationBackend>(
    backend: &B,
    held: Sessions<B::Handle>,
    id: Seq<char>,
    address: Seq<char>,
    size: usize,
    later: Sessions<B::Handle>,
    answer: Result<(), MutationApiError>,
) -> bool {
    match target_range(address, size) {
        Err(fault) => later == held && refuses(answer, fault),
        Ok(start) => exists|around: Around<()>|
            {
                &&& #[trigger] flush_calls(backend, held, id, start, size, around)
                &&& ({
                    let (left, outcome) = effect_outcome(
                        held,
                        id,
                        around.before,
                        around.value,
                        around.after,
                    );
                    later == left && match outcome {
                        Outcome::Refused { fault } => refuses(answer, fault),
                        Outcome::Failed { error } => refuses(
                            answer,
                            effect_failure(RpcErrorCode::MemoryWriteFailed, error),
                        ),
                        Outcome::Done { value, lapse: Some(fault) } => refuses(
                            answer,
                            fault.with("instruction_cache_flushed"@, "true"@),
                        ),
                        Outcome::Done { value, lapse: None } => answer is Ok,
                    }
                })
            },
    }
}

/// Makes written code visible to execution. It shares the session checks with
/// writes, so that a stale process never receives it.
pub fn flush_instruction_cache<B: MutationBackend>(
    sessions: &mut ProcessSessionRegistry<B::Handle>,
    backend: &B,
    session_id: &ProcessSessionId,
    address: &str,
    size: usize,
) -> (answer: Result<(), MutationApiError>)
    requires
        old(sessions).wf(),
    ensures
        final(sessions).wf(),
        old(sessions)@.leads_to(final(sessions)@),
        flush_does(
            backend,
            old(sessions)@,
            session_id.0@,
            address@,
            size,
            final(sessions)@,
            answer,
        ),
{
    let start = validate_range(address, size)?;
    let ghost held = sessions@;
    let operation = |b: &B, h: &B::Handle| -> (r: Result<(), ProcessBackendError>)
        ensures
            call_ensures(B::flush_instruction_cache, (b, h, start, size), r),
        {
            b.flush_instruction_cache(h, start, size)
        };
    let (effect, Ghost(around)) = run_effect(sessions, backend, session_id, operation);
    assert(flush_calls(backend, held, session_id.0@, start, size, around));
    match effect {
        Effect::Refused(error) => Err(MutationApiError::Process(error)),
        Effect::Failed(error) => Err(
            MutationApiError::backend(RpcErrorCode::MemoryWriteFailed, error),
        ),
        Effect::Done(_, Some(error)) => Err(
            MutationApiError::Process(
                error.with_detail("instruction_cache_flushed", "true".to_owned()),
            ),
        ),
        Effect::Done(_, None) => Ok(()),
    }
}

/// Whether something runs in memory that is to be released.
#[derive(Clone, Copy, Debug, PartialEq, Eq, Structural)]
pub enum Occupancy {
    /// Nothing.
    Vacant,
    /// A thread stands inside it.
    Executing,
    /// A call that started there has not come back.
    Called,
}

/// Bytes that are a counter of eight bytes at zero.
pub open spec fn is_zero_counter(bytes: Seq<u8>) -> bool {
    bytes.len() == 8 && forall|i: int| 0 <= i < 8 ==> #[trigger] bytes[i] == 0
}

/// What a look into memory came to, by its calls: the threads are suspended; where none
/// of them stands inside the memory, the counter of calls is read; and the threads go on.
pub open spec fn looked(
    calls: Calls,
    at: usize,
    size: usize,
    counter: usize,
    outcome: Result<Occupancy, ProcessBackendError>,
) -> bool {
    &&& calls.len() > 0
    &&& calls[0].wish == Wish::Suspend
    &&& match suspend_of(calls, 0) {
        Err(fault) => calls.len() == 1 && agrees(outcome, Err(fault)),
        Ok(stopped) => if stopped.executes(at, size) {
            &&& calls.len() == 2
            &&& calls[1].wish == (Wish::Resume { stopped })
            &&& agrees(
                outcome,
                match resume_of(calls, 1, stopped) {
                    Err(fault) => Err(fault),
                    Ok(_) => Ok(Occupancy::Executing),
                },
            )
        } else {
            &&& calls.len() == 3
            &&& calls[1].wish == (Wish::Read { at: counter, size: 8 })
            &&& calls[2].wish == (Wish::Resume { stopped })
            &&& agrees(
                outcome,
                match (resume_of(calls, 2, stopped), read_of(calls, 1, counter, 8)) {
                    (Err(fault), _) => Err(fault),
                    (Ok(_), Err(fault)) => Err(fault),
                    (Ok(_), Ok(bytes)) => Ok(
                        if is_zero_counter(bytes) {
                            Occupancy::Vacant
                        } else {
                            Occupancy::Called
                        },
                    ),
                },
            )
        },
    }
}

/// What a look into memory came to: the calls that it made on the process, one after the
/// other, and what they showed.
pub open spec fn occupied<B: MutationBackend>(
    backend: &B,
    handle: &B::Handle,
    at: usize,
    size: usize,
    counter: usize,
    outcome: Result<Occupancy, ProcessBackendError>,
) -> bool {
    exists|identity: ProcessIdentity, calls: Calls|
        {
            &&& #[trigger] calls_made(backend, *handle, identity, calls)
            &&& looked(calls, at, size, counter, outcome)
        }
}

/// The calls that a look into memory that is to be released makes.
pub open spec fn quiet_calls<B: MutationBackend>(
    backend: &B,
    held: Sessions<B::Handle>,
    id: Seq<char>,
    at: usize,
    size: usize,
    counter: usize,
    around: Around<Occupancy>,
) -> bool {
    &&& effect_checks(backend, held, id, around.before, around.value, around.after)
    &&& admits_effect(held, id, around.before) ==> occupied(
        backend,
        &held.handle(id),
        at,
        size,
        counter,
        around.value,
    )
}

/// Memory that something still runs in.
pub open spec fn still_occupied(occupancy: Occupancy) -> Failure {
    failure(
        RpcErrorCode::MemoryAllocationFailed,
        if occupancy is Executing {
            "a target thread is still executing the hook trampoline"@
        } else {
            "an external trampoline call has not returned"@
        },
    )
}

/// What a look into memory that is to be released does: the sessions after it and its
/// answer.
pub open spec fn quiet_does<B: MutationBackend>(
    backend: &B,
    held: Sessions<B::Handle>,
    id: Seq<char>,
    at: usize,
    size: usize,
    counter: usize,
    later: Sessions<B::Handle>,
    answer: Result<(), MutationApiError>,
) -> bool {
    exists|around: Around<Occupancy>|
        {
            &&& #[trigger] quiet_calls(backend, held, id, at, size, counter, around)
            &&& ({
                let (left, outcome) = effect_outcome(
                    held,
                    id,
                    around.before,
                    around.value,
                    around.after,
                );
                later == left && match outcome {
                    Outcome::Refused { fault } => refuses(answer, fault),
                    Outcome::Failed { error } => refuses(
                        answer,
                        effect_failure(RpcErrorCode::MemoryAllocationFailed, error),
                    ),
                    Outcome::Done { value, lapse: Some(fault) } => refuses(answer, fault),
                    Outcome::Done { value, lapse: None } => if value is Vacant {
                        answer is Ok
                    } else {
                        refuses(answer, still_occupied(value))
                    },
                }
            })
        }
}

fn zero_counter(bytes: &Vec<u8>) -> (yes: bool)
    ensures
        yes == is_zero_counter(bytes@),
{
    if bytes.len() != 8 {
        return false;
    }
    let mut i: usize = 0;
    while i < 8
        invariant
            i <= 8,
            bytes@.len() == 8,
            forall|j: int| 0 <= j < i ==> #[trigger] bytes@[j] == 0,
        decreases 8 - i,
    {
        if bytes[i] != 0 {
            return false;
        }
        i += 1;
    }
    true
}

fn look_into<B: MutationBackend>(
    backend: &B,
    handle: &B::Handle,
    at: usize,
    size: usize,
    counter: usize,
) -> (outcome: Result<Occupancy, ProcessBackendError>)
    ensures
        occupied(backend, handle, at, size, counter, outcome),
{
    let mut caller = Caller::new(backend, Ghost(*handle), Ghost(arbitrary()));
    let outcome = match caller.suspend(handle) {
        Err(error) => Err(error),
        Ok(stopped) => if stopped.executes_range(at, size) {
            match caller.resume(stopped) {
                Err(error) => Err(error),
                Ok(_) => Ok(Occupancy::Executing),
            }
        } else {
            let read = caller.read(handle, counter, 8);
            match caller.resume(stopped) {
                Err(error) => Err(error),
                Ok(_) => match read {
                    Err(error) => Err(error),
                    Ok(bytes) => if zero_counter(&bytes) {
                        Ok(Occupancy::Vacant)
                    } else {
                        Ok(Occupancy::Called)
                    },
                },
            }
        },
    };
    assert(looked(caller.calls(), at, size, counter, outcome));
    outcome
}

/// Checks that nothing runs in memory that is to be released: no thread stands inside
/// it, and its counter of calls is zero.
pub(crate) fn ensure_vacant<B: MutationBackend>(
    sessions: &mut ProcessSessionRegistry<B::Handle>,
    backend: &B,
    session_id: &ProcessSessionId,
    at: usize,
    size: usize,
    counter: usize,
) -> (answer: Result<(), MutationApiError>)
    requires
        old(sessions).wf(),
    ensures
        final(sessions).wf(),
        old(sessions)@.leads_to(final(sessions)@),
        quiet_does(
            backend,
            old(sessions)@,
            session_id.0@,
            at,
            size,
            counter,
            final(sessions)@,
            answer,
        ),
{
    let ghost held = sessions@;
    let operation = |b: &B, h: &B::Handle| -> (r: Result<Occupancy, ProcessBackendError>)
        ensures
            occupied(b, h, at, size, counter, r),
        {
            look_into(b, h, at, size, counter)
        };
    let (effect, Ghost(around)) = run_effect(sessions, backend, session_id, operation);
    assert(quiet_calls(backend, held, session_id.0@, at, size, counter, around));
    match effect {
        Effect::Refused(error) => Err(MutationApiError::Process(error)),
        Effect::Failed(error) => Err(
            MutationApiError::backend(RpcErrorCode::MemoryAllocationFailed, error),
        ),
        Effect::Done(_, Some(error)) => Err(MutationApiError::Process(error)),
        Effect::Done(Occupancy::Vacant, None) => Ok(()),
        Effect::Done(Occupancy::Executing, None) => Err(
            MutationApiError::request(
                RpcErrorCode::MemoryAllocationFailed,
                "a target thread is still executing the hook trampoline".to_owned(),
            ),
        ),
        Effect::Done(Occupancy::Called, None) => Err(
            MutationApiError::request(
                RpcErrorCode::MemoryAllocationFailed,
                "an external trampoline call has not returned".to_owned(),
            ),
        ),
    }
}

/// The calls that a change of access rights makes.
pub open spec fn protect_calls<B: MutationBackend>(
    backend: &B,
    held: Sessions<B::Handle>,
    id: Seq<char>,
    address: usize,
    size: usize,
    protection: MemoryProtection,
    around: Around<MemoryProtection>,
) -> bool {
    &&& effect_checks(backend, held, id, around.before, around.value, around.after)
    &&& admits_effect(held, id, around.before) ==> call_ensures(
        B::protect_memory,
        (backend, &held.handle(id), address, size, protection),
        around.value,
    )
}

/// What a change of access rights does: the sessions after it and its answer.
pub open spec fn protect_does<B: MutationBackend>(
    backend: &B,
    held: Sessions<B::Handle>,
    request: MemoryProtectRequest,
    later: Sessions<B::Handle>,
    answer: Result<MemoryProtectResponse, MutationApiError>,
) -> bool {
    let id = request.session_id.0@;
    match target_range(request.address@, request.size) {
        Err(fault) => later == held && refuses(answer, fault),
        Ok(address) => exists|around: Around<MemoryProtection>|
            {
                &&& #[trigger] protect_calls(
                    backend,
                    held,
                    id,
                    address,
                    request.size,
                    request.protection,
                    around,
                )
                &&& ({
                    let (left, outcome) = effect_outcome(
                        held,
                        id,
                        around.before,
                        around.value,
                        around.after,
                    );
                    later == left && match outcome {
                        Outcome::Refused { fault } => refuses(answer, fault),
                        Outcome::Failed { error } => refuses(
                            answer,
                            effect_failure(RpcErrorCode::MemoryProtectionFailed, error),
                        ),
                        Outcome::Done { value, lapse: Some(fault) } => refuses(
                            answer,
                            fault.with("protection_changed"@, "true"@),
                        ),
                        Outcome::Done { value, lapse: None } => answer matches Ok(response) && {
                            &&& response.session_id.0@ == id
                            &&& response.address@ == address_text(address as nat)
                            &&& response.size == request.size
                            &&& response.previous_protection == value
                            &&& response.protection == request.protection
                        },
                    }
                })
            },
    }
}

/// Changes the access rights of a range.
pub fn protect<B: MutationBackend>(
    sessions: &mut ProcessSessionRegistry<B::Handle>,
    backend: &B,
    request: &MemoryProtectRequest,
) -> (answer: Result<MemoryProtectResponse, MutationApiError>)
    requires
        old(sessions).wf(),
    ensures
        final(sessions).wf(),
        old(sessions)@.leads_to(final(sessions)@),
        protect_does(backend, old(sessions)@, *request, final(sessions)@, answer),
{
    let address = validate_range(request.address.as_str(), request.size)?;
    let size: usize = request.size;
    let protection = request.protection;
    let ghost held = sessions@;
    let ghost id = request.session_id.0@;
    let operation = |b: &B, h: &B::Handle| -> (r: Result<MemoryProtection, ProcessBackendError>)
        ensures
            call_ensures(B::protect_memory, (b, h, address, size, protection), r),
        {
            b.protect_memory(h, address, size, protection)
        };
    let (effect, Ghost(around)) = run_effect(sessions, backend, &request.session_id, operation);
    assert(protect_calls(backend, held, id, address, size, protection, around));
    match effect {
        Effect::Refused(error) => Err(MutationApiError::Process(error)),
        Effect::Failed(error) => Err(
            MutationApiError::backend(RpcErrorCode::MemoryProtectionFailed, error),
        ),
        Effect::Done(_, Some(error)) => Err(
            MutationApiError::Process(
                error.with_detail("protection_changed", "true".to_owned()),
            ),
        ),
        Effect::Done(previous_protection, None) => Ok(
            MemoryProtectResponse {
                session_id: request.session_id.clone(),
                address: format_address(address),
                size,
                previous_protection,
                protection,
            },
        ),
    }
}

/// An allocation that an agent made in a process.
#[derive(Clone, Copy, Debug)]
pub struct TrackedAllocation {
    pub address: usize,
    pub size: usize,
}

/// What a session owns in its process.
#[verifier::ext_equal]
pub ghost struct Holds<T> {
    pub allocations: Map<Seq<char>, TrackedAllocation>,
    pub threads: Map<u32, T>,
}

impl<T> Holds<T> {
    /// Nothing.
    pub open spec fn nothing() -> Self {
        Holds { allocations: Map::empty(), threads: Map::empty() }
    }
}

/// What all sessions own. A session that owns nothing is not listed.
#[verifier::ext_equal]
pub ghost struct Owned<T> {
    pub sessions: Map<Seq<char>, Holds<T>>,
    pub next_allocation: nat,
}

impl<T> Owned<T> {
    /// What one session owns.
    pub open spec fn of(self, id: Seq<char>) -> Holds<T> {
        if self.sessions.dom().contains(id) {
            self.sessions[id]
        } else {
            Holds::nothing()
        }
    }

    /// The same with other holdings of one session.
    pub open spec fn with(self, id: Seq<char>, holds: Holds<T>) -> Self {
        Owned {
            sessions: if holds == Holds::<T>::nothing() {
                self.sessions.remove(id)
            } else {
                self.sessions.insert(id, holds)
            },
            ..self
        }
    }

    /// No session is listed that owns nothing.
    pub open spec fn sound(self) -> bool {
        forall|id: Seq<char>| #[trigger]
            self.sessions.dom().contains(id) ==> self.sessions[id] != Holds::<T>::nothing()
    }

    /// The same with the number of the next allocation advanced.
    pub open spec fn counted(self) -> Self {
        Owned {
            next_allocation: if self.next_allocation < u64::MAX {
                self.next_allocation + 1
            } else {
                self.next_allocation
            },
            ..self
        }
    }

    /// A session's holdings are what they were set to, and no other session's
    /// holdings change.
    pub proof fn lemma_with(self, id: Seq<char>, holds: Holds<T>)
        ensures
            self.with(id, holds).of(id) == holds,
            forall|other: Seq<char>|
                other != id ==> #[trigger] self.with(id, holds).of(other) == self.of(other),
            self.sound() ==> self.with(id, holds).sound(),
    {
    }

    proof fn lemma_with_same(self, id: Seq<char>)
        requires
            self.sound(),
        ensures
            self.with(id, self.of(id)) == self,
    {
        assert(self.with(id, self.of(id)) =~= self);
    }

    proof fn lemma_with_twice(self, id: Seq<char>, first: Holds<T>, second: Holds<T>)
        ensures
            self.with(id, first).with(id, second) == self.with(id, second),
    {
        assert(self.with(id, first).with(id, second) =~= self.with(id, second));
    }
}

/// The name of an allocation.
pub open spec fn allocation_name(number: nat) -> Seq<char> {
    "allocation-"@ + hex_padded(number, 16)
}

/// Thread ids in ascending order.
pub open spec fn lists_threads<T>(ids: Seq<u32>, threads: Map<u32, T>) -> bool {
    &&& forall|id: u32| #[trigger] threads.dom().contains(id) <==> ids.contains(id)
    &&& forall|i: int, j: int|
        0 <= i < j < ids.len() ==> #[trigger] ids[i] < #[trigger] ids[j]
}

/// Allocation names in ascending order.
pub open spec fn lists_allocations(
    names: Seq<Seq<char>>,
    allocations: Map<Seq<char>, TrackedAllocation>,
) -> bool {
    &&& forall|name: Seq<char>| #[trigger] allocations.dom().contains(name) <==> names.contains(name)
    &&& forall|i: int, j: int|
        0 <= i < j < names.len() ==> text_before(#[trigger] names[i], #[trigger] names[j])
    &&& names.no_duplicates()
}

struct Holdings<T> {
    allocations: TextMap<TrackedAllocation>,
    threads: ThreadList<T>,
}

impl<T> Holdings<T> {
    spec fn wf(&self) -> bool {
        self.allocations.wf() && self.threads.wf()
    }

    spec fn holds(&self) -> Holds<T> {
        Holds { allocations: self.allocations@, threads: self.threads@ }
    }

    fn is_empty(&self) -> (empty: bool)
        requires
            self.wf(),
        ensures
            empty == (self.holds() == Holds::<T>::nothing()),
    {
        proof {
            self.allocations.lemma_keys();
            self.threads.lemma_ids();
            if self.allocations.keys().len() == 0 {
                assert(self.allocations@ =~= Map::empty());
            }
            if self.threads.ids().len() == 0 {
                assert(self.threads@ =~= Map::empty());
            }
        }
        self.allocations.len() == 0 && self.threads.len() == 0
    }
}

/// The allocations and threads that sessions own.
pub struct MutationState<T> {
    sessions: TextMap<Holdings<T>>,
    next_allocation: u64,
}

impl<T> View for MutationState<T> {
    type V = Owned<T>;

    closed spec fn view(&self) -> Owned<T> {
        Owned {
            sessions: Map::new(
                |id: Seq<char>| self.sessions@.dom().contains(id),
                |id: Seq<char>| self.sessions@[id].holds(),
            ),
            next_allocation: self.next_allocation as nat,
        }
    }
}

impl<T> Default for MutationState<T> {
    fn default() -> (state: Self)
        ensures
            state.wf(),
            state@ == (Owned::<T> { sessions: Map::empty(), next_allocation: 1 }),
    {
        Self::new()
    }
}

impl<T> MutationState<T> {
    /// Listed sessions own something.
    pub closed spec fn wf(&self) -> bool {
        &&& self.sessions.wf()
        &&& forall|id: Seq<char>| #[trigger]
            self.sessions@.dom().contains(id) ==> self.sessions@[id].wf()
        &&& self@.sound()
    }

    /// Nothing owned.
    pub fn new() -> (state: Self)
        ensures
            state.wf(),
            state@ == (Owned::<T> { sessions: Map::empty(), next_allocation: 1 }),
    {
        let state = MutationState { sessions: TextMap::new(), next_allocation: 1 };
        proof {
            assert(state@.sessions =~= Map::empty());
        }
        state
    }

    fn next_allocation_id(&mut self) -> (name: String)
        requires
            old(self).wf(),
        ensures
            final(self).wf(),
            name@ == allocation_name(old(self)@.next_allocation),
            final(self)@ == old(self)@.counted(),
    {
        let number = format_padded(self.next_allocation, 16);
        let name = join2("allocation-", number.as_str());
        self.next_allocation = self.next_allocation.saturating_add(1);
        proof {
            assert(self@.sessions =~= old(self)@.sessions);
        }
        name
    }

    fn take(&mut self, session_id: &ProcessSessionId) -> (holdings: Holdings<T>)
        requires
            old(self).wf(),
        ensures
            final(self).wf(),
            final(self)@ == old(self)@.with(session_id.0@, Holds::nothing()),
            holdings.wf(),
            holdings.holds() == old(self)@.of(session_id.0@),
    {
        let taken = self.sessions.remove(session_id.0.as_str());
        proof {
            assert(self@ =~= old(self)@.with(session_id.0@, Holds::nothing()));
        }
        match taken {
            Some(holdings) => holdings,
            None => Holdings { allocations: TextMap::new(), threads: ThreadList::new() },
        }
    }

    fn give(&mut self, session_id: &ProcessSessionId, holdings: Holdings<T>)
        requires
            old(self).wf(),
            holdings.wf(),
            old(self)@.of(session_id.0@) == Holds::<T>::nothing(),
        ensures
            final(self).wf(),
            final(self)@ == old(self)@.with(session_id.0@, holdings.holds()),
    {
        if holdings.is_empty() {
            proof {
                assert(self@ =~= self@.with(session_id.0@, holdings.holds()));
            }
        } else {
            self.sessions.put(session_id.0.clone(), holdings);
            proof {
                assert(self@ =~= old(self)@.with(session_id.0@, holdings.holds()));
            }
        }
    }

    fn track_allocation(
        &mut self,
        session_id: &ProcessSessionId,
        name: String,
        allocation: TrackedAllocation,
    )
        requires
            old(self).wf(),
        ensures
            final(self).wf(),
            final(self)@ == old(self)@.with(
                session_id.0@,
                owning(old(self)@.of(session_id.0@), name@, allocation),
            ),
    {
        let mut holdings = self.take(session_id);
        holdings.allocations.put(name, allocation);
        self.give(session_id, holdings);
        proof {
            old(self)@.lemma_with_twice(session_id.0@, Holds::nothing(), holdings.holds());
        }
    }

    fn remove_allocation(&mut self, session_id: &ProcessSessionId, name: &str)
        requires
            old(self).wf(),
        ensures
            final(self).wf(),
            final(self)@ == old(self)@.with(
                session_id.0@,
                released(old(self)@.of(session_id.0@), name@),
            ),
    {
        let mut holdings = self.take(session_id);
        let _ = holdings.allocations.remove(name);
        self.give(session_id, holdings);
        proof {
            old(self)@.lemma_with_twice(session_id.0@, Holds::nothing(), holdings.holds());
        }
    }

    fn track_thread(&mut self, session_id: &ProcessSessionId, thread_id: u32, handle: T)
        requires
            old(self).wf(),
        ensures
            final(self).wf(),
            final(self)@ == old(self)@.with(
                session_id.0@,
                running(old(self)@.of(session_id.0@), thread_id, handle),
            ),
    {
        let mut holdings = self.take(session_id);
        holdings.threads.put(thread_id, handle);
        self.give(session_id, holdings);
        proof {
            old(self)@.lemma_with_twice(session_id.0@, Holds::nothing(), holdings.holds());
        }
    }

    fn remove_thread(&mut self, session_id: &ProcessSessionId, thread_id: u32)
        requires
            old(self).wf(),
        ensures
            final(self).wf(),
            final(self)@ == old(self)@.with(
                session_id.0@,
                finished(old(self)@.of(session_id.0@), thread_id),
            ),
    {
        let mut holdings = self.take(session_id);
        holdings.threads.remove(thread_id);
        self.give(session_id, holdings);
        proof {
            old(self)@.lemma_with_twice(session_id.0@, Holds::nothing(), holdings.holds());
        }
    }

    fn forget_session(&mut self, session_id: &ProcessSessionId)
        requires
            old(self).wf(),
        ensures
            final(self).wf(),
            final(self)@ == old(self)@.with(session_id.0@, Holds::nothing()),
    {
        let _ = self.take(session_id);
    }

    /// How many allocations a session owns.
    pub fn tracked_count(&self, session_id: &ProcessSessionId) -> (count: usize)
        requires
            self.wf(),
        ensures
            count == self@.of(session_id.0@).allocations.dom().len(),
    {
        match self.sessions.get(session_id.0.as_str()) {
            Some(holdings) => {
                proof {
                    holdings.allocations.lemma_keys();
                }
                holdings.allocations.len()
            },
            None => 0,
        }
    }

    /// How many threads a session owns.
    pub fn tracked_thread_count(&self, session_id: &ProcessSessionId) -> (count: usize)
        requires
            self.wf(),
        ensures
            count == self@.of(session_id.0@).threads.dom().len(),
            count == 0 <==> self@.of(session_id.0@).threads == Map::<u32, T>::empty(),
    {
        match self.sessions.get(session_id.0.as_str()) {
            Some(holdings) => {
                proof {
                    holdings.threads.lemma_ids();
                    if holdings.threads.ids().len() == 0 {
                        assert(holdings.threads@ =~= Map::empty());
                    }
                }
                holdings.threads.len()
            },
            None => 0,
        }
    }

    fn allocation(&self, session_id: &ProcessSessionId, name: &str) -> (found: Option<
        TrackedAllocation,
    >)
        requires
            self.wf(),
        ensures
            found is Some <==> self@.of(session_id.0@).allocations.dom().contains(name@),
            found matches Some(allocation) ==> allocation == self@.of(
                session_id.0@,
            ).allocations[name@],
    {
        match self.sessions.get(session_id.0.as_str()) {
            Some(holdings) => match holdings.allocations.get(name) {
                Some(allocation) => Some(*allocation),
                None => None,
            },
            None => None,
        }
    }

    fn thread_ids(&self, session_id: &ProcessSessionId) -> (ids: Vec<u32>)
        requires
            self.wf(),
        ensures
            lists_threads(ids@, self@.of(session_id.0@).threads),
    {
        match self.sessions.get(session_id.0.as_str()) {
            Some(holdings) => {
                proof {
                    holdings.threads.lemma_ids();
                }
                holdings.threads.all_ids()
            },
            None => Vec::new(),
        }
    }

    fn allocation_ids(&self, session_id: &ProcessSessionId) -> (names: Vec<String>)
        requires
            self.wf(),
        ensures
            lists_allocations(texts(names@), self@.of(session_id.0@).allocations),
    {
        let mut names: Vec<String> = Vec::new();
        match self.sessions.get(session_id.0.as_str()) {
            Some(holdings) => {
                let mut i: usize = 0;
                while i < holdings.allocations.len()
                    invariant
                        i <= holdings.allocations.keys().len(),
                        texts(names@) == holdings.allocations.keys().take(i as int),
                    decreases holdings.allocations.keys().len() - i,
                {
                    let name = holdings.allocations.key_at(i).clone();
                    let ghost before = names@;
                    names.push(name);
                    proof {
                        assert(texts(names@) =~= texts(before).push(name@));
                        assert(holdings.allocations.keys().take(i + 1)
                            =~= holdings.allocations.keys().take(i as int).push(name@));
                    }
                    i += 1;
                }
                proof {
                    holdings.allocations.lemma_keys();
                    assert(texts(names@) =~= holdings.allocations.keys());
                }
            },
            None => {
                proof {
                    assert(texts(names@) =~= Seq::empty());
                }
            },
        }
        names
    }

    fn session_ids(&self) -> (ids: Vec<ProcessSessionId>)
        requires
            self.wf(),
        ensures
            lists_sessions(ids@, self@),
    {
        let mut ids: Vec<ProcessSessionId> = Vec::new();
        let mut i: usize = 0;
        while i < self.sessions.len()
            invariant
                i <= self.sessions.keys().len(),
                ids@.len() == i,
                forall|j: int| 0 <= j < i ==> (#[trigger] ids@[j]).0@ == self.sessions.keys()[j],
            decreases self.sessions.keys().len() - i,
        {
            ids.push(ProcessSessionId(self.sessions.key_at(i).clone()));
            i += 1;
        }
        proof {
            self.sessions.lemma_keys();
            assert forall|id: Seq<char>| #[trigger] self@.sessions.dom().contains(id) implies exists|
                j: int,
            | 0 <= j < ids@.len() && (#[trigger] ids@[j]).0@ == id by {
                assert(self.sessions@.dom().contains(id));
                assert(self.sessions.keys().contains(id));
                let j = choose|j: int|
                    0 <= j < self.sessions.keys().len() && self.sessions.keys()[j] == id;
                assert(ids@[j].0@ == id);
            }
            assert forall|j: int| 0 <= j < ids@.len() implies self@.sessions.dom().contains(
                (#[trigger] ids@[j]).0@,
            ) by {
                assert(self.sessions.keys().contains(self.sessions.keys()[j]));
            }
        }
        ids
    }
}

/// The sessions that own something, each once.
pub open spec fn lists_sessions<T>(ids: Seq<ProcessSessionId>, owned: Owned<T>) -> bool {
    &&& forall|id: Seq<char>| #[trigger]
        owned.sessions.dom().contains(id) ==> exists|j: int|
            0 <= j < ids.len() && (#[trigger] ids[j]).0@ == id
    &&& forall|j: int|
        0 <= j < ids.len() ==> owned.sessions.dom().contains((#[trigger] ids[j]).0@)
    &&& forall|i: int, j: int|
        0 <= i < j < ids.len() ==> (#[trigger] ids[i]).0@ != (#[trigger] ids[j]).0@
}

/// Holdings with one more allocation.
pub open spec fn owning<T>(
    holds: Holds<T>,
    name: Seq<char>,
    allocation: TrackedAllocation,
) -> Holds<T> {
    Holds { allocations: holds.allocations.insert(name, allocation), ..holds }
}

/// Holdings without an allocation.
pub open spec fn released<T>(holds: Holds<T>, name: Seq<char>) -> Holds<T> {
    Holds { allocations: holds.allocations.remove(name), ..holds }
}

/// Holdings with one more thread.
pub open spec fn running<T>(holds: Holds<T>, id: u32, handle: T) -> Holds<T> {
    Holds { threads: holds.threads.insert(id, handle), ..holds }
}

/// Holdings without a thread.
pub open spec fn finished<T>(holds: Holds<T>, id: u32) -> Holds<T> {
    Holds { threads: holds.threads.remove(id), ..holds }
}

/// Two numbers give two allocation names.
pub proof fn allocation_names_differ(a: nat, b: nat)
    requires
        a <= u64::MAX,
        b <= u64::MAX,
        a != b,
    ensures
        allocation_name(a) != allocation_name(b),
{
    if allocation_name(a) == allocation_name(b) {
        let head = "allocation-"@;
        assert(allocation_name(a).skip(head.len() as int) =~= hex_padded(a, 16));
        assert(allocation_name(b).skip(head.len() as int) =~= hex_padded(b, 16));
        lemma_hex_padded_injective(a, b);
    }
}

/// Why memory may not be asked for.
pub open spec fn allocation_refusal(request: MemoryAllocateRequest) -> Option<Failure> {
    if request.size == 0 || request.size > MAX_ALLOCATION_BYTES {
        Some(
            failure(
                RpcErrorCode::MemoryLimitExceeded,
                "allocation size must be between 1 and "@ + dec_text(MAX_ALLOCATION_BYTES as nat)
                    + " bytes"@,
            ),
        )
    } else if request.protection == MemoryProtection::CopyOnWrite || request.protection
        == MemoryProtection::ExecuteCopyOnWrite {
        Some(
            failure(
                RpcErrorCode::InvalidRequest,
                "copy-on-write protection is not valid for private remote allocations"@,
            ),
        )
    } else {
        None
    }
}

/// Memory that the backend was asked for, near a place or anywhere.
pub open spec fn reserved<B: MutationBackend>(
    backend: &B,
    handle: &B::Handle,
    near: Option<usize>,
    size: usize,
    protection: MemoryProtection,
    outcome: Result<usize, ProcessBackendError>,
) -> bool {
    match near {
        None => call_ensures(B::allocate_memory, (backend, handle, size, protection), outcome),
        Some(target) => call_ensures(
            B::allocate_memory_near,
            (backend, handle, target, size, protection),
            outcome,
        ),
    }
}

/// The calls that an allocation makes.
pub open spec fn allocate_calls<B: MutationBackend>(
    backend: &B,
    held: Sessions<B::Handle>,
    near: Option<usize>,
    request: MemoryAllocateRequest,
    around: Around<usize>,
) -> bool {
    let id = request.session_id.0@;
    &&& effect_checks(backend, held, id, around.before, around.value, around.after)
    &&& admits_effect(held, id, around.before) ==> reserved(
        backend,
        &held.handle(id),
        near,
        request.size,
        request.protection,
        around.value,
    )
}

/// What an allocation does: the sessions and the holdings after it, and its
/// answer. The name is used up even where the call fails.
pub open spec fn allocate_does<B: MutationBackend>(
    backend: &B,
    held: Sessions<B::Handle>,
    owned: Owned<B::ThreadHandle>,
    near: Option<usize>,
    request: MemoryAllocateRequest,
    later: Sessions<B::Handle>,
    owned_later: Owned<B::ThreadHandle>,
    answer: Result<MemoryAllocationResponse, MutationApiError>,
) -> bool {
    let id = request.session_id.0@;
    let name = allocation_name(owned.next_allocation);
    match allocation_refusal(request) {
        Some(fault) => later == held && owned_later == owned && refuses(answer, fault),
        None => exists|around: Around<usize>|
            {
                &&& #[trigger] allocate_calls(backend, held, near, request, around)
                &&& ({
                    let (left, outcome) = effect_outcome(
                        held,
                        id,
                        around.before,
                        around.value,
                        around.after,
                    );
                    &&& later == left
                    &&& match outcome {
                        Outcome::Refused { fault } => owned_later == owned.counted() && refuses(
                            answer,
                            fault,
                        ),
                        Outcome::Failed { error } => owned_later == owned.counted() && refuses(
                            answer,
                            effect_failure(RpcErrorCode::MemoryAllocationFailed, error),
                        ),
                        Outcome::Done { value, lapse } => {
                            &&& owned_later == owned.counted().with(
                                id,
                                owning(
                                    owned.of(id),
                                    name,
                                    TrackedAllocation { address: value, size: request.size },
                                ),
                            )
                            &&& match lapse {
                                Some(fault) => refuses(
                                    answer,
                                    fault.with("allocation_id"@, name).with(
                                        "allocation_address"@,
                                        address_text(value as nat),
                                    ).with("allocation_tracked"@, "true"@),
                                ),
                                None => answer matches Ok(response) && {
                                    &&& response.session_id.0@ == id
                                    &&& response.allocation_id@ == name
                                    &&& response.address@ == address_text(value as nat)
                                    &&& response.size == request.size
                                    &&& response.protection == request.protection
                                },
                            }
                        },
                    }
                })
            },
    }
}

/// Allocates memory that the session then owns.
pub fn allocate<B: MutationBackend>(
    sessions: &mut ProcessSessionRegistry<B::Handle>,
    backend: &B,
    state: &mut MutationState<B::ThreadHandle>,
    request: &MemoryAllocateRequest,
) -> (answer: Result<MemoryAllocationResponse, MutationApiError>)
    requires
        old(sessions).wf(),
        old(state).wf(),
    ensures
        final(sessions).wf(),
        final(state).wf(),
        old(sessions)@.leads_to(final(sessions)@),
        allocate_does(
            backend,
            old(sessions)@,
            old(state)@,
            None,
            *request,
            final(sessions)@,
            final(state)@,
            answer,
        ),
{
    allocate_placed(sessions, backend, state, None, request)
}

/// Allocates memory that the session then owns, near a place if one is given.
pub(crate) fn allocate_placed<B: MutationBackend>(
    sessions: &mut ProcessSessionRegistry<B::Handle>,
    backend: &B,
    state: &mut MutationState<B::ThreadHandle>,
    near: Option<usize>,
    request: &MemoryAllocateRequest,
) -> (answer: Result<MemoryAllocationResponse, MutationApiError>)
    requires
        old(sessions).wf(),
        old(state).wf(),
    ensures
        final(sessions).wf(),
        final(state).wf(),
        old(sessions)@.leads_to(final(sessions)@),
        allocate_does(
            backend,
            old(sessions)@,
            old(state)@,
            near,
            *request,
            final(sessions)@,
            final(state)@,
            answer,
        ),
{
    if request.size == 0 || request.size > MAX_ALLOCATION_BYTES {
        let most = format_decimal(MAX_ALLOCATION_BYTES as u64);
        return Err(
            MutationApiError::request(
                RpcErrorCode::MemoryLimitExceeded,
                join3("allocation size must be between 1 and ", most.as_str(), " bytes"),
            ),
        );
    }
    if request.protection == MemoryProtection::CopyOnWrite || request.protection
        == MemoryProtection::ExecuteCopyOnWrite {
        return Err(
            MutationApiError::request(
                RpcErrorCode::InvalidRequest,
                "copy-on-write protection is not valid for private remote allocations".to_owned(),
            ),
        );
    }
    let allocation_id = state.next_allocation_id();
    let size: usize = request.size;
    let protection = request.protection;
    let ghost held = sessions@;
    let operation = |b: &B, h: &B::Handle| -> (r: Result<usize, ProcessBackendError>)
        ensures
            reserved(b, h, near, size, protection, r),
        {
            match near {
                None => b.allocate_memory(h, size, protection),
                Some(target) => b.allocate_memory_near(h, target, size, protection),
            }
        };
    let (effect, Ghost(around)) = run_effect(sessions, backend, &request.session_id, operation);
    assert(allocate_calls(backend, held, near, *request, around));
    match effect {
        Effect::Refused(error) => Err(MutationApiError::Process(error)),
        Effect::Failed(error) => Err(
            MutationApiError::backend(RpcErrorCode::MemoryAllocationFailed, error),
        ),
        Effect::Done(address, lapse) => {
            state.track_allocation(
                &request.session_id,
                allocation_id.clone(),
                TrackedAllocation { address, size },
            );
            match lapse {
                Some(error) => Err(
                    MutationApiError::Process(
                        error.with_detail("allocation_id", allocation_id).with_detail(
                            "allocation_address",
                            format_address(address),
                        ).with_detail("allocation_tracked", "true".to_owned()),
                    ),
                ),
                None => Ok(
                    MemoryAllocationResponse {
                        session_id: request.session_id.clone(),
                        allocation_id,
                        address: format_address(address),
                        size,
                        protection,
                    },
                ),
            }
        },
    }
}

/// The outcome of asking how a thread stands.
pub type Poll = Result<RemoteThreadPoll, ProcessBackendError>;

/// The holdings after a thread was asked how it stands, and what failed. A
/// thread that is done is let go.
pub open spec fn after_poll<T>(holds: Holds<T>, id: u32, poll: Poll) -> (
    Holds<T>,
    Option<Seq<char>>,
) {
    match poll {
        Err(error) => (holds, Some("thread "@ + dec_text(id as nat) + ": "@ + error.message@)),
        Ok(stand) => (
            if stand.completed {
                finished(holds, id)
            } else {
                holds
            },
            None,
        ),
    }
}

/// The holdings after threads were asked in turn, and what failed.
pub open spec fn after_polls<T>(holds: Holds<T>, ids: Seq<u32>, polls: Seq<Poll>) -> (
    Holds<T>,
    Seq<Seq<char>>,
)
    decreases ids.len(),
{
    if ids.len() == 0 {
        (holds, Seq::empty())
    } else {
        let (before, failures) = after_polls(holds, ids.drop_last(), polls);
        let (after, failed) = after_poll(before, ids.last(), polls[ids.len() - 1]);
        (
            after,
            match failed {
                Some(text) => failures.push(text),
                None => failures,
            },
        )
    }
}

/// Whether threads were asked, without waiting for them.
pub open spec fn polled<B: MutationBackend>(
    backend: &B,
    holds: Holds<B::ThreadHandle>,
    ids: Seq<u32>,
    polls: Seq<Poll>,
) -> bool {
    &&& lists_threads(ids, holds.threads)
    &&& polls.len() == ids.len()
    &&& forall|i: int|
        0 <= i < ids.len() ==> call_ensures(
            B::poll_remote_thread,
            (backend, &holds.threads[ids[i]], 0u32),
            #[trigger] polls[i],
        )
}

proof fn lemma_polls_keep<T>(holds: Holds<T>, ids: Seq<u32>, polls: Seq<Poll>, id: u32)
    requires
        !ids.contains(id),
    ensures
        after_polls(holds, ids, polls).0.threads.dom().contains(id)
            == holds.threads.dom().contains(id),
        after_polls(holds, ids, polls).0.threads[id] == holds.threads[id],
    decreases ids.len(),
{
    if ids.len() > 0 {
        assert(!ids.drop_last().contains(id)) by {
            if ids.drop_last().contains(id) {
                let i = choose|i: int| 0 <= i < ids.drop_last().len() && ids.drop_last()[i] == id;
                assert(ids[i] == id);
            }
        }
        lemma_polls_keep(holds, ids.drop_last(), polls, id);
        assert(ids.last() == ids[ids.len() - 1]);
    }
}

proof fn lemma_polls_own<T>(holds: Holds<T>, ids: Seq<u32>, polls: Seq<Poll>)
    ensures
        after_polls(holds, ids, polls).0.allocations == holds.allocations,
        after_polls(holds, ids, polls).0.threads.dom().subset_of(holds.threads.dom()),
    decreases ids.len(),
{
    if ids.len() > 0 {
        lemma_polls_own(holds, ids.drop_last(), polls);
    }
}

/// Asking a session's threads how they stand releases no allocation, and no
/// thread is taken up.
pub proof fn polls_release_no_allocation<T>(holds: Holds<T>, ids: Seq<u32>, polls: Seq<Poll>)
    ensures
        after_polls(holds, ids, polls).0.allocations == holds.allocations,
        after_polls(holds, ids, polls).0.threads.dom().subset_of(holds.threads.dom()),
{
    lemma_polls_own(holds, ids, polls);
}

fn poll_thread<B: MutationBackend>(
    backend: &B,
    state: &mut MutationState<B::ThreadHandle>,
    session_id: &ProcessSessionId,
    thread_id: u32,
    wait_timeout_ms: u32,
) -> (answer: (Result<RemoteThreadPoll, MutationApiError>, Ghost<Poll>))
    requires
        old(state).wf(),
        old(state)@.of(session_id.0@).threads.dom().contains(thread_id),
    ensures
        final(state).wf(),
        call_ensures(
            B::poll_remote_thread,
            (backend, &old(state)@.of(session_id.0@).threads[thread_id], wait_timeout_ms),
            answer.1@,
        ),
        final(state)@ == old(state)@.with(
            session_id.0@,
            after_poll(old(state)@.of(session_id.0@), thread_id, answer.1@).0,
        ),
        match answer.1@ {
            Ok(stand) => answer.0 == Ok::<RemoteThreadPoll, MutationApiError>(stand),
            Err(error) => refuses(
                answer.0,
                effect_failure(RpcErrorCode::RemoteThreadFailed, error),
            ) && answer.0->Err_0 is Request,
        },
{
    proof {
        state@.lemma_with_same(session_id.0@);
    }
    let poll = match state.sessions.get(session_id.0.as_str()) {
        Some(holdings) => match holdings.threads.get(thread_id) {
            Some(handle) => backend.poll_remote_thread(handle, wait_timeout_ms),
            None => {
                proof {
                    assert(false);
                }
                vstd::pervasive::unreached()
            },
        },
        None => {
            proof {
                assert(false);
            }
            vstd::pervasive::unreached()
        },
    };
    let ghost seen = poll;
    match poll {
        Ok(stand) => {
            if stand.completed {
                state.remove_thread(session_id, thread_id);
            }
            (Ok(stand), Ghost(seen))
        },
        Err(error) => (
            Err(MutationApiError::backend(RpcErrorCode::RemoteThreadFailed, error)),
            Ghost(seen),
        ),
    }
}

fn poll_all<B: MutationBackend>(
    backend: &B,
    state: &mut MutationState<B::ThreadHandle>,
    session_id: &ProcessSessionId,
) -> (asked: (Vec<String>, Ghost<Seq<u32>>, Ghost<Seq<Poll>>))
    requires
        old(state).wf(),
    ensures
        final(state).wf(),
        polled(backend, old(state)@.of(session_id.0@), asked.1@, asked.2@),
        ({
            let (holds, failures) = after_polls(
                old(state)@.of(session_id.0@),
                asked.1@,
                asked.2@,
            );
            &&& final(state)@ == old(state)@.with(session_id.0@, holds)
            &&& texts(asked.0@) == failures
        }),
{
    let ids = state.thread_ids(session_id);
    let mut failures: Vec<String> = Vec::new();
    let ghost mut polls: Seq<Poll> = Seq::empty();
    let ghost owned = state@;
    let ghost id = session_id.0@;
    let ghost holds = owned.of(id);
    proof {
        owned.lemma_with_same(id);
        assert(texts(failures@) =~= Seq::empty());
    }
    let mut i: usize = 0;
    while i < ids.len()
        invariant
            i <= ids@.len(),
            state.wf(),
            id == session_id.0@,
            holds == owned.of(id),
            owned.sound(),
            lists_threads(ids@, holds.threads),
            polls.len() == i,
            forall|j: int|
                0 <= j < i ==> call_ensures(
                    B::poll_remote_thread,
                    (backend, &holds.threads[ids@[j]], 0u32),
                    #[trigger] polls[j],
                ),
            state@ == owned.with(id, after_polls(holds, ids@.take(i as int), polls).0),
            texts(failures@) == after_polls(holds, ids@.take(i as int), polls).1,
        decreases ids@.len() - i,
    {
        let thread_id: u32 = ids[i];
        let ghost before = polls;
        let ghost done = ids@.take(i as int);
        let ghost earlier = after_polls(holds, done, before).0;
        proof {
            assert(ids@.contains(thread_id));
            assert(!done.contains(thread_id));
            lemma_polls_keep(holds, done, before, thread_id);
            owned.lemma_with(id, earlier);
        }
        let (answer, Ghost(poll)) = poll_thread(backend, state, session_id, thread_id, 0);
        proof {
            owned.lemma_with_twice(id, earlier, after_poll(earlier, thread_id, poll).0);
            polls = before.push(poll);
            assert(ids@.take(i + 1).drop_last() =~= done);
            lemma_polls_agree(holds, done, before, polls);
        }
        if let Err(error) = answer {
            let number = format_decimal(thread_id as u64);
            let said = error.summary();
            let text = join4("thread ", number.as_str(), ": ", said.as_str());
            let ghost held = failures@;
            failures.push(text);
            proof {
                assert(texts(failures@) =~= texts(held).push(text@));
            }
        }
        i += 1;
    }
    proof {
        assert(ids@.take(i as int) =~= ids@);
    }
    (failures, Ghost(ids@), Ghost(polls))
}

proof fn lemma_polls_agree<T>(holds: Holds<T>, ids: Seq<u32>, a: Seq<Poll>, b: Seq<Poll>)
    requires
        forall|i: int| 0 <= i < ids.len() ==> a[i] == b[i],
    ensures
        after_polls(holds, ids, a) == after_polls(holds, ids, b),
    decreases ids.len(),
{
    if ids.len() > 0 {
        lemma_polls_agree(holds, ids.drop_last(), a, b);
    }
}

/// The calls that a release makes.
pub open spec fn free_calls<B: MutationBackend>(
    backend: &B,
    held: Sessions<B::Handle>,
    id: Seq<char>,
    address: usize,
    around: Around<()>,
) -> bool {
    &&& effect_checks(backend, held, id, around.before, around.value, around.after)
    &&& admits_effect(held, id, around.before) ==> call_ensures(
        B::free_memory,
        (backend, &held.handle(id), address),
        around.value,
    )
}

fn run_free<B: MutationBackend>(
    sessions: &mut ProcessSessionRegistry<B::Handle>,
    backend: &B,
    session_id: &ProcessSessionId,
    address: usize,
) -> (effect: (Effect<()>, Ghost<Around<()>>))
    requires
        old(sessions).wf(),
    ensures
        final(sessions).wf(),
        old(sessions)@.leads_to(final(sessions)@),
        free_calls(backend, old(sessions)@, session_id.0@, address, effect.1@),
        (final(sessions)@, effect.0.outcome()) == effect_outcome(
            old(sessions)@,
            session_id.0@,
            effect.1@.before,
            effect.1@.value,
            effect.1@.after,
        ),
{
    let operation = |b: &B, h: &B::Handle| -> (r: Result<(), ProcessBackendError>)
        ensures
            call_ensures(B::free_memory, (b, h, address), r),
        {
            b.free_memory(h, address)
        };
    run_effect(sessions, backend, session_id, operation)
}

/// An allocation that the session does not own.
pub open spec fn not_tracked(id: Seq<char>, name: Seq<char>) -> Failure {
    failure(
        RpcErrorCode::InvalidRequest,
        "allocation "@ + name + " is not tracked by process session "@ + id,
    ).with("allocation_id"@, name).with("session_id"@, id)
}

/// Threads that could not be asked.
pub open spec fn unqueryable(failures: Seq<Seq<char>>) -> Failure {
    failure(
        RpcErrorCode::RemoteThreadFailed,
        "one or more remote threads could not be queried; every allocation owned by the session remains tracked"@,
    ).with("thread_failures"@, joined(failures, "; "@))
}

/// Threads that still run keep an allocation.
pub open spec fn pinned(id: Seq<char>, name: Seq<char>) -> Failure {
    failure(
        RpcErrorCode::RemoteThreadFailed,
        "allocation "@ + name
            + " cannot be released while this session owns a running or unqueryable remote thread"@,
    ).with("allocation_id"@, name).with("session_id"@, id)
}

/// The calls of a request to release an allocation.
pub ghost struct FreeCalls {
    pub ids: Seq<u32>,
    pub polls: Seq<Poll>,
    pub around: Around<()>,
}

/// What comes of a request to release an allocation.
pub open spec fn free_outcome<H, T>(
    held: Sessions<H>,
    owned: Owned<T>,
    id: Seq<char>,
    name: Seq<char>,
    calls: FreeCalls,
) -> (Sessions<H>, Owned<T>, Result<TrackedAllocation, Failure>) {
    if !owned.of(id).allocations.dom().contains(name) {
        (held, owned, Err(not_tracked(id, name)))
    } else {
        let allocation = owned.of(id).allocations[name];
        let (holds, failures) = after_polls(owned.of(id), calls.ids, calls.polls);
        if failures.len() > 0 {
            (held, owned.with(id, holds), Err(unqueryable(failures)))
        } else if holds.threads != Map::<u32, T>::empty() {
            (held, owned.with(id, holds), Err(pinned(id, name)))
        } else {
            let (left, outcome) = effect_outcome(
                held,
                id,
                calls.around.before,
                calls.around.value,
                calls.around.after,
            );
            match outcome {
                Outcome::Refused { fault } => (left, owned.with(id, holds), Err(fault)),
                Outcome::Failed { error } => (
                    left,
                    owned.with(id, holds),
                    Err(effect_failure(RpcErrorCode::MemoryAllocationFailed, error)),
                ),
                Outcome::Done { value, lapse } => (
                    left,
                    owned.with(id, released(holds, name)),
                    match lapse {
                        Some(fault) => Err(
                            fault.with("allocation_id"@, name).with(
                                "allocation_released"@,
                                "true"@,
                            ),
                        ),
                        None => Ok(allocation),
                    },
                ),
            }
        }
    }
}

/// Whether the calls of a request to release an allocation were made.
pub open spec fn free_made<B: MutationBackend>(
    backend: &B,
    held: Sessions<B::Handle>,
    owned: Owned<B::ThreadHandle>,
    id: Seq<char>,
    name: Seq<char>,
    calls: FreeCalls,
) -> bool {
    owned.of(id).allocations.dom().contains(name) ==> {
        let (holds, failures) = after_polls(owned.of(id), calls.ids, calls.polls);
        &&& polled(backend, owned.of(id), calls.ids, calls.polls)
        &&& failures.len() == 0 && holds.threads == Map::<u32, B::ThreadHandle>::empty()
            ==> free_calls(
            backend,
            held,
            id,
            owned.of(id).allocations[name].address,
            calls.around,
        )
    }
}

/// What a release does: the sessions and the holdings after it, and its answer.
pub open spec fn free_does<B: MutationBackend>(
    backend: &B,
    held: Sessions<B::Handle>,
    owned: Owned<B::ThreadHandle>,
    request: MemoryFreeRequest,
    later: Sessions<B::Handle>,
    owned_later: Owned<B::ThreadHandle>,
    answer: Result<MemoryFreeResponse, MutationApiError>,
) -> bool {
    let id = request.session_id.0@;
    let name = request.allocation_id@;
    exists|calls: FreeCalls|
        {
            &&& #[trigger] free_made(backend, held, owned, id, name, calls)
            &&& ({
                let (left, kept, outcome) = free_outcome(held, owned, id, name, calls);
                &&& later == left
                &&& owned_later == kept
                &&& match outcome {
                    Err(fault) => refuses(answer, fault),
                    Ok(allocation) => answer matches Ok(response) && {
                        &&& response.session_id.0@ == id
                        &&& response.allocation_id@ == name
                        &&& response.address@ == address_text(allocation.address as nat)
                        &&& response.size == allocation.size
                    },
                }
            })
        }
}

/// Releases an allocation that the session owns.
pub fn free<B: MutationBackend>(
    sessions: &mut ProcessSessionRegistry<B::Handle>,
    backend: &B,
    state: &mut MutationState<B::ThreadHandle>,
    request: &MemoryFreeRequest,
) -> (answer: Result<MemoryFreeResponse, MutationApiError>)
    requires
        old(sessions).wf(),
        old(state).wf(),
    ensures
        final(sessions).wf(),
        final(state).wf(),
        old(sessions)@.leads_to(final(sessions)@),
        free_does(
            backend,
            old(sessions)@,
            old(state)@,
            *request,
            final(sessions)@,
            final(state)@,
            answer,
        ),
{
    let ghost held = sessions@;
    let ghost owned = state@;
    let ghost id = request.session_id.0@;
    let ghost name = request.allocation_id@;
    let allocation = match state.allocation(
        &request.session_id,
        request.allocation_id.as_str(),
    ) {
        Some(allocation) => allocation,
        None => {
            let message = join4(
                "allocation ",
                request.allocation_id.as_str(),
                " is not tracked by process session ",
                request.session_id.0.as_str(),
            );
            assert(free_made(backend, held, owned, id, name, arbitrary()));
            return Err(
                MutationApiError::request(RpcErrorCode::InvalidRequest, message).with_detail(
                    "allocation_id",
                    request.allocation_id.clone(),
                ).with_detail("session_id", request.session_id.0.clone()),
            );
        },
    };
    let (failures, Ghost(ids), Ghost(polls)) = poll_all(backend, state, &request.session_id);
    let ghost holds = after_polls(owned.of(id), ids, polls).0;
    proof {
        lemma_polls_own(owned.of(id), ids, polls);
        owned.lemma_with(id, holds);
        owned.lemma_with_twice(id, holds, released(holds, name));
        assert(texts(failures@).len() == failures@.len());
    }
    if failures.len() > 0 {
        assert(free_made(
            backend,
            held,
            owned,
            id,
            name,
            FreeCalls { ids, polls, around: arbitrary() },
        ));
        let said = join_all(&failures, "; ");
        return Err(
            MutationApiError::request(
                RpcErrorCode::RemoteThreadFailed,
                "one or more remote threads could not be queried; every allocation owned by the session remains tracked".to_owned(),
            ).with_detail("thread_failures", said),
        );
    }
    if state.tracked_thread_count(&request.session_id) > 0 {
        assert(free_made(
            backend,
            held,
            owned,
            id,
            name,
            FreeCalls { ids, polls, around: arbitrary() },
        ));
        let message = join3(
            "allocation ",
            request.allocation_id.as_str(),
            " cannot be released while this session owns a running or unqueryable remote thread",
        );
        return Err(
            MutationApiError::request(RpcErrorCode::RemoteThreadFailed, message).with_detail(
                "allocation_id",
                request.allocation_id.clone(),
            ).with_detail("session_id", request.session_id.0.clone()),
        );
    }
    let (effect, Ghost(around)) = run_free(
        sessions,
        backend,
        &request.session_id,
        allocation.address,
    );
    assert(free_made(backend, held, owned, id, name, FreeCalls { ids, polls, around }));
    match effect {
        Effect::Refused(error) => Err(MutationApiError::Process(error)),
        Effect::Failed(error) => Err(
            MutationApiError::backend(RpcErrorCode::MemoryAllocationFailed, error),
        ),
        Effect::Done(_, lapse) => {
            state.remove_allocation(&request.session_id, request.allocation_id.as_str());
            match lapse {
                Some(error) => Err(
                    MutationApiError::Process(
                        error.with_detail(
                            "allocation_id",
                            request.allocation_id.clone(),
                        ).with_detail("allocation_released", "true".to_owned()),
                    ),
                ),
                None => Ok(
                    MemoryFreeResponse {
                        session_id: request.session_id.clone(),
                        allocation_id: request.allocation_id.clone(),
                        address: format_address(allocation.address),
                        size: allocation.size,
                    },
                ),
            }
        },
    }
}

/// An allocation that holds an address.
pub open spec fn covers(allocation: TrackedAllocation, address: usize) -> bool {
    &&& allocation.address + allocation.size <= usize::MAX
    &&& allocation.address <= address < allocation.address + allocation.size
}

/// The first of the named allocations that holds an address.
pub open spec fn first_covering(
    names: Seq<Seq<char>>,
    allocations: Map<Seq<char>, TrackedAllocation>,
    address: usize,
) -> Option<TrackedAllocation>
    decreases names.len(),
{
    if names.len() == 0 {
        None
    } else if covers(allocations[names[0]], address) {
        Some(allocations[names[0]])
    } else {
        first_covering(names.skip(1), allocations, address)
    }
}

fn containing_allocation<T>(
    state: &MutationState<T>,
    session_id: &ProcessSessionId,
    address: usize,
) -> (found: (Option<TrackedAllocation>, Ghost<Seq<Seq<char>>>))
    requires
        state.wf(),
    ensures
        lists_allocations(found.1@, state@.of(session_id.0@).allocations),
        found.0 == first_covering(found.1@, state@.of(session_id.0@).allocations, address),
{
    let names = state.allocation_ids(session_id);
    let ghost list = texts(names@);
    let ghost allocations = state@.of(session_id.0@).allocations;
    proof {
        assert(list.skip(0) =~= list);
    }
    let mut i: usize = 0;
    while i < names.len()
        invariant
            i <= names@.len(),
            list == texts(names@),
            state.wf(),
            allocations == state@.of(session_id.0@).allocations,
            lists_allocations(list, allocations),
            first_covering(list, allocations, address) == first_covering(
                list.skip(i as int),
                allocations,
                address,
            ),
        decreases names@.len() - i,
    {
        proof {
            assert(list[i as int] == names@[i as int]@);
            assert(list.contains(names@[i as int]@));
            assert(list.skip(i as int).skip(1) =~= list.skip(i + 1));
        }
        match state.allocation(session_id, names[i].as_str()) {
            Some(allocation) => {
                if let Some(end) = allocation.address.checked_add(allocation.size) {
                    if allocation.address <= address && address < end {
                        return (Some(allocation), Ghost(list));
                    }
                }
            },
            None => {
                proof {
                    assert(false);
                }
            },
        }
        i += 1;
    }
    (None, Ghost(list))
}

/// Code made visible and, only where that was done, a thread started on it.
pub open spec fn thread_started<B: MutationBackend>(
    backend: &B,
    handle: &B::Handle,
    flushed: (usize, usize),
    start: usize,
    parameter: Option<usize>,
    value: Result<StartedRemoteThread<B::ThreadHandle>, ProcessBackendError>,
) -> bool {
    exists|identity: ProcessIdentity, calls: Calls|
        {
            &&& #[trigger] calls_made(backend, *handle, identity, calls)
            &&& calls.len() > 0
            &&& calls[0].wish == (Wish::Flush { at: flushed.0, size: flushed.1 })
            &&& match flush_of(calls, 0, flushed.0, flushed.1) {
                Err(fault) => calls.len() == 1 && agrees(value, Err(fault)),
                Ok(_) => {
                    &&& calls.len() == 2
                    &&& calls[1] == (Call {
                        wish: Wish::Start { at: start, parameter },
                        answer: start_answer(value),
                    })
                    &&& call_ensures(
                        B::start_remote_thread,
                        (backend, handle, start, parameter),
                        value,
                    )
                },
            }
        }
}

fn flush_and_start<B: MutationBackend>(
    backend: &B,
    handle: &B::Handle,
    flushed: (usize, usize),
    start: usize,
    parameter: Option<usize>,
) -> (value: Result<StartedRemoteThread<B::ThreadHandle>, ProcessBackendError>)
    ensures
        thread_started(backend, handle, flushed, start, parameter, value),
{
    let mut caller = Caller::new(backend, Ghost(*handle), Ghost(arbitrary()));
    match caller.flush(handle, flushed.0, flushed.1) {
        Err(error) => Err(error),
        Ok(_) => caller.start(handle, start, parameter),
    }
}

/// What a request to start a thread asks for: where, and with what.
pub open spec fn thread_target(request: RemoteThreadStartRequest) -> Result<
    (usize, Option<usize>),
    Failure,
> {
    if request.wait_timeout_ms == 0 {
        Err(
            failure(
                RpcErrorCode::InvalidRequest,
                "remote threads require a bounded non-zero wait timeout; asynchronous thread ownership belongs to transactional hook management"@,
            ),
        )
    } else if request.wait_timeout_ms > MAX_REMOTE_THREAD_WAIT_MS {
        Err(
            failure(
                RpcErrorCode::MemoryLimitExceeded,
                "remote-thread wait timeout cannot exceed "@ + dec_text(
                    MAX_REMOTE_THREAD_WAIT_MS as nat,
                ) + " ms"@,
            ),
        )
    } else {
        match target_of(request.start_address@) {
            Err(fault) => Err(fault),
            Ok(start) => match request.parameter {
                None => Ok((start, None)),
                Some(text) => match target_of(text@) {
                    Err(fault) => Err(fault),
                    Ok(value) => Ok((start, Some(value))),
                },
            },
        }
    }
}

/// The calls of a request to start a thread.
pub ghost struct ThreadCalls<T> {
    pub names: Seq<Seq<char>>,
    pub around: Around<StartedRemoteThread<T>>,
    pub poll: Poll,
}

/// The range whose code is made visible before a thread starts: the allocation
/// that holds the start, or else, as two zeros, the whole process.
pub open spec fn flushed_range<T>(holds: Holds<T>, names: Seq<Seq<char>>, start: usize) -> (
    usize,
    usize,
) {
    match first_covering(names, holds.allocations, start) {
        Some(allocation) => (allocation.address, allocation.size),
        None => (0, 0),
    }
}

/// Whether the calls of a request to start a thread were made.
pub open spec fn thread_made<B: MutationBackend>(
    backend: &B,
    held: Sessions<B::Handle>,
    holds: Holds<B::ThreadHandle>,
    id: Seq<char>,
    target: (usize, Option<usize>),
    wait: u32,
    calls: ThreadCalls<B::ThreadHandle>,
) -> bool {
    let around = calls.around;
    &&& lists_allocations(calls.names, holds.allocations)
    &&& effect_checks(backend, held, id, around.before, around.value, around.after)
    &&& admits_effect(held, id, around.before) ==> thread_started(
        backend,
        &held.handle(id),
        flushed_range(holds, calls.names, target.0),
        target.0,
        target.1,
        around.value,
    )
    &&& effect_outcome(held, id, around.before, around.value, around.after).1 matches Outcome::Done {
        value,
        lapse: None,
    } ==> call_ensures(B::poll_remote_thread, (backend, &value.handle, wait), calls.poll)
}

/// The sessions and the holdings after a request to start a thread, and its
/// answer, by what came of its calls. A thread that was started is owned until
/// it is done.
pub open spec fn thread_ends<H, T>(
    held: Sessions<H>,
    owned: Owned<T>,
    id: Seq<char>,
    calls: ThreadCalls<T>,
    later: Sessions<H>,
    owned_later: Owned<T>,
    answer: Result<RemoteThreadStartResponse, MutationApiError>,
) -> bool {
    let (left, outcome) = effect_outcome(
        held,
        id,
        calls.around.before,
        calls.around.value,
        calls.around.after,
    );
    &&& later == left
    &&& match outcome {
        Outcome::Refused { fault } => owned_later == owned && refuses(answer, fault),
        Outcome::Failed { error } => owned_later == owned && refuses(
            answer,
            effect_failure(RpcErrorCode::RemoteThreadFailed, error),
        ),
        Outcome::Done { value, lapse: Some(fault) } => {
            &&& owned_later == owned.with(
                id,
                running(owned.of(id), value.thread_id, value.handle),
            )
            &&& refuses(
                answer,
                fault.with("thread_id"@, dec_text(value.thread_id as nat)).with(
                    "thread_tracked"@,
                    "true"@,
                ),
            )
        },
        Outcome::Done { value, lapse: None } => {
            &&& owned_later == owned.with(
                id,
                after_poll(
                    running(owned.of(id), value.thread_id, value.handle),
                    value.thread_id,
                    calls.poll,
                ).0,
            )
            &&& match calls.poll {
                Err(error) => refuses(
                    answer,
                    effect_failure(RpcErrorCode::RemoteThreadFailed, error).with(
                        "thread_id"@,
                        dec_text(value.thread_id as nat),
                    ).with("thread_tracked"@, "true"@),
                ),
                Ok(stand) => answer matches Ok(response) && {
                    &&& response.session_id.0@ == id
                    &&& response.thread_id == value.thread_id
                    &&& response.completed == stand.completed
                    &&& response.exit_code == stand.exit_code
                },
            }
        },
    }
}

/// What a request to start a thread does: the sessions and the holdings after
/// it, and its answer.
pub open spec fn start_thread_does<B: MutationBackend>(
    backend: &B,
    held: Sessions<B::Handle>,
    owned: Owned<B::ThreadHandle>,
    request: RemoteThreadStartRequest,
    later: Sessions<B::Handle>,
    owned_later: Owned<B::ThreadHandle>,
    answer: Result<RemoteThreadStartResponse, MutationApiError>,
) -> bool {
    let id = request.session_id.0@;
    match thread_target(request) {
        Err(fault) => later == held && owned_later == owned && refuses(answer, fault),
        Ok(target) => exists|calls: ThreadCalls<B::ThreadHandle>|
            {
                &&& #[trigger] thread_made(
                    backend,
                    held,
                    owned.of(id),
                    id,
                    target,
                    request.wait_timeout_ms,
                    calls,
                )
                &&& thread_ends(held, owned, id, calls, later, owned_later, answer)
            },
    }
}

proof fn lemma_thread_does<B: MutationBackend>(
    backend: &B,
    held: Sessions<B::Handle>,
    owned: Owned<B::ThreadHandle>,
    request: RemoteThreadStartRequest,
    later: Sessions<B::Handle>,
    owned_later: Owned<B::ThreadHandle>,
    answer: Result<RemoteThreadStartResponse, MutationApiError>,
    calls: ThreadCalls<B::ThreadHandle>,
)
    requires
        thread_target(request) is Ok,
        thread_made(
            backend,
            held,
            owned.of(request.session_id.0@),
            request.session_id.0@,
            thread_target(request)->Ok_0,
            request.wait_timeout_ms,
            calls,
        ),
        thread_ends(
            held,
            owned,
            request.session_id.0@,
            calls,
            later,
            owned_later,
            answer,
        ),
    ensures
        start_thread_does(backend, held, owned, request, later, owned_later, answer),
{
}

/// Starts a thread and waits for it, for a bounded time.
pub fn start_thread<B: MutationBackend>(
    sessions: &mut ProcessSessionRegistry<B::Handle>,
    backend: &B,
    state: &mut MutationState<B::ThreadHandle>,
    request: &RemoteThreadStartRequest,
) -> (answer: Result<RemoteThreadStartResponse, MutationApiError>)
    requires
        old(sessions).wf(),
        old(state).wf(),
    ensures
        final(sessions).wf(),
        final(state).wf(),
        old(sessions)@.leads_to(final(sessions)@),
        start_thread_does(
            backend,
            old(sessions)@,
            old(state)@,
            *request,
            final(sessions)@,
            final(state)@,
            answer,
        ),
{
    if request.wait_timeout_ms == 0 {
        return Err(
            MutationApiError::request(
                RpcErrorCode::InvalidRequest,
                "remote threads require a bounded non-zero wait timeout; asynchronous thread ownership belongs to transactional hook management".to_owned(),
            ),
        );
    }
    if request.wait_timeout_ms > MAX_REMOTE_THREAD_WAIT_MS {
        let most = format_decimal(MAX_REMOTE_THREAD_WAIT_MS as u64);
        return Err(
            MutationApiError::request(
                RpcErrorCode::MemoryLimitExceeded,
                join3("remote-thread wait timeout cannot exceed ", most.as_str(), " ms"),
            ),
        );
    }
    let start_address = validate_address(request.start_address.as_str())?;
    let parameter: Option<usize> = match &request.parameter {
        Some(text) => Some(validate_address(text.as_str())?),
        None => None,
    };
    let ghost held = sessions@;
    let ghost owned = state@;
    let ghost id = request.session_id.0@;
    assert(thread_target(*request) == Ok::<(usize, Option<usize>), Failure>((start_address, parameter)));
    let (found, Ghost(names)) = containing_allocation(state, &request.session_id, start_address);
    let (flush_address, flush_size): (usize, usize) = match found {
        Some(allocation) => (allocation.address, allocation.size),
        None => (0, 0),
    };
    let operation = |b: &B, h: &B::Handle| -> (r: Result<
        StartedRemoteThread<B::ThreadHandle>,
        ProcessBackendError,
    >)
        ensures
            thread_started(b, h, (flush_address, flush_size), start_address, parameter, r),
        {
            flush_and_start(b, h, (flush_address, flush_size), start_address, parameter)
        };
    let (effect, Ghost(around)) = run_effect(sessions, backend, &request.session_id, operation);
    let ghost mut poll: Poll = arbitrary();
    let answer = match effect {
        Effect::Refused(error) => Err(MutationApiError::Process(error)),
        Effect::Failed(error) => Err(
            MutationApiError::backend(RpcErrorCode::RemoteThreadFailed, error),
        ),
        Effect::Done(started, lapse) => {
            let thread_id: u32 = started.thread_id;
            let ghost handle = started.handle;
            state.track_thread(&request.session_id, thread_id, started.handle);
            let ghost grown = running(owned.of(id), thread_id, handle);
            proof {
                owned.lemma_with(id, grown);
            }
            match lapse {
                Some(error) => Err(
                    MutationApiError::Process(
                        error.with_detail(
                            "thread_id",
                            format_decimal(thread_id as u64),
                        ).with_detail("thread_tracked", "true".to_owned()),
                    ),
                ),
                None => {
                    let (answer, Ghost(stood)) = poll_thread(
                        backend,
                        state,
                        &request.session_id,
                        thread_id,
                        request.wait_timeout_ms,
                    );
                    proof {
                        poll = stood;
                        owned.lemma_with_twice(id, grown, after_poll(grown, thread_id, poll).0);
                    }
                    match answer {
                        Ok(stand) => Ok(
                            RemoteThreadStartResponse {
                                session_id: request.session_id.clone(),
                                thread_id,
                                completed: stand.completed,
                                exit_code: stand.exit_code,
                            },
                        ),
                        Err(error) => Err(
                            error.with_detail(
                                "thread_id",
                                format_decimal(thread_id as u64),
                            ).with_detail("thread_tracked", "true".to_owned()),
                        ),
                    }
                },
            }
        },
    };
    proof {
        let calls = ThreadCalls { names, around, poll };
        lemma_thread_does(backend, held, owned, *request, sessions@, state@, answer, calls);
    }
    answer
}

/// How far the release of a session's allocations has come.
#[verifier::ext_equal]
pub ghost struct Release<H, T> {
    pub sessions: Sessions<H>,
    pub holds: Holds<T>,
    pub failures: Seq<Seq<char>>,
    /// The process was found to be gone, and with it all that was owned.
    pub gone: bool,
}

/// The same after one more allocation was taken up. A thread that still runs
/// keeps it; a process that is gone ends the release.
pub open spec fn after_release<H, T>(
    at: Release<H, T>,
    id: Seq<char>,
    name: Seq<char>,
    around: Around<()>,
) -> Release<H, T> {
    if at.gone {
        at
    } else if at.holds.threads != Map::<u32, T>::empty() {
        Release {
            failures: at.failures.push(
                "allocation "@ + name
                    + ": session still owns a running or unqueryable remote thread"@,
            ),
            ..at
        }
    } else {
        let (left, outcome) = effect_outcome(
            at.sessions,
            id,
            around.before,
            around.value,
            around.after,
        );
        let at = Release { sessions: left, ..at };
        match outcome {
            Outcome::Refused { fault } => if fault.code == RpcErrorCode::ProcessExited {
                Release { gone: true, ..at }
            } else {
                Release {
                    failures: at.failures.push("allocation "@ + name + ": "@ + fault.message),
                    ..at
                }
            },
            Outcome::Failed { error } => Release {
                failures: at.failures.push("allocation "@ + name + ": "@ + error.message@),
                ..at
            },
            Outcome::Done { value, lapse } => {
                let at = Release { holds: released(at.holds, name), ..at };
                match lapse {
                    None => at,
                    Some(fault) => if fault.code == RpcErrorCode::ProcessExited {
                        Release { gone: true, ..at }
                    } else {
                        Release {
                            failures: at.failures.push(
                                "allocation "@ + name + " released but validation failed: "@
                                    + fault.message,
                            ),
                            ..at
                        }
                    },
                }
            },
        }
    }
}

/// The same after allocations were taken up in turn.
pub open spec fn after_releases<H, T>(
    at: Release<H, T>,
    id: Seq<char>,
    names: Seq<Seq<char>>,
    arounds: Seq<Around<()>>,
) -> Release<H, T>
    decreases names.len(),
{
    if names.len() == 0 {
        at
    } else {
        after_release(
            after_releases(at, id, names.drop_last(), arounds),
            id,
            names.last(),
            arounds[names.len() - 1],
        )
    }
}

/// Whether each allocation that no thread kept was asked to be released.
pub open spec fn releases_made<B: MutationBackend>(
    backend: &B,
    at: Release<B::Handle, B::ThreadHandle>,
    id: Seq<char>,
    names: Seq<Seq<char>>,
    arounds: Seq<Around<()>>,
) -> bool {
    forall|i: int|
        0 <= i < names.len() ==> release_made(backend, at, id, names, arounds, #[trigger] arounds[i], i)
}

/// Whether one allocation was asked to be released in its turn.
pub open spec fn release_made<B: MutationBackend>(
    backend: &B,
    at: Release<B::Handle, B::ThreadHandle>,
    id: Seq<char>,
    names: Seq<Seq<char>>,
    arounds: Seq<Around<()>>,
    around: Around<()>,
    i: int,
) -> bool {
    let reached = after_releases(at, id, names.take(i), arounds);
    !reached.gone && reached.holds.threads == Map::<u32, B::ThreadHandle>::empty() ==> free_calls(
        backend,
        reached.sessions,
        id,
        at.holds.allocations[names[i]].address,
        around,
    )
}

/// The threads that a session still owns, as a failed cleanup names them.
pub open spec fn pending_texts(ids: Seq<u32>) -> Seq<Seq<char>> {
    Seq::new(
        ids.len(),
        |i: int|
            "thread "@ + dec_text(ids[i] as nat)
                + ": completion is still pending; its handle remains tracked"@,
    )
}

/// A cleanup that could not release everything.
pub open spec fn cleanup_failure(
    id: Seq<char>,
    failures: Seq<Seq<char>>,
    code: RpcErrorCode,
) -> Failure {
    failure(
        code,
        "mutation cleanup for session "@ + id
            + " retained resources that are not yet safe to release"@,
    ).with("session_id"@, id).with("cleanup_failures"@, joined(failures, "; "@))
}

/// The calls of a cleanup.
pub ghost struct CleanupCalls {
    pub status: Result<(), ProcessBackendError>,
    pub ids: Seq<u32>,
    pub polls: Seq<Poll>,
    pub names: Seq<Seq<char>>,
    pub arounds: Seq<Around<()>>,
    pub left: Seq<u32>,
}

/// Where the release of a session's allocations ends.
pub open spec fn cleanup_end<H, T>(
    held: Sessions<H>,
    holds: Holds<T>,
    id: Seq<char>,
    calls: CleanupCalls,
) -> Release<H, T> {
    after_releases(cleanup_start(held, holds, id, calls), id, calls.names, calls.arounds)
}

/// Where the release of a session's allocations starts.
pub open spec fn cleanup_start<H, T>(
    held: Sessions<H>,
    holds: Holds<T>,
    id: Seq<char>,
    calls: CleanupCalls,
) -> Release<H, T> {
    let (asked, failures) = after_polls(holds, calls.ids, calls.polls);
    Release {
        sessions: after_ensure_live(held, id, calls.status).0,
        holds: asked,
        failures,
        gone: false,
    }
}

/// What comes of a cleanup.
pub open spec fn cleanup_outcome<H, T>(
    held: Sessions<H>,
    owned: Owned<T>,
    id: Seq<char>,
    calls: CleanupCalls,
) -> (Sessions<H>, Owned<T>, Result<(), Failure>) {
    let (checked, fault) = after_ensure_live(held, id, calls.status);
    match fault {
        Some(fault) => if fault.code == RpcErrorCode::ProcessExited {
            (checked, owned.with(id, Holds::nothing()), Ok(()))
        } else {
            (checked, owned, Err(fault))
        },
        None => {
            let end = cleanup_end(held, owned.of(id), id, calls);
            let failures = end.failures + pending_texts(calls.left);
            if end.gone {
                (end.sessions, owned.with(id, Holds::nothing()), Ok(()))
            } else {
                (
                    end.sessions,
                    owned.with(id, end.holds),
                    if failures.len() == 0 {
                        Ok(())
                    } else {
                        Err(
                            cleanup_failure(
                                id,
                                failures,
                                if end.holds.threads != Map::<u32, T>::empty() {
                                    RpcErrorCode::RemoteThreadFailed
                                } else {
                                    RpcErrorCode::MemoryAllocationFailed
                                },
                            ),
                        )
                    },
                )
            }
        },
    }
}

/// Whether the calls of a cleanup were made: every thread is asked, and every
/// allocation, the last one first, is taken up.
pub open spec fn cleanup_made<B: MutationBackend>(
    backend: &B,
    held: Sessions<B::Handle>,
    owned: Owned<B::ThreadHandle>,
    id: Seq<char>,
    calls: CleanupCalls,
) -> bool {
    &&& checked(backend, held, id, calls.status)
    &&& after_ensure_live(held, id, calls.status).1 is None ==> {
        let holds = owned.of(id);
        let start = cleanup_start(held, holds, id, calls);
        let end = cleanup_end(held, holds, id, calls);
        &&& polled(backend, holds, calls.ids, calls.polls)
        &&& lists_allocations(calls.names.reverse(), holds.allocations)
        &&& releases_made(backend, start, id, calls.names, calls.arounds)
        &&& !end.gone ==> lists_threads(calls.left, end.holds.threads)
    }
}

/// What a cleanup does: the sessions and the holdings after it, and what came
/// of it.
pub open spec fn cleanup_does<B: MutationBackend>(
    backend: &B,
    held: Sessions<B::Handle>,
    owned: Owned<B::ThreadHandle>,
    id: Seq<char>,
    later: Sessions<B::Handle>,
    owned_later: Owned<B::ThreadHandle>,
    result: Result<(), Failure>,
) -> bool {
    exists|calls: CleanupCalls|
        {
            &&& #[trigger] cleanup_made(backend, held, owned, id, calls)
            &&& (later, owned_later, result) == cleanup_outcome(held, owned, id, calls)
        }
}

/// What an answer without a value says.
pub open spec fn verdict(answer: Result<(), MutationApiError>) -> Result<(), Failure> {
    match answer {
        Ok(_) => Ok(()),
        Err(error) => Err(error@),
    }
}

proof fn lemma_gone_stays<H, T>(
    at: Release<H, T>,
    id: Seq<char>,
    names: Seq<Seq<char>>,
    arounds: Seq<Around<()>>,
    more: Seq<Around<()>>,
    n: int,
)
    requires
        0 <= n <= names.len(),
        forall|i: int| 0 <= i < n ==> arounds[i] == more[i],
        after_releases(at, id, names.take(n), arounds).gone,
    ensures
        after_releases(at, id, names, more) == after_releases(at, id, names.take(n), arounds),
    decreases names.len(),
{
    if n == names.len() {
        assert(names.take(n) =~= names);
        lemma_releases_agree(at, id, names, arounds, more);
    } else {
        assert(names.drop_last().take(n) =~= names.take(n));
        lemma_gone_stays(at, id, names.drop_last(), arounds, more, n);
    }
}

proof fn lemma_releases_agree<H, T>(
    at: Release<H, T>,
    id: Seq<char>,
    names: Seq<Seq<char>>,
    a: Seq<Around<()>>,
    b: Seq<Around<()>>,
)
    requires
        forall|i: int| 0 <= i < names.len() ==> a[i] == b[i],
    ensures
        after_releases(at, id, names, a) == after_releases(at, id, names, b),
    decreases names.len(),
{
    if names.len() > 0 {
        lemma_releases_agree(at, id, names.drop_last(), a, b);
    }
}

proof fn lemma_releases_own<H, T>(
    at: Release<H, T>,
    id: Seq<char>,
    names: Seq<Seq<char>>,
    arounds: Seq<Around<()>>,
)
    ensures
        ({
            let end = after_releases(at, id, names, arounds);
            &&& end.holds.threads == at.holds.threads
            &&& forall|name: Seq<char>|
                !names.contains(name) ==> #[trigger] end.holds.allocations.dom().contains(name)
                    == at.holds.allocations.dom().contains(name)
            &&& forall|name: Seq<char>| #[trigger]
                end.holds.allocations.dom().contains(name) ==> at.holds.allocations.dom().contains(
                    name,
                ) && end.holds.allocations[name] == at.holds.allocations[name]
            &&& end.failures.len() >= at.failures.len()
            &&& !end.gone && end.failures.len() == at.failures.len() ==> forall|name: Seq<char>|
                names.contains(name) ==> !#[trigger] end.holds.allocations.dom().contains(name)
        }),
    decreases names.len(),
{
    if names.len() > 0 {
        let before = names.drop_last();
        lemma_releases_own(at, id, before, arounds);
        let reached = after_releases(at, id, before, arounds);
        let end = after_releases(at, id, names, arounds);
        assert forall|name: Seq<char>| !names.contains(name) implies !before.contains(name)
            && name != names.last() by {
            if before.contains(name) {
                let i = choose|i: int| 0 <= i < before.len() && before[i] == name;
                assert(names[i] == name);
            }
            assert(names[names.len() - 1] == names.last());
        }
        assert forall|name: Seq<char>| names.contains(name) implies before.contains(name) || name
            == names.last() by {
            let i = choose|i: int| 0 <= i < names.len() && names[i] == name;
            if i < before.len() {
                assert(before[i] == name);
            }
        }
    }
}

/// Where a thread still runs after it was asked, a cleanup releases nothing
/// and says so of every allocation.
pub proof fn running_threads_keep_every_allocation<H, T>(
    at: Release<H, T>,
    id: Seq<char>,
    names: Seq<Seq<char>>,
    arounds: Seq<Around<()>>,
)
    requires
        at.holds.threads != Map::<u32, T>::empty(),
        !at.gone,
    ensures
        after_releases(at, id, names, arounds).holds == at.holds,
        after_releases(at, id, names, arounds).sessions == at.sessions,
        !after_releases(at, id, names, arounds).gone,
        after_releases(at, id, names, arounds).failures.len() == at.failures.len() + names.len(),
    decreases names.len(),
{
    if names.len() > 0 {
        running_threads_keep_every_allocation(at, id, names.drop_last(), arounds);
    }
}

/// A cleanup that succeeds leaves the session owning nothing.
pub proof fn clean_session_owns_nothing<B: MutationBackend>(
    backend: &B,
    held: Sessions<B::Handle>,
    owned: Owned<B::ThreadHandle>,
    id: Seq<char>,
    later: Sessions<B::Handle>,
    owned_later: Owned<B::ThreadHandle>,
)
    requires
        cleanup_does(backend, held, owned, id, later, owned_later, Ok(())),
    ensures
        owned_later.of(id) == Holds::<B::ThreadHandle>::nothing(),
        forall|other: Seq<char>| other != id ==> #[trigger] owned_later.of(other) == owned.of(other),
{
    let calls = choose|calls: CleanupCalls|
        {
            &&& #[trigger] cleanup_made(backend, held, owned, id, calls)
            &&& (later, owned_later, Ok::<(), Failure>(())) == cleanup_outcome(
                held,
                owned,
                id,
                calls,
            )
        };
    let nothing = Holds::<B::ThreadHandle>::nothing();
    owned.lemma_with(id, nothing);
    if after_ensure_live(held, id, calls.status).1 is None {
        let holds = owned.of(id);
        let start = cleanup_start(held, holds, id, calls);
        let end = cleanup_end(held, holds, id, calls);
        owned.lemma_with(id, end.holds);
        if !end.gone {
            lemma_releases_own(start, id, calls.names, calls.arounds);
            lemma_polls_own(holds, calls.ids, calls.polls);
            assert(end.failures.len() + pending_texts(calls.left).len() == 0);
            assert(end.holds.threads =~= Map::empty());
            assert forall|name: Seq<char>| !#[trigger] end.holds.allocations.dom().contains(
                name,
            ) by {
                if end.holds.allocations.dom().contains(name) {
                    assert(start.holds.allocations.dom().contains(name));
                    assert(calls.names.reverse().contains(name));
                    let i = choose|i: int|
                        0 <= i < calls.names.reverse().len() && calls.names.reverse()[i] == name;
                    assert(calls.names[calls.names.len() - 1 - i] == name);
                }
            }
            assert(end.holds.allocations =~= Map::empty());
            assert(end.holds =~= nothing);
        }
    }
}

fn release_one<B: MutationBackend>(
    sessions: &mut ProcessSessionRegistry<B::Handle>,
    backend: &B,
    state: &mut MutationState<B::ThreadHandle>,
    session_id: &ProcessSessionId,
    name: &String,
    failures: &mut Vec<String>,
) -> (ended: (bool, Ghost<Around<()>>))
    requires
        old(sessions).wf(),
        old(state).wf(),
        old(state)@.of(session_id.0@).allocations.dom().contains(name@),
    ensures
        final(sessions).wf(),
        final(state).wf(),
        old(sessions)@.leads_to(final(sessions)@),
        ({
            let at = Release {
                sessions: old(sessions)@,
                holds: old(state)@.of(session_id.0@),
                failures: texts(old(failures)@),
                gone: false,
            };
            let end = after_release(at, session_id.0@, name@, ended.1@);
            &&& at.holds.threads == Map::<u32, B::ThreadHandle>::empty() ==> free_calls(
                backend,
                at.sessions,
                session_id.0@,
                at.holds.allocations[name@].address,
                ended.1@,
            )
            &&& end.gone == ended.0
            &&& end.sessions == final(sessions)@
            &&& final(state)@ == old(state)@.with(session_id.0@, end.holds)
            &&& texts(final(failures)@) == end.failures
        }),
{
    let ghost before = failures@;
    proof {
        state@.lemma_with_same(session_id.0@);
    }
    if state.tracked_thread_count(session_id) > 0 {
        let text = join3(
            "allocation ",
            name.as_str(),
            ": session still owns a running or unqueryable remote thread",
        );
        failures.push(text);
        proof {
            assert(texts(failures@) =~= texts(before).push(text@));
        }
        return (false, Ghost(arbitrary()));
    }
    let address: usize = match state.allocation(session_id, name.as_str()) {
        Some(allocation) => allocation.address,
        None => {
            proof {
                assert(false);
            }
            0
        },
    };
    let (effect, Ghost(around)) = run_free(sessions, backend, session_id, address);
    match effect {
        Effect::Refused(error) => {
            if error.is_process_exited() {
                return (true, Ghost(around));
            }
            let text = join4("allocation ", name.as_str(), ": ", error.message());
            failures.push(text);
            proof {
                assert(texts(failures@) =~= texts(before).push(text@));
            }
        },
        Effect::Failed(error) => {
            let text = join4("allocation ", name.as_str(), ": ", error.message.as_str());
            failures.push(text);
            proof {
                assert(texts(failures@) =~= texts(before).push(text@));
            }
        },
        Effect::Done(_, lapse) => {
            state.remove_allocation(session_id, name.as_str());
            if let Some(error) = lapse {
                if error.is_process_exited() {
                    return (true, Ghost(around));
                }
                let text = join4(
                    "allocation ",
                    name.as_str(),
                    " released but validation failed: ",
                    error.message(),
                );
                failures.push(text);
                proof {
                    assert(texts(failures@) =~= texts(before).push(text@));
                }
            }
        },
    }
    (false, Ghost(around))
}

fn release_all<B: MutationBackend>(
    sessions: &mut ProcessSessionRegistry<B::Handle>,
    backend: &B,
    state: &mut MutationState<B::ThreadHandle>,
    session_id: &ProcessSessionId,
    names: &Vec<String>,
    failures: &mut Vec<String>,
) -> (ended: (bool, Ghost<Seq<Around<()>>>))
    requires
        old(sessions).wf(),
        old(state).wf(),
        lists_allocations(texts(names@), old(state)@.of(session_id.0@).allocations),
    ensures
        final(sessions).wf(),
        final(state).wf(),
        old(sessions)@.leads_to(final(sessions)@),
        ({
            let start = Release {
                sessions: old(sessions)@,
                holds: old(state)@.of(session_id.0@),
                failures: texts(old(failures)@),
                gone: false,
            };
            let order = texts(names@).reverse();
            let end = after_releases(start, session_id.0@, order, ended.1@);
            &&& releases_made(backend, start, session_id.0@, order, ended.1@)
            &&& end.gone == ended.0
            &&& end.sessions == final(sessions)@
            &&& final(state)@ == old(state)@.with(session_id.0@, end.holds)
            &&& texts(final(failures)@) == end.failures
        }),
{
    let ghost id = session_id.0@;
    let ghost owned = state@;
    let ghost held = sessions@;
    let ghost order = texts(names@).reverse();
    let ghost start = Release {
        sessions: held,
        holds: owned.of(id),
        failures: texts(failures@),
        gone: false,
    };
    let ghost mut arounds: Seq<Around<()>> = Seq::empty();
    proof {
        owned.lemma_with_same(id);
    }
    let mut left: usize = names.len();
    while left > 0
        invariant
            left <= names@.len(),
            id == session_id.0@,
            order == texts(names@).reverse(),
            order.len() == names@.len(),
            start.holds == owned.of(id),
            !start.gone,
            start.sessions == held,
            held == old(sessions)@,
            owned == old(state)@,
            start.failures == texts(old(failures)@),
            owned.sound(),
            lists_allocations(texts(names@), start.holds.allocations),
            sessions.wf(),
            state.wf(),
            held.leads_to(sessions@),
            arounds.len() == order.len() - left,
            forall|i: int|
                0 <= i < order.len() - left ==> release_made(
                    backend,
                    start,
                    id,
                    order,
                    arounds,
                    #[trigger] arounds[i],
                    i,
                ),
            ({
                let at = after_releases(start, id, order.take(order.len() - left), arounds);
                &&& !at.gone
                &&& at.sessions == sessions@
                &&& state@ == owned.with(id, at.holds)
                &&& texts(failures@) == at.failures
            }),
        decreases left,
    {
        let ghost done = (order.len() - left) as int;
        let ghost before = arounds;
        let ghost at = after_releases(start, id, order.take(done), before);
        left -= 1;
        let name = &names[left];
        proof {
            assert(order[done] == name@);
            assert(order.take(done + 1).drop_last() =~= order.take(done));
            assert(order.take(done + 1).last() == name@);
            lemma_releases_own(start, id, order.take(done), before);
            owned.lemma_with(id, at.holds);
            assert(texts(names@)[left as int] == name@);
            assert(texts(names@).contains(name@));
            assert(!order.take(done).contains(name@)) by {
                if order.take(done).contains(name@) {
                    let i = choose|i: int|
                        0 <= i < order.take(done).len() && order.take(done)[i] == name@;
                    assert(texts(names@)[names@.len() - 1 - i] == name@);
                }
            }
            assert(at.holds.allocations.dom().contains(name@));
        }
        let (gone, Ghost(around)) = release_one(
            sessions,
            backend,
            state,
            session_id,
            name,
            failures,
        );
        proof {
            arounds = before.push(around);
            owned.lemma_with_twice(id, at.holds, after_release(at, id, name@, around).holds);
            assert forall|i: int| 0 <= i <= done implies release_made(
                backend,
                start,
                id,
                order,
                arounds,
                #[trigger] arounds[i],
                i,
            ) by {
                lemma_releases_agree(start, id, order.take(i), before, arounds);
                if i < done {
                    assert(release_made(backend, start, id, order, before, before[i], i));
                }
            }
            lemma_releases_agree(start, id, order.take(done), before, arounds);
            assert(after_releases(start, id, order.take(done + 1), arounds) == after_release(
                at,
                id,
                name@,
                around,
            ));
        }
        if gone {
            proof {
                let full = arounds + Seq::new(left as nat, |i: int| around);
                lemma_gone_stays(start, id, order, arounds, full, done + 1);
                assert forall|i: int| 0 <= i < order.len() implies release_made(
                    backend,
                    start,
                    id,
                    order,
                    full,
                    #[trigger] full[i],
                    i,
                ) by {
                    if i <= done {
                        lemma_releases_agree(start, id, order.take(i), arounds, full);
                        assert(release_made(backend, start, id, order, arounds, arounds[i], i));
                    } else {
                        assert(order.take(i).take(done + 1) =~= order.take(done + 1));
                        lemma_gone_stays(start, id, order.take(i), arounds, full, done + 1);
                    }
                }
                arounds = full;
            }
            return (true, Ghost(arounds));
        }
    }
    proof {
        assert(order.take(order.len() as int) =~= order);
    }
    (false, Ghost(arounds))
}

/// Releases what a session owns. It is tried again where something was kept.
pub fn cleanup_session<B: MutationBackend>(
    sessions: &mut ProcessSessionRegistry<B::Handle>,
    backend: &B,
    state: &mut MutationState<B::ThreadHandle>,
    session_id: &ProcessSessionId,
) -> (answer: Result<(), MutationApiError>)
    requires
        old(sessions).wf(),
        old(state).wf(),
    ensures
        final(sessions).wf(),
        final(state).wf(),
        old(sessions)@.leads_to(final(sessions)@),
        cleanup_does(
            backend,
            old(sessions)@,
            old(state)@,
            session_id.0@,
            final(sessions)@,
            final(state)@,
            verdict(answer),
        ),
{
    let ghost held = sessions@;
    let ghost owned = state@;
    let ghost id = session_id.0@;
    let status = sessions.status(backend, session_id);
    let ghost outcome = choose|outcome: Result<(), ProcessBackendError>| #[trigger]
        checked(backend, held, id, outcome) && ({
            let (later, fault) = after_ensure_live(held, id, outcome);
            sessions@ == later && reports(status, fault)
        });
    if let Err(error) = status {
        let ghost calls = CleanupCalls {
            status: outcome,
            ids: arbitrary(),
            polls: arbitrary(),
            names: arbitrary(),
            arounds: arbitrary(),
            left: arbitrary(),
        };
        assert(cleanup_made(backend, held, owned, id, calls));
        if error.is_process_exited() {
            state.forget_session(session_id);
            return Ok(());
        }
        return Err(MutationApiError::Process(error));
    }
    let ghost live = sessions@;
    let (failures, Ghost(ids), Ghost(polls)) = poll_all(backend, state, session_id);
    let mut failures = failures;
    let ghost asked = after_polls(owned.of(id), ids, polls).0;
    proof {
        lemma_polls_own(owned.of(id), ids, polls);
        owned.lemma_with(id, asked);
    }
    let names = state.allocation_ids(session_id);
    let (gone, Ghost(arounds)) = release_all(
        sessions,
        backend,
        state,
        session_id,
        &names,
        &mut failures,
    );
    let left = state.thread_ids(session_id);
    let ghost calls = CleanupCalls {
        status: outcome,
        ids,
        polls,
        names: texts(names@).reverse(),
        arounds,
        left: left@,
    };
    let ghost end = cleanup_end(held, owned.of(id), id, calls);
    proof {
        owned.lemma_with_twice(id, asked, end.holds);
        owned.lemma_with(id, end.holds);
        assert(texts(names@).reverse().reverse() =~= texts(names@));
        owned.lemma_with_twice(id, end.holds, Holds::nothing());
        assert(cleanup_made(backend, held, owned, id, calls));
    }
    if gone {
        state.forget_session(session_id);
        return Ok(());
    }
    let ghost told = failures@;
    let mut i: usize = 0;
    while i < left.len()
        invariant
            i <= left@.len(),
            texts(failures@) == texts(told) + pending_texts(left@).take(i as int),
        decreases left@.len() - i,
    {
        let number = format_decimal(left[i] as u64);
        let text = join3(
            "thread ",
            number.as_str(),
            ": completion is still pending; its handle remains tracked",
        );
        let ghost before = failures@;
        failures.push(text);
        proof {
            assert(texts(failures@) =~= texts(before).push(text@));
            assert(pending_texts(left@).take(i + 1) =~= pending_texts(left@).take(i as int).push(
                text@,
            ));
        }
        i += 1;
    }
    proof {
        assert(pending_texts(left@).take(i as int) =~= pending_texts(left@));
        assert(texts(failures@).len() == failures@.len());
    }
    if failures.len() == 0 {
        return Ok(());
    }
    let code = if state.tracked_thread_count(session_id) > 0 {
        RpcErrorCode::RemoteThreadFailed
    } else {
        RpcErrorCode::MemoryAllocationFailed
    };
    let said = join_all(&failures, "; ");
    Err(
        MutationApiError::request(
            code,
            join3(
                "mutation cleanup for session ",
                session_id.0.as_str(),
                " retained resources that are not yet safe to release",
            ),
        ).with_detail("session_id", session_id.0.clone()).with_detail("cleanup_failures", said),
    )
}

/// Where one session's cleanup left things.
pub ghost struct Turn<H, T> {
    pub sessions: Sessions<H>,
    pub owned: Owned<T>,
    pub result: Result<(), Failure>,
}

/// Where things stood before a session's turn.
pub open spec fn before_turn<H, T>(first: Turn<H, T>, turns: Seq<Turn<H, T>>, i: int) -> Turn<H, T> {
    if i == 0 {
        first
    } else {
        turns[i - 1]
    }
}

/// Whether sessions were cleaned up in turn.
pub open spec fn turns_made<B: MutationBackend>(
    backend: &B,
    first: Turn<B::Handle, B::ThreadHandle>,
    ids: Seq<ProcessSessionId>,
    turns: Seq<Turn<B::Handle, B::ThreadHandle>>,
) -> bool {
    &&& turns.len() == ids.len()
    &&& forall|i: int|
        0 <= i < ids.len() ==> turn_made(
            backend,
            before_turn(first, turns, i),
            ids[i].0@,
            #[trigger] turns[i],
        )
}

/// Whether one session was cleaned up.
#[verifier::opaque]
pub open spec fn turn_made<B: MutationBackend>(
    backend: &B,
    before: Turn<B::Handle, B::ThreadHandle>,
    id: Seq<char>,
    after: Turn<B::Handle, B::ThreadHandle>,
) -> bool {
    cleanup_does(
        backend,
        before.sessions,
        before.owned,
        id,
        after.sessions,
        after.owned,
        after.result,
    )
}

proof fn lemma_turn<B: MutationBackend>(
    backend: &B,
    before: Turn<B::Handle, B::ThreadHandle>,
    id: Seq<char>,
    after: Turn<B::Handle, B::ThreadHandle>,
)
    requires
        cleanup_does(
            backend,
            before.sessions,
            before.owned,
            id,
            after.sessions,
            after.owned,
            after.result,
        ),
    ensures
        turn_made(backend, before, id, after),
{
    reveal(turn_made);
}

/// What failed, session by session.
pub open spec fn turn_failures<H, T>(
    ids: Seq<ProcessSessionId>,
    turns: Seq<Turn<H, T>>,
    n: int,
) -> Seq<Seq<char>>
    decreases n,
{
    if n <= 0 {
        Seq::empty()
    } else {
        match turns[n - 1].result {
            Ok(_) => turn_failures(ids, turns, n - 1),
            Err(fault) => turn_failures(ids, turns, n - 1).push(
                "session "@ + ids[n - 1].0@ + ": "@ + fault.message,
            ),
        }
    }
}

proof fn lemma_turn_failures_agree<H, T>(
    ids: Seq<ProcessSessionId>,
    a: Seq<Turn<H, T>>,
    b: Seq<Turn<H, T>>,
    n: int,
)
    requires
        forall|i: int| 0 <= i < n ==> a[i] == b[i],
    ensures
        turn_failures(ids, a, n) == turn_failures(ids, b, n),
    decreases n,
{
    if n > 0 {
        lemma_turn_failures_agree(ids, a, b, n - 1);
    }
}

/// What cleaning up all sessions does: every session that owns something has
/// its turn, whatever came of the others.
pub open spec fn cleanup_all_does<B: MutationBackend>(
    backend: &B,
    held: Sessions<B::Handle>,
    owned: Owned<B::ThreadHandle>,
    later: Sessions<B::Handle>,
    owned_later: Owned<B::ThreadHandle>,
    result: Result<(), Failure>,
) -> bool {
    let first = Turn { sessions: held, owned, result: Ok(()) };
    exists|ids: Seq<ProcessSessionId>, turns: Seq<Turn<B::Handle, B::ThreadHandle>>|
        {
            let n = ids.len() as int;
            let failures = turn_failures(ids, turns, n);
            &&& lists_sessions(ids, owned)
            &&& #[trigger] turns_made(backend, first, ids, turns)
            &&& later == before_turn(first, turns, n).sessions
            &&& owned_later == before_turn(first, turns, n).owned
            &&& result == if failures.len() == 0 {
                Ok(())
            } else {
                Err(
                    failure(
                        RpcErrorCode::MemoryAllocationFailed,
                        "mutation cleanup failed for "@ + dec_text(failures.len())
                            + " session(s); retained resources can be retried"@,
                    ).with("cleanup_failures"@, joined(failures, "; "@)),
                )
            }
        }
}

proof fn lemma_cleanup_all_does<B: MutationBackend>(
    backend: &B,
    held: Sessions<B::Handle>,
    owned: Owned<B::ThreadHandle>,
    ids: Seq<ProcessSessionId>,
    turns: Seq<Turn<B::Handle, B::ThreadHandle>>,
)
    requires
        lists_sessions(ids, owned),
        turns_made(backend, (Turn { sessions: held, owned, result: Ok(()) }), ids, turns),
    ensures
        ({
            let first = Turn { sessions: held, owned, result: Ok(()) };
            let n = ids.len() as int;
            let failures = turn_failures(ids, turns, n);
            cleanup_all_does(
                backend,
                held,
                owned,
                before_turn(first, turns, n).sessions,
                before_turn(first, turns, n).owned,
                if failures.len() == 0 {
                    Ok(())
                } else {
                    Err(
                        failure(
                            RpcErrorCode::MemoryAllocationFailed,
                            "mutation cleanup failed for "@ + dec_text(failures.len())
                                + " session(s); retained resources can be retried"@,
                        ).with("cleanup_failures"@, joined(failures, "; "@)),
                    )
                },
            )
        }),
{
}

/// Releases what all sessions own.
pub fn cleanup_all<B: MutationBackend>(
    sessions: &mut ProcessSessionRegistry<B::Handle>,
    backend: &B,
    state: &mut MutationState<B::ThreadHandle>,
) -> (answer: Result<(), MutationApiError>)
    requires
        old(sessions).wf(),
        old(state).wf(),
    ensures
        final(sessions).wf(),
        final(state).wf(),
        old(sessions)@.leads_to(final(sessions)@),
        cleanup_all_does(
            backend,
            old(sessions)@,
            old(state)@,
            final(sessions)@,
            final(state)@,
            verdict(answer),
        ),
{
    let ghost held = sessions@;
    let ghost owned = state@;
    let ghost first = Turn { sessions: held, owned, result: Ok(()) };
    let ids = state.session_ids();
    let ghost mut turns: Seq<Turn<B::Handle, B::ThreadHandle>> = Seq::empty();
    let mut failures: Vec<String> = Vec::new();
    proof {
        assert(texts(failures@) =~= Seq::empty());
    }
    let mut i: usize = 0;
    while i < ids.len()
        invariant
            i <= ids@.len(),
            sessions.wf(),
            state.wf(),
            held == old(sessions)@,
            held.leads_to(sessions@),
            turns.len() == i,
            forall|j: int|
                0 <= j < i ==> turn_made(
                    backend,
                    before_turn(first, turns, j),
                    ids@[j].0@,
                    #[trigger] turns[j],
                ),
            first == (Turn { sessions: held, owned, result: Ok(()) }),
            sessions@ == before_turn(first, turns, i as int).sessions,
            state@ == before_turn(first, turns, i as int).owned,
            texts(failures@) == turn_failures(ids@, turns, i as int),
        decreases ids@.len() - i,
    {
        let ghost before = turns;
        let ghost at = before_turn(first, turns, i as int);
        let answer = cleanup_session(sessions, backend, state, &ids[i]);
        proof {
            let turn = Turn { sessions: sessions@, owned: state@, result: verdict(answer) };
            turns = before.push(turn);
            lemma_turn(backend, at, ids@[i as int].0@, turn);
            assert forall|j: int| 0 <= j <= i implies turn_made(
                backend,
                before_turn(first, turns, j),
                ids@[j].0@,
                #[trigger] turns[j],
            ) by {
                assert(before_turn(first, turns, j) == before_turn(first, before, j));
                if j < i {
                    assert(turn_made(
                        backend,
                        before_turn(first, before, j),
                        ids@[j].0@,
                        before[j],
                    ));
                }
            }
            lemma_turn_failures_agree(ids@, before, turns, i as int);
        }
        if let Err(error) = answer {
            let said = error.summary();
            let text = join4("session ", ids[i].0.as_str(), ": ", said.as_str());
            let ghost told = failures@;
            failures.push(text);
            proof {
                assert(texts(failures@) =~= texts(told).push(text@));
            }
        }
        i += 1;
    }
    proof {
        assert(turns_made(backend, first, ids@, turns));
        lemma_cleanup_all_does(backend, held, owned, ids@, turns);
        assert(texts(failures@).len() == failures@.len());
    }
    if failures.len() == 0 {
        Ok(())
    } else {
        let count = format_decimal(failures.len() as u64);
        let said = join_all(&failures, "; ");
        Err(
            MutationApiError::request(
                RpcErrorCode::MemoryAllocationFailed,
                join3(
                    "mutation cleanup failed for ",
                    count.as_str(),
                    " session(s); retained resources can be retried",
                ),
            ).with_detail("cleanup_failures", said),
        )
    }
}

/// A session that was opened for reading admits no change to its process,
/// and is left as it is.
pub proof fn read_only_sessions_admit_no_effect<H, R>(
    held: Sessions<H>,
    id: Seq<char>,
    before: Result<(), ProcessBackendError>,
    value: Result<R, ProcessBackendError>,
    after: Result<(), ProcessBackendError>,
)
    requires
        held.sessions.dom().contains(id),
        held.sessions[id].access_mode != ProcessAccessMode::Mutation,
    ensures
        !admits_effect(held, id, before),
        effect_outcome(held, id, before, value, after) == (
            held,
            Outcome::<R>::Refused { fault: session_read_only(id) },
        ),
{
}

}
