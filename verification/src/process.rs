//! Process sessions: what the agent holds open on behalf of a host.
//!
//! Every operation on an open session first checks that its handle still
//! belongs to the process that the session was opened on.

use vstd::prelude::*;
use vstd::string::*;

pub use crate::backend::{
    enumerate_modules_with_revalidation, ClientWindowCandidate, ClientWindowSnapshot,
    ClientWindowTarget, MemoryBackend, MutationBackend, OpenedProcess, ProcessBackend,
    ProcessBackendError, ProcessBackendErrorKind, ProcessThreadResume, RemoteThreadPoll,
    StartedRemoteThread, SuspendedProcess, UnsupportedProcessBackend,
};

pub use crate::clients::ClientRegistry;
use crate::order::{sorted_by, stable_sort};
use crate::ordered::TextMap;
use crate::protocol::{
    ListModulesResponse, ListProcessesRequest, ListProcessesResponse, ModuleDescriptor,
    OpenProcessRequest, ProcessAccessMode, ProcessDescriptor, ProcessIdentity, ProcessKind,
    ProcessSessionId, ProcessSessionResponse, ProcessSessionState, SessionDiagnostics,
};
use crate::rpc::{describe_fields, failure, fields_text, Details, Failure, RpcError, RpcErrorCode};
use crate::text::{
    dec_text, digit_char, format_decimal, format_padded, format_signed, hex_padded, join2, join3,
    join5, lowered, same_ignoring_case, same_text, signed_text,
};

verus! {

/// A failure of processes or sessions in debug form.
pub open spec fn process_error_text(failure: Failure) -> Seq<char> {
    "ProcessApiError"@ + fields_text(failure)
}

/// A failed request on processes or sessions.
#[derive(Debug)]
pub struct ProcessApiError {
    pub(crate) code: RpcErrorCode,
    pub(crate) message: String,
    pub(crate) details: Details,
}

impl View for ProcessApiError {
    type V = Failure;

    closed spec fn view(&self) -> Failure {
        Failure { code: self.code, message: self.message@, details: self.details@ }
    }
}

/// How a failed platform call is reported to the host.
pub open spec fn backend_code(kind: ProcessBackendErrorKind) -> RpcErrorCode {
    match kind {
        ProcessBackendErrorKind::NotFound => RpcErrorCode::ProcessNotFound,
        ProcessBackendErrorKind::AccessDenied => RpcErrorCode::ProcessAccessDenied,
        ProcessBackendErrorKind::Exited => RpcErrorCode::ProcessExited,
        ProcessBackendErrorKind::IdentityMismatch => RpcErrorCode::ProcessExited,
        ProcessBackendErrorKind::Native => RpcErrorCode::Internal,
    }
}

/// A failed platform call on a process of a session.
pub open spec fn backend_failure(
    error: ProcessBackendError,
    pid: Option<u32>,
    session_id: Option<Seq<char>>,
) -> Failure {
    let bare = failure(backend_code(error.kind), error.message@);
    let with_pid = match pid {
        Some(pid) => bare.with("pid"@, dec_text(pid as nat)),
        None => bare,
    };
    let with_session = match session_id {
        Some(session_id) => with_pid.with("session_id"@, session_id),
        None => with_pid,
    };
    match error.native_code {
        Some(code) => with_session.with("native_code"@, signed_text(code as int)),
        None => with_session,
    }
}

/// The session does not exist.
pub open spec fn session_not_found(session_id: Seq<char>) -> Failure {
    failure(
        RpcErrorCode::SessionNotFound,
        "process session "@ + session_id + " does not exist"@,
    ).with("session_id"@, session_id)
}

/// The process of the session has exited.
pub open spec fn process_exited(session_id: Seq<char>, pid: u32) -> Failure {
    failure(
        RpcErrorCode::ProcessExited,
        "process "@ + dec_text(pid as nat) + " for session "@ + session_id + " has exited"@,
    ).with("pid"@, dec_text(pid as nat)).with("session_id"@, session_id)
}

/// The session is closed.
pub open spec fn session_closed(session_id: Seq<char>) -> Failure {
    failure(
        RpcErrorCode::InvalidRequest,
        "process session "@ + session_id + " is closed"@,
    ).with("session_id"@, session_id)
}

/// The session may not change its process.
pub open spec fn session_read_only(session_id: Seq<char>) -> Failure {
    failure(
        RpcErrorCode::CapabilityRequired,
        "process session "@ + session_id
            + " is read-only; open a mutation session explicitly"@,
    ).with("session_id"@, session_id).with("required_access_mode"@, "mutation"@)
}

impl ProcessApiError {
    /// Reports a failed platform call.
    pub fn from_backend(
        error: ProcessBackendError,
        pid: Option<u32>,
        session_id: Option<&ProcessSessionId>,
    ) -> (reported: Self)
        ensures
            reported@ == backend_failure(
                error,
                pid,
                match session_id {
                    Some(session_id) => Some(session_id.0@),
                    None => None,
                },
            ),
    {
        let code = match error.kind {
            ProcessBackendErrorKind::NotFound => RpcErrorCode::ProcessNotFound,
            ProcessBackendErrorKind::AccessDenied => RpcErrorCode::ProcessAccessDenied,
            ProcessBackendErrorKind::Exited | ProcessBackendErrorKind::IdentityMismatch => {
                RpcErrorCode::ProcessExited
            },
            ProcessBackendErrorKind::Native => RpcErrorCode::Internal,
        };
        let mut details = Details::new();
        if let Some(pid) = pid {
            details.insert("pid", format_decimal(pid as u64));
        }
        if let Some(session_id) = session_id {
            details.insert("session_id", session_id.0.clone());
        }
        if let Some(native_code) = error.native_code {
            details.insert("native_code", format_signed(native_code));
        }
        ProcessApiError { code, message: error.message, details }
    }

    fn session_not_found(session_id: &ProcessSessionId) -> (error: Self)
        ensures
            error@ == session_not_found(session_id.0@),
    {
        let mut details = Details::new();
        details.insert("session_id", session_id.0.clone());
        ProcessApiError {
            code: RpcErrorCode::SessionNotFound,
            message: join3("process session ", session_id.0.as_str(), " does not exist"),
            details,
        }
    }

    fn process_exited(session_id: &ProcessSessionId, pid: u32) -> (error: Self)
        ensures
            error@ == process_exited(session_id.0@, pid),
    {
        let mut details = Details::new();
        details.insert("pid", format_decimal(pid as u64));
        details.insert("session_id", session_id.0.clone());
        let pid_text = format_decimal(pid as u64);
        ProcessApiError {
            code: RpcErrorCode::ProcessExited,
            message: join5(
                "process ",
                pid_text.as_str(),
                " for session ",
                session_id.0.as_str(),
                " has exited",
            ),
            details,
        }
    }

    fn session_closed(session_id: &ProcessSessionId) -> (error: Self)
        ensures
            error@ == session_closed(session_id.0@),
    {
        let mut details = Details::new();
        details.insert("session_id", session_id.0.clone());
        ProcessApiError {
            code: RpcErrorCode::InvalidRequest,
            message: join3("process session ", session_id.0.as_str(), " is closed"),
            details,
        }
    }

    fn session_read_only(session_id: &ProcessSessionId) -> (error: Self)
        ensures
            error@ == session_read_only(session_id.0@),
    {
        let mut details = Details::new();
        details.insert("session_id", session_id.0.clone());
        details.insert("required_access_mode", "mutation".to_owned());
        ProcessApiError {
            code: RpcErrorCode::CapabilityRequired,
            message: join3(
                "process session ",
                session_id.0.as_str(),
                " is read-only; open a mutation session explicitly",
            ),
            details,
        }
    }

    /// The error as the answer to one request.
    pub fn into_rpc_error(self, request_id: u64, operation: &str) -> (error: RpcError)
        ensures
            error.answers(self@, request_id, operation@),
            error.native_context is None,
    {
        RpcError {
            code: self.code,
            message: self.message,
            request_id,
            operation: operation.to_owned(),
            native_context: None,
            details: self.details,
        }
    }

    /// Whether the process has exited.
    pub fn is_process_exited(&self) -> (exited: bool)
        ensures
            exited == (self@.code == RpcErrorCode::ProcessExited),
    {
        self.code == RpcErrorCode::ProcessExited
    }

    /// The error in debug form.
    pub fn describe(&self) -> (text: String)
        ensures
            text@ == process_error_text(self@),
    {
        let fields = describe_fields(self.code, self.message.as_str(), &self.details);
        join2("ProcessApiError", fields.as_str())
    }

    /// The same error with one more detail.
    pub fn with_detail(self, name: &str, value: String) -> (error: Self)
        ensures
            error@ == self@.with(name@, value@),
    {
        let mut details = self.details;
        details.insert(name, value);
        ProcessApiError { code: self.code, message: self.message, details }
    }

    /// What the error says in words.
    pub fn message(&self) -> (message: &str)
        ensures
            message@ == self@.message,
    {
        self.message.as_str()
    }
}

/// A session: the process it is on, and a handle as long as it is open.
pub struct ProcessSession<H> {
    pub process: ProcessDescriptor,
    pub state: ProcessSessionState,
    pub access_mode: ProcessAccessMode,
    pub handle: Option<H>,
}

impl<H> ProcessSession<H> {
    /// A handle is held exactly as long as the session is open, and an open
    /// session knows the identity of its process.
    pub open spec fn sound(self) -> bool {
        &&& self.state == ProcessSessionState::Open <==> self.handle is Some
        &&& self.state == ProcessSessionState::Open ==> self.process.identity is Some
    }

    /// The session after its process was found gone.
    pub open spec fn exited(self) -> Self {
        ProcessSession { state: ProcessSessionState::Exited, handle: None, ..self }
    }

    /// The session after it was closed.
    pub open spec fn closed(self) -> Self {
        ProcessSession { state: ProcessSessionState::Closed, handle: None, ..self }
    }
}

/// What a registry holds.
pub ghost struct Sessions<H> {
    pub sessions: Map<Seq<char>, ProcessSession<H>>,
    pub id_prefix: Seq<char>,
    pub next_session: nat,
}

/// The name of a session by its number.
pub open spec fn session_name(prefix: Seq<char>, number: nat) -> Seq<char> {
    prefix + "-"@ + hex_padded(number, 16)
}

impl<H> Sessions<H> {
    /// Each session is sound and carries a name that was handed out before.
    pub open spec fn sound(self) -> bool {
        forall|id: Seq<char>| #[trigger]
            self.sessions.dom().contains(id) ==> self.sessions[id].sound() && exists|n: nat|
                n < self.next_session && id == #[trigger] session_name(self.id_prefix, n)
    }

    /// An open session of that name.
    pub open spec fn is_open(self, id: Seq<char>) -> bool {
        self.sessions.dom().contains(id) && self.sessions[id].state == ProcessSessionState::Open
    }

    /// The handle of an open session.
    pub open spec fn handle(self, id: Seq<char>) -> H {
        self.sessions[id].handle->0
    }

    /// The identity of the process of an open session.
    pub open spec fn identity(self, id: Seq<char>) -> ProcessIdentity {
        self.sessions[id].process.identity->0
    }

    /// The process of a session.
    pub open spec fn pid(self, id: Seq<char>) -> u32 {
        self.sessions[id].process.pid
    }

    /// The registry with one session replaced.
    pub open spec fn with(self, id: Seq<char>, session: ProcessSession<H>) -> Self {
        Sessions { sessions: self.sessions.insert(id, session), ..self }
    }

    /// What can become of a registry: sessions stay, keep their process and
    /// access mode, and once they are closed or exited nothing of them changes.
    pub open spec fn leads_to(self, later: Self) -> bool {
        &&& later.id_prefix == self.id_prefix
        &&& later.next_session >= self.next_session
        &&& forall|id: Seq<char>| #[trigger]
            self.sessions.dom().contains(id) ==> {
                &&& later.sessions.dom().contains(id)
                &&& later.sessions[id].process == self.sessions[id].process
                &&& later.sessions[id].access_mode == self.sessions[id].access_mode
                &&& self.sessions[id].state != ProcessSessionState::Open ==> later.sessions[id]
                    == self.sessions[id]
                &&& later.sessions[id].state == ProcessSessionState::Open ==> later.sessions[id]
                    == self.sessions[id]
            }
    }
}

/// What came of checking the process of a session, if the session is open.
pub open spec fn checked<B: ProcessBackend>(
    backend: &B,
    held: Sessions<B::Handle>,
    id: Seq<char>,
    outcome: Result<(), ProcessBackendError>,
) -> bool {
    held.is_open(id) ==> call_ensures(
        B::validate_process,
        (backend, &held.handle(id), &held.identity(id)),
        outcome,
    )
}

/// The registry after the process of an open session was checked, and the
/// failure that the check is reported as.
pub open spec fn after_check<H>(
    held: Sessions<H>,
    id: Seq<char>,
    outcome: Result<(), ProcessBackendError>,
) -> (Sessions<H>, Option<Failure>) {
    match outcome {
        Ok(_) => (held, None),
        Err(error) => (
            if error.kind.says_gone() {
                held.with(id, held.sessions[id].exited())
            } else {
                held
            },
            Some(backend_failure(error, Some(held.pid(id)), Some(id))),
        ),
    }
}

/// The registry after a session was asked to be alive. A closed session is
/// left as it is and passes.
pub open spec fn after_ensure_live<H>(
    held: Sessions<H>,
    id: Seq<char>,
    outcome: Result<(), ProcessBackendError>,
) -> (Sessions<H>, Option<Failure>) {
    if !held.sessions.dom().contains(id) {
        (held, Some(session_not_found(id)))
    } else {
        match held.sessions[id].state {
            ProcessSessionState::Closed => (held, None),
            ProcessSessionState::Exited => (held, Some(process_exited(id, held.pid(id)))),
            ProcessSessionState::Open => after_check(held, id, outcome),
        }
    }
}

/// A session that may not do what a change to its process asks for.
pub open spec fn lacks_access<H>(held: Sessions<H>, id: Seq<char>, mutation: bool) -> bool {
    mutation && held.sessions.dom().contains(id) && held.sessions[id].access_mode
        != ProcessAccessMode::Mutation
}

/// What came of checking the process of a session that asks for admission. A
/// session without the access is turned away unchecked.
pub open spec fn checked_at_entry<B: ProcessBackend>(
    backend: &B,
    held: Sessions<B::Handle>,
    id: Seq<char>,
    mutation: bool,
    outcome: Result<(), ProcessBackendError>,
) -> bool {
    !lacks_access(held, id, mutation) ==> checked(backend, held, id, outcome)
}

/// The registry after a session was admitted to an operation, which asks it to
/// be open and, for a change to its process, to be a mutation session.
pub open spec fn after_admission<H>(
    held: Sessions<H>,
    id: Seq<char>,
    mutation: bool,
    outcome: Result<(), ProcessBackendError>,
) -> (Sessions<H>, Option<Failure>) {
    if lacks_access(held, id, mutation) {
        (held, Some(session_read_only(id)))
    } else {
        let (later, fault) = after_ensure_live(held, id, outcome);
        if fault is None && later.sessions[id].state == ProcessSessionState::Closed {
            (later, Some(session_closed(id)))
        } else {
            (later, fault)
        }
    }
}

/// A result that succeeds where there is no fault and else fails with it.
pub open spec fn reports<T>(result: Result<T, ProcessApiError>, fault: Option<Failure>) -> bool {
    match result {
        Ok(_) => fault is None,
        Err(error) => fault == Some(error@),
    }
}

pub(crate) proof fn lemma_hex_padded_injective(a: nat, b: nat)
    requires
        a <= u64::MAX,
        b <= u64::MAX,
        hex_padded(a, 16) == hex_padded(b, 16),
    ensures
        a == b,
{
    assert(pow16(15) == 0x1000_0000_0000_0000) by {
        reveal_with_fuel(pow16, 16);
    }
    lemma_hex_padded_step(a, b, 16, 0x1000_0000_0000_0000);
}

proof fn lemma_hex_padded_step(a: nat, b: nat, width: nat, scale: nat)
    requires
        hex_padded(a, width) == hex_padded(b, width),
        width > 0,
        scale == pow16((width - 1) as nat),
        a / 16 < scale,
        b / 16 < scale,
    ensures
        a == b,
    decreases width,
{
    let less = (width - 1) as nat;
    let x = hex_padded(a, width);
    let y = hex_padded(b, width);
    assert(x.last() == digit_char((a % 16) as int));
    assert(y.last() == digit_char((b % 16) as int));
    assert(a % 16 == b % 16);
    assert(x.drop_last() =~= hex_padded(a / 16, less));
    assert(y.drop_last() =~= hex_padded(b / 16, less));
    if less > 0 {
        assert(scale == 16 * pow16((less - 1) as nat));
        lemma_hex_padded_step(a / 16, b / 16, less, pow16((less - 1) as nat));
    }
}

spec fn pow16(exponent: nat) -> nat
    decreases exponent,
{
    if exponent == 0 {
        1
    } else {
        16 * pow16((exponent - 1) as nat)
    }
}

/// Two numbers give two session names.
pub proof fn session_names_differ(prefix: Seq<char>, a: nat, b: nat)
    requires
        a <= u64::MAX,
        b <= u64::MAX,
        a != b,
    ensures
        session_name(prefix, a) != session_name(prefix, b),
{
    if session_name(prefix, a) == session_name(prefix, b) {
        let head = prefix + "-"@;
        assert(session_name(prefix, a).skip(head.len() as int) =~= hex_padded(a, 16));
        assert(session_name(prefix, b).skip(head.len() as int) =~= hex_padded(b, 16));
        lemma_hex_padded_injective(a, b);
    }
}

/// A session that is opened gets a name that no session of the registry has.
pub proof fn opened_sessions_have_new_names<H>(
    held: Sessions<H>,
    request: OpenProcessRequest,
    opened: Result<OpenedProcess<H>, ProcessBackendError>,
    later: Sessions<H>,
    response: ProcessSessionResponse,
)
    requires
        held.sound(),
        held.next_session < u64::MAX,
        opens(held, request, opened, later, Ok(response)),
    ensures
        !held.sessions.dom().contains(response.session_id.0@),
        later.sound(),
{
    let id = session_name(held.id_prefix, held.next_session);
    if held.sessions.dom().contains(id) {
        let n = choose|n: nat|
            n < held.next_session && id == #[trigger] session_name(held.id_prefix, n);
        session_names_differ(held.id_prefix, n, held.next_session);
    }
    assert forall|other: Seq<char>| #[trigger] later.sessions.dom().contains(other) implies {
        &&& later.sessions[other].sound()
        &&& exists|n: nat|
            n < later.next_session && other == #[trigger] session_name(later.id_prefix, n)
    } by {
        if other != id {
            let n = choose|n: nat|
                n < held.next_session && other == #[trigger] session_name(held.id_prefix, n);
            assert(other == session_name(later.id_prefix, n));
        } else {
            assert(other == session_name(later.id_prefix, held.next_session));
        }
    }
}

/// The result of an operation with the state of the process after it.
pub struct MutationExecution<T> {
    pub value: T,
    pub validation_error: Option<ProcessApiError>,
}

/// A result that carries a failure of the session.
pub open spec fn rejects<R, E: From<ProcessApiError>>(result: Result<R, E>, fault: Failure) -> bool {
    exists|error: ProcessApiError|
        {
            &&& #[trigger] error@ == fault
            &&& result is Err
            &&& call_ensures(<E as From<ProcessApiError>>::from, (error,), result->Err_0)
        }
}

/// The outcomes of the calls that running an operation on a session makes.
pub open spec fn operation_ran<B, F, R, E>(
    backend: &B,
    held: Sessions<B::Handle>,
    id: Seq<char>,
    mutation: bool,
    operation: F,
    before: Result<(), ProcessBackendError>,
    value: Result<R, E>,
    after: Result<(), ProcessBackendError>,
) -> bool where
    B: ProcessBackend,
    F: FnOnce(&B, &B::Handle, &ProcessDescriptor) -> Result<R, E>,
 {
    &&& checked_at_entry(backend, held, id, mutation, before)
    &&& after_admission(held, id, mutation, before).1 is None ==> {
        &&& call_ensures(
            operation,
            (backend, &held.handle(id), &held.sessions[id].process),
            value,
        )
        &&& (mutation && value is Err) || checked(backend, held, id, after)
    }
}

/// What running a reading operation on a session gives.
pub open spec fn operation_result<H, R, E: From<ProcessApiError>>(
    held: Sessions<H>,
    id: Seq<char>,
    before: Result<(), ProcessBackendError>,
    value: Result<R, E>,
    after: Result<(), ProcessBackendError>,
    later: Sessions<H>,
    result: Result<R, E>,
) -> bool {
    let (entered, refusal) = after_admission(held, id, false, before);
    match refusal {
        Some(fault) => later == entered && rejects(result, fault),
        None => {
            let (left, lapse) = after_check(entered, id, after);
            later == left && match lapse {
                Some(fault) => rejects(result, fault),
                None => result == value,
            }
        },
    }
}

/// What running a changing operation on a session gives. Where the operation
/// itself fails, the process is not checked again.
pub open spec fn effect_result<H, R, E: From<ProcessApiError>>(
    held: Sessions<H>,
    id: Seq<char>,
    before: Result<(), ProcessBackendError>,
    value: Result<R, E>,
    after: Result<(), ProcessBackendError>,
    later: Sessions<H>,
    result: Result<MutationExecution<R>, E>,
) -> bool {
    let (entered, refusal) = after_admission(held, id, true, before);
    match (refusal, value) {
        (Some(fault), _) => later == entered && rejects(result, fault),
        (None, Err(error)) => later == entered && result == Err::<MutationExecution<R>, E>(error),
        (None, Ok(value)) => {
            let (left, lapse) = after_check(entered, id, after);
            &&& later == left
            &&& result matches Ok(execution) && execution.value == value && match (
                execution.validation_error,
                lapse,
            ) {
                (Some(error), Some(fault)) => error@ == fault,
                (None, None) => true,
                _ => false,
            }
        },
    }
}

/// How many of the named sessions stand in a state.
pub open spec fn tally<H>(
    sessions: Map<Seq<char>, ProcessSession<H>>,
    ids: Seq<Seq<char>>,
    state: ProcessSessionState,
) -> nat
    decreases ids.len(),
{
    if ids.len() == 0 {
        0
    } else {
        let rest = tally(sessions, ids.drop_last(), state);
        if sessions[ids.last()].state == state {
            rest + 1
        } else {
            rest
        }
    }
}

/// How many sessions stand in a state.
pub open spec fn count_in<H>(
    sessions: Map<Seq<char>, ProcessSession<H>>,
    state: ProcessSessionState,
) -> nat {
    sessions.dom().filter(|id: Seq<char>| sessions[id].state == state).len()
}

proof fn lemma_tally<H>(
    sessions: Map<Seq<char>, ProcessSession<H>>,
    ids: Seq<Seq<char>>,
    state: ProcessSessionState,
)
    requires
        ids.no_duplicates(),
    ensures
        tally(sessions, ids, state) == ids.to_set().filter(
            |id: Seq<char>| sessions[id].state == state,
        ).len(),
        tally(sessions, ids, state) <= ids.len(),
    decreases ids.len(),
{
    let holds = |id: Seq<char>| sessions[id].state == state;
    ids.unique_seq_to_set();
    if ids.len() == 0 {
        assert(ids.to_set().filter(holds) =~= Set::<Seq<char>>::empty());
    } else {
        let front = ids.drop_last();
        let last = ids.last();
        lemma_tally(sessions, front, state);
        front.unique_seq_to_set();
        assert(!front.to_set().contains(last)) by {
            if front.contains(last) {
                let i = choose|i: int| 0 <= i < front.len() && front[i] == last;
                assert(ids[i] == ids[ids.len() - 1]);
            }
        }
        assert(ids.to_set() =~= front.to_set().insert(last)) by {
            assert forall|id: Seq<char>| ids.to_set().contains(id) implies front.to_set().insert(
                last,
            ).contains(id) by {
                let i = choose|i: int| 0 <= i < ids.len() && ids[i] == id;
                if i < front.len() {
                    assert(front[i] == id);
                }
            }
            assert forall|id: Seq<char>| front.to_set().insert(last).contains(
                id,
            ) implies ids.to_set().contains(id) by {
                if id != last {
                    let i = choose|i: int| 0 <= i < front.len() && front[i] == id;
                    assert(ids[i] == id);
                } else {
                    assert(ids[ids.len() - 1] == last);
                }
            }
        }
        if holds(last) {
            assert(ids.to_set().filter(holds) =~= front.to_set().filter(holds).insert(last));
        } else {
            assert(ids.to_set().filter(holds) =~= front.to_set().filter(holds));
        }
    }
}

/// What came of checking the process of every open session.
pub open spec fn all_checked<B: ProcessBackend>(
    backend: &B,
    held: Sessions<B::Handle>,
    outcomes: Map<Seq<char>, Result<(), ProcessBackendError>>,
) -> bool {
    forall|id: Seq<char>|
        held.is_open(id) ==> call_ensures(
            B::validate_process,
            (backend, &held.handle(id), &held.identity(id)),
            #[trigger] outcomes[id],
        )
}

/// The sessions after every open one was checked: those whose process is gone
/// have exited.
pub open spec fn refreshed<H>(
    held: Sessions<H>,
    outcomes: Map<Seq<char>, Result<(), ProcessBackendError>>,
) -> Sessions<H> {
    Sessions {
        sessions: held.sessions.map_entries(
            |id: Seq<char>, session: ProcessSession<H>|
                if session.state == ProcessSessionState::Open && (outcomes[id] matches Err(error)
                    && error.kind.says_gone()) {
                    session.exited()
                } else {
                    session
                },
        ),
        ..held
    }
}

/// The sessions of one agent.
pub struct ProcessSessionRegistry<H> {
    sessions: TextMap<ProcessSession<H>>,
    id_prefix: String,
    next_session: u64,
}

impl<H> View for ProcessSessionRegistry<H> {
    type V = Sessions<H>;

    closed spec fn view(&self) -> Sessions<H> {
        Sessions {
            sessions: self.sessions@,
            id_prefix: self.id_prefix@,
            next_session: self.next_session as nat,
        }
    }
}

/// The name prefix of the registry with the given number.
pub open spec fn registry_prefix(process_id: u32, registry: u64) -> Seq<char> {
    hex_padded(process_id as nat, 8) + "-"@ + hex_padded(registry as nat, 16)
}

/// The processes whose name is asked for; no names ask for all.
pub open spec fn named_processes(
    processes: Seq<ProcessDescriptor>,
    names: Seq<String>,
) -> Seq<ProcessDescriptor> {
    if names.len() == 0 {
        processes
    } else {
        processes.filter(|process: ProcessDescriptor| is_named(process, names))
    }
}

/// Whether a process carries one of the names, ASCII case ignored.
pub open spec fn is_named(process: ProcessDescriptor, names: Seq<String>) -> bool {
    exists|i: int|
        0 <= i < names.len() && lowered((#[trigger] names[i])@) == lowered(process.name@)
}

/// The order of processes in a listing.
pub open spec fn by_pid() -> spec_fn(ProcessDescriptor) -> int {
    |process: ProcessDescriptor| process.pid as int
}

/// What a listing answers for what the platform reported.
pub open spec fn lists(
    names: Seq<String>,
    reported: Result<Vec<ProcessDescriptor>, ProcessBackendError>,
    answer: Result<ListProcessesResponse, ProcessApiError>,
) -> bool {
    match (reported, answer) {
        (Ok(processes), Ok(response)) => response.processes@ == sorted_by(
            named_processes(processes@, names),
            by_pid(),
        ),
        (Err(error), Err(fault)) => fault@ == backend_failure(error, None, None),
        _ => false,
    }
}

/// Answers a listing for what the platform reported.
pub fn list_reported(
    reported: Result<Vec<ProcessDescriptor>, ProcessBackendError>,
    request: &ListProcessesRequest,
) -> (answer: Result<ListProcessesResponse, ProcessApiError>)
    ensures
        lists(request.names@, reported, answer),
{
    let processes = match reported {
        Ok(processes) => processes,
        Err(error) => {
            return Err(ProcessApiError::from_backend(error, None, None));
        },
    };
    let ghost names = request.names@;
    let ghost wanted = |process: ProcessDescriptor| is_named(process, names);
    let mut kept: Vec<ProcessDescriptor> = Vec::new();
    let mut keys: Vec<i128> = Vec::new();
    let mut i: usize = 0;
    proof {
        assert(named_processes(processes@.take(0), names) =~= kept@) by {
            assert(processes@.take(0) =~= Seq::<ProcessDescriptor>::empty());
            assert(processes@.take(0).filter(wanted) =~= Seq::<ProcessDescriptor>::empty()) by {
                reveal(Seq::filter);
            }
        }
    }
    while i < processes.len()
        invariant
            i <= processes@.len(),
            names == request.names@,
            wanted == (|process: ProcessDescriptor| is_named(process, names)),
            kept@ == named_processes(processes@.take(i as int), names),
            keys@.len() == kept@.len(),
            forall|j: int| 0 <= j < kept@.len() ==> #[trigger] keys@[j] == kept@[j].pid,
        decreases processes@.len() - i,
    {
        let process = &processes[i];
        proof {
            let next = processes@.take(i + 1);
            assert(next.drop_last() =~= processes@.take(i as int));
            assert(next.last() == *process);
            assert(next.filter(wanted) == if is_named(*process, names) {
                next.drop_last().filter(wanted).push(*process)
            } else {
                next.drop_last().filter(wanted)
            }) by {
                reveal(Seq::filter);
            }
            if names.len() == 0 {
                assert(next =~= processes@.take(i as int).push(*process));
            }
        }
        if request.names.len() == 0 || carries_name(process, &request.names) {
            keys.push(process.pid as i128);
            kept.push(process.clone());
        }
        i += 1;
    }
    proof {
        assert(processes@.take(i as int) =~= processes@);
    }
    Ok(ListProcessesResponse { processes: stable_sort(kept, keys, Ghost(by_pid())) })
}

fn carries_name(process: &ProcessDescriptor, names: &Vec<String>) -> (named: bool)
    ensures
        named == is_named(*process, names@),
{
    let mut i: usize = 0;
    while i < names.len()
        invariant
            i <= names@.len(),
            forall|j: int|
                0 <= j < i ==> lowered((#[trigger] names@[j])@) != lowered(process.name@),
        decreases names@.len() - i,
    {
        if same_ignoring_case(names[i].as_str(), process.name.as_str()) {
            assert(lowered(names@[i as int]@) == lowered(process.name@));
            return true;
        }
        i += 1;
    }
    false
}

fn same_identity(a: &ProcessIdentity, b: &ProcessIdentity) -> (same: bool)
    ensures
        same == identical(*a, *b),
{
    a.pid == b.pid && same_text(a.creation_time_100ns.as_str(), b.creation_time_100ns.as_str())
        && same_text(a.executable_path.as_str(), b.executable_path.as_str())
}

/// Two identities that agree in every part.
pub open spec fn identical(a: ProcessIdentity, b: ProcessIdentity) -> bool {
    &&& a.pid == b.pid
    &&& a.creation_time_100ns@ == b.creation_time_100ns@
    &&& a.executable_path@ == b.executable_path@
}

/// Why an opened process is not taken into a session.
pub open spec fn refusal_to_open<H>(
    request: OpenProcessRequest,
    opened: Result<OpenedProcess<H>, ProcessBackendError>,
    fault: Failure,
) -> bool {
    match opened {
        Err(error) => fault == backend_failure(error, Some(request.pid), None),
        Ok(process) => match process.process.identity {
            None => fault == failure(
                RpcErrorCode::Internal,
                "opened process did not provide a stable identity"@,
            ).with("pid"@, dec_text(request.pid as nat)),
            Some(actual) => {
                &&& request.expected_identity matches Some(expected) && !identical(expected, actual)
                &&& fault == failure(
                    RpcErrorCode::ProcessExited,
                    "process "@ + dec_text(request.pid as nat)
                        + " changed identity before it could be opened"@,
                ).with("pid"@, dec_text(request.pid as nat))
            },
        },
    }
}

/// A process that may be taken into a session.
pub open spec fn may_open<H>(request: OpenProcessRequest, opened: OpenedProcess<H>) -> bool {
    match opened.process.identity {
        None => false,
        Some(actual) => request.expected_identity matches Some(expected) ==> identical(
            expected,
            actual,
        ),
    }
}

/// The session that an opened process is taken into.
pub open spec fn new_session<H>(
    request: OpenProcessRequest,
    opened: OpenedProcess<H>,
) -> ProcessSession<H> {
    ProcessSession {
        process: opened.process,
        state: ProcessSessionState::Open,
        access_mode: request.access_mode,
        handle: Some(opened.handle),
    }
}

/// What opening a session answers for what the platform gave.
pub open spec fn opens<H>(
    held: Sessions<H>,
    request: OpenProcessRequest,
    opened: Result<OpenedProcess<H>, ProcessBackendError>,
    later: Sessions<H>,
    answer: Result<ProcessSessionResponse, ProcessApiError>,
) -> bool {
    match answer {
        Ok(response) => {
            let id = session_name(held.id_prefix, held.next_session);
            &&& opened matches Ok(process) && may_open(request, process) && later == (Sessions {
                sessions: held.sessions.insert(id, new_session(request, process)),
                next_session: held.next_session + 1,
                ..held
            })
            &&& describes(response, id, later.sessions[id])
        },
        Err(fault) => later == held && refusal_to_open(request, opened, fault@),
    }
}

/// A response that describes a session.
pub open spec fn describes<H>(
    response: ProcessSessionResponse,
    id: Seq<char>,
    session: ProcessSession<H>,
) -> bool {
    &&& response.session_id.0@ == id
    &&& response.state == session.state
    &&& response.access_mode == session.access_mode
    &&& response.process == session.process
}

fn session_response<H>(session_id: &ProcessSessionId, session: &ProcessSession<H>) -> (response:
    ProcessSessionResponse)
    ensures
        describes(response, session_id.0@, *session),
{
    ProcessSessionResponse {
        session_id: session_id.clone(),
        state: session.state,
        access_mode: session.access_mode,
        process: session.process.clone(),
    }
}

/// What closing a session answers for what checking its process gave.
pub open spec fn closes<H>(
    held: Sessions<H>,
    id: Seq<char>,
    outcome: Result<(), ProcessBackendError>,
    later: Sessions<H>,
    answer: Result<ProcessSessionResponse, ProcessApiError>,
) -> bool {
    let (checked, fault) = after_ensure_live(held, id, outcome);
    match answer {
        Err(error) => later == checked && fault == Some(error@),
        Ok(response) => {
            &&& fault is None
            &&& later == if held.sessions[id].state == ProcessSessionState::Open {
                held.with(id, held.sessions[id].closed())
            } else {
                held
            }
            &&& describes(response, id, later.sessions[id])
        },
    }
}

/// What listing modules answers for what the platform gave.
pub open spec fn lists_modules<H>(
    held: Sessions<H>,
    id: Seq<char>,
    before: Result<(), ProcessBackendError>,
    modules: Result<Vec<ModuleDescriptor>, ProcessBackendError>,
    later: Sessions<H>,
    answer: Result<ListModulesResponse, ProcessApiError>,
) -> bool {
    let (admitted, refusal) = after_admission(held, id, false, before);
    if refusal is Some {
        later == admitted && (answer matches Err(error) && refusal == Some(error@))
    } else {
        match (modules, answer) {
            (Ok(found), Ok(response)) => {
                &&& later == admitted
                &&& response.session_id.0@ == id
                &&& response.process == admitted.sessions[id].process
                &&& response.modules == found
            },
            (Err(error), Err(fault)) => (later, Some(fault@)) == after_check(
                admitted,
                id,
                Err(error),
            ),
            _ => false,
        }
    }
}

/// The modules that the platform reported for an admitted session.
pub open spec fn modules_reported<B: ProcessBackend>(
    backend: &B,
    held: Sessions<B::Handle>,
    id: Seq<char>,
    before: Result<(), ProcessBackendError>,
    modules: Result<Vec<ModuleDescriptor>, ProcessBackendError>,
) -> bool {
    &&& checked(backend, held, id, before)
    &&& after_admission(held, id, false, before).1 is None ==> call_ensures(
        B::enumerate_modules,
        (backend, &held.handle(id), &held.identity(id)),
        modules,
    )
}

impl<H> ProcessSessionRegistry<H> {
    /// Sessions are sound and their names were handed out by this registry.
    pub closed spec fn wf(&self) -> bool {
        self.sessions.wf() && self@.sound()
    }

    /// Every session of a registry is sound and carries a name that was handed out.
    pub proof fn sessions_are_sound(&self)
        requires
            self.wf(),
        ensures
            self@.sound(),
    {
    }

    proof fn lemma_with(&self, before: Self, id: Seq<char>, session: ProcessSession<H>)
        requires
            before.wf(),
            self.sessions.wf(),
            before@.sessions.dom().contains(id),
            session.sound(),
            self@ == before@.with(id, session),
        ensures
            self.wf(),
    {
        assert forall|other: Seq<char>| #[trigger] self@.sessions.dom().contains(other) implies {
            &&& self@.sessions[other].sound()
            &&& exists|n: nat|
                n < self@.next_session && other == #[trigger] session_name(self@.id_prefix, n)
        } by {
            assert(before@.sessions.dom().contains(other));
            let n = choose|n: nat|
                n < before@.next_session && other == #[trigger] session_name(before@.id_prefix, n);
            assert(other == session_name(self@.id_prefix, n));
        }
    }

    /// An empty registry whose sessions carry the process id and the number of
    /// the registry in their names.
    pub fn new(process_id: u32, registry: u64) -> (made: Self)
        ensures
            made.wf(),
            made@ == (Sessions {
                sessions: Map::<Seq<char>, ProcessSession<H>>::empty(),
                id_prefix: registry_prefix(process_id, registry),
                next_session: 1,
            }),
    {
        let process = format_padded(process_id as u64, 8);
        let number = format_padded(registry, 16);
        let prefix = join3(process.as_str(), "-", number.as_str());
        Self::with_id_prefix(prefix)
    }

    /// An empty registry with the given name prefix.
    pub fn with_id_prefix(id_prefix: String) -> (made: Self)
        ensures
            made.wf(),
            made@ == (Sessions {
                sessions: Map::<Seq<char>, ProcessSession<H>>::empty(),
                id_prefix: id_prefix@,
                next_session: 1,
            }),
    {
        ProcessSessionRegistry { sessions: TextMap::new(), id_prefix, next_session: 1 }
    }

    /// Whether no name is left for another session.
    pub fn exhausted(&self) -> (yes: bool)
        ensures
            yes == (self@.next_session >= u64::MAX),
    {
        self.next_session == u64::MAX
    }

    /// What the process of a session is taken for.
    pub fn process_kind(&self, session_id: &ProcessSessionId) -> (kind: Option<ProcessKind>)
        requires
            self.wf(),
        ensures
            kind == if self@.sessions.dom().contains(session_id.0@) {
                Some(self@.sessions[session_id.0@].process.kind)
            } else {
                None
            },
    {
        match self.sessions.get(session_id.0.as_str()) {
            Some(session) => Some(session.process.kind),
            None => None,
        }
    }

    /// Lists processes.
    pub fn list<B: ProcessBackend<Handle = H>>(
        &self,
        backend: &B,
        request: &ListProcessesRequest,
    ) -> (answer: Result<ListProcessesResponse, ProcessApiError>)
        ensures
            exists|reported: Result<Vec<ProcessDescriptor>, ProcessBackendError>|
                call_ensures(B::list_processes, (backend,), reported) && #[trigger] lists(
                    request.names@,
                    reported,
                    answer,
                ),
    {
        let reported = backend.list_processes();
        let ghost seen = reported;
        let answer = list_reported(reported, request);
        assert(lists(request.names@, seen, answer));
        answer
    }

    fn mark_exited(&mut self, session_id: &ProcessSessionId)
        requires
            old(self).wf(),
            old(self)@.sessions.dom().contains(session_id.0@),
        ensures
            final(self).wf(),
            final(self)@ == old(self)@.with(
                session_id.0@,
                old(self)@.sessions[session_id.0@].exited(),
            ),
            final(self).sessions.keys() == old(self).sessions.keys(),
    {
        let session = self.sessions.get_mut(session_id.0.as_str());
        session.handle = None;
        session.state = ProcessSessionState::Exited;
        proof {
            self.lemma_with(
                *old(self),
                session_id.0@,
                old(self)@.sessions[session_id.0@].exited(),
            );
        }
    }

    /// Checks the process of an open session.
    pub(crate) fn recheck<B: ProcessBackend<Handle = H>>(
        &mut self,
        backend: &B,
        session_id: &ProcessSessionId,
    ) -> (verdict: (Result<(), ProcessApiError>, Ghost<Result<(), ProcessBackendError>>))
        requires
            old(self).wf(),
            old(self)@.is_open(session_id.0@),
        ensures
            final(self).wf(),
            old(self)@.leads_to(final(self)@),
            checked(backend, old(self)@, session_id.0@, verdict.1@),
            ({
                let (later, fault) = after_check(old(self)@, session_id.0@, verdict.1@);
                final(self)@ == later && reports(verdict.0, fault)
            }),
    {
        let (outcome, pid) = match self.sessions.get(session_id.0.as_str()) {
            Some(session) => match (&session.handle, &session.process.identity) {
                (Some(handle), Some(identity)) => (
                    backend.validate_process(handle, identity),
                    session.process.pid,
                ),
                _ => {
                    assert(false);
                    (Ok(()), 0)
                },
            },
            None => {
                assert(false);
                (Ok(()), 0)
            },
        };
        let ghost seen = outcome;
        let verdict = match outcome {
            Ok(()) => Ok(()),
            Err(error) => {
                if error.kind.is_gone() {
                    self.mark_exited(session_id);
                }
                Err(ProcessApiError::from_backend(error, Some(pid), Some(session_id)))
            },
        };
        (verdict, Ghost(seen))
    }

    /// Asks a session to be alive.
    fn ensure_live<B: ProcessBackend<Handle = H>>(
        &mut self,
        backend: &B,
        session_id: &ProcessSessionId,
    ) -> (verdict: (Result<(), ProcessApiError>, Ghost<Result<(), ProcessBackendError>>))
        requires
            old(self).wf(),
        ensures
            final(self).wf(),
            old(self)@.leads_to(final(self)@),
            checked(backend, old(self)@, session_id.0@, verdict.1@),
            ({
                let (later, fault) = after_ensure_live(old(self)@, session_id.0@, verdict.1@);
                final(self)@ == later && reports(verdict.0, fault)
            }),
    {
        match self.sessions.get(session_id.0.as_str()) {
            None => (Err(ProcessApiError::session_not_found(session_id)), Ghost(Ok(()))),
            Some(session) => match session.state {
                ProcessSessionState::Closed => (Ok(()), Ghost(Ok(()))),
                ProcessSessionState::Exited => (
                    Err(ProcessApiError::process_exited(session_id, session.process.pid)),
                    Ghost(Ok(())),
                ),
                ProcessSessionState::Open => self.recheck(backend, session_id),
            },
        }
    }

    /// Admits a session to an operation.
    pub(crate) fn enter<B: ProcessBackend<Handle = H>>(
        &mut self,
        backend: &B,
        session_id: &ProcessSessionId,
        mutation: bool,
    ) -> (verdict: (Result<(), ProcessApiError>, Ghost<Result<(), ProcessBackendError>>))
        requires
            old(self).wf(),
        ensures
            final(self).wf(),
            old(self)@.leads_to(final(self)@),
            verdict.0 is Ok ==> final(self)@.is_open(session_id.0@) && final(self)@ == old(self)@,
            checked_at_entry(backend, old(self)@, session_id.0@, mutation, verdict.1@),
            ({
                let (later, fault) = after_admission(
                    old(self)@,
                    session_id.0@,
                    mutation,
                    verdict.1@,
                );
                final(self)@ == later && reports(verdict.0, fault)
            }),
    {
        if mutation {
            if let Some(session) = self.sessions.get(session_id.0.as_str()) {
                if session.access_mode != ProcessAccessMode::Mutation {
                    return (Err(ProcessApiError::session_read_only(session_id)), Ghost(Ok(())));
                }
            }
        }
        let (verdict, outcome) = self.ensure_live(backend, session_id);
        if verdict.is_ok() {
            if let Some(session) = self.sessions.get(session_id.0.as_str()) {
                if session.state == ProcessSessionState::Closed {
                    return (Err(ProcessApiError::session_closed(session_id)), outcome);
                }
            }
        }
        (verdict, outcome)
    }

    /// The handle and the process of an open session.
    pub(crate) fn live(&self, session_id: &ProcessSessionId) -> (held: (&H, &ProcessDescriptor))
        requires
            self.wf(),
            self@.is_open(session_id.0@),
        ensures
            *held.0 == self@.handle(session_id.0@),
            *held.1 == self@.sessions[session_id.0@].process,
            held.1.identity is Some,
    {
        match self.sessions.get(session_id.0.as_str()) {
            Some(session) => match &session.handle {
                Some(handle) => (handle, &session.process),
                None => {
                    proof {
                        assert(false);
                    }
                    vstd::pervasive::unreached()
                },
            },
            None => {
                proof {
                    assert(false);
                }
                vstd::pervasive::unreached()
            },
        }
    }

    /// Opens a session on a process.
    pub fn open<B: ProcessBackend<Handle = H>>(
        &mut self,
        backend: &B,
        request: &OpenProcessRequest,
    ) -> (answer: Result<ProcessSessionResponse, ProcessApiError>)
        requires
            old(self).wf(),
            old(self)@.next_session < u64::MAX,
        ensures
            final(self).wf(),
            old(self)@.leads_to(final(self)@),
            exists|opened: Result<OpenedProcess<H>, ProcessBackendError>|
                call_ensures(
                    B::open_process_for_access,
                    (backend, request.pid, request.access_mode),
                    opened,
                ) && #[trigger] opens(old(self)@, *request, opened, final(self)@, answer),
            answer matches Ok(response) ==> !old(self)@.sessions.dom().contains(
                response.session_id.0@,
            ),
    {
        let opened = backend.open_process_for_access(request.pid, request.access_mode);
        let ghost seen = opened;
        let answer = self.open_given(request, opened);
        assert(opens(old(self)@, *request, seen, self@, answer));
        answer
    }

    /// Takes an opened process into a session.
    pub fn open_given(
        &mut self,
        request: &OpenProcessRequest,
        opened: Result<OpenedProcess<H>, ProcessBackendError>,
    ) -> (answer: Result<ProcessSessionResponse, ProcessApiError>)
        requires
            old(self).wf(),
            old(self)@.next_session < u64::MAX,
        ensures
            final(self).wf(),
            old(self)@.leads_to(final(self)@),
            opens(old(self)@, *request, opened, final(self)@, answer),
            answer matches Ok(response) ==> !old(self)@.sessions.dom().contains(
                response.session_id.0@,
            ),
    {
        let opened = match opened {
            Ok(opened) => opened,
            Err(error) => {
                return Err(ProcessApiError::from_backend(error, Some(request.pid), None));
            },
        };
        match &opened.process.identity {
            None => {
                let error = ProcessBackendError::new(
                    ProcessBackendErrorKind::Native,
                    "opened process did not provide a stable identity",
                );
                return Err(ProcessApiError::from_backend(error, Some(request.pid), None));
            },
            Some(actual) => {
                if let Some(expected) = &request.expected_identity {
                    if !same_identity(expected, actual) {
                        let pid = format_decimal(request.pid as u64);
                        let message = join3(
                            "process ",
                            pid.as_str(),
                            " changed identity before it could be opened",
                        );
                        let error = ProcessBackendError::new(
                            ProcessBackendErrorKind::IdentityMismatch,
                            message.as_str(),
                        );
                        return Err(ProcessApiError::from_backend(error, Some(request.pid), None));
                    }
                }
            },
        }
        let ghost given = opened;
        let session_id = self.next_session_id();
        let session = ProcessSession {
            process: opened.process,
            state: ProcessSessionState::Open,
            access_mode: request.access_mode,
            handle: Some(opened.handle),
        };
        let response = session_response(&session_id, &session);
        let ghost between = self@;
        self.sessions.put(session_id.0, session);
        proof {
            let id = session_name(old(self)@.id_prefix, old(self)@.next_session);
            assert(self@.sessions == between.sessions.insert(id, session));
            assert forall|other: Seq<char>| #[trigger] self@.sessions.dom().contains(other) implies {
                &&& self@.sessions[other].sound()
                &&& exists|n: nat|
                    n < self@.next_session && other == #[trigger] session_name(self@.id_prefix, n)
            } by {
                if other != id {
                    assert(old(self)@.sessions.dom().contains(other));
                    let n = choose|n: nat|
                        n < old(self)@.next_session && other == #[trigger] session_name(
                            old(self)@.id_prefix,
                            n,
                        );
                    assert(other == session_name(self@.id_prefix, n));
                } else {
                    assert(other == session_name(self@.id_prefix, old(self)@.next_session));
                }
            }
        }
        Ok(response)
    }

    /// Hands out the next session name.
    fn next_session_id(&mut self) -> (session_id: ProcessSessionId)
        requires
            old(self).wf(),
            old(self)@.next_session < u64::MAX,
        ensures
            final(self).sessions == old(self).sessions,
            final(self)@ == (Sessions {
                next_session: old(self)@.next_session + 1,
                ..old(self)@
            }),
            session_id.0@ == session_name(old(self)@.id_prefix, old(self)@.next_session),
            !old(self)@.sessions.dom().contains(session_id.0@),
    {
        let number = format_padded(self.next_session, 16);
        let name = join3(self.id_prefix.as_str(), "-", number.as_str());
        proof {
            if self@.sessions.dom().contains(name@) {
                let n = choose|n: nat|
                    n < self@.next_session && name@ == #[trigger] session_name(self@.id_prefix, n);
                session_names_differ(self@.id_prefix, n, self@.next_session);
            }
        }
        self.next_session = self.next_session + 1;
        ProcessSessionId(name)
    }

    /// Says where a session stands.
    pub fn status<B: ProcessBackend<Handle = H>>(
        &mut self,
        backend: &B,
        session_id: &ProcessSessionId,
    ) -> (answer: Result<ProcessSessionResponse, ProcessApiError>)
        requires
            old(self).wf(),
        ensures
            final(self).wf(),
            old(self)@.leads_to(final(self)@),
            exists|outcome: Result<(), ProcessBackendError>| #[trigger]
                checked(backend, old(self)@, session_id.0@, outcome) && ({
                    let (later, fault) = after_ensure_live(old(self)@, session_id.0@, outcome);
                    final(self)@ == later && reports(answer, fault)
                }),
            answer matches Ok(response) ==> describes(
                response,
                session_id.0@,
                final(self)@.sessions[session_id.0@],
            ),
    {
        let (verdict, Ghost(outcome)) = self.ensure_live(backend, session_id);
        assert(checked(backend, old(self)@, session_id.0@, outcome));
        verdict?;
        match self.sessions.get(session_id.0.as_str()) {
            Some(session) => Ok(session_response(session_id, session)),
            None => {
                assert(false);
                Err(ProcessApiError::session_not_found(session_id))
            },
        }
    }

    /// Closes a session. Closing it again answers the same.
    pub fn close<B: ProcessBackend<Handle = H>>(
        &mut self,
        backend: &B,
        session_id: &ProcessSessionId,
    ) -> (answer: Result<ProcessSessionResponse, ProcessApiError>)
        requires
            old(self).wf(),
        ensures
            final(self).wf(),
            old(self)@.leads_to(final(self)@),
            exists|outcome: Result<(), ProcessBackendError>| #[trigger]
                checked(backend, old(self)@, session_id.0@, outcome) && closes(
                    old(self)@,
                    session_id.0@,
                    outcome,
                    final(self)@,
                    answer,
                ),
    {
        let (verdict, Ghost(outcome)) = self.ensure_live(backend, session_id);
        assert(checked(backend, old(self)@, session_id.0@, outcome));
        verdict?;
        let ghost id = session_id.0@;
        let ghost between = *self;
        let session = self.sessions.get_mut(session_id.0.as_str());
        if session.state == ProcessSessionState::Open {
            session.handle = None;
            session.state = ProcessSessionState::Closed;
        }
        let response = session_response(session_id, session);
        proof {
            let held = between@.sessions[id];
            let now = if held.state == ProcessSessionState::Open {
                held.closed()
            } else {
                held
            };
            self.lemma_with(between, id, now);
            if held.state != ProcessSessionState::Open {
                assert(between@.sessions.insert(id, held) =~= between@.sessions);
            }
        }
        Ok(response)
    }

    /// Lists the modules of a session's process.
    pub fn modules<B: ProcessBackend<Handle = H>>(
        &mut self,
        backend: &B,
        session_id: &ProcessSessionId,
    ) -> (answer: Result<ListModulesResponse, ProcessApiError>)
        requires
            old(self).wf(),
        ensures
            final(self).wf(),
            old(self)@.leads_to(final(self)@),
            exists|
                before: Result<(), ProcessBackendError>,
                modules: Result<Vec<ModuleDescriptor>, ProcessBackendError>,
            | #[trigger]
                modules_reported(backend, old(self)@, session_id.0@, before, modules)
                    && lists_modules(
                    old(self)@,
                    session_id.0@,
                    before,
                    modules,
                    final(self)@,
                    answer,
                ),
    {
        let ghost id = session_id.0@;
        let (verdict, Ghost(before)) = self.enter(backend, session_id, false);
        if let Err(error) = verdict {
            proof {
                let modules: Result<Vec<ModuleDescriptor>, ProcessBackendError> = arbitrary();
                assert(modules_reported(backend, old(self)@, id, before, modules));
            }
            return Err(error);
        }
        let (modules, process) = match self.sessions.get(session_id.0.as_str()) {
            Some(session) => match (&session.handle, &session.process.identity) {
                (Some(handle), Some(identity)) => (
                    backend.enumerate_modules(handle, identity),
                    session.process.clone(),
                ),
                _ => {
                    assert(false);
                    return Err(ProcessApiError::session_closed(session_id));
                },
            },
            None => {
                assert(false);
                return Err(ProcessApiError::session_not_found(session_id));
            },
        };
        assert(modules_reported(backend, old(self)@, id, before, modules));
        match modules {
            Ok(modules) => Ok(
                ListModulesResponse { session_id: session_id.clone(), process, modules },
            ),
            Err(error) => {
                if error.kind.is_gone() {
                    self.mark_exited(session_id);
                }
                Err(ProcessApiError::from_backend(error, Some(process.pid), Some(session_id)))
            },
        }
    }

    /// Checks every open session and counts the sessions by their state.
    pub fn refresh_and_diagnose<B: ProcessBackend<Handle = H>>(
        &mut self,
        backend: &B,
    ) -> (counts: SessionDiagnostics)
        requires
            old(self).wf(),
        ensures
            final(self).wf(),
            old(self)@.leads_to(final(self)@),
            exists|outcomes: Map<Seq<char>, Result<(), ProcessBackendError>>| #[trigger]
                all_checked(backend, old(self)@, outcomes) && final(self)@ == refreshed(
                    old(self)@,
                    outcomes,
                ),
            counts.open == count_in(final(self)@.sessions, ProcessSessionState::Open),
            counts.closed == count_in(final(self)@.sessions, ProcessSessionState::Closed),
            counts.exited == count_in(final(self)@.sessions, ProcessSessionState::Exited),
    {
        let ghost held = self@;
        let ghost keys = self.sessions.keys();
        let ghost mut outcomes: Map<Seq<char>, Result<(), ProcessBackendError>> = Map::empty();
        let total: usize = self.sessions.len();
        proof {
            self.sessions.lemma_keys();
        }
        let mut i: usize = 0;
        while i < total
            invariant
                i <= total,
                total == keys.len(),
                self.wf(),
                self.sessions.keys() == keys,
                keys.no_duplicates(),
                forall|id: Seq<char>| held.sessions.dom().contains(id) <==> keys.contains(id),
                held.leads_to(self@),
                self@.id_prefix == held.id_prefix,
                self@.next_session == held.next_session,
                self@.sessions.dom() == held.sessions.dom(),
                forall|j: int|
                    0 <= j < i ==> {
                        let id = #[trigger] keys[j];
                        &&& held.is_open(id) ==> call_ensures(
                            B::validate_process,
                            (backend, &held.handle(id), &held.identity(id)),
                            outcomes[id],
                        )
                        &&& self@.sessions[id] == refreshed(held, outcomes).sessions[id]
                    },
                forall|j: int|
                    i <= j < total ==> self@.sessions[#[trigger] keys[j]] == held.sessions[keys[j]],
            decreases total - i,
        {
            let ghost id = keys[i as int];
            let ghost noted = outcomes;
            proof {
                assert(keys.contains(id));
            }
            let session_id = ProcessSessionId(self.sessions.key_at(i).clone());
            let mut gone = false;
            let session = self.sessions.value_at(i);
            if session.state == ProcessSessionState::Open {
                match (&session.handle, &session.process.identity) {
                    (Some(handle), Some(identity)) => {
                        let outcome = backend.validate_process(handle, identity);
                        proof {
                            outcomes = outcomes.insert(id, outcome);
                        }
                        if let Err(error) = &outcome {
                            gone = error.kind.is_gone();
                        }
                    },
                    _ => {
                        assert(false);
                    },
                }
            }
            if gone {
                self.mark_exited(&session_id);
            }
            proof {
                assert forall|j: int| 0 <= j < i + 1 implies {
                    let other = #[trigger] keys[j];
                    &&& held.is_open(other) ==> call_ensures(
                        B::validate_process,
                        (backend, &held.handle(other), &held.identity(other)),
                        outcomes[other],
                    )
                    &&& self@.sessions[other] == refreshed(held, outcomes).sessions[other]
                } by {
                    assert(keys.contains(keys[j]));
                    if j < i {
                        assert(keys[j] != id);
                        assert(outcomes[keys[j]] == noted[keys[j]]);
                    }
                }
            }
            i += 1;
        }
        proof {
            assert forall|id: Seq<char>| held.is_open(id) implies call_ensures(
                B::validate_process,
                (backend, &held.handle(id), &held.identity(id)),
                #[trigger] outcomes[id],
            ) by {
                assert(keys.contains(id));
                let j = choose|j: int| 0 <= j < keys.len() && keys[j] == id;
                assert(keys[j] == id);
            }
            assert(all_checked(backend, held, outcomes));
            assert forall|id: Seq<char>| held.sessions.dom().contains(id) implies self@.sessions[id]
                == #[trigger] refreshed(held, outcomes).sessions[id] by {
                assert(keys.contains(id));
                let j = choose|j: int| 0 <= j < keys.len() && keys[j] == id;
                assert(keys[j] == id);
            }
            assert(self@.sessions =~= refreshed(held, outcomes).sessions);
        }
        self.count()
    }

    /// Counts the sessions by their state.
    fn count(&self) -> (counts: SessionDiagnostics)
        requires
            self.wf(),
        ensures
            counts.open == count_in(self@.sessions, ProcessSessionState::Open),
            counts.closed == count_in(self@.sessions, ProcessSessionState::Closed),
            counts.exited == count_in(self@.sessions, ProcessSessionState::Exited),
    {
        let ghost keys = self.sessions.keys();
        proof {
            self.sessions.lemma_keys();
            assert(keys.to_set() =~= self@.sessions.dom());
        }
        let mut counts = SessionDiagnostics { open: 0, closed: 0, exited: 0 };
        let total: usize = self.sessions.len();
        let mut i: usize = 0;
        while i < total
            invariant
                self.wf(),
                keys == self.sessions.keys(),
                i <= total,
                total == keys.len(),
                counts.open + counts.closed + counts.exited == i,
                counts.open == tally(
                    self@.sessions,
                    keys.take(i as int),
                    ProcessSessionState::Open,
                ),
                counts.closed == tally(
                    self@.sessions,
                    keys.take(i as int),
                    ProcessSessionState::Closed,
                ),
                counts.exited == tally(
                    self@.sessions,
                    keys.take(i as int),
                    ProcessSessionState::Exited,
                ),
            decreases keys.len() - i,
        {
            proof {
                assert(keys.take(i + 1).drop_last() =~= keys.take(i as int));
                assert(keys.take(i + 1).last() == keys[i as int]);
            }
            match self.sessions.value_at(i).state {
                ProcessSessionState::Open => {
                    counts.open = counts.open + 1;
                },
                ProcessSessionState::Closed => {
                    counts.closed = counts.closed + 1;
                },
                ProcessSessionState::Exited => {
                    counts.exited = counts.exited + 1;
                },
            }
            i += 1;
        }
        proof {
            assert(keys.take(i as int) =~= keys);
            lemma_tally(self@.sessions, keys, ProcessSessionState::Open);
            lemma_tally(self@.sessions, keys, ProcessSessionState::Closed);
            lemma_tally(self@.sessions, keys, ProcessSessionState::Exited);
        }
        counts
    }

    /// Runs a reading operation on a session, between two checks of its
    /// process.
    pub fn with_live_session<B, F, R, E>(
        &mut self,
        backend: &B,
        session_id: &ProcessSessionId,
        operation: F,
    ) -> (result: Result<R, E>) where
        B: ProcessBackend<Handle = H>,
        F: FnOnce(&B, &H, &ProcessDescriptor) -> Result<R, E>,
        E: From<ProcessApiError>,

        requires
            old(self).wf(),
            old(self)@.is_open(session_id.0@) ==> operation.requires(
                (
                    backend,
                    &old(self)@.handle(session_id.0@),
                    &old(self)@.sessions[session_id.0@].process,
                ),
            ),
        ensures
            final(self).wf(),
            old(self)@.leads_to(final(self)@),
            exists|
                before: Result<(), ProcessBackendError>,
                value: Result<R, E>,
                after: Result<(), ProcessBackendError>,
            | #[trigger]
                operation_ran(
                    backend,
                    old(self)@,
                    session_id.0@,
                    false,
                    operation,
                    before,
                    value,
                    after,
                ) && operation_result(
                    old(self)@,
                    session_id.0@,
                    before,
                    value,
                    after,
                    final(self)@,
                    result,
                ),
    {
        let ghost id = session_id.0@;
        let ghost held = self@;
        let (verdict, Ghost(before)) = self.enter(backend, session_id, false);
        if let Err(error) = verdict {
            let ghost seen = error;
            let result: Result<R, E> = Err(E::from(error));
            proof {
                let value: Result<R, E> = arbitrary();
                let after: Result<(), ProcessBackendError> = arbitrary();
                assert(operation_ran(backend, held, id, false, operation, before, value, after));
                assert(seen@ == seen@);
            }
            return result;
        }
        let value = match self.sessions.get(session_id.0.as_str()) {
            Some(session) => match &session.handle {
                Some(handle) => operation(backend, handle, &session.process),
                None => {
                    assert(false);
                    return Err(E::from(ProcessApiError::session_closed(session_id)));
                },
            },
            None => {
                assert(false);
                return Err(E::from(ProcessApiError::session_not_found(session_id)));
            },
        };
        let (verdict, Ghost(after)) = self.recheck(backend, session_id);
        assert(operation_ran(backend, held, id, false, operation, before, value, after));
        match verdict {
            Ok(()) => value,
            Err(error) => {
                let ghost seen = error;
                let result: Result<R, E> = Err(E::from(error));
                assert(seen@ == seen@);
                result
            },
        }
    }

    /// Runs a changing operation on a mutation session, and says apart from
    /// its value whether the process was still there afterwards. So a caller
    /// can take ownership of what was made before it reports the loss.
    pub fn with_mutation_session_effect<B, F, R, E>(
        &mut self,
        backend: &B,
        session_id: &ProcessSessionId,
        operation: F,
    ) -> (result: Result<MutationExecution<R>, E>) where
        B: ProcessBackend<Handle = H>,
        F: FnOnce(&B, &H, &ProcessDescriptor) -> Result<R, E>,
        E: From<ProcessApiError>,

        requires
            old(self).wf(),
            old(self)@.is_open(session_id.0@) ==> operation.requires(
                (
                    backend,
                    &old(self)@.handle(session_id.0@),
                    &old(self)@.sessions[session_id.0@].process,
                ),
            ),
        ensures
            final(self).wf(),
            old(self)@.leads_to(final(self)@),
            exists|
                before: Result<(), ProcessBackendError>,
                value: Result<R, E>,
                after: Result<(), ProcessBackendError>,
            | #[trigger]
                operation_ran(
                    backend,
                    old(self)@,
                    session_id.0@,
                    true,
                    operation,
                    before,
                    value,
                    after,
                ) && effect_result(
                    old(self)@,
                    session_id.0@,
                    before,
                    value,
                    after,
                    final(self)@,
                    result,
                ),
    {
        let ghost id = session_id.0@;
        let ghost held = self@;
        let (verdict, Ghost(before)) = self.enter(backend, session_id, true);
        if let Err(error) = verdict {
            let ghost seen = error;
            let result: Result<MutationExecution<R>, E> = Err(E::from(error));
            proof {
                let value: Result<R, E> = arbitrary();
                let after: Result<(), ProcessBackendError> = arbitrary();
                assert(operation_ran(backend, held, id, true, operation, before, value, after));
                assert(seen@ == seen@);
            }
            return result;
        }
        let value = match self.sessions.get(session_id.0.as_str()) {
            Some(session) => match &session.handle {
                Some(handle) => operation(backend, handle, &session.process),
                None => {
                    assert(false);
                    return Err(E::from(ProcessApiError::session_closed(session_id)));
                },
            },
            None => {
                assert(false);
                return Err(E::from(ProcessApiError::session_not_found(session_id)));
            },
        };
        let value = match value {
            Ok(value) => value,
            Err(error) => {
                proof {
                    let after: Result<(), ProcessBackendError> = arbitrary();
                    assert(operation_ran(
                        backend,
                        held,
                        id,
                        true,
                        operation,
                        before,
                        Err(error),
                        after,
                    ));
                }
                return Err(error);
            },
        };
        let (verdict, Ghost(after)) = self.recheck(backend, session_id);
        assert(operation_ran(backend, held, id, true, operation, before, Ok(value), after));
        let validation_error = match verdict {
            Ok(()) => None,
            Err(error) => Some(error),
        };
        Ok(MutationExecution { value, validation_error })
    }

    /// Runs a changing operation on a mutation session, and fails where the
    /// process was gone afterwards.
    pub fn with_live_mutation_session<B, F, R, E>(
        &mut self,
        backend: &B,
        session_id: &ProcessSessionId,
        operation: F,
    ) -> (result: Result<R, E>) where
        B: ProcessBackend<Handle = H>,
        F: FnOnce(&B, &H, &ProcessDescriptor) -> Result<R, E>,
        E: From<ProcessApiError>,

        requires
            old(self).wf(),
            old(self)@.is_open(session_id.0@) ==> operation.requires(
                (
                    backend,
                    &old(self)@.handle(session_id.0@),
                    &old(self)@.sessions[session_id.0@].process,
                ),
            ),
        ensures
            final(self).wf(),
            old(self)@.leads_to(final(self)@),
            exists|
                before: Result<(), ProcessBackendError>,
                value: Result<R, E>,
                after: Result<(), ProcessBackendError>,
                effect: Result<MutationExecution<R>, E>,
            |
                {
                    &&& #[trigger] operation_ran(
                        backend,
                        old(self)@,
                        session_id.0@,
                        true,
                        operation,
                        before,
                        value,
                        after,
                    )
                    &&& #[trigger] effect_result(
                        old(self)@,
                        session_id.0@,
                        before,
                        value,
                        after,
                        final(self)@,
                        effect,
                    )
                    &&& match effect {
                        Err(error) => result == Err::<R, E>(error),
                        Ok(execution) => match execution.validation_error {
                            Some(error) => rejects(result, error@),
                            None => result == Ok::<R, E>(execution.value),
                        },
                    }
                },
    {
        let effect = self.with_mutation_session_effect(backend, session_id, operation);
        match effect {
            Err(error) => Err(error),
            Ok(execution) => match execution.validation_error {
                Some(error) => {
                    let ghost seen = error;
                    let result: Result<R, E> = Err(E::from(error));
                    assert(seen@ == seen@);
                    result
                },
                None => Ok(execution.value),
            },
        }
    }
}

}
