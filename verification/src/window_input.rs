//! The windows of game clients, and keys and mouse buttons in them.

use vstd::prelude::*;
use vstd::string::*;

use crate::backend::{
    ClientWindowSnapshot, ClientWindowTarget, ProcessBackend, ProcessBackendError,
    ProcessBackendErrorKind,
};
use crate::calls::{fault_of, Fault};
use crate::clients::{ClientRegistry, Clients};
use crate::game_process::{lemma_looked_up, looks_up};
use crate::protocol::{
    ClientId, ClientInputResponse, ClientKeyCombinationRequest, ClientKeyEventRequest,
    ClientMouseClickRequest, ClientMouseMoveRequest, ClientTimedKeyRequest, ClientToScreenRequest,
    ClientToScreenResponse, ClientWindowFocusResponse, ClientWindowRequest,
    ClientWindowSetTitleRequest, ClientWindowSetTitleResponse, ClientWindowStateResponse,
    CoordinateSpace, KeyAction, MessageDelivery, WindowPoint, MAX_INPUT_DURATION_MS,
    MAX_KEY_COMBINATION_MODIFIERS, MAX_WINDOW_TITLE_CHARS,
};
use crate::rpc::{failure, Failure, RpcError, RpcErrorCode};
use crate::text::{blank, chars_of, contains_char, format_signed, is_blank, join2, signed_text};

verus! {

/// How often a key that is held repeats, in milliseconds.
pub const KEY_REPEAT_INTERVAL_MS: u64 = 50;

/// A failed request on a window or for input.
#[derive(Debug)]
pub struct WindowInputError {
    code: RpcErrorCode,
    message: String,
    native_code: Option<i32>,
}

/// A failure with the code that the platform gave, if it gave one.
pub open spec fn native_failure(code: RpcErrorCode, fault: Fault) -> Failure {
    let bare = failure(code, fault.message);
    match fault.native {
        Some(native) => bare.with("native_code"@, signed_text(native as int)),
        None => bare,
    }
}

impl View for WindowInputError {
    type V = Failure;

    closed spec fn view(&self) -> Failure {
        native_failure(
            self.code,
            Fault {
                kind: ProcessBackendErrorKind::Native,
                message: self.message@,
                native: self.native_code,
            },
        )
    }
}

/// Whether a client is gone.
pub open spec fn gone(kind: ProcessBackendErrorKind) -> bool {
    match kind {
        ProcessBackendErrorKind::Exited
        | ProcessBackendErrorKind::IdentityMismatch
        | ProcessBackendErrorKind::NotFound => true,
        _ => false,
    }
}

/// A platform call on a window that failed.
pub open spec fn window_failure(fault: Fault) -> Failure {
    native_failure(
        if gone(fault.kind) {
            RpcErrorCode::ClientNotFound
        } else {
            RpcErrorCode::WindowOperationFailed
        },
        fault,
    )
}

/// Input that could not be sent.
pub open spec fn input_failure(fault: Fault) -> Failure {
    native_failure(
        if gone(fault.kind) {
            RpcErrorCode::ClientNotFound
        } else {
            RpcErrorCode::InputFailed
        },
        fault,
    )
}

/// A request that cannot be meant.
pub open spec fn invalid(message: Seq<char>) -> Failure {
    failure(RpcErrorCode::InvalidRequest, message)
}

/// Input that was broken off.
pub open spec fn broken_off() -> Failure {
    failure(
        RpcErrorCode::InputFailed,
        "input operation was cancelled because agent shutdown started"@,
    )
}

impl WindowInputError {
    fn invalid(message: &str) -> (error: Self)
        ensures
            error@ == invalid(message@),
    {
        WindowInputError {
            code: RpcErrorCode::InvalidRequest,
            message: message.to_owned(),
            native_code: None,
        }
    }

    fn client(error: ProcessBackendError) -> (failed: Self)
        ensures
            failed@ == window_failure(fault_of(error)),
    {
        let code = match error.kind {
            ProcessBackendErrorKind::Exited
            | ProcessBackendErrorKind::IdentityMismatch
            | ProcessBackendErrorKind::NotFound => RpcErrorCode::ClientNotFound,
            _ => RpcErrorCode::WindowOperationFailed,
        };
        WindowInputError { code, message: error.message, native_code: error.native_code }
    }

    fn input(error: ProcessBackendError) -> (failed: Self)
        ensures
            failed@ == input_failure(fault_of(error)),
    {
        let code = match error.kind {
            ProcessBackendErrorKind::Exited
            | ProcessBackendErrorKind::IdentityMismatch
            | ProcessBackendErrorKind::NotFound => RpcErrorCode::ClientNotFound,
            _ => RpcErrorCode::InputFailed,
        };
        WindowInputError { code, message: error.message, native_code: error.native_code }
    }

    fn cancelled() -> (error: Self)
        ensures
            error@ == broken_off(),
    {
        WindowInputError {
            code: RpcErrorCode::InputFailed,
            message: "input operation was cancelled because agent shutdown started".to_owned(),
            native_code: None,
        }
    }

    /// The error as the answer to one request.
    pub fn into_rpc_error(self, request_id: u64, operation: &str) -> (error: RpcError)
        ensures
            error.answers(self@, request_id, operation@),
            error.native_context is None,
    {
        let native = self.native_code;
        let mut error = RpcError::new(self.code, self.message, request_id, operation, None);
        if let Some(native_code) = native {
            error.details.insert("native_code", format_signed(native_code));
        }
        error
    }
}

/// A verdict that agrees with a refusal, or with none.
pub open spec fn decides(verdict: Result<(), WindowInputError>, refusal: Option<Failure>) -> bool {
    match refusal {
        None => verdict is Ok,
        Some(fault) => verdict matches Err(error) && error@ == fault,
    }
}

/// An answer that is the given failure.
pub open spec fn fails<T>(answer: Result<T, WindowInputError>, fault: Failure) -> bool {
    answer matches Err(error) && error@ == fault
}

/// What looking up a client does. Without a name nothing is looked up.
pub open spec fn finds<B: ProcessBackend>(
    backend: &B,
    held: Clients,
    name: Seq<char>,
    left: Clients,
    target: Result<ClientWindowTarget, ProcessBackendError>,
) -> bool {
    if is_blank(name) {
        left == held
    } else {
        looks_up(backend, held, name, left, target)
    }
}

/// Why a lookup failed, if it did.
pub open spec fn lookup_fault(
    name: Seq<char>,
    target: Result<ClientWindowTarget, ProcessBackendError>,
) -> Option<Failure> {
    if is_blank(name) {
        Some(invalid("client_id must not be empty"@))
    } else {
        match target {
            Ok(_) => None,
            Err(error) => Some(window_failure(fault_of(error))),
        }
    }
}

fn look_up<B: ProcessBackend>(
    clients: &mut ClientRegistry,
    backend: &B,
    client_id: &ClientId,
) -> (found: (
    Result<ClientWindowTarget, WindowInputError>,
    Ghost<Result<ClientWindowTarget, ProcessBackendError>>,
))
    requires
        old(clients).wf(),
    ensures
        final(clients).wf(),
        finds(backend, old(clients)@, client_id.0@, final(clients)@, found.1@),
        match lookup_fault(client_id.0@, found.1@) {
            Some(fault) => fails(found.0, fault),
            None => found.0 == Ok::<ClientWindowTarget, WindowInputError>(found.1@->Ok_0),
        },
{
    if blank(client_id.0.as_str()) {
        return (
            Err(WindowInputError::invalid("client_id must not be empty")),
            Ghost(arbitrary()),
        );
    }
    let ghost held = clients@;
    let resolved = clients.resolve(backend, client_id);
    let ghost target = resolved;
    proof {
        lemma_looked_up(backend, held, client_id.0@, clients@, target);
    }
    match resolved {
        Ok(target) => (Ok(target), Ghost(resolved)),
        Err(error) => (Err(WindowInputError::client(error)), Ghost(target)),
    }
}

/// Looks up the window of a client.
pub fn resolve<B: ProcessBackend>(
    clients: &mut ClientRegistry,
    backend: &B,
    client_id: &ClientId,
) -> (answer: Result<ClientWindowTarget, WindowInputError>)
    requires
        old(clients).wf(),
    ensures
        final(clients).wf(),
        exists|target: Result<ClientWindowTarget, ProcessBackendError>|
            {
                &&& #[trigger] finds(
                    backend,
                    old(clients)@,
                    client_id.0@,
                    final(clients)@,
                    target,
                )
                &&& match lookup_fault(client_id.0@, target) {
                    Some(fault) => fails(answer, fault),
                    None => answer == Ok::<ClientWindowTarget, WindowInputError>(target->Ok_0),
                }
            },
{
    let (answer, Ghost(target)) = look_up(clients, backend, client_id);
    proof {
        assert(finds(backend, old(clients)@, client_id.0@, clients@, target));
    }
    answer
}

/// What the request does.
pub open spec fn shows<B: ProcessBackend>(
    backend: &B,
    request: ClientWindowRequest,
    held: Clients,
    left: Clients,
    target: Result<ClientWindowTarget, ProcessBackendError>,
    outcome: Result<ClientWindowSnapshot, ProcessBackendError>,
    answer: Result<ClientWindowStateResponse, WindowInputError>,
) -> bool {
    &&& finds(backend, held, request.client_id.0@, left, target)
    &&& match lookup_fault(request.client_id.0@, target) {
        Some(fault) => fails(answer, fault),
        None => {
            &&& call_ensures(B::inspect_client_window, (backend, &target->Ok_0), outcome)
            &&& match outcome {
                Err(error) => fails(answer, window_failure(fault_of(error))),
                Ok(value) => answer matches Ok(response) && {
                    &&& response.client_id == request.client_id
                    &&& response.title == value.title
                    &&& response.is_foreground == value.is_foreground
                    &&& response.rectangle == value.rectangle
                    &&& response.client_origin == value.client_origin
                    &&& response.client_size == value.client_size
                },
            }
        },
    }
}

/// Says how the window of a client stands.
pub fn state<B: ProcessBackend>(
    clients: &mut ClientRegistry,
    backend: &B,
    request: &ClientWindowRequest,
) -> (answer: Result<ClientWindowStateResponse, WindowInputError>)
    requires
        old(clients).wf(),
    ensures
        final(clients).wf(),
        exists|
            target: Result<ClientWindowTarget, ProcessBackendError>,
            outcome: Result<ClientWindowSnapshot, ProcessBackendError>,
        | #[trigger]
            shows(
                backend,
                *request,
                old(clients)@,
                final(clients)@,
                target,
                outcome,
                answer,
            ),
{
    let ghost held = clients@;
    let (found, Ghost(target)) = look_up(clients, backend, &request.client_id);
    let ghost mut seen: Result<ClientWindowSnapshot, ProcessBackendError> = arbitrary();
    let window = match found {
        Ok(window) => window,
        Err(error) => {
            let answer = Err(error);
            proof {
                assert(shows(backend, *request, held, clients@, target, seen, answer));
            }
            return answer;
        },
    };
    let outcome = backend.inspect_client_window(&window);
    proof {
        seen = outcome;
    }
    let answer = match outcome {
        Ok(value) => Ok(
            ClientWindowStateResponse {
                client_id: request.client_id.clone(),
                title: value.title,
                is_foreground: value.is_foreground,
                rectangle: value.rectangle,
                client_origin: value.client_origin,
                client_size: value.client_size,
            },
        ),
        Err(error) => Err(WindowInputError::client(error)),
    };
    proof {
        assert(shows(backend, *request, held, clients@, target, seen, answer));
    }
    answer
}

/// What the request does.
pub open spec fn fronts<B: ProcessBackend>(
    backend: &B,
    request: ClientWindowRequest,
    held: Clients,
    left: Clients,
    target: Result<ClientWindowTarget, ProcessBackendError>,
    outcome: Result<bool, ProcessBackendError>,
    answer: Result<ClientWindowFocusResponse, WindowInputError>,
) -> bool {
    &&& finds(backend, held, request.client_id.0@, left, target)
    &&& match lookup_fault(request.client_id.0@, target) {
        Some(fault) => fails(answer, fault),
        None => {
            &&& call_ensures(B::focus_client_window, (backend, &target->Ok_0), outcome)
            &&& match outcome {
                Err(error) => fails(answer, window_failure(fault_of(error))),
                Ok(value) => answer matches Ok(response) && {
                    &&& response.client_id == request.client_id
                    &&& response.is_foreground == value
                },
            }
        },
    }
}

/// Brings the window of a client to the front.
pub fn focus<B: ProcessBackend>(
    clients: &mut ClientRegistry,
    backend: &B,
    request: &ClientWindowRequest,
) -> (answer: Result<ClientWindowFocusResponse, WindowInputError>)
    requires
        old(clients).wf(),
    ensures
        final(clients).wf(),
        exists|
            target: Result<ClientWindowTarget, ProcessBackendError>,
            outcome: Result<bool, ProcessBackendError>,
        | #[trigger]
            fronts(
                backend,
                *request,
                old(clients)@,
                final(clients)@,
                target,
                outcome,
                answer,
            ),
{
    let ghost held = clients@;
    let (found, Ghost(target)) = look_up(clients, backend, &request.client_id);
    let ghost mut seen: Result<bool, ProcessBackendError> = arbitrary();
    let window = match found {
        Ok(window) => window,
        Err(error) => {
            let answer = Err(error);
            proof {
                assert(fronts(backend, *request, held, clients@, target, seen, answer));
            }
            return answer;
        },
    };
    let outcome = backend.focus_client_window(&window);
    proof {
        seen = outcome;
    }
    let answer = match outcome {
        Ok(value) => Ok(
            ClientWindowFocusResponse {
                client_id: request.client_id.clone(),
                is_foreground: value,
            },
        ),
        Err(error) => Err(WindowInputError::client(error)),
    };
    proof {
        assert(fronts(backend, *request, held, clients@, target, seen, answer));
    }
    answer
}

/// Why a title is refused.
pub open spec fn title_refusal(title: Seq<char>) -> Option<Failure> {
    if title.len() > MAX_WINDOW_TITLE_CHARS {
        Some(invalid("window title exceeds the 256 character limit"@))
    } else if title.contains('\0') {
        Some(invalid("window title must not contain a null character"@))
    } else {
        None
    }
}

fn validate_title(title: &str) -> (verdict: Result<(), WindowInputError>)
    ensures
        decides(verdict, title_refusal(title@)),
{
    if chars_of(title).len() > MAX_WINDOW_TITLE_CHARS {
        return Err(WindowInputError::invalid("window title exceeds the 256 character limit"));
    }
    if contains_char(title, '\0') {
        return Err(WindowInputError::invalid("window title must not contain a null character"));
    }
    Ok(())
}

/// What the request does.
pub open spec fn renames<B: ProcessBackend>(
    backend: &B,
    request: ClientWindowSetTitleRequest,
    held: Clients,
    left: Clients,
    target: Result<ClientWindowTarget, ProcessBackendError>,
    outcome: Result<(), ProcessBackendError>,
    answer: Result<ClientWindowSetTitleResponse, WindowInputError>,
) -> bool {
    match title_refusal(request.title@) {
        Some(fault) => left == held && fails(answer, fault),
        None => {
            &&& finds(backend, held, request.client_id.0@, left, target)
            &&& match lookup_fault(request.client_id.0@, target) {
                Some(fault) => fails(answer, fault),
                None => {
                    &&& exists|title: &str| #[trigger]
                    call_ensures(
                        B::set_client_window_title,
                        (backend, &target->Ok_0, title),
                        outcome,
                    ) && title@
                        == request.title@
                    &&& match outcome {
                        Err(error) => fails(answer, window_failure(fault_of(error))),
                        Ok(_) => answer matches Ok(response) && {
                            &&& response.client_id == request.client_id
                            &&& response.title@ == request.title@
                        },
                    }
                },
            }
        },
    }
}

/// Renames the window of a client.
pub fn set_title<B: ProcessBackend>(
    clients: &mut ClientRegistry,
    backend: &B,
    request: &ClientWindowSetTitleRequest,
) -> (answer: Result<ClientWindowSetTitleResponse, WindowInputError>)
    requires
        old(clients).wf(),
    ensures
        final(clients).wf(),
        exists|
            target: Result<ClientWindowTarget, ProcessBackendError>,
            outcome: Result<(), ProcessBackendError>,
        | #[trigger]
            renames(
                backend,
                *request,
                old(clients)@,
                final(clients)@,
                target,
                outcome,
                answer,
            ),
{
    let ghost held = clients@;
    if let Err(error) = validate_title(request.title.as_str()) {
        let answer = Err(error);
        proof {
            assert(renames(
                backend,
                *request,
                held,
                clients@,
                arbitrary(),
                arbitrary(),
                answer,
            ));
        }
        return answer;
    }
    let (found, Ghost(target)) = look_up(clients, backend, &request.client_id);
    let ghost mut seen: Result<(), ProcessBackendError> = arbitrary();
    let window = match found {
        Ok(window) => window,
        Err(error) => {
            let answer = Err(error);
            proof {
                assert(renames(backend, *request, held, clients@, target, seen, answer));
            }
            return answer;
        },
    };
    let outcome = backend.set_client_window_title(&window, request.title.as_str());
    proof {
        seen = outcome;
    }
    let answer = match outcome {
        Ok(_) => Ok(
            ClientWindowSetTitleResponse {
                client_id: request.client_id.clone(),
                title: request.title.clone(),
            },
        ),
        Err(error) => Err(WindowInputError::client(error)),
    };
    proof {
        assert(renames(backend, *request, held, clients@, target, seen, answer));
    }
    answer
}

/// What the request does.
pub open spec fn maps<B: ProcessBackend>(
    backend: &B,
    request: ClientToScreenRequest,
    held: Clients,
    left: Clients,
    target: Result<ClientWindowTarget, ProcessBackendError>,
    outcome: Result<WindowPoint, ProcessBackendError>,
    answer: Result<ClientToScreenResponse, WindowInputError>,
) -> bool {
    &&& finds(backend, held, request.client_id.0@, left, target)
    &&& match lookup_fault(request.client_id.0@, target) {
        Some(fault) => fails(answer, fault),
        None => {
            &&& call_ensures(B::client_to_screen, (backend, &target->Ok_0, request.point), outcome)
            &&& match outcome {
                Err(error) => fails(answer, window_failure(fault_of(error))),
                Ok(value) => answer matches Ok(response) && {
                    &&& response.client_id == request.client_id
                    &&& response.point == value
                },
            }
        },
    }
}

/// Says where a point of a client's window is on the screen.
pub fn client_to_screen<B: ProcessBackend>(
    clients: &mut ClientRegistry,
    backend: &B,
    request: &ClientToScreenRequest,
) -> (answer: Result<ClientToScreenResponse, WindowInputError>)
    requires
        old(clients).wf(),
    ensures
        final(clients).wf(),
        exists|
            target: Result<ClientWindowTarget, ProcessBackendError>,
            outcome: Result<WindowPoint, ProcessBackendError>,
        | #[trigger]
            maps(
                backend,
                *request,
                old(clients)@,
                final(clients)@,
                target,
                outcome,
                answer,
            ),
{
    let ghost held = clients@;
    let (found, Ghost(target)) = look_up(clients, backend, &request.client_id);
    let ghost mut seen: Result<WindowPoint, ProcessBackendError> = arbitrary();
    let window = match found {
        Ok(window) => window,
        Err(error) => {
            let answer = Err(error);
            proof {
                assert(maps(backend, *request, held, clients@, target, seen, answer));
            }
            return answer;
        },
    };
    let outcome = backend.client_to_screen(&window, request.point);
    proof {
        seen = outcome;
    }
    let answer = match outcome {
        Ok(value) => Ok(
            ClientToScreenResponse { client_id: request.client_id.clone(), point: value },
        ),
        Err(error) => Err(WindowInputError::client(error)),
    };
    proof {
        assert(maps(backend, *request, held, clients@, target, seen, answer));
    }
    answer
}

/// Why a key is refused.
pub open spec fn key_refusal(virtual_key: u16) -> Option<Failure> {
    if 1 <= virtual_key <= 0xff {
        None
    } else {
        Some(invalid("virtual key must be between 1 and 255"@))
    }
}

/// Checks a key.
pub fn validate_virtual_key(virtual_key: u16) -> (verdict: Result<(), WindowInputError>)
    ensures
        decides(verdict, key_refusal(virtual_key)),
{
    if virtual_key < 1 || virtual_key > 0xff {
        return Err(WindowInputError::invalid("virtual key must be between 1 and 255"));
    }
    Ok(())
}

/// Why a duration is refused.
pub open spec fn duration_refusal(duration_ms: u32, name: Seq<char>) -> Option<Failure> {
    if duration_ms > MAX_INPUT_DURATION_MS {
        Some(invalid(name + " exceeds the 60000 millisecond limit"@))
    } else {
        None
    }
}

/// Checks a duration.
pub fn validate_duration(duration_ms: u32, name: &str) -> (verdict: Result<(), WindowInputError>)
    ensures
        decides(verdict, duration_refusal(duration_ms, name@)),
{
    if duration_ms > MAX_INPUT_DURATION_MS {
        let text = join2(name, " exceeds the 60000 millisecond limit");
        return Err(WindowInputError::invalid(text.as_str()));
    }
    Ok(())
}

/// Why a point is refused: a message has sixteen bits for each coordinate.
pub open spec fn point_refusal(point: WindowPoint) -> Option<Failure> {
    if i16::MIN <= point.x <= i16::MAX && i16::MIN <= point.y <= i16::MAX {
        None
    } else {
        Some(invalid("mouse coordinates must fit the signed 16-bit Windows message range"@))
    }
}

/// Checks a point.
pub fn validate_message_point(point: WindowPoint) -> (verdict: Result<(), WindowInputError>)
    ensures
        decides(verdict, point_refusal(point)),
{
    let low: i32 = -32_768;
    let high: i32 = 32_767;
    if point.x < low || point.x > high || point.y < low || point.y > high {
        return Err(
            WindowInputError::invalid(
                "mouse coordinates must fit the signed 16-bit Windows message range",
            ),
        );
    }
    Ok(())
}

/// Input was delivered to a client.
pub open spec fn reaches(answer: Result<ClientInputResponse, WindowInputError>, client: ClientId) -> bool {
    answer matches Ok(response) && response.client_id == client && response.delivered
}

fn delivered(client_id: &ClientId) -> (answer: Result<ClientInputResponse, WindowInputError>)
    ensures
        reaches(answer, *client_id),
{
    Ok(ClientInputResponse { client_id: client_id.clone(), delivered: true })
}

/// A key event that was sent, and how that went.
pub ghost struct KeySent {
    pub key: u16,
    pub action: KeyAction,
    pub outcome: Result<(), Fault>,
}

/// How a call went.
pub open spec fn went(outcome: Result<(), ProcessBackendError>) -> Result<(), Fault> {
    match outcome {
        Ok(_) => Ok(()),
        Err(error) => Err(fault_of(error)),
    }
}

/// A key event was sent to a window.
#[verifier::opaque]
pub open spec fn key_sent<B: ProcessBackend>(
    backend: &B,
    target: ClientWindowTarget,
    delivery: MessageDelivery,
    sent: KeySent,
) -> bool {
    exists|outcome: Result<(), ProcessBackendError>| #[trigger]
        call_ensures(
            B::send_client_key_event,
            (backend, &target, sent.key, sent.action, delivery),
            outcome,
        ) && sent.outcome == went(outcome)
}

/// Key events were sent to a window, one after the other.
pub open spec fn keys_sent<B: ProcessBackend>(
    backend: &B,
    target: ClientWindowTarget,
    delivery: MessageDelivery,
    keys: Seq<KeySent>,
) -> bool {
    forall|i: int| 0 <= i < keys.len() ==> key_sent(backend, target, delivery, #[trigger] keys[i])
}

fn send_key<B: ProcessBackend>(
    backend: &B,
    target: &ClientWindowTarget,
    key: u16,
    action: KeyAction,
    delivery: MessageDelivery,
) -> (sent: (Result<(), ProcessBackendError>, Ghost<KeySent>))
    ensures
        key_sent(backend, *target, delivery, sent.1@),
        sent.1@ == (KeySent { key, action, outcome: went(sent.0) }),
{
    let outcome = backend.send_client_key_event(target, key, action, delivery);
    let ghost sent = KeySent { key, action, outcome: went(outcome) };
    proof {
        reveal(key_sent);
        assert(call_ensures(
            B::send_client_key_event,
            (backend, target, sent.key, sent.action, delivery),
            outcome,
        ));
    }
    (outcome, Ghost(sent))
}

/// What one key event does.
pub open spec fn strikes<B: ProcessBackend>(
    backend: &B,
    target: ClientWindowTarget,
    request: ClientKeyEventRequest,
    sent: KeySent,
    answer: Result<ClientInputResponse, WindowInputError>,
) -> bool {
    match key_refusal(request.virtual_key) {
        Some(fault) => fails(answer, fault),
        None => {
            &&& key_sent(backend, target, request.delivery, sent)
            &&& sent.key == request.virtual_key
            &&& sent.action == request.action
            &&& match sent.outcome {
                Err(fault) => fails(answer, input_failure(fault)),
                Ok(_) => reaches(answer, request.client_id),
            }
        },
    }
}

/// Sends one key event.
pub fn key_event<B: ProcessBackend>(
    backend: &B,
    target: &ClientWindowTarget,
    request: &ClientKeyEventRequest,
) -> (answer: Result<ClientInputResponse, WindowInputError>)
    ensures
        exists|sent: KeySent| #[trigger] strikes(backend, *target, *request, sent, answer),
{
    if let Err(error) = validate_virtual_key(request.virtual_key) {
        let answer = Err(error);
        proof {
            assert(strikes(backend, *target, *request, arbitrary(), answer));
        }
        return answer;
    }
    let (outcome, Ghost(sent)) = send_key(
        backend,
        target,
        request.virtual_key,
        request.action,
        request.delivery,
    );
    let answer = match outcome {
        Ok(_) => delivered(&request.client_id),
        Err(error) => Err(WindowInputError::input(error)),
    };
    proof {
        assert(strikes(backend, *target, *request, sent, answer));
    }
    answer
}

/// Why a timed key is refused.
pub open spec fn timed_refusal(request: ClientTimedKeyRequest) -> Option<Failure> {
    match key_refusal(request.virtual_key) {
        Some(fault) => Some(fault),
        None => duration_refusal(request.duration_ms, "key duration"@),
    }
}

/// What pressing a timed key does.
pub open spec fn holds<B: ProcessBackend>(
    backend: &B,
    target: ClientWindowTarget,
    request: ClientTimedKeyRequest,
    sent: KeySent,
    answer: Result<(), WindowInputError>,
) -> bool {
    match timed_refusal(request) {
        Some(fault) => fails(answer, fault),
        None => {
            &&& key_sent(backend, target, request.delivery, sent)
            &&& sent.key == request.virtual_key
            &&& sent.action == KeyAction::Down
            &&& match sent.outcome {
                Err(fault) => fails(answer, input_failure(fault)),
                Ok(_) => answer is Ok,
            }
        },
    }
}

/// Presses a key that is to be held for a while: see `hold_step`, `repeat_key_down` and
/// `release_timed_key`.
pub fn timed_key<B: ProcessBackend>(
    backend: &B,
    target: &ClientWindowTarget,
    request: &ClientTimedKeyRequest,
) -> (answer: Result<(), WindowInputError>)
    ensures
        exists|sent: KeySent| #[trigger] holds(backend, *target, *request, sent, answer),
{
    let verdict = match validate_virtual_key(request.virtual_key) {
        Ok(_) => validate_duration(request.duration_ms, "key duration"),
        Err(error) => Err(error),
    };
    if let Err(error) = verdict {
        let answer = Err(error);
        proof {
            assert(holds(backend, *target, *request, arbitrary(), answer));
        }
        return answer;
    }
    let (outcome, Ghost(sent)) = send_key(
        backend,
        target,
        request.virtual_key,
        KeyAction::Down,
        request.delivery,
    );
    let answer = match outcome {
        Ok(_) => Ok(()),
        Err(error) => Err(WindowInputError::input(error)),
    };
    proof {
        assert(holds(backend, *target, *request, sent, answer));
    }
    answer
}

/// What comes next while something is held.
#[derive(Clone, Copy, Debug, PartialEq, Eq, Structural)]
pub enum HoldStep {
    Cancelled,
    Finished,
    Sleep { milliseconds: u64 },
}

/// What comes next while something is held: it ends at its deadline, or at once when the
/// agent shuts down; before that it rests for the length of a repetition at most, and never
/// beyond the deadline.
pub open spec fn next_step(now: u64, deadline: u64, cancelled: bool) -> HoldStep {
    if now >= deadline {
        HoldStep::Finished
    } else if cancelled {
        HoldStep::Cancelled
    } else if deadline - now < KEY_REPEAT_INTERVAL_MS {
        HoldStep::Sleep { milliseconds: (deadline - now) as u64 }
    } else {
        HoldStep::Sleep { milliseconds: KEY_REPEAT_INTERVAL_MS }
    }
}

/// Says what comes next while something is held.
pub fn hold_step(now: u64, deadline: u64, cancelled: bool) -> (step: HoldStep)
    ensures
        step == next_step(now, deadline, cancelled),
{
    if now >= deadline {
        HoldStep::Finished
    } else if cancelled {
        HoldStep::Cancelled
    } else if deadline - now < KEY_REPEAT_INTERVAL_MS {
        HoldStep::Sleep { milliseconds: deadline - now }
    } else {
        HoldStep::Sleep { milliseconds: KEY_REPEAT_INTERVAL_MS }
    }
}

/// What comes next when a rest of a key that is held is over.
#[derive(Clone, Copy, Debug, PartialEq, Eq, Structural)]
pub enum WakeStep {
    Cancelled,
    /// The key is pressed once more.
    Repeat,
    /// Nothing is pressed any more; the deadline has come.
    Wait,
}

/// What comes next when a rest is over: holding is broken off when the agent shuts down,
/// and the key pressed once more before the deadline.
pub open spec fn next_wake(now: u64, deadline: u64, cancelled: bool) -> WakeStep {
    if cancelled {
        WakeStep::Cancelled
    } else if now < deadline {
        WakeStep::Repeat
    } else {
        WakeStep::Wait
    }
}

/// Says what comes next when a rest of a key that is held is over.
pub fn wake_step(now: u64, deadline: u64, cancelled: bool) -> (step: WakeStep)
    ensures
        step == next_wake(now, deadline, cancelled),
{
    if cancelled {
        WakeStep::Cancelled
    } else if now < deadline {
        WakeStep::Repeat
    } else {
        WakeStep::Wait
    }
}

/// What comes next while a mouse button is held.
#[derive(Clone, Copy, Debug, PartialEq, Eq, Structural)]
pub enum ClickStep {
    /// The button is let go, and holding it was or was not broken off.
    Release { cancelled: bool },
    Sleep { milliseconds: u64 },
}

/// What comes next while a mouse button is held: it is let go at its deadline, or at once
/// when the agent shuts down, and counts as broken off whenever the agent does by then.
pub open spec fn next_click(now: u64, deadline: u64, cancelled: bool) -> ClickStep {
    match next_step(now, deadline, cancelled) {
        HoldStep::Finished => ClickStep::Release { cancelled },
        HoldStep::Cancelled => ClickStep::Release { cancelled: true },
        HoldStep::Sleep { milliseconds } => ClickStep::Sleep { milliseconds },
    }
}

/// Says what comes next while a mouse button is held.
pub fn click_step(now: u64, deadline: u64, cancelled: bool) -> (step: ClickStep)
    ensures
        step == next_click(now, deadline, cancelled),
{
    match hold_step(now, deadline, cancelled) {
        HoldStep::Finished => ClickStep::Release { cancelled },
        HoldStep::Cancelled => ClickStep::Release { cancelled: true },
        HoldStep::Sleep { milliseconds } => ClickStep::Sleep { milliseconds },
    }
}

/// A rest does not go beyond the deadline, and takes some time.
pub proof fn rests_end_in_time(now: u64, deadline: u64, cancelled: bool)
    ensures
        next_step(now, deadline, cancelled) matches HoldStep::Sleep { milliseconds } ==> 0
            < milliseconds && now + milliseconds <= deadline,
{
}

/// Presses a key that is held once more.
pub fn repeat_key_down<B: ProcessBackend>(
    backend: &B,
    target: &ClientWindowTarget,
    request: &ClientTimedKeyRequest,
) -> (outcome: Result<(), ProcessBackendError>)
    ensures
        key_sent(
            backend,
            *target,
            request.delivery,
            KeySent {
                key: request.virtual_key,
                action: KeyAction::Down,
                outcome: went(outcome),
            },
        ),
{
    let (outcome, Ghost(sent)) = send_key(
        backend,
        target,
        request.virtual_key,
        KeyAction::Down,
        request.delivery,
    );
    outcome
}

/// How input is answered that was done so far, once it was taken back: what went wrong with
/// it counts for more than what went wrong with taking it back.
pub open spec fn combined<T>(action: Result<T, Fault>, cleanup: Result<(), Fault>) -> Result<
    T,
    Failure,
> {
    match (action, cleanup) {
        (Err(fault), _) => Err(input_failure(fault)),
        (Ok(_), Err(fault)) => Err(input_failure(fault)),
        (Ok(value), Ok(_)) => Ok(value),
    }
}

/// How the repetitions of a key went.
pub open spec fn repeated(action: Result<bool, ProcessBackendError>) -> Result<bool, Fault> {
    match action {
        Ok(cancelled) => Ok(cancelled),
        Err(error) => Err(fault_of(error)),
    }
}

/// How a key that was held is answered.
pub open spec fn held_outcome(action: Result<bool, Fault>, released: Result<(), Fault>) -> Option<
    Failure,
> {
    match combined(action, released) {
        Err(fault) => Some(fault),
        Ok(true) => Some(broken_off()),
        Ok(false) => None,
    }
}

/// Lets a key go that was held, and answers the request. `action` says whether holding it
/// was broken off, or what went wrong.
pub fn release_timed_key<B: ProcessBackend>(
    backend: &B,
    target: &ClientWindowTarget,
    request: &ClientTimedKeyRequest,
    action: Result<bool, ProcessBackendError>,
) -> (answer: Result<ClientInputResponse, WindowInputError>)
    ensures
        exists|sent: KeySent|
            {
                &&& #[trigger] key_sent(backend, *target, request.delivery, sent)
                &&& sent.key == request.virtual_key
                &&& sent.action == KeyAction::Up
                &&& match held_outcome(repeated(action), sent.outcome) {
                    Some(fault) => fails(answer, fault),
                    None => reaches(answer, request.client_id),
                }
            },
{
    let (released, Ghost(sent)) = send_key(
        backend,
        target,
        request.virtual_key,
        KeyAction::Up,
        request.delivery,
    );
    match action {
        Err(error) => Err(WindowInputError::input(error)),
        Ok(cancelled) => match released {
            Err(error) => Err(WindowInputError::input(error)),
            Ok(_) => if cancelled {
                Err(WindowInputError::cancelled())
            } else {
                delivered(&request.client_id)
            },
        },
    }
}

/// Whether the first modifiers differ from each other and from the key, and are keys.
pub open spec fn modifiers_refusal(modifiers: Seq<u16>, key: u16, n: int) -> Option<Failure>
    decreases n,
{
    if n <= 0 {
        None
    } else {
        match modifiers_refusal(modifiers, key, n - 1) {
            Some(fault) => Some(fault),
            None => match key_refusal(modifiers[n - 1]) {
                Some(fault) => Some(fault),
                None => if modifiers[n - 1] == key || modifiers.take(n - 1).contains(
                    modifiers[n - 1],
                ) {
                    Some(
                        invalid(
                            "key combination modifiers must be unique and must not repeat the primary key"@,
                        ),
                    )
                } else {
                    None
                },
            },
        }
    }
}

/// Why a key combination is refused.
pub open spec fn combination_refusal(modifiers: Seq<u16>, key: u16) -> Option<Failure> {
    match key_refusal(key) {
        Some(fault) => Some(fault),
        None => if modifiers.len() > MAX_KEY_COMBINATION_MODIFIERS {
            Some(invalid("key combination exceeds the 8 modifier limit"@))
        } else {
            modifiers_refusal(modifiers, key, modifiers.len() as int)
        },
    }
}

fn holds_key(keys: &Vec<u16>, n: usize, key: u16) -> (yes: bool)
    requires
        n <= keys@.len(),
    ensures
        yes == keys@.take(n as int).contains(key),
{
    let mut i: usize = 0;
    while i < n
        invariant
            i <= n <= keys@.len(),
            forall|j: int| 0 <= j < i ==> keys@[j] != key,
        decreases n - i,
    {
        if keys[i] == key {
            assert(keys@.take(n as int)[i as int] == key);
            return true;
        }
        i += 1;
    }
    false
}

fn validate_combination(modifiers: &Vec<u16>, key: u16) -> (verdict: Result<(), WindowInputError>)
    ensures
        decides(verdict, combination_refusal(modifiers@, key)),
{
    validate_virtual_key(key)?;
    if modifiers.len() > MAX_KEY_COMBINATION_MODIFIERS {
        return Err(WindowInputError::invalid("key combination exceeds the 8 modifier limit"));
    }
    let mut i: usize = 0;
    while i < modifiers.len()
        invariant
            i <= modifiers@.len() <= MAX_KEY_COMBINATION_MODIFIERS,
            key_refusal(key) is None,
            modifiers_refusal(modifiers@, key, i as int) is None,
        decreases modifiers@.len() - i,
    {
        let modifier: u16 = modifiers[i];
        if let Err(error) = validate_virtual_key(modifier) {
            proof {
                lemma_refused(modifiers@, key, i + 1, modifiers@.len() as int);
            }
            return Err(error);
        }
        if modifier == key || holds_key(modifiers, i, modifier) {
            proof {
                lemma_refused(modifiers@, key, i + 1, modifiers@.len() as int);
            }
            return Err(
                WindowInputError::invalid(
                    "key combination modifiers must be unique and must not repeat the primary key",
                ),
            );
        }
        i += 1;
    }
    Ok(())
}

proof fn lemma_refused(modifiers: Seq<u16>, key: u16, i: int, n: int)
    requires
        0 <= i <= n,
        modifiers_refusal(modifiers, key, i) is Some,
    ensures
        modifiers_refusal(modifiers, key, n) == modifiers_refusal(modifiers, key, i),
    decreases n - i,
{
    if i < n {
        lemma_refused(modifiers, key, i, n - 1);
    }
}

/// How an event at a place went, if it was this one.
pub open spec fn sent_as(keys: Seq<KeySent>, k: int, key: u16, action: KeyAction) -> Result<(), Fault> {
    if keys[k].key == key && keys[k].action == action {
        keys[k].outcome
    } else {
        arbitrary()
    }
}

/// The first keys are let go, the last one first, and the first thing that went wrong.
pub open spec fn let_go_back(keys: Seq<KeySent>, k: int, held: Seq<u16>, n: int) -> (
    int,
    Result<(), Fault>,
)
    decreases n,
{
    if n <= 0 {
        (k, Ok(()))
    } else {
        let one = sent_as(keys, k, held[n - 1], KeyAction::Up);
        let (k, rest) = let_go_back(keys, k + 1, held, n - 1);
        (
            k,
            match one {
                Err(fault) => Err(fault),
                Ok(_) => rest,
            },
        )
    }
}

/// The keys from the given one on are let go in order, and the first thing that went wrong.
pub open spec fn let_go(keys: Seq<KeySent>, k: int, held: Seq<u16>, i: int) -> (
    int,
    Result<(), Fault>,
)
    decreases held.len() - i,
{
    if i >= held.len() {
        (k, Ok(()))
    } else {
        let one = sent_as(keys, k, held[i], KeyAction::Up);
        let (k, rest) = let_go(keys, k + 1, held, i + 1);
        (
            k,
            match one {
                Err(fault) => Err(fault),
                Ok(_) => rest,
            },
        )
    }
}

/// The modifiers from the given one on are pressed. Where one cannot be, those before it are
/// let go again.
pub open spec fn pressed(keys: Seq<KeySent>, k: int, modifiers: Seq<u16>, i: int) -> (
    int,
    Result<(), Fault>,
)
    decreases modifiers.len() - i,
{
    if i >= modifiers.len() {
        (k, Ok(()))
    } else {
        match sent_as(keys, k, modifiers[i], KeyAction::Down) {
            Err(fault) => (let_go_back(keys, k + 1, modifiers, i).0, Err(fault)),
            Ok(_) => pressed(keys, k + 1, modifiers, i + 1),
        }
    }
}

/// A key combination: the modifiers go down, the key goes down and up, and the modifiers go
/// up in the order in which they went down.
pub open spec fn struck(keys: Seq<KeySent>, k: int, modifiers: Seq<u16>, key: u16) -> (
    int,
    Result<(), Failure>,
) {
    match pressed(keys, k, modifiers, 0) {
        (k, Err(fault)) => (k, Err(input_failure(fault))),
        (k, Ok(_)) => match sent_as(keys, k, key, KeyAction::Down) {
            Err(fault) => (
                let_go_back(keys, k + 1, modifiers, modifiers.len() as int).0,
                Err(input_failure(fault)),
            ),
            Ok(_) => {
                let up = sent_as(keys, k + 1, key, KeyAction::Up);
                let (k, rest) = let_go(keys, k + 2, modifiers, 0);
                (k, combined(up, rest))
            },
        },
    }
}

/// Key events that are looked back on.
pub struct Keyboard<'a, B: ProcessBackend> {
    backend: &'a B,
    target: &'a ClientWindowTarget,
    delivery: MessageDelivery,
    keys: Ghost<Seq<KeySent>>,
}

/// Key events that go on from others.
pub open spec fn follows(keys: Seq<KeySent>, longer: Seq<KeySent>) -> bool {
    keys.len() <= longer.len() && longer.take(keys.len() as int) == keys
}

/// An outcome that agrees with what was looked back on.
pub open spec fn went_so(outcome: Result<(), ProcessBackendError>, seen: Result<(), Fault>) -> bool {
    went(outcome) == seen
}

impl<'a, B: ProcessBackend> Keyboard<'a, B> {
    /// The events so far.
    pub closed spec fn keys(&self) -> Seq<KeySent> {
        self.keys@
    }

    /// The events were sent.
    pub closed spec fn sound(&self) -> bool {
        keys_sent(self.backend, *self.target, self.delivery, self.keys@)
    }

    closed spec fn same(&self, later: &Self) -> bool {
        &&& later.backend == self.backend
        &&& later.target == self.target
        &&& later.delivery == self.delivery
    }

    fn send(&mut self, key: u16, action: KeyAction) -> (outcome: Result<(), ProcessBackendError>)
        requires
            old(self).sound(),
        ensures
            final(self).sound(),
            old(self).same(final(self)),
            follows(old(self).keys(), final(self).keys()),
            final(self).keys().len() == old(self).keys().len() + 1,
            forall|keys: Seq<KeySent>| #[trigger]
                follows(final(self).keys(), keys) ==> went_so(
                    outcome,
                    sent_as(keys, old(self).keys().len() as int, key, action),
                ),
    {
        let (outcome, Ghost(sent)) = send_key(
            self.backend,
            self.target,
            key,
            action,
            self.delivery,
        );
        let ghost before = self.keys@;
        self.keys = Ghost(before.push(sent));
        proof {
            let longer = before.push(sent);
            assert(longer.take(before.len() as int) =~= before);
            assert forall|i: int| 0 <= i < longer.len() implies key_sent(
                self.backend,
                *self.target,
                self.delivery,
                #[trigger] longer[i],
            ) by {
                if i < before.len() {
                    assert(before[i] == longer[i]);
                }
            }
            assert forall|keys: Seq<KeySent>| #[trigger] follows(longer, keys) implies keys[
                before.len() as int
            ] == sent by {
                assert(keys.take(longer.len() as int)[before.len() as int] == sent);
            }
        }
        outcome
    }
}

proof fn lemma_stays(keys: Seq<KeySent>)
    ensures
        follows(keys, keys),
{
    assert(keys.take(keys.len() as int) =~= keys);
}

proof fn lemma_then(start: Seq<KeySent>, before: Seq<KeySent>, now: Seq<KeySent>)
    requires
        follows(start, before),
        follows(before, now),
    ensures
        follows(start, now),
        forall|keys: Seq<KeySent>| #[trigger] follows(now, keys) ==> follows(before, keys),
{
    assert(now.take(start.len() as int) =~= now.take(before.len() as int).take(
        start.len() as int,
    ));
    assert forall|keys: Seq<KeySent>| #[trigger] follows(now, keys) implies follows(before, keys) by {
        assert(keys.take(before.len() as int) =~= keys.take(now.len() as int).take(
            before.len() as int,
        ));
    }
}

/// An outcome that came at a place of the events.
pub open spec fn went_at(
    outcome: Result<(), ProcessBackendError>,
    k: int,
    seen: (int, Result<(), Fault>),
) -> bool {
    seen.0 == k && went_so(outcome, seen.1)
}

fn release_keys<B: ProcessBackend>(
    keyboard: &mut Keyboard<'_, B>,
    held: &Vec<u16>,
    n: usize,
) -> (outcome: Result<(), ProcessBackendError>)
    requires
        old(keyboard).sound(),
        n <= held@.len(),
    ensures
        final(keyboard).sound(),
        old(keyboard).same(final(keyboard)),
        follows(old(keyboard).keys(), final(keyboard).keys()),
        forall|keys: Seq<KeySent>| #[trigger]
            follows(final(keyboard).keys(), keys) ==> went_at(
                outcome,
                final(keyboard).keys().len() as int,
                let_go_back(keys, old(keyboard).keys().len() as int, held@, n as int),
            ),
    decreases n,
{
    let ghost start = keyboard.keys();
    proof {
        lemma_stays(start);
    }
    if n == 0 {
        return Ok(());
    }
    let one = keyboard.send(held[n - 1], KeyAction::Up);
    let ghost a = keyboard.keys();
    proof {
        lemma_then(start, start, a);
    }
    let rest = release_keys(keyboard, held, n - 1);
    let ghost b = keyboard.keys();
    proof {
        lemma_then(start, a, b);
    }
    match one {
        Err(error) => Err(error),
        Ok(_) => rest,
    }
}

fn release_keys_in_order<B: ProcessBackend>(
    keyboard: &mut Keyboard<'_, B>,
    held: &Vec<u16>,
    i: usize,
) -> (outcome: Result<(), ProcessBackendError>)
    requires
        old(keyboard).sound(),
        i <= held@.len(),
    ensures
        final(keyboard).sound(),
        old(keyboard).same(final(keyboard)),
        follows(old(keyboard).keys(), final(keyboard).keys()),
        forall|keys: Seq<KeySent>| #[trigger]
            follows(final(keyboard).keys(), keys) ==> went_at(
                outcome,
                final(keyboard).keys().len() as int,
                let_go(keys, old(keyboard).keys().len() as int, held@, i as int),
            ),
    decreases held@.len() - i,
{
    let ghost start = keyboard.keys();
    proof {
        lemma_stays(start);
    }
    if i >= held.len() {
        return Ok(());
    }
    let one = keyboard.send(held[i], KeyAction::Up);
    let ghost a = keyboard.keys();
    proof {
        lemma_then(start, start, a);
    }
    let rest = release_keys_in_order(keyboard, held, i + 1);
    let ghost b = keyboard.keys();
    proof {
        lemma_then(start, a, b);
    }
    match one {
        Err(error) => Err(error),
        Ok(_) => rest,
    }
}

fn press_keys<B: ProcessBackend>(
    keyboard: &mut Keyboard<'_, B>,
    modifiers: &Vec<u16>,
    i: usize,
) -> (outcome: Result<(), ProcessBackendError>)
    requires
        old(keyboard).sound(),
        i <= modifiers@.len(),
    ensures
        final(keyboard).sound(),
        old(keyboard).same(final(keyboard)),
        follows(old(keyboard).keys(), final(keyboard).keys()),
        forall|keys: Seq<KeySent>| #[trigger]
            follows(final(keyboard).keys(), keys) ==> went_at(
                outcome,
                final(keyboard).keys().len() as int,
                pressed(keys, old(keyboard).keys().len() as int, modifiers@, i as int),
            ),
    decreases modifiers@.len() - i,
{
    let ghost start = keyboard.keys();
    proof {
        lemma_stays(start);
    }
    if i >= modifiers.len() {
        return Ok(());
    }
    let one = keyboard.send(modifiers[i], KeyAction::Down);
    let ghost a = keyboard.keys();
    proof {
        lemma_then(start, start, a);
    }
    if let Err(error) = one {
        let undone = release_keys(keyboard, modifiers, i);
        proof {
            lemma_then(start, a, keyboard.keys());
        }
        return Err(error);
    }
    let rest = press_keys(keyboard, modifiers, i + 1);
    let ghost b = keyboard.keys();
    proof {
        lemma_then(start, a, b);
    }
    rest
}

/// A result that came at a place of the events.
pub open spec fn ends_at(
    outcome: Result<(), WindowInputError>,
    k: int,
    seen: (int, Result<(), Failure>),
) -> bool {
    seen.0 == k && match (outcome, seen.1) {
        (Ok(_), Ok(_)) => true,
        (Err(error), Err(fault)) => error@ == fault,
        _ => false,
    }
}

fn strike<B: ProcessBackend>(
    keyboard: &mut Keyboard<'_, B>,
    modifiers: &Vec<u16>,
    key: u16,
) -> (outcome: Result<(), WindowInputError>)
    requires
        old(keyboard).sound(),
    ensures
        final(keyboard).sound(),
        old(keyboard).same(final(keyboard)),
        follows(old(keyboard).keys(), final(keyboard).keys()),
        forall|keys: Seq<KeySent>| #[trigger]
            follows(final(keyboard).keys(), keys) ==> ends_at(
                outcome,
                final(keyboard).keys().len() as int,
                struck(keys, old(keyboard).keys().len() as int, modifiers@, key),
            ),
{
    let ghost start = keyboard.keys();
    proof {
        lemma_stays(start);
    }
    let down = press_keys(keyboard, modifiers, 0);
    let ghost a = keyboard.keys();
    proof {
        lemma_then(start, start, a);
    }
    if let Err(error) = down {
        return Err(WindowInputError::input(error));
    }
    let hit = keyboard.send(key, KeyAction::Down);
    let ghost b = keyboard.keys();
    proof {
        lemma_then(start, a, b);
    }
    if let Err(error) = hit {
        let undone = release_keys(keyboard, modifiers, modifiers.len());
        proof {
            lemma_then(start, b, keyboard.keys());
        }
        return Err(WindowInputError::input(error));
    }
    let up = keyboard.send(key, KeyAction::Up);
    let ghost c = keyboard.keys();
    proof {
        lemma_then(start, b, c);
    }
    let rest = release_keys_in_order(keyboard, modifiers, 0);
    let ghost d = keyboard.keys();
    proof {
        lemma_then(start, c, d);
    }
    match up {
        Err(error) => Err(WindowInputError::input(error)),
        Ok(_) => match rest {
            Err(error) => Err(WindowInputError::input(error)),
            Ok(_) => Ok(()),
        },
    }
}

/// What a key combination does.
pub open spec fn combines<B: ProcessBackend>(
    backend: &B,
    target: ClientWindowTarget,
    request: ClientKeyCombinationRequest,
    keys: Seq<KeySent>,
    answer: Result<ClientInputResponse, WindowInputError>,
) -> bool {
    &&& keys_sent(backend, target, request.delivery, keys)
    &&& match combination_refusal(request.modifiers@, request.virtual_key) {
        Some(fault) => keys.len() == 0 && fails(answer, fault),
        None => {
            let (k, outcome) = struck(keys, 0, request.modifiers@, request.virtual_key);
            &&& k == keys.len()
            &&& match outcome {
                Err(fault) => fails(answer, fault),
                Ok(_) => reaches(answer, request.client_id),
            }
        },
    }
}

/// Strikes a key while others are held.
pub fn key_combination<B: ProcessBackend>(
    backend: &B,
    target: &ClientWindowTarget,
    request: &ClientKeyCombinationRequest,
) -> (answer: Result<ClientInputResponse, WindowInputError>)
    ensures
        exists|keys: Seq<KeySent>| #[trigger] combines(backend, *target, *request, keys, answer),
{
    let mut keyboard = Keyboard {
        backend,
        target,
        delivery: request.delivery,
        keys: Ghost(Seq::<KeySent>::empty()),
    };
    if let Err(error) = validate_combination(&request.modifiers, request.virtual_key) {
        let answer = Err(error);
        proof {
            assert(combines(backend, *target, *request, keyboard.keys(), answer));
        }
        return answer;
    }
    let outcome = strike(&mut keyboard, &request.modifiers, request.virtual_key);
    proof {
        lemma_stays(keyboard.keys());
    }
    let answer = match outcome {
        Ok(_) => delivered(&request.client_id),
        Err(error) => Err(error),
    };
    proof {
        assert(combines(backend, *target, *request, keyboard.keys(), answer));
    }
    answer
}

/// A combination of which every event went well presses and lets go each key once: as many
/// go up as down.
pub proof fn combinations_let_every_key_go(
    keys: Seq<KeySent>,
    k: int,
    modifiers: Seq<u16>,
    key: u16,
)
    requires
        struck(keys, k, modifiers, key).1 is Ok,
    ensures
        struck(keys, k, modifiers, key).0 == k + 2 * modifiers.len() + 2,
{
    lemma_pressed(keys, k, modifiers, 0);
    lemma_let_go(keys, k + modifiers.len() + 2, modifiers, 0);
}

proof fn lemma_pressed(keys: Seq<KeySent>, k: int, modifiers: Seq<u16>, i: int)
    requires
        0 <= i <= modifiers.len(),
        pressed(keys, k, modifiers, i).1 is Ok,
    ensures
        pressed(keys, k, modifiers, i).0 == k + modifiers.len() - i,
    decreases modifiers.len() - i,
{
    if i < modifiers.len() {
        lemma_pressed(keys, k + 1, modifiers, i + 1);
    }
}

proof fn lemma_let_go(keys: Seq<KeySent>, k: int, held: Seq<u16>, i: int)
    requires
        0 <= i <= held.len(),
    ensures
        let_go(keys, k, held, i).0 == k + held.len() - i,
    decreases held.len() - i,
{
    if i < held.len() {
        lemma_let_go(keys, k + 1, held, i + 1);
    }
}

/// Where a point of a request is in the window: one of the screen is looked up.
pub open spec fn points<B: ProcessBackend>(
    backend: &B,
    target: ClientWindowTarget,
    point: WindowPoint,
    space: CoordinateSpace,
    mapped: Result<WindowPoint, ProcessBackendError>,
) -> bool {
    match space {
        CoordinateSpace::Client => mapped == Ok::<WindowPoint, ProcessBackendError>(point),
        CoordinateSpace::Screen => call_ensures(
            B::screen_to_client,
            (backend, &target, point),
            mapped,
        ),
    }
}

/// A point that messages can carry, or why there is none.
pub open spec fn message_point(mapped: Result<WindowPoint, ProcessBackendError>) -> Result<
    WindowPoint,
    Failure,
> {
    match mapped {
        Err(error) => Err(input_failure(fault_of(error))),
        Ok(point) => match point_refusal(point) {
            Some(fault) => Err(fault),
            None => Ok(point),
        },
    }
}

fn client_message_point<B: ProcessBackend>(
    backend: &B,
    target: &ClientWindowTarget,
    point: WindowPoint,
    space: CoordinateSpace,
) -> (found: (Result<WindowPoint, WindowInputError>, Ghost<Result<WindowPoint, ProcessBackendError>>))
    ensures
        points(backend, *target, point, space, found.1@),
        match message_point(found.1@) {
            Err(fault) => fails(found.0, fault),
            Ok(point) => found.0 == Ok::<WindowPoint, WindowInputError>(point),
        },
{
    let mapped = match space {
        CoordinateSpace::Client => Ok(point),
        CoordinateSpace::Screen => backend.screen_to_client(target, point),
    };
    let ghost seen = mapped;
    match mapped {
        Err(error) => (Err(WindowInputError::input(error)), Ghost(seen)),
        Ok(point) => match validate_message_point(point) {
            Ok(_) => (Ok(point), Ghost(seen)),
            Err(error) => (Err(error), Ghost(seen)),
        },
    }
}

/// What moving the mouse does.
pub open spec fn moves<B: ProcessBackend>(
    backend: &B,
    target: ClientWindowTarget,
    request: ClientMouseMoveRequest,
    mapped: Result<WindowPoint, ProcessBackendError>,
    outcome: Result<(), ProcessBackendError>,
    answer: Result<ClientInputResponse, WindowInputError>,
) -> bool {
    &&& points(backend, target, request.point, request.coordinate_space, mapped)
    &&& match message_point(mapped) {
        Err(fault) => fails(answer, fault),
        Ok(point) => {
            &&& call_ensures(
                B::send_client_mouse_move,
                (backend, &target, point, request.delivery),
                outcome,
            )
            &&& match outcome {
                Err(error) => fails(answer, input_failure(fault_of(error))),
                Ok(_) => reaches(answer, request.client_id),
            }
        },
    }
}

/// Moves the mouse.
pub fn mouse_move<B: ProcessBackend>(
    backend: &B,
    target: &ClientWindowTarget,
    request: &ClientMouseMoveRequest,
) -> (answer: Result<ClientInputResponse, WindowInputError>)
    ensures
        exists|
            mapped: Result<WindowPoint, ProcessBackendError>,
            outcome: Result<(), ProcessBackendError>,
        | #[trigger]
            moves(backend, *target, *request, mapped, outcome, answer),
{
    let (found, Ghost(mapped)) = client_message_point(
        backend,
        target,
        request.point,
        request.coordinate_space,
    );
    let point = match found {
        Ok(point) => point,
        Err(error) => {
            let answer = Err(error);
            proof {
                assert(moves(backend, *target, *request, mapped, arbitrary(), answer));
            }
            return answer;
        },
    };
    let outcome = backend.send_client_mouse_move(target, point, request.delivery);
    let ghost seen = outcome;
    let answer = match outcome {
        Ok(_) => delivered(&request.client_id),
        Err(error) => Err(WindowInputError::input(error)),
    };
    proof {
        assert(moves(backend, *target, *request, mapped, seen, answer));
    }
    answer
}

/// What pressing a mouse button does: the mouse is moved there first.
pub open spec fn presses<B: ProcessBackend>(
    backend: &B,
    target: ClientWindowTarget,
    request: ClientMouseClickRequest,
    mapped: Result<WindowPoint, ProcessBackendError>,
    moved: Result<(), ProcessBackendError>,
    pushed: Result<(), ProcessBackendError>,
    answer: Result<WindowPoint, WindowInputError>,
) -> bool {
    match duration_refusal(request.hold_ms, "mouse button duration"@) {
        Some(fault) => fails(answer, fault),
        None => {
            &&& points(backend, target, request.point, request.coordinate_space, mapped)
            &&& match message_point(mapped) {
                Err(fault) => fails(answer, fault),
                Ok(point) => {
                    &&& call_ensures(
                        B::send_client_mouse_move,
                        (backend, &target, point, request.delivery),
                        moved,
                    )
                    &&& match moved {
                        Err(error) => fails(answer, input_failure(fault_of(error))),
                        Ok(_) => {
                            &&& call_ensures(
                                B::send_client_mouse_button,
                                (backend, &target, point, request.button, true, request.delivery),
                                pushed,
                            )
                            &&& match pushed {
                                Err(error) => fails(answer, input_failure(fault_of(error))),
                                Ok(_) => answer == Ok::<WindowPoint, WindowInputError>(point),
                            }
                        },
                    }
                },
            }
        },
    }
}

/// Presses a mouse button that is to be held for a while: see `hold_step` and
/// `release_mouse_button`. The answer is the point in the window.
pub fn mouse_click<B: ProcessBackend>(
    backend: &B,
    target: &ClientWindowTarget,
    request: &ClientMouseClickRequest,
) -> (answer: Result<WindowPoint, WindowInputError>)
    ensures
        exists|
            mapped: Result<WindowPoint, ProcessBackendError>,
            moved: Result<(), ProcessBackendError>,
            pushed: Result<(), ProcessBackendError>,
        | #[trigger]
            presses(backend, *target, *request, mapped, moved, pushed, answer),
{
    let ghost mut seen: Result<(), ProcessBackendError> = arbitrary();
    let ghost mut hit: Result<(), ProcessBackendError> = arbitrary();
    if let Err(error) = validate_duration(request.hold_ms, "mouse button duration") {
        let answer = Err(error);
        proof {
            assert(presses(backend, *target, *request, arbitrary(), seen, hit, answer));
        }
        return answer;
    }
    let (found, Ghost(mapped)) = client_message_point(
        backend,
        target,
        request.point,
        request.coordinate_space,
    );
    let point = match found {
        Ok(point) => point,
        Err(error) => {
            let answer = Err(error);
            proof {
                assert(presses(backend, *target, *request, mapped, seen, hit, answer));
            }
            return answer;
        },
    };
    let moved = backend.send_client_mouse_move(target, point, request.delivery);
    proof {
        seen = moved;
    }
    if let Err(error) = moved {
        let answer = Err(WindowInputError::input(error));
        proof {
            assert(presses(backend, *target, *request, mapped, seen, hit, answer));
        }
        return answer;
    }
    let pushed = backend.send_client_mouse_button(
        target,
        point,
        request.button,
        true,
        request.delivery,
    );
    proof {
        hit = pushed;
    }
    let answer = match pushed {
        Ok(_) => Ok(point),
        Err(error) => Err(WindowInputError::input(error)),
    };
    proof {
        assert(presses(backend, *target, *request, mapped, seen, hit, answer));
    }
    answer
}

/// Lets a mouse button go that was held, and answers the request.
pub fn release_mouse_button<B: ProcessBackend>(
    backend: &B,
    target: &ClientWindowTarget,
    request: &ClientMouseClickRequest,
    point: WindowPoint,
    cancelled: bool,
) -> (answer: Result<ClientInputResponse, WindowInputError>)
    ensures
        exists|outcome: Result<(), ProcessBackendError>|
            {
                &&& #[trigger] call_ensures(
                    B::send_client_mouse_button,
                    (backend, target, point, request.button, false, request.delivery),
                    outcome,
                )
                &&& match outcome {
                    Err(error) => fails(answer, input_failure(fault_of(error))),
                    Ok(_) => if cancelled {
                        fails(answer, broken_off())
                    } else {
                        reaches(answer, request.client_id)
                    },
                }
            },
{
    let released = backend.send_client_mouse_button(
        target,
        point,
        request.button,
        false,
        request.delivery,
    );
    match released {
        Err(error) => Err(WindowInputError::input(error)),
        Ok(_) => if cancelled {
            Err(WindowInputError::cancelled())
        } else {
            delivered(&request.client_id)
        },
    }
}

}
