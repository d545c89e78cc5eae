//! Starting and ending the game.

use vstd::prelude::*;
use vstd::string::*;

use crate::backend::{
    ClientWindowCandidate, ClientWindowTarget, ProcessBackend, ProcessBackendError,
};
use crate::calls::{fault_of, Fault};
use crate::clients::{discovers, discovery_reported, resolves, ClientRegistry, Clients};
use crate::protocol::{
    ClientDescriptor, ClientId, GameLaunchRequest, GameLaunchResponse, GameTerminateRequest,
    GameTerminateResponse, ListClientsResponse, ProcessDescriptor, ProcessIdentity,
    MAX_GAME_OPERATION_TIMEOUT_MS,
};
use crate::rpc::{failure, Details, Failure, RpcError, RpcErrorCode};
use crate::text::{
    blank, chars_of, contains_char, dec_text, format_decimal, format_signed, is_blank, is_white,
    join3, join4, lowered, numeral, parse_numeral, same_ignoring_case, same_text, signed_text,
    string_of, white,
};

verus! {

/// A failed request to start or end the game.
#[derive(Debug)]
pub struct GameProcessError {
    code: RpcErrorCode,
    message: String,
    details: Details,
}

impl View for GameProcessError {
    type V = Failure;

    closed spec fn view(&self) -> Failure {
        Failure { code: self.code, message: self.message@, details: self.details@ }
    }
}

/// A request that cannot be meant.
pub open spec fn invalid(message: Seq<char>) -> Failure {
    failure(RpcErrorCode::InvalidRequest, message)
}

/// A platform call stopped the request.
pub open spec fn stopped(code: RpcErrorCode, action: Seq<char>, fault: Fault) -> Failure {
    let bare = failure(code, action + ": "@ + fault.message);
    match fault.native {
        Some(native) => bare.with("native_code"@, signed_text(native as int)),
        None => bare,
    }
}

/// The request took too long.
pub open spec fn timed_out(code: RpcErrorCode, action: Seq<char>, timeout_ms: u32) -> Failure {
    failure(
        code,
        "timed out after "@ + dec_text(timeout_ms as nat) + " ms waiting for "@ + action,
    ).with("timeout_ms"@, dec_text(timeout_ms as nat))
}

impl GameProcessError {
    fn invalid_request(message: &str) -> (error: Self)
        ensures
            error@ == invalid(message@),
    {
        GameProcessError {
            code: RpcErrorCode::InvalidRequest,
            message: message.to_owned(),
            details: Details::new(),
        }
    }

    fn backend(code: RpcErrorCode, action: &str, error: ProcessBackendError) -> (failed: Self)
        ensures
            failed@ == stopped(code, action@, fault_of(error)),
    {
        let mut details = Details::new();
        if let Some(native_code) = error.native_code {
            details.insert("native_code", format_signed(native_code));
        }
        GameProcessError { code, message: join3(action, ": ", error.message.as_str()), details }
    }

    fn timeout(code: RpcErrorCode, action: &str, timeout_ms: u32) -> (error: Self)
        ensures
            error@ == timed_out(code, action@, timeout_ms),
    {
        let limit = format_decimal(timeout_ms as u64);
        let message = join4("timed out after ", limit.as_str(), " ms waiting for ", action);
        let mut details = Details::new();
        details.insert("timeout_ms", limit);
        GameProcessError { code, message, details }
    }

    /// The error as the answer to one request.
    pub fn into_rpc_error(self, request_id: u64, operation: &str) -> (error: RpcError)
        ensures
            error.answers(self@, request_id, operation@),
            error.native_context is None,
    {
        let mut error = RpcError::new(self.code, self.message, request_id, operation, None);
        error.details = self.details;
        error
    }
}

/// A verdict that agrees with a refusal, or with none.
pub open spec fn decides(verdict: Result<(), GameProcessError>, refusal: Option<Failure>) -> bool {
    match refusal {
        None => verdict is Ok,
        Some(fault) => verdict matches Err(error) && error@ == fault,
    }
}

/// Why a time limit is refused.
pub open spec fn timeout_refusal(timeout_ms: u32) -> Option<Failure> {
    if timeout_ms == 0 || timeout_ms > MAX_GAME_OPERATION_TIMEOUT_MS {
        Some(invalid("timeout_ms must be between 1 and 300000"@))
    } else {
        None
    }
}

fn validate_timeout(timeout_ms: u32) -> (verdict: Result<(), GameProcessError>)
    ensures
        decides(verdict, timeout_refusal(timeout_ms)),
{
    if timeout_ms == 0 || timeout_ms > MAX_GAME_OPERATION_TIMEOUT_MS {
        return Err(GameProcessError::invalid_request("timeout_ms must be between 1 and 300000"));
    }
    Ok(())
}

/// Why a path to the game is refused.
pub open spec fn path_refusal(path: Seq<char>) -> Option<Failure> {
    if is_blank(path) || path.contains('\0') {
        Some(invalid("game_path must be a non-empty Windows installation path"@))
    } else {
        None
    }
}

fn validate_game_path(game_path: &str) -> (verdict: Result<(), GameProcessError>)
    ensures
        decides(verdict, path_refusal(game_path@)),
{
    if blank(game_path) || contains_char(game_path, '\0') {
        return Err(
            GameProcessError::invalid_request(
                "game_path must be a non-empty Windows installation path",
            ),
        );
    }
    Ok(())
}

/// Where the last colon of the first characters is.
pub open spec fn last_colon(text: Seq<char>, n: int) -> Option<int>
    decreases n,
{
    if n <= 0 {
        None
    } else if text[n - 1] == ':' {
        Some(n - 1)
    } else {
        last_colon(text, n - 1)
    }
}

/// Some character is white space.
pub open spec fn has_white(text: Seq<char>) -> bool {
    exists|i: int| 0 <= i < text.len() && is_white(#[trigger] text[i])
}

/// A port number.
pub open spec fn is_port(text: Seq<char>) -> bool {
    numeral(text, 10) matches Some(value) && value <= u16::MAX
}

/// Why a login server is refused: it is a host, a colon and a port.
pub open spec fn server_refusal(server: Seq<char>) -> Option<Failure> {
    match last_colon(server, server.len() as int) {
        None => Some(invalid("login_server must use host:port format"@)),
        Some(at) => {
            let host = server.take(at);
            if is_blank(host) || has_white(host) || !is_port(server.skip(at + 1)) {
                Some(invalid("login_server must contain a host and a valid TCP port"@))
            } else {
                None
            }
        },
    }
}

fn find_white(chars: &[char]) -> (yes: bool)
    ensures
        yes == has_white(chars@),
{
    let mut i: usize = 0;
    while i < chars.len()
        invariant
            i <= chars@.len(),
            forall|j: int| 0 <= j < i ==> !is_white(#[trigger] chars@[j]),
        decreases chars@.len() - i,
    {
        if white(chars[i]) {
            return true;
        }
        i += 1;
    }
    false
}

fn validate_login_server(login_server: &str) -> (verdict: Result<(), GameProcessError>)
    ensures
        decides(verdict, server_refusal(login_server@)),
{
    let chars = chars_of(login_server);
    let mut n: usize = chars.len();
    while n > 0 && chars[n - 1] != ':'
        invariant
            n <= chars@.len(),
            chars@ == login_server@,
            last_colon(login_server@, login_server@.len() as int) == last_colon(
                login_server@,
                n as int,
            ),
        decreases n,
    {
        n -= 1;
    }
    if n == 0 {
        return Err(GameProcessError::invalid_request("login_server must use host:port format"));
    }
    let host = vstd::slice::slice_subrange(chars.as_slice(), 0, n - 1);
    let rest = vstd::slice::slice_subrange(chars.as_slice(), n, chars.len());
    proof {
        assert(host@ =~= login_server@.take(n - 1));
        assert(rest@ =~= login_server@.skip(n as int));
    }
    let name = string_of(host);
    let port = string_of(rest);
    if blank(name.as_str()) || find_white(host) || parse_numeral(
        port.as_str(),
        10,
        65535,
    ).is_none() {
        return Err(
            GameProcessError::invalid_request(
                "login_server must contain a host and a valid TCP port",
            ),
        );
    }
    Ok(())
}

/// What tells one run of the game from another; paths are compared without case.
#[verifier::ext_equal]
pub ghost struct Run {
    pub pid: u32,
    pub created: Seq<char>,
    pub path: Seq<char>,
}

/// The run that an identity names.
pub open spec fn run_of(identity: ProcessIdentity) -> Run {
    Run {
        pid: identity.pid,
        created: identity.creation_time_100ns@,
        path: lowered(identity.executable_path@),
    }
}

/// The run of a client, if it is known.
pub open spec fn client_run(client: ClientDescriptor) -> Option<Run> {
    match client.process.identity {
        Some(identity) => Some(run_of(identity)),
        None => None,
    }
}

/// One of the clients is this run.
pub open spec fn runs(clients: Seq<ClientDescriptor>, run: Run) -> bool {
    exists|i: int| 0 <= i < clients.len() && client_run(#[trigger] clients[i]) == Some(run)
}

fn same_identity(left: &ProcessIdentity, right: &ProcessIdentity) -> (same: bool)
    ensures
        same == (run_of(*left) == run_of(*right)),
{
    left.pid == right.pid && same_text(
        left.creation_time_100ns.as_str(),
        right.creation_time_100ns.as_str(),
    ) && same_ignoring_case(left.executable_path.as_str(), right.executable_path.as_str())
}

fn is_running(clients: &Vec<ClientDescriptor>, identity: &ProcessIdentity) -> (yes: bool)
    ensures
        yes == runs(clients@, run_of(*identity)),
{
    let mut i: usize = 0;
    while i < clients.len()
        invariant
            i <= clients@.len(),
            forall|j: int|
                0 <= j < i ==> client_run(#[trigger] clients@[j]) != Some(run_of(*identity)),
        decreases clients@.len() - i,
    {
        if let Some(other) = &clients[i].process.identity {
            if same_identity(other, identity) {
                assert(client_run(clients@[i as int]) == Some(run_of(*identity)));
                return true;
            }
        }
        i += 1;
    }
    false
}

/// The first client, from the given one on, that is the run that was started.
pub open spec fn started_at(clients: Seq<ClientDescriptor>, run: Run, from: int) -> Option<int>
    decreases clients.len() - from,
{
    if from >= clients.len() {
        None
    } else if client_run(clients[from]) == Some(run) {
        Some(from)
    } else {
        started_at(clients, run, from + 1)
    }
}

/// A game that was started and whose window is waited for.
#[derive(Debug)]
pub struct LaunchWatch {
    pub known: Vec<ClientDescriptor>,
    pub identity: ProcessIdentity,
}

/// The clients were listed anew.
pub open spec fn listed<B: ProcessBackend>(
    backend: &B,
    held: Clients,
    left: Clients,
    answer: Result<ListClientsResponse, ProcessBackendError>,
) -> bool {
    exists|
        windows: Result<Vec<ClientWindowCandidate>, ProcessBackendError>,
        processes: Result<Vec<ProcessDescriptor>, ProcessBackendError>,
    | #[trigger]
        discovery_reported(backend, windows, processes) && discovers(
            held,
            windows,
            processes,
            left,
            answer,
        )
}

/// Why a launch is refused.
pub open spec fn launch_refusal(request: GameLaunchRequest) -> Option<Failure> {
    match timeout_refusal(request.timeout_ms) {
        Some(fault) => Some(fault),
        None => match path_refusal(request.game_path@) {
            Some(fault) => Some(fault),
            None => server_refusal(request.login_server@),
        },
    }
}

/// What a launch does: a request that is not refused has the clients listed and the game
/// started.
pub open spec fn launches<B: ProcessBackend>(
    backend: &B,
    request: GameLaunchRequest,
    held: Clients,
    left: Clients,
    known: Result<ListClientsResponse, ProcessBackendError>,
    begun: Result<ProcessIdentity, ProcessBackendError>,
    answer: Result<LaunchWatch, GameProcessError>,
) -> bool {
    let code = RpcErrorCode::GameLaunchFailed;
    match launch_refusal(request) {
        Some(fault) => left == held && (answer matches Err(error) && error@ == fault),
        None => {
            &&& listed(backend, held, left, known)
            &&& match known {
                Err(error) => answer matches Err(failed) && failed@ == stopped(
                    code,
                    "could not inspect existing Wizard101 clients"@,
                    fault_of(error),
                ),
                Ok(response) => {
                    &&& launch_called(backend, request, begun)
                    &&& match begun {
                        Err(error) => answer matches Err(failed) && failed@ == stopped(
                            code,
                            "could not start Wizard101"@,
                            fault_of(error),
                        ),
                        Ok(identity) => answer matches Ok(watch) && {
                            &&& watch.known == response.clients
                            &&& watch.identity == identity
                        },
                    }
                },
            }
        },
    }
}

/// The game was started as the request says.
pub open spec fn launch_called<B: ProcessBackend>(
    backend: &B,
    request: GameLaunchRequest,
    begun: Result<ProcessIdentity, ProcessBackendError>,
) -> bool {
    exists|path: &str, server: &str| #[trigger]
        call_ensures(B::launch_game, (backend, path, server), begun) && path@
            == request.game_path@ && server@ == request.login_server@
}

/// Starts the game. It is then to be watched until its window is there.
pub fn launch<B: ProcessBackend>(
    clients: &mut ClientRegistry,
    backend: &B,
    request: &GameLaunchRequest,
) -> (answer: Result<LaunchWatch, GameProcessError>)
    requires
        old(clients).wf(),
    ensures
        final(clients).wf(),
        exists|
            known: Result<ListClientsResponse, ProcessBackendError>,
            begun: Result<ProcessIdentity, ProcessBackendError>,
        | #[trigger]
            launches(
                backend,
                *request,
                old(clients)@,
                final(clients)@,
                known,
                begun,
                answer,
            ),
{
    let ghost held = clients@;
    let ghost mut known: Result<ListClientsResponse, ProcessBackendError> = arbitrary();
    let ghost mut begun: Result<ProcessIdentity, ProcessBackendError> = arbitrary();
    let verdict = check_launch(request);
    if let Err(error) = verdict {
        let answer = Err(error);
        proof {
            assert(launches(backend, *request, held, clients@, known, begun, answer));
        }
        return answer;
    }
    let before = clients.list(backend);
    proof {
        known = before;
        assert(listed(backend, held, clients@, before));
    }
    let response = match before {
        Ok(response) => response,
        Err(error) => {
            let answer = Err(
                GameProcessError::backend(
                    RpcErrorCode::GameLaunchFailed,
                    "could not inspect existing Wizard101 clients",
                    error,
                ),
            );
            proof {
                assert(launches(backend, *request, held, clients@, known, begun, answer));
            }
            return answer;
        },
    };
    let outcome = backend.launch_game(request.game_path.as_str(), request.login_server.as_str());
    proof {
        begun = outcome;
        assert(launch_called(backend, *request, outcome));
    }
    let answer = match outcome {
        Ok(identity) => Ok(LaunchWatch { known: response.clients, identity }),
        Err(error) => Err(
            GameProcessError::backend(
                RpcErrorCode::GameLaunchFailed,
                "could not start Wizard101",
                error,
            ),
        ),
    };
    proof {
        assert(launches(backend, *request, held, clients@, known, begun, answer));
    }
    answer
}

fn check_launch(request: &GameLaunchRequest) -> (verdict: Result<(), GameProcessError>)
    ensures
        decides(verdict, launch_refusal(*request)),
{
    validate_timeout(request.timeout_ms)?;
    validate_game_path(request.game_path.as_str())?;
    validate_login_server(request.login_server.as_str())
}

/// What looking for the window of a game does that was started: it is there once a client
/// is the run that was started, and was not one before.
pub open spec fn finds_window(
    request: GameLaunchRequest,
    watch: LaunchWatch,
    expired: bool,
    current: Result<ListClientsResponse, ProcessBackendError>,
    answer: Result<Option<GameLaunchResponse>, GameProcessError>,
) -> bool {
    let run = run_of(watch.identity);
    match current {
        Err(error) => answer matches Err(failed) && failed@ == stopped(
            RpcErrorCode::GameLaunchFailed,
            "could not confirm the new Wizard101 window"@,
            fault_of(error),
        ),
        Ok(response) => match started_at(response.clients@, run, 0) {
            Some(i) if !runs(watch.known@, run) => answer matches Ok(Some(found)) && {
                &&& found.launched_process_id == watch.identity.pid
                &&& found.client == response.clients@[i]
            },
            _ => if expired {
                answer matches Err(failed) && failed@ == timed_out(
                    RpcErrorCode::GameLaunchTimeout,
                    "a new Wizard101 process and window"@,
                    request.timeout_ms,
                )
            } else {
                answer matches Ok(None)
            },
        },
    }
}

/// Looks whether the window of a game that was started is there. Where it is not, it is to
/// be asked again a little later.
pub fn watch_launch<B: ProcessBackend>(
    clients: &mut ClientRegistry,
    backend: &B,
    request: &GameLaunchRequest,
    watch: &LaunchWatch,
    expired: bool,
    cancelled: bool,
) -> (answer: Result<Option<GameLaunchResponse>, GameProcessError>)
    requires
        old(clients).wf(),
    ensures
        final(clients).wf(),
        cancelled ==> final(clients)@ == old(clients)@ && (answer matches Err(error) && error@
            == invalid("the agent began shutting down while Wizard101 was starting"@)),
        !cancelled ==> exists|current: Result<ListClientsResponse, ProcessBackendError>|
            {
                &&& #[trigger] listed(backend, old(clients)@, final(clients)@, current)
                &&& finds_window(*request, *watch, expired, current, answer)
            },
{
    if cancelled {
        return Err(
            GameProcessError::invalid_request(
                "the agent began shutting down while Wizard101 was starting",
            ),
        );
    }
    let ghost held = clients@;
    let current = clients.list(backend);
    let ghost seen = current;
    proof {
        assert(listed(backend, held, clients@, seen));
    }
    let answer = match current {
        Ok(response) => find_window(request, watch, expired, response),
        Err(error) => Err(
            GameProcessError::backend(
                RpcErrorCode::GameLaunchFailed,
                "could not confirm the new Wizard101 window",
                error,
            ),
        ),
    };
    answer
}

fn find_window(
    request: &GameLaunchRequest,
    watch: &LaunchWatch,
    expired: bool,
    response: ListClientsResponse,
) -> (answer: Result<Option<GameLaunchResponse>, GameProcessError>)
    ensures
        finds_window(*request, *watch, expired, Ok(response), answer),
{
    let mut list = response.clients;
    let mut i: usize = 0;
    if !is_running(&watch.known, &watch.identity) {
        while i < list.len()
            invariant
                i <= list@.len(),
                list == response.clients,
                !runs(watch.known@, run_of(watch.identity)),
                started_at(list@, run_of(watch.identity), 0) == started_at(
                    list@,
                    run_of(watch.identity),
                    i as int,
                ),
            decreases list@.len() - i,
        {
            let there = match &list[i].process.identity {
                Some(identity) => same_identity(identity, &watch.identity),
                None => false,
            };
            if there {
                let client = list.swap_remove(i);
                return Ok(
                    Some(GameLaunchResponse { launched_process_id: watch.identity.pid, client }),
                );
            }
            i += 1;
        }
    }
    if expired {
        return Err(
            GameProcessError::timeout(
                RpcErrorCode::GameLaunchTimeout,
                "a new Wizard101 process and window",
                request.timeout_ms,
            ),
        );
    }
    Ok(None)
}

/// A client of this name is listed.
pub open spec fn lists_client(clients: Seq<ClientDescriptor>, name: Seq<char>) -> bool {
    exists|i: int| 0 <= i < clients.len() && (#[trigger] clients[i]).client_id.0@ == name
}

/// Looking up a client: the clients are listed anew.
pub open spec fn looks_up<B: ProcessBackend>(
    backend: &B,
    held: Clients,
    name: Seq<char>,
    left: Clients,
    target: Result<ClientWindowTarget, ProcessBackendError>,
) -> bool {
    exists|current: Result<ListClientsResponse, ProcessBackendError>|
        {
            &&& #[trigger] listed(backend, held, left, current)
            &&& match current {
                Err(error) => target == Err::<ClientWindowTarget, _>(error),
                Ok(_) => resolves(left, name, target),
            }
        }
}

/// What a termination does: a request that is not refused has the client looked up and its
/// process ended.
pub open spec fn terminates<B: ProcessBackend>(
    backend: &B,
    request: GameTerminateRequest,
    held: Clients,
    left: Clients,
    target: Result<ClientWindowTarget, ProcessBackendError>,
    ended: Result<(), ProcessBackendError>,
    answer: Result<u32, GameProcessError>,
) -> bool {
    let code = RpcErrorCode::GameTerminationFailed;
    match timeout_refusal(request.timeout_ms) {
        Some(fault) => left == held && (answer matches Err(error) && error@ == fault),
        None => {
            &&& looks_up(backend, held, request.client_id.0@, left, target)
            &&& match target {
                Err(error) => answer matches Err(failed) && failed@ == stopped(
                    code,
                    "could not resolve the selected Wizard101 client"@,
                    fault_of(error),
                ),
                Ok(target) => {
                    &&& call_ensures(
                        B::terminate_process_and_wait,
                        (backend, &target.process_identity, request.timeout_ms),
                        ended,
                    )
                    &&& match ended {
                        Err(error) => answer matches Err(failed) && failed@ == stopped(
                            code,
                            "could not terminate the selected Wizard101 process"@,
                            fault_of(error),
                        ),
                        Ok(_) => answer == Ok::<u32, GameProcessError>(
                            target.process_identity.pid,
                        ),
                    }
                },
            }
        },
    }
}

/// Ends the game of a client. It is then to be watched until its window is gone. The answer
/// is the id of the process that was ended.
pub fn terminate<B: ProcessBackend>(
    clients: &mut ClientRegistry,
    backend: &B,
    request: &GameTerminateRequest,
) -> (answer: Result<u32, GameProcessError>)
    requires
        old(clients).wf(),
    ensures
        final(clients).wf(),
        exists|
            target: Result<ClientWindowTarget, ProcessBackendError>,
            ended: Result<(), ProcessBackendError>,
        | #[trigger]
            terminates(
                backend,
                *request,
                old(clients)@,
                final(clients)@,
                target,
                ended,
                answer,
            ),
{
    let ghost held = clients@;
    let ghost mut found: Result<ClientWindowTarget, ProcessBackendError> = arbitrary();
    let ghost mut ended: Result<(), ProcessBackendError> = arbitrary();
    if let Err(error) = validate_timeout(request.timeout_ms) {
        let answer = Err(error);
        proof {
            assert(terminates(backend, *request, held, clients@, found, ended, answer));
        }
        return answer;
    }
    let resolved = clients.resolve(backend, &request.client_id);
    proof {
        found = resolved;
        lemma_looked_up(backend, held, request.client_id.0@, clients@, resolved);
    }
    let target = match resolved {
        Ok(target) => target,
        Err(error) => {
            let answer = Err(
                GameProcessError::backend(
                    RpcErrorCode::GameTerminationFailed,
                    "could not resolve the selected Wizard101 client",
                    error,
                ),
            );
            proof {
                assert(terminates(backend, *request, held, clients@, found, ended, answer));
            }
            return answer;
        },
    };
    let outcome = backend.terminate_process_and_wait(
        &target.process_identity,
        request.timeout_ms,
    );
    proof {
        ended = outcome;
    }
    let answer = match outcome {
        Ok(_) => Ok(target.process_identity.pid),
        Err(error) => Err(
            GameProcessError::backend(
                RpcErrorCode::GameTerminationFailed,
                "could not terminate the selected Wizard101 process",
                error,
            ),
        ),
    };
    proof {
        assert(terminates(backend, *request, held, clients@, found, ended, answer));
    }
    answer
}

pub(crate) proof fn lemma_looked_up<B: ProcessBackend>(
    backend: &B,
    held: Clients,
    name: Seq<char>,
    left: Clients,
    target: Result<ClientWindowTarget, ProcessBackendError>,
)
    requires
        exists|
            windows: Result<Vec<ClientWindowCandidate>, ProcessBackendError>,
            processes: Result<Vec<ProcessDescriptor>, ProcessBackendError>,
            current: Result<ListClientsResponse, ProcessBackendError>,
        |
            {
                &&& #[trigger] discovery_reported(backend, windows, processes)
                &&& #[trigger] discovers(held, windows, processes, left, current)
                &&& match current {
                    Err(error) => target == Err::<ClientWindowTarget, _>(error),
                    Ok(_) => resolves(left, name, target),
                }
            },
    ensures
        looks_up(backend, held, name, left, target),
{
    let (windows, processes, current) = choose|
        windows: Result<Vec<ClientWindowCandidate>, ProcessBackendError>,
        processes: Result<Vec<ProcessDescriptor>, ProcessBackendError>,
        current: Result<ListClientsResponse, ProcessBackendError>,
    |
        {
            &&& #[trigger] discovery_reported(backend, windows, processes)
            &&& #[trigger] discovers(held, windows, processes, left, current)
            &&& match current {
                Err(error) => target == Err::<ClientWindowTarget, _>(error),
                Ok(_) => resolves(left, name, target),
            }
        };
    assert(listed(backend, held, left, current));
}

/// What looking for the window of a game does that was ended.
pub open spec fn misses_window(
    request: GameTerminateRequest,
    process_id: u32,
    expired: bool,
    current: Result<ListClientsResponse, ProcessBackendError>,
    answer: Result<Option<GameTerminateResponse>, GameProcessError>,
) -> bool {
    let code = RpcErrorCode::GameTerminationFailed;
    match current {
        Err(error) => answer matches Err(failed) && failed@ == stopped(
            code,
            "could not confirm that Wizard101 stopped"@,
            fault_of(error),
        ),
        Ok(response) => if !lists_client(response.clients@, request.client_id.0@) {
            answer matches Ok(Some(gone)) && {
                &&& gone.client_id == request.client_id
                &&& gone.process_id == process_id
                &&& gone.terminated
            }
        } else if expired {
            answer matches Err(failed) && failed@ == timed_out(
                code,
                "the selected Wizard101 process and window to close"@,
                request.timeout_ms,
            )
        } else {
            answer matches Ok(None)
        },
    }
}

/// Looks whether the window of a game that was ended is gone. Where it is not, it is to be
/// asked again a little later.
pub fn watch_termination<B: ProcessBackend>(
    clients: &mut ClientRegistry,
    backend: &B,
    request: &GameTerminateRequest,
    process_id: u32,
    expired: bool,
    cancelled: bool,
) -> (answer: Result<Option<GameTerminateResponse>, GameProcessError>)
    requires
        old(clients).wf(),
    ensures
        final(clients).wf(),
        cancelled ==> final(clients)@ == old(clients)@ && (answer matches Err(error) && error@
            == invalid("the agent began shutting down while Wizard101 was stopping"@)),
        !cancelled ==> exists|current: Result<ListClientsResponse, ProcessBackendError>|
            {
                &&& #[trigger] listed(backend, old(clients)@, final(clients)@, current)
                &&& misses_window(*request, process_id, expired, current, answer)
            },
{
    if cancelled {
        return Err(
            GameProcessError::invalid_request(
                "the agent began shutting down while Wizard101 was stopping",
            ),
        );
    }
    let ghost held = clients@;
    let current = clients.list(backend);
    let ghost seen = current;
    proof {
        assert(listed(backend, held, clients@, seen));
    }
    match current {
        Ok(response) => {
            if !is_listed(&response.clients, &request.client_id) {
                Ok(
                    Some(
                        GameTerminateResponse {
                            client_id: request.client_id.clone(),
                            process_id,
                            terminated: true,
                        },
                    ),
                )
            } else if expired {
                Err(
                    GameProcessError::timeout(
                        RpcErrorCode::GameTerminationFailed,
                        "the selected Wizard101 process and window to close",
                        request.timeout_ms,
                    ),
                )
            } else {
                Ok(None)
            }
        },
        Err(error) => Err(
            GameProcessError::backend(
                RpcErrorCode::GameTerminationFailed,
                "could not confirm that Wizard101 stopped",
                error,
            ),
        ),
    }
}

fn is_listed(clients: &Vec<ClientDescriptor>, client_id: &ClientId) -> (yes: bool)
    ensures
        yes == lists_client(clients@, client_id.0@),
{
    let mut i: usize = 0;
    while i < clients.len()
        invariant
            i <= clients@.len(),
            forall|j: int| 0 <= j < i ==> (#[trigger] clients@[j]).client_id.0@ != client_id.0@,
        decreases clients@.len() - i,
    {
        if same_text(clients[i].client_id.0.as_str(), client_id.0.as_str()) {
            return true;
        }
        i += 1;
    }
    false
}

/// A client is only taken for the game that was started if it is that very run: another
/// game that happens to start meanwhile is not.
pub proof fn launches_find_their_own_run(
    request: GameLaunchRequest,
    watch: LaunchWatch,
    expired: bool,
    current: Result<ListClientsResponse, ProcessBackendError>,
    found: GameLaunchResponse,
)
    requires
        finds_window(request, watch, expired, current, Ok(Some(found))),
    ensures
        client_run(found.client) == Some(run_of(watch.identity)),
        found.launched_process_id == watch.identity.pid,
        !runs(watch.known@, run_of(watch.identity)),
{
    let clients = current->Ok_0.clients@;
    lemma_started_at(clients, run_of(watch.identity), 0);
}

proof fn lemma_started_at(clients: Seq<ClientDescriptor>, run: Run, from: int)
    requires
        0 <= from,
        started_at(clients, run, from) is Some,
    ensures
        from <= started_at(clients, run, from)->Some_0 < clients.len(),
        client_run(clients[started_at(clients, run, from)->Some_0]) == Some(run),
    decreases clients.len() - from,
{
    if client_run(clients[from]) != Some(run) {
        lemma_started_at(clients, run, from + 1);
    }
}

}
