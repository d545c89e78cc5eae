//! The requests of a host, and how an agent answers them.

use vstd::prelude::*;
use vstd::string::*;

use crate::backend::{MemoryBackend, OpenedProcess, ProcessBackendError};
use crate::clients::{ClientRegistry, Clients};
use crate::game_process::listed;
use crate::memory::{
    self, read_batch_does, read_does, read_typed_does, regions_does, MemoryApiError,
};
use crate::process::{
    after_ensure_live, all_checked, backend_failure, checked, closes, count_in, describes, lists,
    lists_modules, modules_reported, opens, refreshed, registry_prefix, reports, ProcessApiError,
    ProcessSessionRegistry, Sessions,
};
use crate::protocol::{
    AgentHealth, AgentIdentity, AgentShutdownRequest, AgentShutdownResponse, AgentState,
    ListClientsResponse, ListModulesResponse, ListProcessesRequest, ListProcessesResponse,
    MemoryBatchReadRequest, MemoryBatchReadResponse, MemoryPointerChainRequest,
    MemoryPointerChainResponse, MemoryReadRequest, MemoryReadResponse, MemoryRegionsResponse,
    MemoryScanRequest, MemoryScanResponse, MemorySessionRequest, ModuleDescriptor,
    OpenProcessRequest, ProbeRequest, ProcessDescriptor, ProcessSessionResponse,
    ProcessSessionState, SessionRequest, TypedMemoryReadRequest, TypedMemoryReadResponse,
};
use crate::rpc::{failure, Failure, RpcCall, RpcError, RpcErrorCode};
use crate::search::{pointer_chain_does, scan_does};
use crate::text::{blank, dec_text, is_blank, join2, join3, same_text};

verus! {

/// The capability of inspecting a game once.
pub const CAPABILITY_PROBE: &'static str = "probe";

/// How many hosts may be connected at a time.
pub const MAX_AGENT_CONNECTIONS: usize = 16;

/// What a host can ask for.
#[derive(Clone, Copy, Debug, PartialEq, Eq, Structural)]
pub enum Operation {
    AgentHealth,
    AgentShutdown,
    Probe,
    ClientList,
    MemoryRegions,
    MemoryRead,
    MemoryReadBatch,
    MemoryReadTyped,
    MemoryScan,
    MemoryPointerChain,
    ProcessList,
    ProcessOpen,
    ProcessClose,
    ProcessStatus,
    ModuleList,
}

/// The operation of a name.
pub open spec fn operation_named(name: Seq<char>) -> Option<Operation> {
    if name == "agent.health"@ {
        Some(Operation::AgentHealth)
    } else if name == "agent.shutdown"@ {
        Some(Operation::AgentShutdown)
    } else if name == "probe"@ {
        Some(Operation::Probe)
    } else if name == "client.list"@ {
        Some(Operation::ClientList)
    } else if name == "memory.regions"@ {
        Some(Operation::MemoryRegions)
    } else if name == "memory.read"@ {
        Some(Operation::MemoryRead)
    } else if name == "memory.read_batch"@ {
        Some(Operation::MemoryReadBatch)
    } else if name == "memory.read_typed"@ {
        Some(Operation::MemoryReadTyped)
    } else if name == "memory.scan"@ {
        Some(Operation::MemoryScan)
    } else if name == "memory.pointer_chain"@ {
        Some(Operation::MemoryPointerChain)
    } else if name == "process.list"@ {
        Some(Operation::ProcessList)
    } else if name == "process.open"@ {
        Some(Operation::ProcessOpen)
    } else if name == "process.close"@ {
        Some(Operation::ProcessClose)
    } else if name == "process.status"@ {
        Some(Operation::ProcessStatus)
    } else if name == "module.list"@ {
        Some(Operation::ModuleList)
    } else {
        None
    }
}

/// Finds the operation of a name.
pub fn operation_of(name: &str) -> (operation: Option<Operation>)
    ensures
        operation == operation_named(name@),
{
    if same_text(name, "agent.health") {
        Some(Operation::AgentHealth)
    } else if same_text(name, "agent.shutdown") {
        Some(Operation::AgentShutdown)
    } else if same_text(name, "probe") {
        Some(Operation::Probe)
    } else if same_text(name, "client.list") {
        Some(Operation::ClientList)
    } else if same_text(name, "memory.regions") {
        Some(Operation::MemoryRegions)
    } else if same_text(name, "memory.read") {
        Some(Operation::MemoryRead)
    } else if same_text(name, "memory.read_batch") {
        Some(Operation::MemoryReadBatch)
    } else if same_text(name, "memory.read_typed") {
        Some(Operation::MemoryReadTyped)
    } else if same_text(name, "memory.scan") {
        Some(Operation::MemoryScan)
    } else if same_text(name, "memory.pointer_chain") {
        Some(Operation::MemoryPointerChain)
    } else if same_text(name, "process.list") {
        Some(Operation::ProcessList)
    } else if same_text(name, "process.open") {
        Some(Operation::ProcessOpen)
    } else if same_text(name, "process.close") {
        Some(Operation::ProcessClose)
    } else if same_text(name, "process.status") {
        Some(Operation::ProcessStatus)
    } else if same_text(name, "module.list") {
        Some(Operation::ModuleList)
    } else {
        None
    }
}

/// A request of a host, read for its operation.
#[derive(Debug)]
pub enum AgentRequest {
    Health,
    Shutdown(AgentShutdownRequest),
    Probe(ProbeRequest),
    ListClients,
    Regions(MemorySessionRequest),
    Read(MemoryReadRequest),
    ReadBatch(MemoryBatchReadRequest),
    ReadTyped(TypedMemoryReadRequest),
    Scan(MemoryScanRequest),
    PointerChain(MemoryPointerChainRequest),
    ListProcesses(ListProcessesRequest),
    Open(OpenProcessRequest),
    Close(SessionRequest),
    Status(SessionRequest),
    Modules(SessionRequest),
}

/// What an agent answers. A probe is run by whoever runs the agent.
#[derive(Debug)]
pub enum AgentResponse {
    Health(AgentHealth),
    Shutdown(AgentShutdownResponse),
    RunProbe(ProbeRequest),
    Clients(ListClientsResponse),
    Regions(MemoryRegionsResponse),
    Read(MemoryReadResponse),
    ReadBatch(MemoryBatchReadResponse),
    ReadTyped(TypedMemoryReadResponse),
    Scan(MemoryScanResponse),
    PointerChain(MemoryPointerChainResponse),
    Processes(ListProcessesResponse),
    Open(ProcessSessionResponse),
    Close(ProcessSessionResponse),
    Status(ProcessSessionResponse),
    Modules(ListModulesResponse),
}

/// The operation that a request is for.
pub open spec fn asked(request: AgentRequest) -> Operation {
    match request {
        AgentRequest::Health => Operation::AgentHealth,
        AgentRequest::Shutdown(_) => Operation::AgentShutdown,
        AgentRequest::Probe(_) => Operation::Probe,
        AgentRequest::ListClients => Operation::ClientList,
        AgentRequest::Regions(_) => Operation::MemoryRegions,
        AgentRequest::Read(_) => Operation::MemoryRead,
        AgentRequest::ReadBatch(_) => Operation::MemoryReadBatch,
        AgentRequest::ReadTyped(_) => Operation::MemoryReadTyped,
        AgentRequest::Scan(_) => Operation::MemoryScan,
        AgentRequest::PointerChain(_) => Operation::MemoryPointerChain,
        AgentRequest::ListProcesses(_) => Operation::ProcessList,
        AgentRequest::Open(_) => Operation::ProcessOpen,
        AgentRequest::Close(_) => Operation::ProcessClose,
        AgentRequest::Status(_) => Operation::ProcessStatus,
        AgentRequest::Modules(_) => Operation::ModuleList,
    }
}

fn asked_by(request: &AgentRequest) -> (operation: Operation)
    ensures
        operation == asked(*request),
{
    match request {
        AgentRequest::Health => Operation::AgentHealth,
        AgentRequest::Shutdown(_) => Operation::AgentShutdown,
        AgentRequest::Probe(_) => Operation::Probe,
        AgentRequest::ListClients => Operation::ClientList,
        AgentRequest::Regions(_) => Operation::MemoryRegions,
        AgentRequest::Read(_) => Operation::MemoryRead,
        AgentRequest::ReadBatch(_) => Operation::MemoryReadBatch,
        AgentRequest::ReadTyped(_) => Operation::MemoryReadTyped,
        AgentRequest::Scan(_) => Operation::MemoryScan,
        AgentRequest::PointerChain(_) => Operation::MemoryPointerChain,
        AgentRequest::ListProcesses(_) => Operation::ProcessList,
        AgentRequest::Open(_) => Operation::ProcessOpen,
        AgentRequest::Close(_) => Operation::ProcessClose,
        AgentRequest::Status(_) => Operation::ProcessStatus,
        AgentRequest::Modules(_) => Operation::ModuleList,
    }
}

/// Where an agent stands.
#[verifier::ext_equal]
pub ghost struct Agent<H> {
    pub clients: Clients,
    pub sessions: Sessions<H>,
    pub shutting_down: bool,
}

/// An agent on one platform.
pub struct AgentService<B: MemoryBackend> {
    backend: B,
    identity: AgentIdentity,
    clients: ClientRegistry,
    sessions: ProcessSessionRegistry<B::Handle>,
    shutting_down: bool,
}

impl<B: MemoryBackend> View for AgentService<B> {
    type V = Agent<B::Handle>;

    closed spec fn view(&self) -> Agent<B::Handle> {
        Agent {
            clients: self.clients@,
            sessions: self.sessions@,
            shutting_down: self.shutting_down,
        }
    }
}

/// A refusal with the context of the call.
pub open spec fn refuses<T>(answer: Result<T, RpcError>, call: RpcCall, fault: Failure) -> bool {
    answer matches Err(error) && error.answers(fault, call.request_id, call.operation@)
        && error.native_context == call.native_context
}

/// A failure of the operation itself.
pub open spec fn fails<T>(answer: Result<T, RpcError>, call: RpcCall, fault: Failure) -> bool {
    answer matches Err(error) && error.answers(fault, call.request_id, call.operation@)
        && error.native_context is None
}

/// Why a call is refused before its operation is tried.
pub open spec fn call_refusal(
    shutting_down: bool,
    call: RpcCall,
    payload: Result<AgentRequest, String>,
) -> Option<Failure> {
    let operation = operation_named(call.operation@);
    if shutting_down && operation != Some(Operation::AgentHealth) && operation != Some(
        Operation::AgentShutdown,
    ) {
        Some(
            failure(
                RpcErrorCode::InvalidRequest,
                "agent is shutting down; reconnect after the host starts a replacement"@,
            ),
        )
    } else {
        match operation {
            None => Some(
                failure(
                    RpcErrorCode::UnsupportedOperation,
                    "unsupported operation: "@ + call.operation@,
                ),
            ),
            Some(operation) => match payload {
                Err(problem) => Some(
                    failure(
                        RpcErrorCode::InvalidRequest,
                        call.operation@ + " payload is invalid: "@ + problem@,
                    ),
                ),
                Ok(request) => if asked(request) != operation {
                    Some(
                        failure(
                            RpcErrorCode::InvalidRequest,
                            call.operation@ + " payload is invalid: it is for another operation"@,
                        ),
                    )
                } else {
                    None
                },
            },
        }
    }
}

/// What a request does that lists the clients.
pub open spec fn lists_clients<B: MemoryBackend>(
    backend: &B,
    before: Agent<B::Handle>,
    call: RpcCall,
    after: Agent<B::Handle>,
    answer: Result<AgentResponse, RpcError>,
) -> bool {
    &&& after == (Agent { clients: after.clients, ..before })
    &&& exists|inner: Result<ListClientsResponse, ProcessBackendError>|
        {
            &&& #[trigger] listed(backend, before.clients, after.clients, inner)
            &&& match inner {
                Ok(response) => answer == Ok::<AgentResponse, RpcError>(
                    AgentResponse::Clients(response),
                ),
                Err(error) => fails(answer, call, backend_failure(error, None, None)),
            }
        }
}

/// What a request does that lists the regions of a process.
pub open spec fn serves_regions<B: MemoryBackend>(
    backend: &B,
    before: Agent<B::Handle>,
    call: RpcCall,
    request: MemorySessionRequest,
    after: Agent<B::Handle>,
    answer: Result<AgentResponse, RpcError>,
) -> bool {
    let on_sessions = after == (Agent { sessions: after.sessions, ..before });
    &&& on_sessions
    &&& exists|inner: Result<MemoryRegionsResponse, MemoryApiError>|
        {
            &&& #[trigger] regions_does(
                backend,
                before.sessions,
                request,
                after.sessions,
                inner,
            )
            &&& match inner {
                Ok(response) => answer == Ok::<AgentResponse, RpcError>(
                    AgentResponse::Regions(response),
                ),
                Err(error) => fails(answer, call, error@),
            }
        }
}

/// What a request does that reads memory.
pub open spec fn serves_read<B: MemoryBackend>(
    backend: &B,
    before: Agent<B::Handle>,
    call: RpcCall,
    request: MemoryReadRequest,
    after: Agent<B::Handle>,
    answer: Result<AgentResponse, RpcError>,
) -> bool {
    let on_sessions = after == (Agent { sessions: after.sessions, ..before });
    &&& on_sessions
    &&& exists|inner: Result<MemoryReadResponse, MemoryApiError>|
        {
            &&& #[trigger] read_does(
                backend,
                before.sessions,
                request,
                after.sessions,
                inner,
            )
            &&& match inner {
                Ok(response) => answer == Ok::<AgentResponse, RpcError>(
                    AgentResponse::Read(response),
                ),
                Err(error) => fails(answer, call, error@),
            }
        }
}

/// What a request does that reads memory in several places.
pub open spec fn serves_batch<B: MemoryBackend>(
    backend: &B,
    before: Agent<B::Handle>,
    call: RpcCall,
    request: MemoryBatchReadRequest,
    after: Agent<B::Handle>,
    answer: Result<AgentResponse, RpcError>,
) -> bool {
    let on_sessions = after == (Agent { sessions: after.sessions, ..before });
    &&& on_sessions
    &&& exists|inner: Result<MemoryBatchReadResponse, MemoryApiError>|
        {
            &&& #[trigger] read_batch_does(
                backend,
                before.sessions,
                request,
                after.sessions,
                inner,
            )
            &&& match inner {
                Ok(response) => answer == Ok::<AgentResponse, RpcError>(
                    AgentResponse::ReadBatch(response),
                ),
                Err(error) => fails(answer, call, error@),
            }
        }
}

/// What a request does that reads a value.
pub open spec fn serves_typed<B: MemoryBackend>(
    backend: &B,
    before: Agent<B::Handle>,
    call: RpcCall,
    request: TypedMemoryReadRequest,
    after: Agent<B::Handle>,
    answer: Result<AgentResponse, RpcError>,
) -> bool {
    let on_sessions = after == (Agent { sessions: after.sessions, ..before });
    &&& on_sessions
    &&& exists|inner: Result<TypedMemoryReadResponse, MemoryApiError>|
        {
            &&& #[trigger] read_typed_does(
                backend,
                before.sessions,
                request,
                after.sessions,
                inner,
            )
            &&& match inner {
                Ok(response) => answer == Ok::<AgentResponse, RpcError>(
                    AgentResponse::ReadTyped(response),
                ),
                Err(error) => fails(answer, call, error@),
            }
        }
}

/// What a request does that searches memory.
pub open spec fn serves_scan<B: MemoryBackend>(
    backend: &B,
    before: Agent<B::Handle>,
    call: RpcCall,
    request: MemoryScanRequest,
    after: Agent<B::Handle>,
    answer: Result<AgentResponse, RpcError>,
) -> bool {
    let on_sessions = after == (Agent { sessions: after.sessions, ..before });
    &&& on_sessions
    &&& exists|inner: Result<MemoryScanResponse, MemoryApiError>|
        {
            &&& #[trigger] scan_does(
                backend,
                before.sessions,
                request,
                after.sessions,
                inner,
            )
            &&& match inner {
                Ok(response) => answer == Ok::<AgentResponse, RpcError>(
                    AgentResponse::Scan(response),
                ),
                Err(error) => fails(answer, call, error@),
            }
        }
}

/// What a request does that follows pointers.
pub open spec fn serves_chain<B: MemoryBackend>(
    backend: &B,
    before: Agent<B::Handle>,
    call: RpcCall,
    request: MemoryPointerChainRequest,
    after: Agent<B::Handle>,
    answer: Result<AgentResponse, RpcError>,
) -> bool {
    let on_sessions = after == (Agent { sessions: after.sessions, ..before });
    &&& on_sessions
    &&& exists|inner: Result<MemoryPointerChainResponse, MemoryApiError>|
        {
            &&& #[trigger] pointer_chain_does(
                backend,
                before.sessions,
                request,
                after.sessions,
                inner,
            )
            &&& match inner {
                Ok(response) => answer == Ok::<AgentResponse, RpcError>(
                    AgentResponse::PointerChain(response),
                ),
                Err(error) => fails(answer, call, error@),
            }
        }
}

/// What a request does that lists processes.
pub open spec fn serves_processes<B: MemoryBackend>(
    backend: &B,
    before: Agent<B::Handle>,
    call: RpcCall,
    request: ListProcessesRequest,
    after: Agent<B::Handle>,
    answer: Result<AgentResponse, RpcError>,
) -> bool {
    &&& after == before
    &&& exists|
        reported: Result<Vec<ProcessDescriptor>, ProcessBackendError>,
        inner: Result<ListProcessesResponse, ProcessApiError>,
    |
        {
            &&& call_ensures(B::list_processes, (backend,), reported)
            &&& #[trigger] lists(request.names@, reported, inner)
            &&& match inner {
                Ok(response) => answer == Ok::<AgentResponse, RpcError>(
                    AgentResponse::Processes(response),
                ),
                Err(error) => fails(answer, call, error@),
            }
        }
}

/// What a request does that opens a session.
pub open spec fn serves_open<B: MemoryBackend>(
    backend: &B,
    before: Agent<B::Handle>,
    call: RpcCall,
    request: OpenProcessRequest,
    after: Agent<B::Handle>,
    answer: Result<AgentResponse, RpcError>,
) -> bool {
    let on_sessions = after == (Agent { sessions: after.sessions, ..before });
    if before.sessions.next_session >= u64::MAX {
        after == before && refuses(
            answer,
            call,
            failure(RpcErrorCode::Internal, "no process session name is left"@),
        )
    } else {
        &&& on_sessions
        &&& exists|
            opened: Result<OpenedProcess<B::Handle>, ProcessBackendError>,
            inner: Result<ProcessSessionResponse, ProcessApiError>,
        |
            {
                &&& call_ensures(
                    B::open_process_for_access,
                    (backend, request.pid, request.access_mode),
                    opened,
                )
                &&& #[trigger] opens(before.sessions, request, opened, after.sessions, inner)
                &&& match inner {
                    Ok(response) => answer == Ok::<AgentResponse, RpcError>(
                        AgentResponse::Open(response),
                    ),
                    Err(error) => fails(answer, call, error@),
                }
            }
    }
}

/// What a request does that closes a session.
pub open spec fn serves_close<B: MemoryBackend>(
    backend: &B,
    before: Agent<B::Handle>,
    call: RpcCall,
    request: SessionRequest,
    after: Agent<B::Handle>,
    answer: Result<AgentResponse, RpcError>,
) -> bool {
    let on_sessions = after == (Agent { sessions: after.sessions, ..before });
    &&& on_sessions
    &&& exists|
        outcome: Result<(), ProcessBackendError>,
        inner: Result<ProcessSessionResponse, ProcessApiError>,
    |
        {
            &&& checked(backend, before.sessions, request.session_id.0@, outcome)
            &&& #[trigger] closes(
                before.sessions,
                request.session_id.0@,
                outcome,
                after.sessions,
                inner,
            )
            &&& match inner {
                Ok(response) => answer == Ok::<AgentResponse, RpcError>(
                    AgentResponse::Close(response),
                ),
                Err(error) => fails(answer, call, error@),
            }
        }
}

/// What a request does that asks for a session.
pub open spec fn serves_status<B: MemoryBackend>(
    backend: &B,
    before: Agent<B::Handle>,
    call: RpcCall,
    request: SessionRequest,
    after: Agent<B::Handle>,
    answer: Result<AgentResponse, RpcError>,
) -> bool {
    let on_sessions = after == (Agent { sessions: after.sessions, ..before });
    &&& on_sessions
    &&& exists|
        outcome: Result<(), ProcessBackendError>,
        inner: Result<ProcessSessionResponse, ProcessApiError>,
    |
        {
            &&& #[trigger] stands(
                backend,
                before.sessions,
                request.session_id.0@,
                outcome,
                after.sessions,
                inner,
            )
            &&& match inner {
                Ok(response) => answer == Ok::<AgentResponse, RpcError>(
                    AgentResponse::Status(response),
                ),
                Err(error) => fails(answer, call, error@),
            }
        }
}

/// What a request does that lists the modules of a process.
pub open spec fn serves_modules<B: MemoryBackend>(
    backend: &B,
    before: Agent<B::Handle>,
    call: RpcCall,
    request: SessionRequest,
    after: Agent<B::Handle>,
    answer: Result<AgentResponse, RpcError>,
) -> bool {
    let on_sessions = after == (Agent { sessions: after.sessions, ..before });
    &&& on_sessions
    &&& exists|
        entered: Result<(), ProcessBackendError>,
        modules: Result<Vec<ModuleDescriptor>, ProcessBackendError>,
        inner: Result<ListModulesResponse, ProcessApiError>,
    |
        {
            &&& modules_reported(
                backend,
                before.sessions,
                request.session_id.0@,
                entered,
                modules,
            )
            &&& #[trigger] lists_modules(
                before.sessions,
                request.session_id.0@,
                entered,
                modules,
                after.sessions,
                inner,
            )
            &&& match inner {
                Ok(response) => answer == Ok::<AgentResponse, RpcError>(
                    AgentResponse::Modules(response),
                ),
                Err(error) => fails(answer, call, error@),
            }
        }
}

/// What answering a request does.
pub open spec fn serves<B: MemoryBackend>(
    backend: &B,
    identity: AgentIdentity,
    before: Agent<B::Handle>,
    call: RpcCall,
    request: AgentRequest,
    after: Agent<B::Handle>,
    answer: Result<AgentResponse, RpcError>,
) -> bool {
    let on_sessions = after == (Agent { sessions: after.sessions, ..before });
    match request {
        AgentRequest::Health => {
            &&& on_sessions
            &&& exists|outcomes: Map<Seq<char>, Result<(), ProcessBackendError>>| #[trigger]
                all_checked(backend, before.sessions, outcomes) && after.sessions == refreshed(
                    before.sessions,
                    outcomes,
                )
            &&& answer matches Ok(AgentResponse::Health(health)) && {
                &&& health.identity == identity
                &&& health.state == if before.shutting_down {
                    AgentState::ShuttingDown
                } else {
                    AgentState::Ready
                }
                &&& health.sessions.open == count_in(
                    after.sessions.sessions,
                    ProcessSessionState::Open,
                )
                &&& health.sessions.closed == count_in(
                    after.sessions.sessions,
                    ProcessSessionState::Closed,
                )
                &&& health.sessions.exited == count_in(
                    after.sessions.sessions,
                    ProcessSessionState::Exited,
                )
            }
        },
        AgentRequest::Shutdown(request) => if is_blank(request.reason@) {
            after == before && refuses(
                answer,
                call,
                failure(
                    RpcErrorCode::InvalidRequest,
                    "agent.shutdown requires a non-empty reason"@,
                ),
            )
        } else {
            &&& after == (Agent { shutting_down: true, ..before })
            &&& answer matches Ok(AgentResponse::Shutdown(response)) && {
                &&& response.identity == identity
                &&& response.state == AgentState::ShuttingDown
                &&& response.reason@ == request.reason@
            }
        },
        AgentRequest::Probe(request) => {
            &&& after == before
            &&& answer == Ok::<AgentResponse, RpcError>(AgentResponse::RunProbe(request))
        },
        AgentRequest::ListClients => lists_clients(backend, before, call, after, answer),
        AgentRequest::Regions(request) => serves_regions(backend, before, call, request, after, answer),
        AgentRequest::Read(request) => serves_read(backend, before, call, request, after, answer),
        AgentRequest::ReadBatch(request) => serves_batch(backend, before, call, request, after, answer),
        AgentRequest::ReadTyped(request) => serves_typed(backend, before, call, request, after, answer),
        AgentRequest::Scan(request) => serves_scan(backend, before, call, request, after, answer),
        AgentRequest::PointerChain(request) => serves_chain(backend, before, call, request, after, answer),
        AgentRequest::ListProcesses(request) => serves_processes(
            backend,
            before,
            call,
            request,
            after,
            answer,
        ),
        AgentRequest::Open(request) => serves_open(backend, before, call, request, after, answer),
        AgentRequest::Close(request) => serves_close(backend, before, call, request, after, answer),
        AgentRequest::Status(request) => serves_status(backend, before, call, request, after, answer),
        AgentRequest::Modules(request) => serves_modules(backend, before, call, request, after, answer),
    }
}

/// What asking for a session does.
pub open spec fn stands<B: MemoryBackend>(
    backend: &B,
    held: Sessions<B::Handle>,
    id: Seq<char>,
    outcome: Result<(), ProcessBackendError>,
    later: Sessions<B::Handle>,
    inner: Result<ProcessSessionResponse, ProcessApiError>,
) -> bool {
    let (then, fault) = after_ensure_live(held, id, outcome);
    &&& checked(backend, held, id, outcome)
    &&& later == then
    &&& reports(inner, fault)
    &&& inner matches Ok(response) ==> describes(response, id, later.sessions[id])
}

/// What a call does.
pub open spec fn handles<B: MemoryBackend>(
    backend: &B,
    identity: AgentIdentity,
    before: Agent<B::Handle>,
    call: RpcCall,
    payload: Result<AgentRequest, String>,
    after: Agent<B::Handle>,
    answer: Result<AgentResponse, RpcError>,
) -> bool {
    match call_refusal(before.shutting_down, call, payload) {
        Some(fault) => after == before && refuses(answer, call, fault),
        None => serves(backend, identity, before, call, payload->Ok_0, after, answer),
    }
}

fn refusal(call: &RpcCall, code: RpcErrorCode, message: String) -> (error: RpcError)
    ensures
        error.answers(failure(code, message@), call.request_id, call.operation@),
        error.native_context == call.native_context,
{
    RpcError::new(
        code,
        message,
        call.request_id,
        call.operation.as_str(),
        call.native_context.clone(),
    )
}

impl<B: MemoryBackend> AgentService<B> {
    /// The registries are in order.
    pub closed spec fn wf(&self) -> bool {
        self.clients.wf() && self.sessions.wf()
    }

    /// The platform.
    pub closed spec fn platform(&self) -> &B {
        &self.backend
    }

    /// Who the agent is.
    pub closed spec fn who(&self) -> AgentIdentity {
        self.identity
    }

    /// An agent of the given identity. The numbers tell its registries from those of other
    /// agents.
    pub fn with_identity(
        backend: B,
        identity: AgentIdentity,
        client_registry: u64,
        session_registry: u64,
    ) -> (service: Self)
        ensures
            service.wf(),
            *service.platform() == backend,
            service.who() == identity,
            !service@.shutting_down,
            service@.sessions.sessions.dom() == Set::<Seq<char>>::empty(),
            service@.sessions.id_prefix == registry_prefix(identity.process_id, session_registry),
            service@.sessions.next_session == 1,
            service@.clients.entries.len() == 0,
            service@.clients.id_prefix == "client-"@ + dec_text(client_registry as nat),
            service@.clients.next_client == 1,
    {
        let process_id: u32 = identity.process_id;
        AgentService {
            backend,
            identity,
            clients: ClientRegistry::new(client_registry),
            sessions: ProcessSessionRegistry::new(process_id, session_registry),
            shutting_down: false,
        }
    }

    /// Who the agent is.
    pub fn identity(&self) -> (identity: &AgentIdentity)
        ensures
            *identity == self.who(),
    {
        &self.identity
    }

    /// Whether the agent has been told to end.
    pub fn is_shutting_down(&self) -> (yes: bool)
        ensures
            yes == self@.shutting_down,
    {
        self.shutting_down
    }

    /// Whether one more connection is served beside those that are open.
    pub fn admits_connection(&self, open_connections: usize) -> (yes: bool)
        ensures
            yes <==> !self@.shutting_down && open_connections < MAX_AGENT_CONNECTIONS,
    {
        !self.shutting_down && open_connections < MAX_AGENT_CONNECTIONS
    }

    fn check_call(&self, call: &RpcCall, payload: &Result<AgentRequest, String>) -> (verdict: Result<
        (),
        RpcError,
    >)
        ensures
            match call_refusal(self@.shutting_down, *call, *payload) {
                None => verdict is Ok,
                Some(fault) => refuses(verdict, *call, fault),
            },
    {
        let operation = operation_of(call.operation.as_str());
        let lifecycle = match operation {
            Some(Operation::AgentHealth) | Some(Operation::AgentShutdown) => true,
            _ => false,
        };
        if self.shutting_down && !lifecycle {
            return Err(
                refusal(
                    call,
                    RpcErrorCode::InvalidRequest,
                    "agent is shutting down; reconnect after the host starts a replacement".to_owned(),
                ),
            );
        }
        let operation = match operation {
            Some(operation) => operation,
            None => {
                return Err(
                    refusal(
                        call,
                        RpcErrorCode::UnsupportedOperation,
                        join2("unsupported operation: ", call.operation.as_str()),
                    ),
                );
            },
        };
        match payload {
            Err(problem) => Err(
                refusal(
                    call,
                    RpcErrorCode::InvalidRequest,
                    join3(
                        call.operation.as_str(),
                        " payload is invalid: ",
                        problem.as_str(),
                    ),
                ),
            ),
            Ok(request) => if asked_by(request) != operation {
                Err(
                    refusal(
                        call,
                        RpcErrorCode::InvalidRequest,
                        join2(
                            call.operation.as_str(),
                            " payload is invalid: it is for another operation",
                        ),
                    ),
                )
            } else {
                Ok(())
            },
        }
    }

    /// Answers a call of a host. The payload was read for the operation of the call, or could
    /// not be.
    pub fn handle_call(
        &mut self,
        call: &RpcCall,
        payload: Result<AgentRequest, String>,
    ) -> (answer: Result<AgentResponse, RpcError>)
        requires
            old(self).wf(),
        ensures
            final(self).wf(),
            final(self).platform() == old(self).platform(),
            final(self).who() == old(self).who(),
            handles(
                old(self).platform(),
                old(self).who(),
                old(self)@,
                *call,
                payload,
                final(self)@,
                answer,
            ),
    {
        self.check_call(call, &payload)?;
        match payload {
            Ok(request) => self.serve_request(call, request),
            Err(_) => {
                assert(false);
                Err(refusal(call, RpcErrorCode::Internal, "".to_owned()))
            },
        }
    }

    fn serve_request(&mut self, call: &RpcCall, request: AgentRequest) -> (answer: Result<
        AgentResponse,
        RpcError,
    >)
        requires
            old(self).wf(),
        ensures
            final(self).wf(),
            final(self).platform() == old(self).platform(),
            final(self).who() == old(self).who(),
            serves(
                old(self).platform(),
                old(self).who(),
                old(self)@,
                *call,
                request,
                final(self)@,
                answer,
            ),
    {
        match request {
            AgentRequest::Health => self.health(),
            AgentRequest::Shutdown(request) => self.shut_down(call, request),
            AgentRequest::Probe(request) => Ok(AgentResponse::RunProbe(request)),
            AgentRequest::ListClients => self.list_clients(call),
            AgentRequest::Regions(request) => self.serve_regions(call, request),
            AgentRequest::Read(request) => self.serve_read(call, request),
            AgentRequest::ReadBatch(request) => self.read_batch(call, request),
            AgentRequest::ReadTyped(request) => self.read_typed(call, request),
            AgentRequest::Scan(request) => self.serve_scan(call, request),
            AgentRequest::PointerChain(request) => self.pointer_chain(call, request),
            AgentRequest::ListProcesses(request) => self.list_processes(call, request),
            AgentRequest::Open(request) => self.open(call, request),
            AgentRequest::Close(request) => self.close(call, request),
            AgentRequest::Status(request) => self.status(call, request),
            AgentRequest::Modules(request) => self.modules(call, request),
        }
    }

    fn health(&mut self) -> (answer: Result<AgentResponse, RpcError>)
        requires
            old(self).wf(),
        ensures
            final(self).wf(),
            final(self).platform() == old(self).platform(),
            final(self).who() == old(self).who(),
            forall|call: RpcCall| #[trigger]
                serves(
                    old(self).platform(),
                    old(self).who(),
                    old(self)@,
                    call,
                    AgentRequest::Health,
                    final(self)@,
                    answer,
                ),
    {
        let ghost held = self.sessions@;
        let sessions = self.sessions.refresh_and_diagnose(&self.backend);
        let state = if self.shutting_down {
            AgentState::ShuttingDown
        } else {
            AgentState::Ready
        };
        Ok(
            AgentResponse::Health(
                AgentHealth { identity: self.identity.clone(), state, sessions },
            ),
        )
    }

    fn shut_down(
        &mut self,
        call: &RpcCall,
        request: AgentShutdownRequest,
    ) -> (answer: Result<AgentResponse, RpcError>)
        requires
            old(self).wf(),
        ensures
            final(self).wf(),
            final(self).platform() == old(self).platform(),
            final(self).who() == old(self).who(),
            serves(
                old(self).platform(),
                old(self).who(),
                old(self)@,
                *call,
                AgentRequest::Shutdown(request),
                final(self)@,
                answer,
            ),
    {
        if blank(request.reason.as_str()) {
            return Err(
                refusal(
                    call,
                    RpcErrorCode::InvalidRequest,
                    "agent.shutdown requires a non-empty reason".to_owned(),
                ),
            );
        }
        self.shutting_down = true;
        Ok(
            AgentResponse::Shutdown(
                AgentShutdownResponse {
                    identity: self.identity.clone(),
                    state: AgentState::ShuttingDown,
                    reason: request.reason,
                },
            ),
        )
    }

    fn list_clients(&mut self, call: &RpcCall) -> (answer: Result<AgentResponse, RpcError>)
        requires
            old(self).wf(),
        ensures
            final(self).wf(),
            final(self).platform() == old(self).platform(),
            final(self).who() == old(self).who(),
            serves(
                old(self).platform(),
                old(self).who(),
                old(self)@,
                *call,
                AgentRequest::ListClients,
                final(self)@,
                answer,
            ),
    {
        let ghost before = self@;
        let inner = self.clients.list(&self.backend);
        let ghost seen = inner;
        proof {
            assert(listed(&self.backend, before.clients, self.clients@, seen));
        }
        let answer = match inner {
            Ok(response) => Ok(AgentResponse::Clients(response)),
            Err(error) => Err(
                ProcessApiError::from_backend(error, None, None).into_rpc_error(
                    call.request_id,
                    call.operation.as_str(),
                ),
            ),
        };
        proof {
            lemma_listclients(
                &self.backend,
                before,
                *call,
                self@,
                seen,
                answer,
            );
        }
        answer
    }

    fn serve_regions(
        &mut self,
        call: &RpcCall,
        request: MemorySessionRequest,
    ) -> (answer: Result<AgentResponse, RpcError>)
        requires
            old(self).wf(),
        ensures
            final(self).wf(),
            final(self).platform() == old(self).platform(),
            final(self).who() == old(self).who(),
            serves(
                old(self).platform(),
                old(self).who(),
                old(self)@,
                *call,
                AgentRequest::Regions(request),
                final(self)@,
                answer,
            ),
    {
        let ghost before = self@;
        let inner = memory::regions(&mut self.sessions, &self.backend, &request);
        let ghost seen = inner;
        let answer = match inner {
            Ok(response) => Ok(AgentResponse::Regions(response)),
            Err(error) => Err(error.into_rpc_error(call.request_id, call.operation.as_str())),
        };
        proof {
            lemma_regions(
                &self.backend,
                before,
                *call,
                request,
                self@,
                seen,
                answer,
            );
        }
        answer
    }

    fn serve_read(
        &mut self,
        call: &RpcCall,
        request: MemoryReadRequest,
    ) -> (answer: Result<AgentResponse, RpcError>)
        requires
            old(self).wf(),
        ensures
            final(self).wf(),
            final(self).platform() == old(self).platform(),
            final(self).who() == old(self).who(),
            serves(
                old(self).platform(),
                old(self).who(),
                old(self)@,
                *call,
                AgentRequest::Read(request),
                final(self)@,
                answer,
            ),
    {
        let ghost before = self@;
        let inner = memory::read(&mut self.sessions, &self.backend, &request);
        let ghost seen = inner;
        let answer = match inner {
            Ok(response) => Ok(AgentResponse::Read(response)),
            Err(error) => Err(error.into_rpc_error(call.request_id, call.operation.as_str())),
        };
        proof {
            lemma_read(
                &self.backend,
                before,
                *call,
                request,
                self@,
                seen,
                answer,
            );
        }
        answer
    }

    fn read_batch(
        &mut self,
        call: &RpcCall,
        request: MemoryBatchReadRequest,
    ) -> (answer: Result<AgentResponse, RpcError>)
        requires
            old(self).wf(),
        ensures
            final(self).wf(),
            final(self).platform() == old(self).platform(),
            final(self).who() == old(self).who(),
            serves(
                old(self).platform(),
                old(self).who(),
                old(self)@,
                *call,
                AgentRequest::ReadBatch(request),
                final(self)@,
                answer,
            ),
    {
        let ghost before = self@;
        let inner = memory::read_batch(&mut self.sessions, &self.backend, &request);
        let ghost seen = inner;
        let answer = match inner {
            Ok(response) => Ok(AgentResponse::ReadBatch(response)),
            Err(error) => Err(error.into_rpc_error(call.request_id, call.operation.as_str())),
        };
        proof {
            lemma_readbatch(
                &self.backend,
                before,
                *call,
                request,
                self@,
                seen,
                answer,
            );
        }
        answer
    }

    fn read_typed(
        &mut self,
        call: &RpcCall,
        request: TypedMemoryReadRequest,
    ) -> (answer: Result<AgentResponse, RpcError>)
        requires
            old(self).wf(),
        ensures
            final(self).wf(),
            final(self).platform() == old(self).platform(),
            final(self).who() == old(self).who(),
            serves(
                old(self).platform(),
                old(self).who(),
                old(self)@,
                *call,
                AgentRequest::ReadTyped(request),
                final(self)@,
                answer,
            ),
    {
        let ghost before = self@;
        let inner = memory::read_typed(&mut self.sessions, &self.backend, &request);
        let ghost seen = inner;
        let answer = match inner {
            Ok(response) => Ok(AgentResponse::ReadTyped(response)),
            Err(error) => Err(error.into_rpc_error(call.request_id, call.operation.as_str())),
        };
        proof {
            lemma_readtyped(
                &self.backend,
                before,
                *call,
                request,
                self@,
                seen,
                answer,
            );
        }
        answer
    }

    fn serve_scan(
        &mut self,
        call: &RpcCall,
        request: MemoryScanRequest,
    ) -> (answer: Result<AgentResponse, RpcError>)
        requires
            old(self).wf(),
        ensures
            final(self).wf(),
            final(self).platform() == old(self).platform(),
            final(self).who() == old(self).who(),
            serves(
                old(self).platform(),
                old(self).who(),
                old(self)@,
                *call,
                AgentRequest::Scan(request),
                final(self)@,
                answer,
            ),
    {
        let ghost before = self@;
        let inner = memory::scan(&mut self.sessions, &self.backend, &request);
        let ghost seen = inner;
        let answer = match inner {
            Ok(response) => Ok(AgentResponse::Scan(response)),
            Err(error) => Err(error.into_rpc_error(call.request_id, call.operation.as_str())),
        };
        proof {
            lemma_scan(
                &self.backend,
                before,
                *call,
                request,
                self@,
                seen,
                answer,
            );
        }
        answer
    }

    fn pointer_chain(
        &mut self,
        call: &RpcCall,
        request: MemoryPointerChainRequest,
    ) -> (answer: Result<AgentResponse, RpcError>)
        requires
            old(self).wf(),
        ensures
            final(self).wf(),
            final(self).platform() == old(self).platform(),
            final(self).who() == old(self).who(),
            serves(
                old(self).platform(),
                old(self).who(),
                old(self)@,
                *call,
                AgentRequest::PointerChain(request),
                final(self)@,
                answer,
            ),
    {
        let ghost before = self@;
        let inner = memory::pointer_chain(&mut self.sessions, &self.backend, &request);
        let ghost seen = inner;
        let answer = match inner {
            Ok(response) => Ok(AgentResponse::PointerChain(response)),
            Err(error) => Err(error.into_rpc_error(call.request_id, call.operation.as_str())),
        };
        proof {
            lemma_pointerchain(
                &self.backend,
                before,
                *call,
                request,
                self@,
                seen,
                answer,
            );
        }
        answer
    }

    fn list_processes(
        &mut self,
        call: &RpcCall,
        request: ListProcessesRequest,
    ) -> (answer: Result<AgentResponse, RpcError>)
        requires
            old(self).wf(),
        ensures
            final(self).wf(),
            final(self).platform() == old(self).platform(),
            final(self).who() == old(self).who(),
            serves(
                old(self).platform(),
                old(self).who(),
                old(self)@,
                *call,
                AgentRequest::ListProcesses(request),
                final(self)@,
                answer,
            ),
    {
        let ghost before = self@;
        let inner = self.sessions.list(&self.backend, &request);
        let ghost seen = inner;
        let ghost reported = choose|reported: Result<Vec<ProcessDescriptor>, ProcessBackendError>|
            call_ensures(B::list_processes, (&self.backend,), reported) && #[trigger] lists(
                request.names@,
                reported,
                seen,
            );
        let answer = match inner {
            Ok(response) => Ok(AgentResponse::Processes(response)),
            Err(error) => Err(error.into_rpc_error(call.request_id, call.operation.as_str())),
        };
        proof {
            lemma_listprocesses(
                &self.backend,
                before,
                *call,
                request,
                self@,
                reported,
                seen,
                answer,
            );
        }
        answer
    }

    fn open(
        &mut self,
        call: &RpcCall,
        request: OpenProcessRequest,
    ) -> (answer: Result<AgentResponse, RpcError>)
        requires
            old(self).wf(),
        ensures
            final(self).wf(),
            final(self).platform() == old(self).platform(),
            final(self).who() == old(self).who(),
            serves(
                old(self).platform(),
                old(self).who(),
                old(self)@,
                *call,
                AgentRequest::Open(request),
                final(self)@,
                answer,
            ),
    {
        let ghost before = self@;
        if self.sessions.exhausted() {
            return Err(
                refusal(
                    call,
                    RpcErrorCode::Internal,
                    "no process session name is left".to_owned(),
                ),
            );
        }
        let inner = self.sessions.open(&self.backend, &request);
        let ghost seen = inner;
        let ghost opened = choose|opened: Result<OpenedProcess<B::Handle>, ProcessBackendError>|
            call_ensures(
                B::open_process_for_access,
                (&self.backend, request.pid, request.access_mode),
                opened,
            ) && #[trigger] opens(before.sessions, request, opened, self.sessions@, seen);
        let answer = match inner {
            Ok(response) => Ok(AgentResponse::Open(response)),
            Err(error) => Err(error.into_rpc_error(call.request_id, call.operation.as_str())),
        };
        proof {
            lemma_open(
                &self.backend,
                before,
                *call,
                request,
                self@,
                opened,
                seen,
                answer,
            );
        }
        answer
    }

    fn close(
        &mut self,
        call: &RpcCall,
        request: SessionRequest,
    ) -> (answer: Result<AgentResponse, RpcError>)
        requires
            old(self).wf(),
        ensures
            final(self).wf(),
            final(self).platform() == old(self).platform(),
            final(self).who() == old(self).who(),
            serves(
                old(self).platform(),
                old(self).who(),
                old(self)@,
                *call,
                AgentRequest::Close(request),
                final(self)@,
                answer,
            ),
    {
        let ghost before = self@;
        let inner = self.sessions.close(&self.backend, &request.session_id);
        let ghost seen = inner;
        let ghost outcome = choose|outcome: Result<(), ProcessBackendError>| #[trigger]
            checked(&self.backend, before.sessions, request.session_id.0@, outcome) && closes(
                before.sessions,
                request.session_id.0@,
                outcome,
                self.sessions@,
                seen,
            );
        let answer = match inner {
            Ok(response) => Ok(AgentResponse::Close(response)),
            Err(error) => Err(error.into_rpc_error(call.request_id, call.operation.as_str())),
        };
        proof {
            lemma_close(
                &self.backend,
                before,
                *call,
                request,
                self@,
                outcome,
                seen,
                answer,
            );
        }
        answer
    }

    fn status(
        &mut self,
        call: &RpcCall,
        request: SessionRequest,
    ) -> (answer: Result<AgentResponse, RpcError>)
        requires
            old(self).wf(),
        ensures
            final(self).wf(),
            final(self).platform() == old(self).platform(),
            final(self).who() == old(self).who(),
            serves(
                old(self).platform(),
                old(self).who(),
                old(self)@,
                *call,
                AgentRequest::Status(request),
                final(self)@,
                answer,
            ),
    {
        let ghost before = self@;
        let inner = self.sessions.status(&self.backend, &request.session_id);
        let ghost seen = inner;
        let ghost outcome = choose|outcome: Result<(), ProcessBackendError>| #[trigger]
            checked(&self.backend, before.sessions, request.session_id.0@, outcome) && ({
                let (later, fault) = after_ensure_live(
                    before.sessions,
                    request.session_id.0@,
                    outcome,
                );
                self.sessions@ == later && reports(seen, fault)
            });
        let answer = match inner {
            Ok(response) => Ok(AgentResponse::Status(response)),
            Err(error) => Err(error.into_rpc_error(call.request_id, call.operation.as_str())),
        };
        proof {
            lemma_status(
                &self.backend,
                before,
                *call,
                request,
                self@,
                outcome,
                seen,
                answer,
            );
        }
        answer
    }

    fn modules(
        &mut self,
        call: &RpcCall,
        request: SessionRequest,
    ) -> (answer: Result<AgentResponse, RpcError>)
        requires
            old(self).wf(),
        ensures
            final(self).wf(),
            final(self).platform() == old(self).platform(),
            final(self).who() == old(self).who(),
            serves(
                old(self).platform(),
                old(self).who(),
                old(self)@,
                *call,
                AgentRequest::Modules(request),
                final(self)@,
                answer,
            ),
    {
        let ghost before = self@;
        let inner = self.sessions.modules(&self.backend, &request.session_id);
        let ghost seen = inner;
        let ghost (entered, modules) = choose|
            entered: Result<(), ProcessBackendError>,
            modules: Result<Vec<ModuleDescriptor>, ProcessBackendError>,
        | #[trigger]
            modules_reported(
                &self.backend,
                before.sessions,
                request.session_id.0@,
                entered,
                modules,
            ) && lists_modules(
                before.sessions,
                request.session_id.0@,
                entered,
                modules,
                self.sessions@,
                seen,
            );
        let answer = match inner {
            Ok(response) => Ok(AgentResponse::Modules(response)),
            Err(error) => Err(error.into_rpc_error(call.request_id, call.operation.as_str())),
        };
        proof {
            lemma_modules(
                &self.backend,
                before,
                *call,
                request,
                self@,
                entered,
                modules,
                seen,
                answer,
            );
        }
        answer
    }
}

proof fn lemma_listclients<B: MemoryBackend>(
    backend: &B,
    before: Agent<B::Handle>,
    call: RpcCall,
    after: Agent<B::Handle>,
    inner: Result<ListClientsResponse, ProcessBackendError>,
    answer: Result<AgentResponse, RpcError>,
)
    requires
        after == (Agent { clients: after.clients, ..before }),
        listed(backend, before.clients, after.clients, inner),
        match inner {
            Ok(response) => answer == Ok::<AgentResponse, RpcError>(AgentResponse::Clients(response)),
            Err(error) => fails(answer, call, backend_failure(error, None, None)),
        },
    ensures
        lists_clients(backend, before, call, after, answer),
{
}

proof fn lemma_regions<B: MemoryBackend>(
    backend: &B,
    before: Agent<B::Handle>,
    call: RpcCall,
    request: MemorySessionRequest,
    after: Agent<B::Handle>,
    inner: Result<MemoryRegionsResponse, MemoryApiError>,
    answer: Result<AgentResponse, RpcError>,
)
    requires
        after == (Agent { sessions: after.sessions, ..before }),
        regions_does(backend, before.sessions, request, after.sessions, inner),
        match inner {
            Ok(response) => answer == Ok::<AgentResponse, RpcError>(AgentResponse::Regions(response)),
            Err(error) => fails(answer, call, error@),
        },
    ensures
        serves_regions(backend, before, call, request, after, answer),
{
}

proof fn lemma_read<B: MemoryBackend>(
    backend: &B,
    before: Agent<B::Handle>,
    call: RpcCall,
    request: MemoryReadRequest,
    after: Agent<B::Handle>,
    inner: Result<MemoryReadResponse, MemoryApiError>,
    answer: Result<AgentResponse, RpcError>,
)
    requires
        after == (Agent { sessions: after.sessions, ..before }),
        read_does(backend, before.sessions, request, after.sessions, inner),
        match inner {
            Ok(response) => answer == Ok::<AgentResponse, RpcError>(AgentResponse::Read(response)),
            Err(error) => fails(answer, call, error@),
        },
    ensures
        serves_read(backend, before, call, request, after, answer),
{
}

proof fn lemma_readbatch<B: MemoryBackend>(
    backend: &B,
    before: Agent<B::Handle>,
    call: RpcCall,
    request: MemoryBatchReadRequest,
    after: Agent<B::Handle>,
    inner: Result<MemoryBatchReadResponse, MemoryApiError>,
    answer: Result<AgentResponse, RpcError>,
)
    requires
        after == (Agent { sessions: after.sessions, ..before }),
        read_batch_does(backend, before.sessions, request, after.sessions, inner),
        match inner {
            Ok(response) => answer == Ok::<AgentResponse, RpcError>(AgentResponse::ReadBatch(response)),
            Err(error) => fails(answer, call, error@),
        },
    ensures
        serves_batch(backend, before, call, request, after, answer),
{
}

proof fn lemma_readtyped<B: MemoryBackend>(
    backend: &B,
    before: Agent<B::Handle>,
    call: RpcCall,
    request: TypedMemoryReadRequest,
    after: Agent<B::Handle>,
    inner: Result<TypedMemoryReadResponse, MemoryApiError>,
    answer: Result<AgentResponse, RpcError>,
)
    requires
        after == (Agent { sessions: after.sessions, ..before }),
        read_typed_does(backend, before.sessions, request, after.sessions, inner),
        match inner {
            Ok(response) => answer == Ok::<AgentResponse, RpcError>(AgentResponse::ReadTyped(response)),
            Err(error) => fails(answer, call, error@),
        },
    ensures
        serves_typed(backend, before, call, request, after, answer),
{
}

proof fn lemma_scan<B: MemoryBackend>(
    backend: &B,
    before: Agent<B::Handle>,
    call: RpcCall,
    request: MemoryScanRequest,
    after: Agent<B::Handle>,
    inner: Result<MemoryScanResponse, MemoryApiError>,
    answer: Result<AgentResponse, RpcError>,
)
    requires
        after == (Agent { sessions: after.sessions, ..before }),
        scan_does(backend, before.sessions, request, after.sessions, inner),
        match inner {
            Ok(response) => answer == Ok::<AgentResponse, RpcError>(AgentResponse::Scan(response)),
            Err(error) => fails(answer, call, error@),
        },
    ensures
        serves_scan(backend, before, call, request, after, answer),
{
}

proof fn lemma_pointerchain<B: MemoryBackend>(
    backend: &B,
    before: Agent<B::Handle>,
    call: RpcCall,
    request: MemoryPointerChainRequest,
    after: Agent<B::Handle>,
    inner: Result<MemoryPointerChainResponse, MemoryApiError>,
    answer: Result<AgentResponse, RpcError>,
)
    requires
        after == (Agent { sessions: after.sessions, ..before }),
        pointer_chain_does(backend, before.sessions, request, after.sessions, inner),
        match inner {
            Ok(response) => answer == Ok::<AgentResponse, RpcError>(AgentResponse::PointerChain(response)),
            Err(error) => fails(answer, call, error@),
        },
    ensures
        serves_chain(backend, before, call, request, after, answer),
{
}

proof fn lemma_listprocesses<B: MemoryBackend>(
    backend: &B,
    before: Agent<B::Handle>,
    call: RpcCall,
    request: ListProcessesRequest,
    after: Agent<B::Handle>,
    reported: Result<Vec<ProcessDescriptor>, ProcessBackendError>,
    inner: Result<ListProcessesResponse, ProcessApiError>,
    answer: Result<AgentResponse, RpcError>,
)
    requires
        after == before,
        call_ensures(B::list_processes, (backend,), reported),
        lists(request.names@, reported, inner),
        match inner {
            Ok(response) => answer == Ok::<AgentResponse, RpcError>(AgentResponse::Processes(response)),
            Err(error) => fails(answer, call, error@),
        },
    ensures
        serves_processes(backend, before, call, request, after, answer),
{
}

proof fn lemma_open<B: MemoryBackend>(
    backend: &B,
    before: Agent<B::Handle>,
    call: RpcCall,
    request: OpenProcessRequest,
    after: Agent<B::Handle>,
    opened: Result<OpenedProcess<B::Handle>, ProcessBackendError>,
    inner: Result<ProcessSessionResponse, ProcessApiError>,
    answer: Result<AgentResponse, RpcError>,
)
    requires
        before.sessions.next_session < u64::MAX,
        after == (Agent { sessions: after.sessions, ..before }),
        call_ensures(
            B::open_process_for_access,
            (backend, request.pid, request.access_mode),
            opened,
        ),
        opens(before.sessions, request, opened, after.sessions, inner),
        match inner {
            Ok(response) => answer == Ok::<AgentResponse, RpcError>(AgentResponse::Open(response)),
            Err(error) => fails(answer, call, error@),
        },
    ensures
        serves_open(backend, before, call, request, after, answer),
{
}

proof fn lemma_close<B: MemoryBackend>(
    backend: &B,
    before: Agent<B::Handle>,
    call: RpcCall,
    request: SessionRequest,
    after: Agent<B::Handle>,
    outcome: Result<(), ProcessBackendError>,
    inner: Result<ProcessSessionResponse, ProcessApiError>,
    answer: Result<AgentResponse, RpcError>,
)
    requires
        after == (Agent { sessions: after.sessions, ..before }),
        checked(backend, before.sessions, request.session_id.0@, outcome),
        closes(before.sessions, request.session_id.0@, outcome, after.sessions, inner),
        match inner {
            Ok(response) => answer == Ok::<AgentResponse, RpcError>(AgentResponse::Close(response)),
            Err(error) => fails(answer, call, error@),
        },
    ensures
        serves_close(backend, before, call, request, after, answer),
{
}

proof fn lemma_status<B: MemoryBackend>(
    backend: &B,
    before: Agent<B::Handle>,
    call: RpcCall,
    request: SessionRequest,
    after: Agent<B::Handle>,
    outcome: Result<(), ProcessBackendError>,
    inner: Result<ProcessSessionResponse, ProcessApiError>,
    answer: Result<AgentResponse, RpcError>,
)
    requires
        after == (Agent { sessions: after.sessions, ..before }),
        stands(
            backend,
            before.sessions,
            request.session_id.0@,
            outcome,
            after.sessions,
            inner,
        ),
        match inner {
            Ok(response) => answer == Ok::<AgentResponse, RpcError>(AgentResponse::Status(response)),
            Err(error) => fails(answer, call, error@),
        },
    ensures
        serves_status(backend, before, call, request, after, answer),
{
}

proof fn lemma_modules<B: MemoryBackend>(
    backend: &B,
    before: Agent<B::Handle>,
    call: RpcCall,
    request: SessionRequest,
    after: Agent<B::Handle>,
    entered: Result<(), ProcessBackendError>,
    modules: Result<Vec<ModuleDescriptor>, ProcessBackendError>,
    inner: Result<ListModulesResponse, ProcessApiError>,
    answer: Result<AgentResponse, RpcError>,
)
    requires
        after == (Agent { sessions: after.sessions, ..before }),
        modules_reported(backend, before.sessions, request.session_id.0@, entered, modules),
        lists_modules(
            before.sessions,
            request.session_id.0@,
            entered,
            modules,
            after.sessions,
            inner,
        ),
        match inner {
            Ok(response) => answer == Ok::<AgentResponse, RpcError>(AgentResponse::Modules(response)),
            Err(error) => fails(answer, call, error@),
        },
    ensures
        serves_modules(backend, before, call, request, after, answer),
{
}

/// An agent that was told to end refuses new work, whatever it is, and changes nothing.
pub proof fn ending_agents_take_no_work<B: MemoryBackend>(
    backend: &B,
    identity: AgentIdentity,
    before: Agent<B::Handle>,
    call: RpcCall,
    payload: Result<AgentRequest, String>,
    after: Agent<B::Handle>,
    answer: Result<AgentResponse, RpcError>,
)
    requires
        before.shutting_down,
        operation_named(call.operation@) != Some(Operation::AgentHealth),
        operation_named(call.operation@) != Some(Operation::AgentShutdown),
        handles(backend, identity, before, call, payload, after, answer),
    ensures
        after == before,
        answer matches Err(error) && error.code == RpcErrorCode::InvalidRequest,
{
}

/// An agent that was told to end stays so.
pub proof fn ending_is_final<B: MemoryBackend>(
    backend: &B,
    identity: AgentIdentity,
    before: Agent<B::Handle>,
    call: RpcCall,
    payload: Result<AgentRequest, String>,
    after: Agent<B::Handle>,
    answer: Result<AgentResponse, RpcError>,
)
    requires
        before.shutting_down,
        handles(backend, identity, before, call, payload, after, answer),
    ensures
        after.shutting_down,
{
}

}
