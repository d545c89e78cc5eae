//! The service over a backend whose one process can end.

use std::sync::atomic::{AtomicBool, Ordering};
use std::sync::Arc;

use deimos_agent::backend::{
    ClientWindowCandidate, MemoryBackend, OpenedProcess, ProcessBackend, ProcessBackendError,
    ProcessBackendErrorKind,
};
use deimos_agent::protocol::{
    classify_process, AgentHealth, AgentIdentity, AgentShutdownRequest, AgentState,
    MemoryRegionDescriptor, ModuleDescriptor, OpenProcessRequest, ProbeRequest, ProcessAccessMode,
    ProcessDescriptor, ProcessIdentity, ProcessSessionResponse, SessionRequest,
    WIZARD101_EXECUTABLE,
};
use deimos_agent::rpc::{NativeContext, RpcCall, RpcErrorCode};
use deimos_agent::service::{
    AgentRequest, AgentResponse, AgentService, CAPABILITY_PROBE, MAX_AGENT_CONNECTIONS,
};

fn test_identity() -> AgentIdentity {
    AgentIdentity {
        instance_id: "agent-lifecycle-test".to_string(),
        version: "0.1.0".to_string(),
        build_id: "test".to_string(),
        process_id: 4242,
    }
}

fn call(request_id: u64, operation: &str) -> RpcCall {
    RpcCall {
        request_id,
        operation: operation.to_string(),
        native_context: None,
    }
}

fn service() -> (AgentService<RpcTestBackend>, Arc<AtomicBool>) {
    let alive = Arc::new(AtomicBool::new(true));
    let backend = RpcTestBackend {
        alive: Arc::clone(&alive),
    };
    (AgentService::with_identity(backend, test_identity(), 1, 1), alive)
}

fn open_request() -> AgentRequest {
    AgentRequest::Open(OpenProcessRequest {
        pid: 336,
        expected_identity: None,
        access_mode: ProcessAccessMode::ReadOnly,
    })
}

fn opened(response: AgentResponse) -> ProcessSessionResponse {
    match response {
        AgentResponse::Open(session) => session,
        other => panic!("unexpected response: {other:?}"),
    }
}

fn health(service: &mut AgentService<RpcTestBackend>) -> AgentHealth {
    match service
        .handle_call(&call(2, "agent.health"), Ok(AgentRequest::Health))
        .expect("agent health should remain available")
    {
        AgentResponse::Health(health) => health,
        other => panic!("unexpected response: {other:?}"),
    }
}

#[derive(Clone)]
struct RpcTestBackend {
    alive: Arc<AtomicBool>,
}

impl ProcessBackend for RpcTestBackend {
    type Handle = ();

    fn list_processes(&self) -> Result<Vec<ProcessDescriptor>, ProcessBackendError> {
        Ok(vec![rpc_test_process()])
    }

    fn list_client_windows(&self) -> Result<Vec<ClientWindowCandidate>, ProcessBackendError> {
        let process_identity = rpc_test_process()
            .identity
            .expect("RPC test process should have an identity");
        Ok(vec![ClientWindowCandidate {
            native_window_id: 0x1234,
            pid: 336,
            process_identity,
            is_foreground: true,
            left: 20,
            top: 10,
        }])
    }

    fn open_process(
        &self,
        pid: u32,
    ) -> Result<OpenedProcess<Self::Handle>, ProcessBackendError> {
        if pid != 336 {
            return Err(ProcessBackendError::new(
                ProcessBackendErrorKind::NotFound,
                "process not found",
            ));
        }
        if !self.alive.load(Ordering::SeqCst) {
            return Err(ProcessBackendError::new(
                ProcessBackendErrorKind::Exited,
                "process exited",
            ));
        }
        Ok(OpenedProcess {
            handle: (),
            process: rpc_test_process(),
        })
    }

    fn validate_process(
        &self,
        _handle: &Self::Handle,
        _expected: &ProcessIdentity,
    ) -> Result<(), ProcessBackendError> {
        if self.alive.load(Ordering::SeqCst) {
            Ok(())
        } else {
            Err(ProcessBackendError::new(
                ProcessBackendErrorKind::Exited,
                "process exited",
            ))
        }
    }

    fn enumerate_modules(
        &self,
        _handle: &Self::Handle,
        _expected: &ProcessIdentity,
    ) -> Result<Vec<ModuleDescriptor>, ProcessBackendError> {
        Ok(Vec::new())
    }
}

impl MemoryBackend for RpcTestBackend {
    fn enumerate_memory_regions(
        &self,
        _handle: &Self::Handle,
        _expected: &ProcessIdentity,
    ) -> Result<Vec<MemoryRegionDescriptor>, ProcessBackendError> {
        Ok(Vec::new())
    }

    fn read_memory(
        &self,
        _handle: &Self::Handle,
        _address: usize,
        _size: usize,
    ) -> Result<Vec<u8>, ProcessBackendError> {
        Err(ProcessBackendError::new(
            ProcessBackendErrorKind::Native,
            "RPC test backend has no memory fixture",
        ))
    }
}

fn rpc_test_process() -> ProcessDescriptor {
    let path = format!(r"C:\Wizard101\{WIZARD101_EXECUTABLE}");
    ProcessDescriptor {
        pid: 336,
        name: WIZARD101_EXECUTABLE.to_string(),
        kind: classify_process(WIZARD101_EXECUTABLE),
        executable_path: Some(path.clone()),
        identity: Some(ProcessIdentity {
            pid: 336,
            creation_time_100ns: "1000".to_string(),
            executable_path: path,
        }),
    }
}

#[test]
fn client_list_returns_agent_owned_identity_without_a_native_window_handle() {
    let (mut service, _alive) = service();
    let response = match service
        .handle_call(&call(1, "client.list"), Ok(AgentRequest::ListClients))
        .expect("client listing should succeed")
    {
        AgentResponse::Clients(response) => response,
        other => panic!("unexpected response: {other:?}"),
    };
    assert!(!format!("{response:?}").contains("window_handle"));
    assert_eq!(response.clients.len(), 1);
    assert_eq!(response.clients[0].process.pid, 336);
    assert!(response.clients[0].is_foreground);
}

#[test]
fn health_invalidates_exited_game_sessions_without_stopping_agent() {
    let (mut service, alive) = service();
    service
        .handle_call(&call(1, "process.open"), Ok(open_request()))
        .expect("game session should open");
    alive.store(false, Ordering::SeqCst);

    let first = health(&mut service);
    assert_eq!(first.state, AgentState::Ready);
    assert_eq!(first.sessions.open, 0);
    assert_eq!(first.sessions.exited, 1);
    assert!(!service.is_shutting_down());
    assert_eq!(health(&mut service).state, AgentState::Ready);
}

#[test]
fn shutting_down_rejects_new_work_with_protocol_1_0_error_code() {
    let (mut service, _alive) = service();
    service
        .handle_call(
            &call(1, "agent.shutdown"),
            Ok(AgentRequest::Shutdown(AgentShutdownRequest {
                reason: "compatibility test".to_string(),
            })),
        )
        .expect("shutdown should be accepted");

    let error = service
        .handle_call(
            &call(2, CAPABILITY_PROBE),
            Ok(AgentRequest::Probe(ProbeRequest {
                target_process: WIZARD101_EXECUTABLE.to_string(),
                target_module: WIZARD101_EXECUTABLE.to_string(),
            })),
        )
        .expect_err("new work should be rejected during shutdown");
    assert_eq!(error.code, RpcErrorCode::InvalidRequest);
}

#[test]
fn an_unknown_operation_and_an_unreadable_payload_are_told_apart() {
    let (mut service, _alive) = service();
    let context = NativeContext {
        component: "deimos-native".to_string(),
        version: "test".to_string(),
        native_pid: None,
        launch_id: Some("launch-errors".to_string()),
    };
    let mut unknown = call(1, "unknown");
    unknown.native_context = Some(context.clone());
    let error = service
        .handle_call(&unknown, Err("no such operation".to_string()))
        .expect_err("unknown operation should fail");
    assert_eq!(error.code, RpcErrorCode::UnsupportedOperation);
    assert_eq!(error.operation, "unknown");
    assert_eq!(
        error.native_context.expect("context").launch_id.as_deref(),
        Some("launch-errors")
    );

    let mut probe = call(2, CAPABILITY_PROBE);
    probe.native_context = Some(context);
    let error = service
        .handle_call(&probe, Err("invalid type: null".to_string()))
        .expect_err("invalid probe should fail");
    assert_eq!(error.code, RpcErrorCode::InvalidRequest);
    assert_eq!(error.operation, CAPABILITY_PROBE);
    assert_eq!(
        error.native_context.expect("context").component,
        "deimos-native"
    );
}

#[test]
fn two_opens_give_two_sessions_and_a_stale_one_says_so() {
    let (mut service, alive) = service();
    let first = opened(
        service
            .handle_call(&call(1, "process.open"), Ok(open_request()))
            .expect("first open should succeed"),
    );
    let second = opened(
        service
            .handle_call(&call(2, "process.open"), Ok(open_request()))
            .expect("second open should succeed"),
    );
    assert_ne!(first.session_id, second.session_id);
    alive.store(false, Ordering::SeqCst);
    let error = service
        .handle_call(
            &call(3, "process.status"),
            Ok(AgentRequest::Status(SessionRequest {
                session_id: first.session_id.clone(),
            })),
        )
        .expect_err("stale session should fail");
    assert_eq!(error.code, RpcErrorCode::ProcessExited);
    assert_eq!(error.request_id, 3);
}

#[test]
fn the_names_of_sessions_tell_registries_apart() {
    let backend = RpcTestBackend {
        alive: Arc::new(AtomicBool::new(true)),
    };
    let mut service = AgentService::with_identity(backend, test_identity(), 5, 7);
    let session = opened(
        service
            .handle_call(&call(1, "process.open"), Ok(open_request()))
            .expect("open should succeed"),
    );
    assert_eq!(
        session.session_id.0,
        "00001092-0000000000000007-0000000000000001"
    );
}

#[test]
fn connections_are_bounded_and_end_with_the_agent() {
    let (mut service, _alive) = service();
    assert!(service.admits_connection(MAX_AGENT_CONNECTIONS - 1));
    assert!(!service.admits_connection(MAX_AGENT_CONNECTIONS));
    service
        .handle_call(
            &call(1, "agent.shutdown"),
            Ok(AgentRequest::Shutdown(AgentShutdownRequest {
                reason: "test complete".to_string(),
            })),
        )
        .expect("shutdown should be accepted");
    assert!(!service.admits_connection(0));
}
