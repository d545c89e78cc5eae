//! Starting and ending the game over a backend that lists what was started.

use std::collections::VecDeque;
use std::sync::{Arc, Mutex};

use deimos_agent::backend::{
    ClientWindowCandidate, OpenedProcess, ProcessBackend, ProcessBackendError,
    ProcessBackendErrorKind,
};
use deimos_agent::game_process::{
    launch, terminate, watch_launch, watch_termination, GameProcessError,
};
use deimos_agent::process::ClientRegistry;
use deimos_agent::protocol::{
    ClientId, GameLaunchRequest, GameLaunchResponse, GameTerminateRequest, GameTerminateResponse,
    ModuleDescriptor, ProcessDescriptor, ProcessIdentity, ProcessKind,
};
use deimos_agent::rpc::RpcErrorCode;

#[derive(Clone)]
struct FakeClient {
    window: u64,
    process: ProcessDescriptor,
}

#[derive(Default)]
struct FakeState {
    clients: Vec<FakeClient>,
    launches: VecDeque<Result<FakeClient, ProcessBackendError>>,
    launch_identity_override: Option<ProcessIdentity>,
}

#[derive(Clone, Default)]
struct FakeBackend {
    state: Arc<Mutex<FakeState>>,
}

impl FakeBackend {
    fn with_launches(launches: Vec<Result<FakeClient, ProcessBackendError>>) -> Self {
        Self {
            state: Arc::new(Mutex::new(FakeState {
                clients: Vec::new(),
                launches: launches.into(),
                launch_identity_override: None,
            })),
        }
    }

    fn with_launch_identity_override(launched: FakeClient, identity: ProcessIdentity) -> Self {
        Self {
            state: Arc::new(Mutex::new(FakeState {
                clients: Vec::new(),
                launches: vec![Ok(launched)].into(),
                launch_identity_override: Some(identity),
            })),
        }
    }

    fn client(pid: u32, window: u64) -> FakeClient {
        FakeClient {
            window,
            process: ProcessDescriptor {
                pid,
                name: "WizardGraphicalClient.exe".to_string(),
                kind: ProcessKind::Wizard101,
                executable_path: Some(format!("C:\\Wizard101\\Bin\\{pid}.exe")),
                identity: Some(ProcessIdentity {
                    pid,
                    creation_time_100ns: format!("{pid}00"),
                    executable_path: format!(
                        "C:\\Wizard101\\Bin\\WizardGraphicalClient-{pid}.exe"
                    ),
                }),
            },
        }
    }
}

impl ProcessBackend for FakeBackend {
    type Handle = ();

    fn list_processes(&self) -> Result<Vec<ProcessDescriptor>, ProcessBackendError> {
        Ok(self
            .state
            .lock()
            .expect("state lock")
            .clients
            .iter()
            .map(|client| client.process.clone())
            .collect())
    }

    fn list_client_windows(&self) -> Result<Vec<ClientWindowCandidate>, ProcessBackendError> {
        Ok(self
            .state
            .lock()
            .expect("state lock")
            .clients
            .iter()
            .map(|client| ClientWindowCandidate {
                native_window_id: client.window,
                pid: client.process.pid,
                process_identity: client.process.identity.clone().expect("identity"),
                is_foreground: false,
                left: client.process.pid as i32,
                top: 0,
            })
            .collect())
    }

    fn launch_game(
        &self,
        _game_path: &str,
        _login_server: &str,
    ) -> Result<ProcessIdentity, ProcessBackendError> {
        let mut state = self.state.lock().expect("state lock");
        let launched = state.launches.pop_front().unwrap_or_else(|| {
            Err(ProcessBackendError::new(
                ProcessBackendErrorKind::Native,
                "no launch result was queued",
            ))
        })?;
        let identity = state
            .launch_identity_override
            .take()
            .unwrap_or_else(|| launched.process.identity.clone().expect("identity"));
        state.clients.push(launched);
        Ok(identity)
    }

    fn terminate_process_and_wait(
        &self,
        expected: &ProcessIdentity,
        _timeout_ms: u32,
    ) -> Result<(), ProcessBackendError> {
        let mut state = self.state.lock().expect("state lock");
        let before = state.clients.len();
        state.clients.retain(|client| {
            let Some(identity) = client.process.identity.as_ref() else {
                return true;
            };
            identity.pid != expected.pid
                || identity.creation_time_100ns != expected.creation_time_100ns
                || !identity
                    .executable_path
                    .eq_ignore_ascii_case(&expected.executable_path)
        });
        if state.clients.len() == before {
            return Err(ProcessBackendError::new(
                ProcessBackendErrorKind::NotFound,
                "process was not found",
            ));
        }
        Ok(())
    }

    fn open_process(
        &self,
        pid: u32,
    ) -> Result<OpenedProcess<Self::Handle>, ProcessBackendError> {
        let process = self
            .list_processes()?
            .into_iter()
            .find(|process| process.pid == pid)
            .ok_or_else(|| {
                ProcessBackendError::new(
                    ProcessBackendErrorKind::NotFound,
                    "process was not found",
                )
            })?;
        Ok(OpenedProcess {
            handle: (),
            process,
        })
    }

    fn validate_process(
        &self,
        _handle: &Self::Handle,
        expected: &ProcessIdentity,
    ) -> Result<(), ProcessBackendError> {
        if self
            .list_processes()?
            .iter()
            .filter_map(|process| process.identity.as_ref())
            .any(|identity| {
                identity.pid == expected.pid
                    && identity.creation_time_100ns == expected.creation_time_100ns
                    && identity.executable_path == expected.executable_path
            })
        {
            Ok(())
        } else {
            Err(ProcessBackendError::new(
                ProcessBackendErrorKind::Exited,
                "process exited",
            ))
        }
    }

    fn enumerate_modules(
        &self,
        _handle: &Self::Handle,
        _expected: &ProcessIdentity,
    ) -> Result<Vec<ModuleDescriptor>, ProcessBackendError> {
        Ok(Vec::new())
    }
}

#[derive(Clone, Default)]
struct NoWindowBackend(FakeBackend);

impl ProcessBackend for NoWindowBackend {
    type Handle = ();

    fn list_processes(&self) -> Result<Vec<ProcessDescriptor>, ProcessBackendError> {
        self.0.list_processes()
    }

    fn launch_game(
        &self,
        _game_path: &str,
        _login_server: &str,
    ) -> Result<ProcessIdentity, ProcessBackendError> {
        Ok(ProcessIdentity {
            pid: 500,
            creation_time_100ns: "50000".to_string(),
            executable_path: "C:\\Wizard101\\Bin\\WizardGraphicalClient-500.exe"
                .to_string(),
        })
    }

    fn open_process(
        &self,
        pid: u32,
    ) -> Result<OpenedProcess<Self::Handle>, ProcessBackendError> {
        self.0.open_process(pid)
    }

    fn validate_process(
        &self,
        handle: &Self::Handle,
        expected: &ProcessIdentity,
    ) -> Result<(), ProcessBackendError> {
        self.0.validate_process(handle, expected)
    }

    fn enumerate_modules(
        &self,
        handle: &Self::Handle,
        expected: &ProcessIdentity,
    ) -> Result<Vec<ModuleDescriptor>, ProcessBackendError> {
        self.0.enumerate_modules(handle, expected)
    }
}

fn launch_and_wait<B: ProcessBackend>(
    registry: &mut ClientRegistry,
    backend: &B,
    request: &GameLaunchRequest,
) -> Result<GameLaunchResponse, GameProcessError> {
    let watch = launch(registry, backend, request)?;
    for polls in 0..=request.timeout_ms / 50 {
        let expired = polls == request.timeout_ms / 50;
        if let Some(response) =
            watch_launch(registry, backend, request, &watch, expired, false)?
        {
            return Ok(response);
        }
    }
    unreachable!("an expired watch ends")
}

fn terminate_and_wait<B: ProcessBackend>(
    registry: &mut ClientRegistry,
    backend: &B,
    request: &GameTerminateRequest,
) -> Result<GameTerminateResponse, GameProcessError> {
    let process_id = terminate(registry, backend, request)?;
    for polls in 0..=request.timeout_ms / 50 {
        let expired = polls == request.timeout_ms / 50;
        if let Some(response) =
            watch_termination(registry, backend, request, process_id, expired, false)?
        {
            return Ok(response);
        }
    }
    unreachable!("an expired watch ends")
}

fn code_of(error: GameProcessError) -> RpcErrorCode {
    error.into_rpc_error(1, "game").code
}

fn launch_request() -> GameLaunchRequest {
    GameLaunchRequest {
        game_path: "C:\\Wizard101".to_string(),
        login_server: "login.us.wizard101.com:12000".to_string(),
        timeout_ms: 50,
    }
}

#[test]
fn single_and_multiple_launches_return_distinct_confirmed_clients() {
    let backend = FakeBackend::with_launches(vec![
        Ok(FakeBackend::client(101, 1001)),
        Ok(FakeBackend::client(102, 1002)),
    ]);
    let mut registry = ClientRegistry::new(1);

    let first = launch_and_wait(&mut registry, &backend, &launch_request())
        .expect("first launch should succeed");
    let second = launch_and_wait(&mut registry, &backend, &launch_request())
        .expect("second launch should succeed");

    assert_eq!(first.launched_process_id, 101);
    assert_eq!(second.launched_process_id, 102);
    assert_ne!(first.client.client_id, second.client.client_id);
    assert_eq!(first.client.process.pid, 101);
    assert_eq!(second.client.process.pid, 102);
}

#[test]
fn launch_failure_and_timeout_are_structured() {
    let backend = FakeBackend::with_launches(vec![Err(ProcessBackendError::new(
        ProcessBackendErrorKind::Native,
        "CreateProcess failed",
    ))]);
    let mut registry = ClientRegistry::new(1);
    let error = launch_and_wait(&mut registry, &backend, &launch_request())
        .expect_err("spawn failure should escape");
    assert_eq!(code_of(error), RpcErrorCode::GameLaunchFailed);

    let mut request = launch_request();
    request.timeout_ms = 1;
    let error = launch_and_wait(
        &mut ClientRegistry::new(1),
        &NoWindowBackend::default(),
        &request,
    )
    .expect_err("missing window should time out");
    assert_eq!(code_of(error), RpcErrorCode::GameLaunchTimeout);
}

#[test]
fn unrelated_new_window_cannot_confirm_the_launched_process() {
    let backend = FakeBackend::with_launch_identity_override(
        FakeBackend::client(600, 6001),
        ProcessIdentity {
            pid: 601,
            creation_time_100ns: "60100".to_string(),
            executable_path: "C:\\Wizard101\\Bin\\WizardGraphicalClient-601.exe".to_string(),
        },
    );
    let mut request = launch_request();
    request.timeout_ms = 1;

    let error = launch_and_wait(&mut ClientRegistry::new(1), &backend, &request)
        .expect_err("an unrelated client must not satisfy launch confirmation");

    assert_eq!(code_of(error), RpcErrorCode::GameLaunchTimeout);
}

#[test]
fn termination_uses_opaque_client_identity_and_confirms_cleanup() {
    let backend = FakeBackend::with_launches(vec![Ok(FakeBackend::client(201, 2001))]);
    let mut registry = ClientRegistry::new(1);
    let launched = launch_and_wait(&mut registry, &backend, &launch_request())
        .expect("launch should succeed");
    let response = terminate_and_wait(
        &mut registry,
        &backend,
        &GameTerminateRequest {
            client_id: launched.client.client_id.clone(),
            timeout_ms: 50,
        },
    )
    .expect("termination should succeed");

    assert!(response.terminated);
    assert_eq!(response.process_id, 201);
    assert_eq!(response.client_id, launched.client.client_id);
    assert!(registry.list(&backend).expect("list").clients.is_empty());
}

#[test]
fn invalid_launch_input_is_rejected_before_process_creation() {
    let backend = FakeBackend::with_launches(Vec::new());
    let mut request = launch_request();
    request.login_server = "missing-port".to_string();
    let error = launch_and_wait(&mut ClientRegistry::new(1), &backend, &request)
        .expect_err("invalid server should fail");
    assert_eq!(code_of(error), RpcErrorCode::InvalidRequest);
}

#[test]
fn termination_rejects_stale_client_ids() {
    let error = terminate_and_wait(
        &mut ClientRegistry::new(1),
        &FakeBackend::default(),
        &GameTerminateRequest {
            client_id: ClientId("client-stale".to_string()),
            timeout_ms: 50,
        },
    )
    .expect_err("stale clients should fail");
    assert_eq!(code_of(error), RpcErrorCode::GameTerminationFailed);
}

#[test]
fn a_launch_or_an_end_is_given_up_when_the_agent_ends() {
    let backend = FakeBackend::with_launches(vec![Ok(FakeBackend::client(301, 3001))]);
    let mut registry = ClientRegistry::new(1);
    let watch = launch(&mut registry, &backend, &launch_request()).expect("launch");
    let error = watch_launch(&mut registry, &backend, &launch_request(), &watch, false, true)
        .expect_err("a cancelled launch ends")
        .into_rpc_error(3, "game.launch");
    assert_eq!(error.code, RpcErrorCode::InvalidRequest);
    assert_eq!(
        error.message,
        "the agent began shutting down while Wizard101 was starting"
    );
    let request = GameTerminateRequest {
        client_id: ClientId("client-1".to_string()),
        timeout_ms: 50,
    };
    let error = watch_termination(&mut registry, &backend, &request, 301, false, true)
        .expect_err("a cancelled end ends")
        .into_rpc_error(4, "game.terminate");
    assert_eq!(
        error.message,
        "the agent began shutting down while Wizard101 was stopping"
    );
}
