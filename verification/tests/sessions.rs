//! Sessions and clients over a backend whose processes can end, be replaced
//! or show windows.

use std::collections::HashMap;
use std::sync::atomic::{AtomicUsize, Ordering};
use std::sync::{Arc, Mutex};

use deimos_agent::backend::{
    enumerate_modules_with_revalidation, ClientWindowCandidate, OpenedProcess, ProcessBackend,
    ProcessBackendError, ProcessBackendErrorKind,
};
use deimos_agent::process::{ClientRegistry, ProcessSessionRegistry};
use deimos_agent::protocol::{
    classify_process, ListProcessesRequest, ModuleDescriptor, OpenProcessRequest,
    ProcessAccessMode, ProcessDescriptor, ProcessIdentity, ProcessKind, ProcessSessionState,
    MEMORY_FIXTURE_EXECUTABLE, WIZARD101_EXECUTABLE,
};
use deimos_agent::rpc::RpcErrorCode;

#[derive(Clone)]
struct MockBackend {
    state: Arc<Mutex<HashMap<u32, MockProcess>>>,
    windows: Arc<Mutex<Vec<ClientWindowCandidate>>>,
    dropped_handles: Arc<AtomicUsize>,
    validation_failure: Arc<Mutex<Option<ProcessBackendErrorKind>>>,
}

#[derive(Clone)]
struct MockProcess {
    name: String,
    creation: String,
    path: String,
    alive: bool,
}

struct MockHandle {
    pid: u32,
    dropped_handles: Arc<AtomicUsize>,
}

impl Drop for MockHandle {
    fn drop(&mut self) {
        self.dropped_handles.fetch_add(1, Ordering::SeqCst);
    }
}

impl MockBackend {
    fn new() -> Self {
        let processes = HashMap::from([
            (
                336,
                MockProcess {
                    name: WIZARD101_EXECUTABLE.to_string(),
                    creation: "1000".to_string(),
                    path: format!(r"C:\Wizard101\{WIZARD101_EXECUTABLE}"),
                    alive: true,
                },
            ),
            (
                712,
                MockProcess {
                    name: MEMORY_FIXTURE_EXECUTABLE.to_string(),
                    creation: "2000".to_string(),
                    path: format!(r"C:\Deimos\{MEMORY_FIXTURE_EXECUTABLE}"),
                    alive: true,
                },
            ),
        ]);
        Self {
            state: Arc::new(Mutex::new(processes)),
            windows: Arc::new(Mutex::new(Vec::new())),
            dropped_handles: Arc::new(AtomicUsize::new(0)),
            validation_failure: Arc::new(Mutex::new(None)),
        }
    }

    fn set_windows(&self, windows: Vec<ClientWindowCandidate>) {
        *self.windows.lock().expect("mock windows should lock") = windows;
    }

    fn identity(&self, pid: u32) -> ProcessIdentity {
        let state = self.state.lock().expect("mock state should lock");
        let process = state.get(&pid).expect("mock process should exist");
        Self::descriptor(pid, process)
            .identity
            .expect("mock descriptor should have an identity")
    }

    fn stop(&self, pid: u32) {
        self.state
            .lock()
            .expect("mock state should lock")
            .get_mut(&pid)
            .expect("mock process should exist")
            .alive = false;
    }

    fn replace_identity(&self, pid: u32) {
        self.state
            .lock()
            .expect("mock state should lock")
            .get_mut(&pid)
            .expect("mock process should exist")
            .creation = "replacement".to_string();
    }

    fn set_validation_failure(&self, failure: Option<ProcessBackendErrorKind>) {
        *self
            .validation_failure
            .lock()
            .expect("mock validation failure should lock") = failure;
    }

    fn descriptor(pid: u32, process: &MockProcess) -> ProcessDescriptor {
        let identity = ProcessIdentity {
            pid,
            creation_time_100ns: process.creation.clone(),
            executable_path: process.path.clone(),
        };
        ProcessDescriptor {
            pid,
            name: process.name.clone(),
            kind: classify_process(&process.name),
            executable_path: Some(process.path.clone()),
            identity: Some(identity),
        }
    }
}

impl ProcessBackend for MockBackend {
    type Handle = MockHandle;

    fn list_processes(&self) -> Result<Vec<ProcessDescriptor>, ProcessBackendError> {
        Ok(self
            .state
            .lock()
            .expect("mock state should lock")
            .iter()
            .filter(|(_, process)| process.alive)
            .map(|(pid, process)| Self::descriptor(*pid, process))
            .collect())
    }

    fn list_client_windows(&self) -> Result<Vec<ClientWindowCandidate>, ProcessBackendError> {
        Ok(self
            .windows
            .lock()
            .expect("mock windows should lock")
            .clone())
    }

    fn open_process(
        &self,
        pid: u32,
    ) -> Result<OpenedProcess<Self::Handle>, ProcessBackendError> {
        let state = self.state.lock().expect("mock state should lock");
        let process = state.get(&pid).ok_or_else(|| {
            ProcessBackendError::new(ProcessBackendErrorKind::NotFound, "missing process")
        })?;
        if !process.alive {
            return Err(ProcessBackendError::new(
                ProcessBackendErrorKind::Exited,
                "process exited",
            ));
        }
        Ok(OpenedProcess {
            handle: MockHandle {
                pid,
                dropped_handles: Arc::clone(&self.dropped_handles),
            },
            process: Self::descriptor(pid, process),
        })
    }

    fn validate_process(
        &self,
        handle: &Self::Handle,
        expected: &ProcessIdentity,
    ) -> Result<(), ProcessBackendError> {
        if let Some(kind) = *self
            .validation_failure
            .lock()
            .expect("mock validation failure should lock")
        {
            return Err(ProcessBackendError::new(
                kind,
                "process identity could not be verified",
            ));
        }
        let state = self.state.lock().expect("mock state should lock");
        let process = state.get(&handle.pid).ok_or_else(|| {
            ProcessBackendError::new(ProcessBackendErrorKind::NotFound, "missing process")
        })?;
        if !process.alive {
            return Err(ProcessBackendError::new(
                ProcessBackendErrorKind::Exited,
                "process exited",
            ));
        }
        if process.creation != expected.creation_time_100ns
            || !process.path.eq_ignore_ascii_case(&expected.executable_path)
        {
            return Err(ProcessBackendError::new(
                ProcessBackendErrorKind::IdentityMismatch,
                "process identity changed",
            ));
        }
        Ok(())
    }

    fn enumerate_modules(
        &self,
        handle: &Self::Handle,
        expected: &ProcessIdentity,
    ) -> Result<Vec<ModuleDescriptor>, ProcessBackendError> {
        self.validate_process(handle, expected)?;
        Ok(vec![ModuleDescriptor {
            name: expected
                .executable_path
                .rsplit('\\')
                .next()
                .expect("mock path should contain a name")
                .to_string(),
            executable_path: expected.executable_path.clone(),
            base_address: "0x140000000".to_string(),
            size: 57_712_640,
        }])
    }
}

fn open_request(pid: u32) -> OpenProcessRequest {
    OpenProcessRequest {
        pid,
        expected_identity: None,
        access_mode: ProcessAccessMode::ReadOnly,
    }
}

#[test]
fn discovers_wizard_and_fixture_using_wine_internal_pids() {
    let backend = MockBackend::new();
    let registry = ProcessSessionRegistry::<MockHandle>::with_id_prefix("test".to_string());
    let response = registry
        .list(&backend, &ListProcessesRequest { names: Vec::new() })
        .expect("listing should succeed");

    assert_eq!(
        response
            .processes
            .iter()
            .map(|process| (process.pid, process.kind))
            .collect::<Vec<_>>(),
        vec![
            (336, ProcessKind::Wizard101),
            (712, ProcessKind::MemoryFixture),
        ]
    );
    assert_eq!(
        response.processes[0]
            .identity
            .as_ref()
            .expect("identity should be present")
            .pid,
        336,
        "the agent must return its Wine-internal PID unchanged"
    );
}

#[test]
fn client_ids_are_stable_until_the_window_or_process_identity_changes() {
    let backend = MockBackend::new();
    backend.set_windows(vec![ClientWindowCandidate {
        native_window_id: 0xabc,
        pid: 336,
        process_identity: backend.identity(336),
        is_foreground: true,
        left: 100,
        top: 50,
    }]);
    let mut registry = ClientRegistry::new(1);

    let first = registry.list(&backend).expect("first listing should work");
    let second = registry.list(&backend).expect("second listing should work");
    assert_eq!(first.clients[0].client_id, second.clients[0].client_id);

    backend
        .state
        .lock()
        .expect("mock state should lock")
        .get_mut(&336)
        .expect("mock process should exist")
        .path
        .make_ascii_uppercase();
    let case_changed = registry
        .list(&backend)
        .expect("path case change should still list");
    assert_eq!(
        first.clients[0].client_id,
        case_changed.clients[0].client_id
    );

    backend.set_windows(Vec::new());
    assert!(registry
        .list(&backend)
        .expect("closed window should be pruned")
        .clients
        .is_empty());
    backend.replace_identity(336);
    backend.set_windows(vec![ClientWindowCandidate {
        native_window_id: 0xabc,
        pid: 336,
        process_identity: backend.identity(336),
        is_foreground: false,
        left: 100,
        top: 50,
    }]);
    let reused = registry.list(&backend).expect("reused window should list");
    assert_ne!(first.clients[0].client_id, reused.clients[0].client_id);
}

#[test]
fn client_discovery_preserves_native_order_and_reports_visual_order() {
    let backend = MockBackend::new();
    {
        let mut state = backend.state.lock().expect("mock state should lock");
        state.insert(
            337,
            MockProcess {
                name: WIZARD101_EXECUTABLE.to_string(),
                creation: "1001".to_string(),
                path: format!(r"C:\Wizard101-2\{WIZARD101_EXECUTABLE}"),
                alive: true,
            },
        );
    }
    backend.set_windows(vec![
        ClientWindowCandidate {
            native_window_id: 20,
            pid: 336,
            process_identity: backend.identity(336),
            is_foreground: false,
            left: 500,
            top: 100,
        },
        ClientWindowCandidate {
            native_window_id: 10,
            pid: 337,
            process_identity: backend.identity(337),
            is_foreground: true,
            left: 50,
            top: 20,
        },
    ]);

    let clients = ClientRegistry::new(1)
        .list(&backend)
        .expect("client listing should work")
        .clients;
    assert_eq!(
        clients
            .iter()
            .map(|client| client.process.pid)
            .collect::<Vec<_>>(),
        vec![336, 337]
    );
    assert_eq!(
        clients
            .iter()
            .map(|client| client.screen_order)
            .collect::<Vec<_>>(),
        vec![1, 0]
    );
    assert!(!clients[0].is_foreground);
    assert!(clients[1].is_foreground);
    assert_ne!(clients[0].client_id, clients[1].client_id);
}

#[test]
fn client_resolution_keeps_multiple_windows_isolated() {
    let backend = MockBackend::new();
    {
        let mut state = backend.state.lock().expect("mock state should lock");
        state.insert(
            337,
            MockProcess {
                name: WIZARD101_EXECUTABLE.to_string(),
                creation: "1001".to_string(),
                path: format!(r"C:\Wizard101-2\{WIZARD101_EXECUTABLE}"),
                alive: true,
            },
        );
    }
    backend.set_windows(vec![
        ClientWindowCandidate {
            native_window_id: 20,
            pid: 336,
            process_identity: backend.identity(336),
            is_foreground: true,
            left: 0,
            top: 0,
        },
        ClientWindowCandidate {
            native_window_id: 10,
            pid: 337,
            process_identity: backend.identity(337),
            is_foreground: false,
            left: 100,
            top: 100,
        },
    ]);
    let mut registry = ClientRegistry::new(1);
    let listed = registry
        .list(&backend)
        .expect("client listing should work")
        .clients;
    let first_id = listed
        .iter()
        .find(|client| client.process.pid == 336)
        .expect("first client")
        .client_id
        .clone();
    let second_id = listed
        .iter()
        .find(|client| client.process.pid == 337)
        .expect("second client")
        .client_id
        .clone();

    let first = registry
        .resolve(&backend, &first_id)
        .expect("first client should resolve");
    let second = registry
        .resolve(&backend, &second_id)
        .expect("second client should resolve");
    assert_eq!(first.native_window_id, 20);
    assert_eq!(first.process_identity.pid, 336);
    assert_eq!(second.native_window_id, 10);
    assert_eq!(second.process_identity.pid, 337);
}

#[test]
fn client_discovery_deduplicates_repeated_window_candidates() {
    let backend = MockBackend::new();
    let candidate = ClientWindowCandidate {
        native_window_id: 0xabc,
        pid: 336,
        process_identity: backend.identity(336),
        is_foreground: true,
        left: 100,
        top: 50,
    };
    backend.set_windows(vec![candidate.clone(), candidate]);

    let clients = ClientRegistry::new(1)
        .list(&backend)
        .expect("client listing should work")
        .clients;
    assert_eq!(clients.len(), 1);
}

#[test]
fn client_discovery_rejects_a_window_when_its_pid_was_reused() {
    let backend = MockBackend::new();
    let stale_candidate = ClientWindowCandidate {
        native_window_id: 0xabc,
        pid: 336,
        process_identity: backend.identity(336),
        is_foreground: true,
        left: 100,
        top: 50,
    };
    backend.replace_identity(336);
    backend.set_windows(vec![stale_candidate]);

    assert!(ClientRegistry::new(1)
        .list(&backend)
        .expect("client listing should work")
        .clients
        .is_empty());
}

#[test]
fn sessions_are_distinct_stable_and_close_handles() {
    let backend = MockBackend::new();
    let mut registry = ProcessSessionRegistry::with_id_prefix("agent".to_string());
    let first = registry
        .open(&backend, &open_request(336))
        .expect("first open should work");
    let second = registry
        .open(&backend, &open_request(336))
        .expect("second client open should work");

    assert_ne!(first.session_id, second.session_id);
    assert_eq!(
        registry
            .status(&backend, &first.session_id)
            .expect("status should work")
            .session_id,
        first.session_id
    );
    let modules = registry
        .modules(&backend, &first.session_id)
        .expect("modules should enumerate");
    assert_eq!(modules.modules.len(), 1);
    assert_eq!(
        modules.modules[0].executable_path,
        format!(r"C:\Wizard101\{WIZARD101_EXECUTABLE}")
    );

    let closed = registry
        .close(&backend, &first.session_id)
        .expect("close should work");
    assert_eq!(closed.state, ProcessSessionState::Closed);
    assert_eq!(backend.dropped_handles.load(Ordering::SeqCst), 1);
    assert_eq!(
        registry
            .status(&backend, &first.session_id)
            .expect("closed status should remain queryable")
            .state,
        ProcessSessionState::Closed
    );
    drop(registry);
    assert_eq!(
        backend.dropped_handles.load(Ordering::SeqCst),
        2,
        "dropping the registry must close any remaining native handles"
    );
}

#[test]
fn native_revalidation_failure_retains_the_open_session_handle() {
    let backend = MockBackend::new();
    let mut registry = ProcessSessionRegistry::with_id_prefix("agent".to_string());
    let session = registry
        .open(&backend, &open_request(336))
        .expect("session should open");
    backend.set_validation_failure(Some(ProcessBackendErrorKind::Native));

    let error = registry
        .close(&backend, &session.session_id)
        .expect_err("unverified live process must not be closed");
    assert_eq!(error.into_rpc_error(1, "process").code, RpcErrorCode::Internal);
    assert_eq!(
        backend.dropped_handles.load(Ordering::SeqCst),
        0,
        "native revalidation failure must retain the process handle"
    );

    backend.set_validation_failure(None);
    let closed = registry
        .close(&backend, &session.session_id)
        .expect("close should remain retryable after verification recovers");
    assert_eq!(closed.state, ProcessSessionState::Closed);
    assert_eq!(backend.dropped_handles.load(Ordering::SeqCst), 1);
}

#[test]
fn stale_and_reused_process_sessions_return_process_exited_and_close_handles() {
    let backend = MockBackend::new();
    let mut registry = ProcessSessionRegistry::with_id_prefix("agent".to_string());
    let exited = registry
        .open(&backend, &open_request(336))
        .expect("open should work");
    backend.stop(336);

    let error = registry
        .status(&backend, &exited.session_id)
        .expect_err("stale session should fail");
    assert_eq!(error.into_rpc_error(1, "process").code, RpcErrorCode::ProcessExited);
    assert_eq!(backend.dropped_handles.load(Ordering::SeqCst), 1);
    let repeated = registry
        .status(&backend, &exited.session_id)
        .expect_err("stale tombstone should remain structured");
    assert_eq!(repeated.into_rpc_error(1, "process").code, RpcErrorCode::ProcessExited);

    let reused = registry
        .open(&backend, &open_request(712))
        .expect("fixture open should work");
    backend.replace_identity(712);
    let error = registry
        .modules(&backend, &reused.session_id)
        .expect_err("PID reuse should invalidate the session");
    assert_eq!(error.into_rpc_error(1, "process").code, RpcErrorCode::ProcessExited);
    assert_eq!(backend.dropped_handles.load(Ordering::SeqCst), 2);
}

#[test]
fn list_to_open_identity_race_is_rejected_and_handle_is_closed() {
    let backend = MockBackend::new();
    let registry = ProcessSessionRegistry::<MockHandle>::with_id_prefix("list".to_string());
    let listed = registry
        .list(&backend, &ListProcessesRequest { names: Vec::new() })
        .expect("listing should work")
        .processes
        .into_iter()
        .find(|process| process.pid == 336)
        .expect("wizard should be listed");
    backend.replace_identity(336);

    let mut opener = ProcessSessionRegistry::with_id_prefix("open".to_string());
    let error = opener
        .open(
            &backend,
            &OpenProcessRequest {
                pid: 336,
                expected_identity: listed.identity,
                access_mode: ProcessAccessMode::ReadOnly,
            },
        )
        .expect_err("changed identity should fail open");
    assert_eq!(error.into_rpc_error(1, "process").code, RpcErrorCode::ProcessExited);
    assert_eq!(
        backend.dropped_handles.load(Ordering::SeqCst),
        1,
        "rejected open handles must be closed"
    );
}

#[test]
fn module_results_are_discarded_when_identity_changes_during_collection() {
    let backend = MockBackend::new();
    let opened = backend
        .open_process(336)
        .expect("wizard process should open");
    let expected = opened
        .process
        .identity
        .as_ref()
        .expect("opened process should have an identity");

    let error = enumerate_modules_with_revalidation(&backend, &opened.handle, expected, || {
        backend.replace_identity(336);
        Ok(vec![ModuleDescriptor {
            name: "replacement.dll".to_string(),
            executable_path: r"C:\Replacement\replacement.dll".to_string(),
            base_address: "0x10000000".to_string(),
            size: 4096,
        }])
    })
    .expect_err("post-enumeration identity change must discard module results");

    assert_eq!(error.kind, ProcessBackendErrorKind::IdentityMismatch);
}
