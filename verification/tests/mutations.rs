//! Writes, allocations, protections and threads over a backend that keeps its
//! memory in maps.

use std::collections::BTreeMap;
use std::sync::{Arc, Mutex};

use deimos_agent::backend::{
    MemoryBackend, MutationBackend, OpenedProcess, ProcessBackend, ProcessBackendError,
    ProcessBackendErrorKind, ProcessThreadResume, RemoteThreadPoll, StartedRemoteThread,
    SuspendedProcess,
};
use deimos_agent::mutation::{
    allocate, cleanup_session, free, protect, start_thread, MutationState,
};
use deimos_agent::process::ProcessSessionRegistry;
use deimos_agent::protocol::{
    MemoryAllocateRequest, MemoryFreeRequest, MemoryProtectRequest, MemoryProtection,
    MemoryRegionDescriptor, MemoryWriteRequest, ModuleDescriptor, OpenProcessRequest,
    ProcessAccessMode, ProcessDescriptor, ProcessIdentity, ProcessKind, ProcessSessionId,
    RemoteThreadStartRequest,
};
use deimos_agent::rpc::RpcErrorCode;

const BASE: usize = 0x1000;

#[derive(Default)]
struct MockMutationData {
    primary: Vec<u8>,
    allocations: BTreeMap<usize, Vec<u8>>,
    protections: BTreeMap<usize, MemoryProtection>,
    next_allocation: usize,
    started_threads: usize,
    thread_completed: bool,
    validation_failure: bool,
    flush_failure: bool,
    flushes: Vec<(usize, usize, usize)>,
}

#[derive(Clone)]
struct MockMutationBackend {
    data: Arc<Mutex<MockMutationData>>,
}

#[derive(Clone, Copy)]
struct MockHandle;

#[derive(Clone, Copy)]
struct MockThreadHandle {
    thread_id: u32,
}

impl MockMutationBackend {
    fn new() -> Self {
        Self {
            data: Arc::new(Mutex::new(MockMutationData {
                primary: vec![0x55; 16],
                next_allocation: 0x2000,
                thread_completed: true,
                ..MockMutationData::default()
            })),
        }
    }

    fn snapshot(&self) -> Vec<u8> {
        self.data.lock().expect("mock data lock").primary.clone()
    }
}

impl ProcessBackend for MockMutationBackend {
    type Handle = MockHandle;

    fn list_processes(&self) -> Result<Vec<ProcessDescriptor>, ProcessBackendError> {
        Ok(vec![mock_process()])
    }

    fn open_process(
        &self,
        _pid: u32,
    ) -> Result<OpenedProcess<Self::Handle>, ProcessBackendError> {
        Ok(OpenedProcess {
            handle: MockHandle,
            process: mock_process(),
        })
    }

    fn open_process_for_access(
        &self,
        _pid: u32,
        _access_mode: ProcessAccessMode,
    ) -> Result<OpenedProcess<Self::Handle>, ProcessBackendError> {
        self.open_process(7)
    }

    fn validate_process(
        &self,
        _handle: &Self::Handle,
        _expected: &ProcessIdentity,
    ) -> Result<(), ProcessBackendError> {
        if self.data.lock().expect("mock data lock").validation_failure {
            Err(ProcessBackendError::new(
                ProcessBackendErrorKind::Native,
                "process identity could not be verified",
            ))
        } else {
            Ok(())
        }
    }

    fn enumerate_modules(
        &self,
        _handle: &Self::Handle,
        _expected: &ProcessIdentity,
    ) -> Result<Vec<ModuleDescriptor>, ProcessBackendError> {
        Ok(Vec::new())
    }
}

impl MemoryBackend for MockMutationBackend {
    fn enumerate_memory_regions(
        &self,
        _handle: &Self::Handle,
        _expected: &ProcessIdentity,
    ) -> Result<Vec<MemoryRegionDescriptor>, ProcessBackendError> {
        Ok(Vec::new())
    }

    fn read_memory(
        &self,
        _handle: &Self::Handle,
        address: usize,
        size: usize,
    ) -> Result<Vec<u8>, ProcessBackendError> {
        let data = self.data.lock().expect("mock data lock");
        read_mock_range(&data, address, size)
    }
}

struct Resumed;

impl ProcessThreadResume for Resumed {
    fn resume(&mut self) -> Result<(), ProcessBackendError> {
        Ok(())
    }
}

impl MutationBackend for MockMutationBackend {
    type ThreadHandle = MockThreadHandle;

    fn write_memory(
        &self,
        _handle: &Self::Handle,
        address: usize,
        bytes: &[u8],
    ) -> Result<(), ProcessBackendError> {
        let mut data = self.data.lock().expect("mock data lock");
        if address >= BASE {
            let offset = address - BASE;
            let end = offset
                .checked_add(bytes.len())
                .ok_or_else(mock_range_error)?;
            if end <= data.primary.len() {
                data.primary[offset..end].copy_from_slice(bytes);
                return Ok(());
            }
        }
        for (allocation_base, allocation) in &mut data.allocations {
            if address >= *allocation_base {
                let offset = address - *allocation_base;
                let end = offset
                    .checked_add(bytes.len())
                    .ok_or_else(mock_range_error)?;
                if end <= allocation.len() {
                    allocation[offset..end].copy_from_slice(bytes);
                    return Ok(());
                }
            }
        }
        Err(mock_range_error())
    }

    fn allocate_memory(
        &self,
        _handle: &Self::Handle,
        size: usize,
        protection: MemoryProtection,
    ) -> Result<usize, ProcessBackendError> {
        let mut data = self.data.lock().expect("mock data lock");
        let address = data.next_allocation;
        data.next_allocation += 0x1000;
        data.allocations.insert(address, vec![0; size]);
        data.protections.insert(address, protection);
        Ok(address)
    }

    fn free_memory(
        &self,
        _handle: &Self::Handle,
        address: usize,
    ) -> Result<(), ProcessBackendError> {
        let mut data = self.data.lock().expect("mock data lock");
        if data.allocations.remove(&address).is_none() {
            return Err(mock_range_error());
        }
        data.protections.remove(&address);
        Ok(())
    }

    fn suspend_process_threads(
        &self,
        _handle: &Self::Handle,
    ) -> Result<SuspendedProcess, ProcessBackendError> {
        Ok(SuspendedProcess::new(Vec::new(), Resumed))
    }

    fn protect_memory(
        &self,
        _handle: &Self::Handle,
        address: usize,
        _size: usize,
        protection: MemoryProtection,
    ) -> Result<MemoryProtection, ProcessBackendError> {
        let mut data = self.data.lock().expect("mock data lock");
        let previous = data
            .protections
            .insert(address, protection)
            .unwrap_or(MemoryProtection::ReadWrite);
        Ok(previous)
    }

    fn start_remote_thread(
        &self,
        _handle: &Self::Handle,
        _start_address: usize,
        _parameter: Option<usize>,
    ) -> Result<StartedRemoteThread<Self::ThreadHandle>, ProcessBackendError> {
        let mut data = self.data.lock().expect("mock data lock");
        data.started_threads += 1;
        let thread_id = data.started_threads as u32;
        Ok(StartedRemoteThread {
            thread_id,
            handle: MockThreadHandle { thread_id },
        })
    }

    fn poll_remote_thread(
        &self,
        thread: &Self::ThreadHandle,
        _wait_timeout_ms: u32,
    ) -> Result<RemoteThreadPoll, ProcessBackendError> {
        let data = self.data.lock().expect("mock data lock");
        assert!(
            thread.thread_id <= data.started_threads as u32,
            "only started mock threads may be polled"
        );
        Ok(RemoteThreadPoll {
            completed: data.thread_completed,
            exit_code: data.thread_completed.then_some(0),
        })
    }

    fn flush_instruction_cache(
        &self,
        _handle: &Self::Handle,
        address: usize,
        size: usize,
    ) -> Result<(), ProcessBackendError> {
        let mut data = self.data.lock().expect("mock data lock");
        let started = data.started_threads;
        data.flushes.push((address, size, started));
        if data.flush_failure {
            return Err(mock_range_error());
        }
        Ok(())
    }
}

fn mock_process() -> ProcessDescriptor {
    let path = r"C:\fixture\deimos-memory-fixture.exe".to_string();
    ProcessDescriptor {
        pid: 7,
        name: "deimos-memory-fixture.exe".to_string(),
        kind: ProcessKind::MemoryFixture,
        executable_path: Some(path.clone()),
        identity: Some(ProcessIdentity {
            pid: 7,
            creation_time_100ns: "1".to_string(),
            executable_path: path,
        }),
    }
}

fn registry(
    backend: &MockMutationBackend,
    access_mode: ProcessAccessMode,
) -> (
    ProcessSessionRegistry<MockHandle>,
    ProcessSessionId,
) {
    let mut sessions = ProcessSessionRegistry::new(1, 1);
    let session = sessions
        .open(
            backend,
            &OpenProcessRequest {
                pid: 7,
                expected_identity: None,
                access_mode,
            },
        )
        .expect("mock session should open");
    (sessions, session.session_id)
}

#[test]
fn read_only_sessions_cannot_mutate_and_failed_ranges_are_atomic() {
    let backend = MockMutationBackend::new();
    let before = backend.snapshot();
    let (mut read_only, session_id) = registry(&backend, ProcessAccessMode::ReadOnly);
    let error = deimos_agent::mutation::write(
        &mut read_only,
        &backend,
        &MemoryWriteRequest {
            session_id,
            address: "0x1004".to_string(),
            bytes: vec![1, 2, 3, 4],
        },
    )
    .expect_err("read-only session must reject writes");
    assert_eq!(
        error.into_rpc_error(1, "memory.write").code,
        RpcErrorCode::CapabilityRequired
    );
    assert_eq!(backend.snapshot(), before);

    let (mut mutation, session_id) = registry(&backend, ProcessAccessMode::Mutation);
    let error = deimos_agent::mutation::write(
        &mut mutation,
        &backend,
        &MemoryWriteRequest {
            session_id,
            address: "0x100f".to_string(),
            bytes: vec![9, 9],
        },
    )
    .expect_err("range crossing the mock region must fail");
    assert_eq!(
        error.into_rpc_error(2, "memory.write").code,
        RpcErrorCode::MemoryWriteFailed
    );
    assert_eq!(backend.snapshot(), before);
}

#[test]
fn writes_change_only_the_requested_bytes() {
    let backend = MockMutationBackend::new();
    let (mut sessions, session_id) = registry(&backend, ProcessAccessMode::Mutation);
    deimos_agent::mutation::write(
        &mut sessions,
        &backend,
        &MemoryWriteRequest {
            session_id,
            address: "0x1004".to_string(),
            bytes: vec![1, 2, 3, 4],
        },
    )
    .expect("valid write should succeed");
    let snapshot = backend.snapshot();
    assert_eq!(&snapshot[..4], &[0x55; 4]);
    assert_eq!(&snapshot[4..8], &[1, 2, 3, 4]);
    assert_eq!(&snapshot[8..], &[0x55; 8]);
}

#[test]
fn allocations_are_tracked_freed_and_cleaned_up() {
    let backend = MockMutationBackend::new();
    let (mut sessions, session_id) = registry(&backend, ProcessAccessMode::Mutation);
    let mut state = MutationState::new();
    let first = allocate(
        &mut sessions,
        &backend,
        &mut state,
        &MemoryAllocateRequest {
            session_id: session_id.clone(),
            size: 32,
            protection: MemoryProtection::ReadWrite,
        },
    )
    .expect("allocation should succeed");
    let second = allocate(
        &mut sessions,
        &backend,
        &mut state,
        &MemoryAllocateRequest {
            session_id: session_id.clone(),
            size: 64,
            protection: MemoryProtection::ExecuteReadWrite,
        },
    )
    .expect("executable allocation should succeed");
    assert_eq!(state.tracked_count(&session_id), 2);

    free(
        &mut sessions,
        &backend,
        &mut state,
        &MemoryFreeRequest {
            session_id: session_id.clone(),
            allocation_id: first.allocation_id,
        },
    )
    .expect("tracked allocation should free");
    assert_eq!(state.tracked_count(&session_id), 1);

    cleanup_session(&mut sessions, &backend, &mut state, &session_id)
        .expect("session cleanup should release remaining allocations");
    assert_eq!(state.tracked_count(&session_id), 0);
    assert!(!backend
        .data
        .lock()
        .expect("mock data lock")
        .allocations
        .contains_key(&parse_address(&second.address)));
}

#[test]
fn protection_and_remote_thread_results_are_explicit() {
    let backend = MockMutationBackend::new();
    let (mut sessions, session_id) = registry(&backend, ProcessAccessMode::Mutation);
    let mut state = MutationState::new();
    let changed = protect(
        &mut sessions,
        &backend,
        &MemoryProtectRequest {
            session_id: session_id.clone(),
            address: "0x1000".to_string(),
            size: 16,
            protection: MemoryProtection::ExecuteReadWrite,
        },
    )
    .expect("protection should change");
    assert_eq!(changed.previous_protection, MemoryProtection::ReadWrite);

    let thread = start_thread(
        &mut sessions,
        &backend,
        &mut state,
        &RemoteThreadStartRequest {
            session_id,
            start_address: "0x1000".to_string(),
            parameter: Some("0x1008".to_string()),
            wait_timeout_ms: 10,
        },
    )
    .expect("remote thread should start");
    assert!(thread.completed);
    assert_eq!(thread.exit_code, Some(0));
}

#[test]
fn a_thread_starts_only_after_its_code_was_made_visible() {
    let backend = MockMutationBackend::new();
    let (mut sessions, session_id) = registry(&backend, ProcessAccessMode::Mutation);
    let mut state = MutationState::new();
    let request = RemoteThreadStartRequest {
        session_id,
        start_address: "0x1000".to_string(),
        parameter: None,
        wait_timeout_ms: 10,
    };
    backend.data.lock().expect("mock data lock").flush_failure = true;
    let error = start_thread(&mut sessions, &backend, &mut state, &request)
        .expect_err("a failed flush should keep the thread from starting");
    let error = error.into_rpc_error(1, "memory.thread_start");
    assert_eq!(error.code, RpcErrorCode::RemoteThreadFailed);
    {
        let mut data = backend.data.lock().expect("mock data lock");
        assert_eq!(data.flushes, vec![(0, 0, 0)]);
        assert_eq!(data.started_threads, 0);
        data.flush_failure = false;
    }
    start_thread(&mut sessions, &backend, &mut state, &request).expect("thread should start");
    let data = backend.data.lock().expect("mock data lock");
    assert_eq!(data.flushes, vec![(0, 0, 0), (0, 0, 0)]);
    assert_eq!(data.started_threads, 1);
}

#[test]
fn unknown_remote_thread_completion_blocks_unsafe_cleanup() {
    let backend = MockMutationBackend::new();
    backend
        .data
        .lock()
        .expect("mock data lock")
        .thread_completed = false;
    let (mut sessions, session_id) = registry(&backend, ProcessAccessMode::Mutation);
    let mut state = MutationState::new();
    let executable_allocation = allocate(
        &mut sessions,
        &backend,
        &mut state,
        &MemoryAllocateRequest {
            session_id: session_id.clone(),
            size: 32,
            protection: MemoryProtection::ExecuteReadWrite,
        },
    )
    .expect("allocation should succeed");
    let unrelated_allocation = allocate(
        &mut sessions,
        &backend,
        &mut state,
        &MemoryAllocateRequest {
            session_id: session_id.clone(),
            size: 64,
            protection: MemoryProtection::ReadWrite,
        },
    )
    .expect("unrelated allocation should succeed");
    let thread = start_thread(
        &mut sessions,
        &backend,
        &mut state,
        &RemoteThreadStartRequest {
            session_id: session_id.clone(),
            start_address: executable_allocation.address,
            parameter: None,
            wait_timeout_ms: 10,
        },
    )
    .expect("thread start itself should succeed");
    assert!(!thread.completed);

    let error = free(
        &mut sessions,
        &backend,
        &mut state,
        &MemoryFreeRequest {
            session_id: session_id.clone(),
            allocation_id: unrelated_allocation.allocation_id,
        },
    )
    .expect_err("pending threads must pin even unrelated session allocations")
    .into_rpc_error(8, "memory.free");
    assert_eq!(error.code, RpcErrorCode::RemoteThreadFailed);
    assert_eq!(state.tracked_count(&session_id), 2);

    let error = cleanup_session(&mut sessions, &backend, &mut state, &session_id)
        .expect_err("uncertain remote thread must block all session allocation cleanup")
        .into_rpc_error(9, "process.close");
    assert_eq!(error.code, RpcErrorCode::RemoteThreadFailed);
    assert_eq!(state.tracked_count(&session_id), 2);
    assert_eq!(state.tracked_thread_count(&session_id), 1);

    backend
        .data
        .lock()
        .expect("mock data lock")
        .thread_completed = true;
    cleanup_session(&mut sessions, &backend, &mut state, &session_id)
        .expect("cleanup should finish after the remote thread exits");
    assert_eq!(state.tracked_count(&session_id), 0);
    assert_eq!(state.tracked_thread_count(&session_id), 0);
}

#[test]
fn unverified_live_process_retains_allocations_for_cleanup_retry() {
    let backend = MockMutationBackend::new();
    let (mut sessions, session_id) = registry(&backend, ProcessAccessMode::Mutation);
    let mut state = MutationState::new();
    allocate(
        &mut sessions,
        &backend,
        &mut state,
        &MemoryAllocateRequest {
            session_id: session_id.clone(),
            size: 32,
            protection: MemoryProtection::ReadWrite,
        },
    )
    .expect("allocation should succeed");
    backend
        .data
        .lock()
        .expect("mock data lock")
        .validation_failure = true;

    let error = cleanup_session(&mut sessions, &backend, &mut state, &session_id)
        .expect_err("unverified process must retain cleanup ownership")
        .into_rpc_error(10, "process.close");
    assert_eq!(error.code, RpcErrorCode::Internal);
    assert_eq!(state.tracked_count(&session_id), 1);
    assert_eq!(
        backend
            .data
            .lock()
            .expect("mock data lock")
            .allocations
            .len(),
        1
    );

    backend
        .data
        .lock()
        .expect("mock data lock")
        .validation_failure = false;
    cleanup_session(&mut sessions, &backend, &mut state, &session_id)
        .expect("cleanup should remain retryable after verification recovers");
    assert_eq!(state.tracked_count(&session_id), 0);
}

fn read_mock_range(
    data: &MockMutationData,
    address: usize,
    size: usize,
) -> Result<Vec<u8>, ProcessBackendError> {
    if address >= BASE {
        let offset = address - BASE;
        if let Some(end) = offset.checked_add(size) {
            if end <= data.primary.len() {
                return Ok(data.primary[offset..end].to_vec());
            }
        }
    }
    for (allocation_base, allocation) in &data.allocations {
        if address >= *allocation_base {
            let offset = address - *allocation_base;
            if let Some(end) = offset.checked_add(size) {
                if end <= allocation.len() {
                    return Ok(allocation[offset..end].to_vec());
                }
            }
        }
    }
    Err(mock_range_error())
}

fn mock_range_error() -> ProcessBackendError {
    ProcessBackendError::new(
        ProcessBackendErrorKind::Native,
        "mock range is outside committed memory",
    )
}

fn parse_address(address: &str) -> usize {
    usize::from_str_radix(address.trim_start_matches("0x"), 16).expect("valid address")
}
