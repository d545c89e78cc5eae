//! Automatic login: its transfers, its code, and what it cleans up.

use std::sync::atomic::{AtomicBool, AtomicU8, Ordering};
use std::sync::Mutex;

use deimos_agent::backend::{
    MemoryBackend, MutationBackend, OpenedProcess, ProcessBackend, ProcessBackendError,
    ProcessBackendErrorKind, ProcessThreadResume, RemoteThreadPoll, StartedRemoteThread,
    SuspendedProcess,
};
use deimos_agent::game_login::{
    authenticate_transfer, build_login_code, build_login_command, cleanup_record, login_pattern,
    relative_detour, unique_match, CredentialSecret, LoginRecord, LoginState, RemoteAllocation,
};
use deimos_agent::protocol::{
    AgentIdentity, ClientId, GameLoginRequest, MemoryProtection, MemoryRegionDescriptor,
    ModuleDescriptor, ProcessDescriptor, ProcessIdentity,
};

#[derive(Default)]
struct CleanupBackend {
    writes: Mutex<Vec<(usize, Vec<u8>)>>,
    frees: Mutex<Vec<usize>>,
    fail_free_once: AtomicBool,
    execution_state: AtomicU8,
}

impl ProcessBackend for CleanupBackend {
    type Handle = ();

    fn list_processes(&self) -> Result<Vec<ProcessDescriptor>, ProcessBackendError> {
        Ok(Vec::new())
    }

    fn open_process(
        &self,
        _pid: u32,
    ) -> Result<OpenedProcess<Self::Handle>, ProcessBackendError> {
        unreachable!("cleanup test does not open a process")
    }

    fn validate_process(
        &self,
        _handle: &Self::Handle,
        _expected: &ProcessIdentity,
    ) -> Result<(), ProcessBackendError> {
        Ok(())
    }

    fn enumerate_modules(
        &self,
        _handle: &Self::Handle,
        _expected: &ProcessIdentity,
    ) -> Result<Vec<ModuleDescriptor>, ProcessBackendError> {
        Ok(Vec::new())
    }
}

impl MemoryBackend for CleanupBackend {
    fn enumerate_memory_regions(
        &self,
        _handle: &Self::Handle,
        _expected: &ProcessIdentity,
    ) -> Result<Vec<MemoryRegionDescriptor>, ProcessBackendError> {
        Ok(Vec::new())
    }

    fn read_memory(
        &self,
        _handle: &Self::Handle,
        _address: usize,
        size: usize,
    ) -> Result<Vec<u8>, ProcessBackendError> {
        Ok(vec![self.execution_state.load(Ordering::SeqCst); size])
    }
}

struct Resumed;

impl ProcessThreadResume for Resumed {
    fn resume(&mut self) -> Result<(), ProcessBackendError> {
        Ok(())
    }
}

impl MutationBackend for CleanupBackend {
    type ThreadHandle = ();

    fn write_memory(
        &self,
        _handle: &Self::Handle,
        address: usize,
        bytes: &[u8],
    ) -> Result<(), ProcessBackendError> {
        self.writes.lock().unwrap().push((address, bytes.to_vec()));
        Ok(())
    }

    fn allocate_memory(
        &self,
        _handle: &Self::Handle,
        _size: usize,
        _protection: MemoryProtection,
    ) -> Result<usize, ProcessBackendError> {
        unreachable!("cleanup test does not allocate")
    }

    fn free_memory(
        &self,
        _handle: &Self::Handle,
        address: usize,
    ) -> Result<(), ProcessBackendError> {
        if self.fail_free_once.swap(false, Ordering::SeqCst) {
            return Err(ProcessBackendError::new(
                ProcessBackendErrorKind::Native,
                "forced free failure",
            ));
        }
        self.frees.lock().unwrap().push(address);
        Ok(())
    }

    fn suspend_process_threads(
        &self,
        _handle: &Self::Handle,
    ) -> Result<SuspendedProcess, ProcessBackendError> {
        Ok(SuspendedProcess::new(Vec::new(), Resumed))
    }

    fn protect_memory(
        &self,
        _handle: &Self::Handle,
        _address: usize,
        _size: usize,
        _protection: MemoryProtection,
    ) -> Result<MemoryProtection, ProcessBackendError> {
        Ok(MemoryProtection::ExecuteRead)
    }

    fn start_remote_thread(
        &self,
        _handle: &Self::Handle,
        _start_address: usize,
        _parameter: Option<usize>,
    ) -> Result<StartedRemoteThread<Self::ThreadHandle>, ProcessBackendError> {
        unreachable!("cleanup test does not create threads")
    }

    fn poll_remote_thread(
        &self,
        _thread: &Self::ThreadHandle,
        _wait_timeout_ms: u32,
    ) -> Result<RemoteThreadPoll, ProcessBackendError> {
        unreachable!("cleanup test does not poll threads")
    }

    fn flush_instruction_cache(
        &self,
        _handle: &Self::Handle,
        _address: usize,
        _size: usize,
    ) -> Result<(), ProcessBackendError> {
        Ok(())
    }
}

#[test]
fn login_pattern_must_be_unique() {
    let pattern = login_pattern();
    let bytes = pattern
        .iter()
        .map(|value| value.unwrap_or(0x11))
        .collect::<Vec<_>>();
    assert_eq!(unique_match(&bytes, &pattern, "login").unwrap(), 0);
    let repeated = [bytes.clone(), bytes].concat();
    assert!(unique_match(&repeated, &pattern, "login").is_err());
}

#[test]
fn login_trampoline_claims_once_and_preserves_volatile_machine_state() {
    let code = build_login_code(
        0x1000,
        0x2000,
        0x3000,
        0x4000,
        0x5000,
        &[0x48, 0x8b, 0x01, 0x90, 0x90, 0x90, 0x90],
        0x1100,
    )
    .expect("login trampoline");
    assert!(code.starts_with(&[0x9c, 0x50, 0x51, 0x52]));
    assert!(code
        .windows(4)
        .any(|bytes| bytes == [0xf0, 0x0f, 0xb0, 0x0a]));
    assert_eq!(code.iter().filter(|byte| **byte == 0x9d).count(), 2);
    for register in 0..6u8 {
        let offset = 0x20 + register * 0x10;
        assert!(code
            .windows(6)
            .any(|bytes| { bytes == [0xf3, 0x0f, 0x7f, 0x44 + register * 8, 0x24, offset] }));
        assert!(code
            .windows(6)
            .any(|bytes| { bytes == [0xf3, 0x0f, 0x6f, 0x44 + register * 8, 0x24, offset] }));
    }
}

#[test]
fn cleanup_restores_patch_clears_secret_memory_and_retries_failed_free() {
    let backend = CleanupBackend {
        fail_free_once: AtomicBool::new(true),
        ..CleanupBackend::default()
    };
    let mut record = LoginRecord {
        handle: (),
        identity: ProcessIdentity {
            pid: 7,
            creation_time_100ns: "9".to_string(),
            executable_path: "WizardGraphicalClient.exe".to_string(),
        },
        hook_address: 0x1000,
        original_bytes: vec![0x48, 0x8b, 0x01, 0x90, 0x90, 0x90, 0x90],
        original_protection: Some(MemoryProtection::ExecuteRead),
        patch_may_be_active: true,
        allocations: vec![RemoteAllocation {
            address: 0x2000,
            size: 16,
            sensitive: true,
        }],
        code_range: Some((0x3000, 64)),
        execution_flag: Some(0x4000),
    };

    let first = cleanup_record(&backend, &mut record);
    assert_eq!(first.len(), 1);
    assert!(!record.patch_may_be_active);
    assert_eq!(record.allocations.len(), 1);
    let second = cleanup_record(&backend, &mut record);
    assert!(second.is_empty());
    assert!(record.allocations.is_empty());
    assert_eq!(*backend.frees.lock().unwrap(), vec![0x2000]);
    let writes = backend.writes.lock().unwrap();
    assert!(writes
        .iter()
        .any(|(address, bytes)| { *address == 0x1000 && bytes == &record.original_bytes }));
    assert!(writes.iter().any(|(address, bytes)| {
        *address == 0x2000 && bytes.iter().all(|value| *value == 0)
    }));
}

#[test]
fn cleanup_retains_code_while_the_external_dispatcher_can_return_to_it() {
    let backend = CleanupBackend {
        execution_state: AtomicU8::new(2),
        ..CleanupBackend::default()
    };
    let mut record = LoginRecord {
        handle: (),
        identity: ProcessIdentity {
            pid: 7,
            creation_time_100ns: "9".to_string(),
            executable_path: "WizardGraphicalClient.exe".to_string(),
        },
        hook_address: 0x1000,
        original_bytes: vec![0x48, 0x8b, 0x01, 0x90, 0x90, 0x90, 0x90],
        original_protection: Some(MemoryProtection::ExecuteRead),
        patch_may_be_active: true,
        allocations: vec![RemoteAllocation {
            address: 0x3000,
            size: 512,
            sensitive: false,
        }],
        code_range: Some((0x3000, 512)),
        execution_flag: Some(0x4000),
    };

    let pending = cleanup_record(&backend, &mut record);
    assert_eq!(pending, ["the game login dispatcher was still executing"]);
    assert!(record.patch_may_be_active);
    assert!(backend.frees.lock().unwrap().is_empty());

    backend.execution_state.store(0, Ordering::SeqCst);
    assert!(cleanup_record(&backend, &mut record).is_empty());
    assert!(!record.patch_may_be_active);
    assert!(record.allocations.is_empty());
}

fn agent_identity() -> AgentIdentity {
    AgentIdentity {
        instance_id: "agent-instance".to_string(),
        version: "test".to_string(),
        build_id: "test".to_string(),
        process_id: 1,
    }
}

fn login_request(identity: &AgentIdentity, transfer_id: String) -> GameLoginRequest {
    GameLoginRequest {
        client_id: ClientId("client-1".to_string()),
        agent_instance_id: identity.instance_id.clone(),
        transfer_id,
        timeout_ms: 1_000,
    }
}

fn credential() -> CredentialSecret {
    CredentialSecret::new(b"user".to_vec(), b"secret-value".to_vec())
}

#[test]
fn credential_transfers_are_instance_bound_and_one_shot() {
    let identity = agent_identity();
    let request = login_request(&identity, "01".repeat(32));
    let mut state: LoginState<()> = LoginState::default();
    assert!(authenticate_transfer(&mut state, &identity, &request, Some(credential())).is_ok());
    assert!(authenticate_transfer(&mut state, &identity, &request, Some(credential())).is_err());

    let mut wrong_identity = identity;
    wrong_identity.instance_id = "replacement-agent".to_string();
    let mut fresh_state: LoginState<()> = LoginState::default();
    assert!(authenticate_transfer(
        &mut fresh_state,
        &wrong_identity,
        &request,
        Some(credential())
    )
    .is_err());
}

#[test]
fn unauthenticated_envelopes_do_not_consume_the_replay_registry() {
    let identity = agent_identity();
    let request = login_request(&identity, "02".repeat(32));
    let mut state: LoginState<()> = LoginState::default();
    assert!(authenticate_transfer(&mut state, &identity, &request, None).is_err());
    assert!(authenticate_transfer(&mut state, &identity, &request, None).is_err());
    assert_eq!(state.used_count(), 0);
    assert!(authenticate_transfer(&mut state, &identity, &request, Some(credential())).is_ok());
    assert_eq!(state.used_count(), 1);
}

#[test]
fn command_buffers_and_envelopes_are_redacted() {
    let identity = agent_identity();
    let sealed = login_request(&identity, "03".repeat(32));
    let mut state: LoginState<()> = LoginState::default();
    let credential = authenticate_transfer(
        &mut state,
        &identity,
        &sealed,
        Some(CredentialSecret::new(
            b"user".to_vec(),
            b"secret-value".to_vec(),
        )),
    )
    .expect("open");
    let command = build_login_command(&credential).expect("command");
    assert!(command.ends_with(b"secret-value\0"));
    assert!(!format!("{sealed:?}").contains("secret-value"));
    let _: LoginState<()> = LoginState::default();
}

#[test]
fn a_command_spells_the_account() {
    let command = build_login_command(&credential()).expect("command");
    assert_eq!(command, b"login user secret-value\0");
    let control = CredentialSecret::new(b"us\ner".to_vec(), b"secret-value".to_vec());
    assert!(build_login_command(&control).is_err());
}

#[test]
fn a_wiped_account_is_gone() {
    let mut account = credential();
    account.wipe();
    assert_eq!(
        build_login_command(&account).expect("command"),
        b"login  \0"
    );
}

#[test]
fn a_relative_jump_leads_to_its_destination() {
    assert_eq!(
        relative_detour(0x1000, 0x2000, 7).expect("near"),
        vec![0xe9, 0xfb, 0x0f, 0, 0, 0x90, 0x90]
    );
    assert_eq!(
        relative_detour(0x2000, 0x1000, 5).expect("near"),
        vec![0xe9, 0xfb, 0xef, 0xff, 0xff]
    );
    assert!(relative_detour(0x1000, 0x1_0000_0000_0000, 5).is_err());
}
