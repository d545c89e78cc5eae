//! Hooks over a backend that keeps the memory of a fixture process.

use std::collections::BTreeMap;
use std::sync::{Arc, Mutex};

use deimos_agent::backend::{
    MemoryBackend, MutationBackend, OpenedProcess, ProcessBackend, ProcessBackendError,
    ProcessBackendErrorKind, ProcessThreadResume, RemoteThreadPoll, StartedRemoteThread,
    SuspendedProcess,
};
use deimos_agent::core_hook;
use deimos_agent::hook::{
    activate, activate_template, build_detour, build_trampoline, cleanup_session, deactivate,
    expire_at, heartbeat, relocatable_prefix_len, validate_relocatable_x64, HookState,
    HOOK_LEASE_MS,
};
use deimos_agent::mutation::MutationState;
use deimos_agent::process::ProcessSessionRegistry;
use deimos_agent::protocol::{
    CoreHook, CoreHookRequest, CoreHookSessionRequest, HookActivateRequest, HookDeactivateRequest,
    HookHeartbeatRequest, MemoryProtection, MemoryRegionDescriptor, MemoryScanScope,
    ModuleDescriptor, OpenProcessRequest, ProcessAccessMode, ProcessDescriptor, ProcessIdentity,
    ProcessKind, ProcessSessionId,
};
use deimos_agent::rpc::RpcErrorCode;

const TARGET: usize = 0x1000;
const ALLOCATION: usize = 0x2000;
const SIGNATURE: &str = "90 90 90 90 90 90 90 90 90 90 90 90 90 90 C3 90";
const SECOND_SIGNATURE: &str = "90 90 90 90 90 90 90 90 90 90 90 90 90 90 C3 C3";
const LONG_SIGNATURE: &str = "90 90 90 90 90 90 90 90 90 90 90 90 90 90 C3 90 \
                              90 90 90 90 90 90 90 90 90 90 90 90 90 90 C3 C3";

#[derive(Clone, Copy, Debug)]
enum Failure {
    Allocate,
    TrampolineWrite,
    TrampolineFlush,
    TargetProtect,
    TargetWrite,
    TargetFlush,
    TargetRestore,
    Free,
}

struct Data {
    primary: Vec<u8>,
    allocations: BTreeMap<usize, Vec<u8>>,
    target_protection: MemoryProtection,
    next_allocation: usize,
    failures: Vec<Failure>,
}

#[derive(Clone)]
struct Backend(Arc<Mutex<Data>>);

#[derive(Clone, Copy)]
struct Handle;

#[derive(Clone, Copy)]
struct Thread;

impl Backend {
    fn new(failure: Option<Failure>) -> Self {
        Self::with_failures(failure.into_iter().collect())
    }

    fn with_primary(primary: Vec<u8>, failures: Vec<Failure>) -> Self {
        Self(Arc::new(Mutex::new(Data {
            primary,
            allocations: BTreeMap::new(),
            target_protection: MemoryProtection::ReadOnly,
            next_allocation: ALLOCATION,
            failures,
        })))
    }

    fn with_failures(failures: Vec<Failure>) -> Self {
        Self::with_primary(
            vec![
                0x90, 0x90, 0x90, 0x90, 0x90, 0x90, 0x90, 0x90, 0x90, 0x90, 0x90, 0x90, 0x90,
                0x90, 0xc3, 0x90, 0x90, 0x90, 0x90, 0x90, 0x90, 0x90, 0x90, 0x90, 0x90, 0x90,
                0x90, 0x90, 0x90, 0x90, 0xc3, 0xc3,
            ],
            failures,
        )
    }

    fn core_sites(failure: Option<Failure>) -> Self {
        let mut primary = Vec::new();
        for marker in 1..=6 {
            primary.extend_from_slice(&[
                0xb8, marker, 0xd0, 0xc0, 0x00, 0x90, 0x90, 0x90, 0x90, 0x90, 0x90, 0x90, 0x90,
                0x90, 0x90, 0xc3,
            ]);
        }
        Self::with_primary(primary, failure.into_iter().collect())
    }

    fn primary(&self) -> Vec<u8> {
        self.0.lock().expect("data lock").primary.clone()
    }

    fn corrupt_primary_byte(&self, offset: usize) {
        let mut data = self.0.lock().expect("data lock");
        data.primary[offset] ^= 0xff;
    }

    fn allocation_count(&self) -> usize {
        self.0.lock().expect("data lock").allocations.len()
    }
}

fn failure(message: &str) -> ProcessBackendError {
    ProcessBackendError::new(ProcessBackendErrorKind::Native, message)
}

fn take_failure(data: &mut Data, expected: Failure) -> bool {
    if let Some(index) = data
        .failures
        .iter()
        .position(|actual| *actual as u8 == expected as u8)
    {
        data.failures.remove(index);
        true
    } else {
        false
    }
}

impl ProcessBackend for Backend {
    type Handle = Handle;

    fn list_processes(&self) -> Result<Vec<ProcessDescriptor>, ProcessBackendError> {
        Ok(vec![process()])
    }

    fn open_process(
        &self,
        _pid: u32,
    ) -> Result<OpenedProcess<Self::Handle>, ProcessBackendError> {
        Ok(OpenedProcess {
            handle: Handle,
            process: process(),
        })
    }

    fn open_process_for_access(
        &self,
        pid: u32,
        _access_mode: ProcessAccessMode,
    ) -> Result<OpenedProcess<Self::Handle>, ProcessBackendError> {
        self.open_process(pid)
    }

    fn validate_process(
        &self,
        _handle: &Self::Handle,
        _expected: &ProcessIdentity,
    ) -> Result<(), ProcessBackendError> {
        Ok(())
    }

    fn enumerate_modules(
        &self,
        _handle: &Self::Handle,
        _expected: &ProcessIdentity,
    ) -> Result<Vec<ModuleDescriptor>, ProcessBackendError> {
        Ok(Vec::new())
    }
}

impl MemoryBackend for Backend {
    fn enumerate_memory_regions(
        &self,
        _handle: &Self::Handle,
        _expected: &ProcessIdentity,
    ) -> Result<Vec<MemoryRegionDescriptor>, ProcessBackendError> {
        Ok(vec![MemoryRegionDescriptor {
            base_address: format!("{TARGET:#x}"),
            size: self.0.lock().expect("data lock").primary.len(),
            protection: MemoryProtection::ReadOnly,
        }])
    }

    fn read_memory(
        &self,
        _handle: &Self::Handle,
        address: usize,
        size: usize,
    ) -> Result<Vec<u8>, ProcessBackendError> {
        let data = self.0.lock().expect("data lock");
        let end_outside_primary = match address.checked_add(size) {
            Some(end) => end > TARGET + data.primary.len(),
            None => true,
        };
        if address < TARGET || end_outside_primary {
            return Err(failure("read range"));
        }
        Ok(data.primary[address - TARGET..address - TARGET + size].to_vec())
    }
}

struct Resumed;

impl ProcessThreadResume for Resumed {
    fn resume(&mut self) -> Result<(), ProcessBackendError> {
        Ok(())
    }
}

impl MutationBackend for Backend {
    type ThreadHandle = Thread;

    fn write_memory(
        &self,
        _handle: &Self::Handle,
        address: usize,
        bytes: &[u8],
    ) -> Result<(), ProcessBackendError> {
        let mut data = self.0.lock().expect("data lock");
        if address == ALLOCATION && take_failure(&mut data, Failure::TrampolineWrite) {
            return Err(failure("forced trampoline write failure"));
        }
        let target_range = address >= TARGET && address < TARGET + data.primary.len();
        if target_range && take_failure(&mut data, Failure::TargetWrite) {
            return Err(failure("forced target write failure"));
        }
        if address >= TARGET && address < TARGET + data.primary.len() {
            let offset = address - TARGET;
            let out_of_range = match offset.checked_add(bytes.len()) {
                Some(end) => end > data.primary.len(),
                None => true,
            };
            if out_of_range {
                return Err(failure("target write range"));
            }
            data.primary[offset..offset + bytes.len()].copy_from_slice(bytes);
            return Ok(());
        }
        let allocation = data
            .allocations
            .get_mut(&address)
            .ok_or_else(|| failure("allocation write range"))?;
        if bytes.len() > allocation.len() {
            return Err(failure("allocation write range"));
        }
        allocation[..bytes.len()].copy_from_slice(bytes);
        Ok(())
    }

    fn allocate_memory(
        &self,
        _handle: &Self::Handle,
        size: usize,
        _protection: MemoryProtection,
    ) -> Result<usize, ProcessBackendError> {
        let mut data = self.0.lock().expect("data lock");
        if take_failure(&mut data, Failure::Allocate) {
            return Err(failure("forced allocation failure"));
        }
        let address = data.next_allocation;
        data.next_allocation += 0x1000;
        data.allocations.insert(address, vec![0; size]);
        Ok(address)
    }

    fn free_memory(
        &self,
        _handle: &Self::Handle,
        address: usize,
    ) -> Result<(), ProcessBackendError> {
        let mut data = self.0.lock().expect("data lock");
        if take_failure(&mut data, Failure::Free) {
            return Err(failure("forced allocation free failure"));
        }
        data.allocations
            .remove(&address)
            .map(|_| ())
            .ok_or_else(|| failure("allocation free range"))
    }

    fn suspend_process_threads(
        &self,
        _handle: &Self::Handle,
    ) -> Result<SuspendedProcess, ProcessBackendError> {
        Ok(SuspendedProcess::new(Vec::new(), Resumed))
    }

    fn protect_memory(
        &self,
        _handle: &Self::Handle,
        address: usize,
        _size: usize,
        protection: MemoryProtection,
    ) -> Result<MemoryProtection, ProcessBackendError> {
        let mut data = self.0.lock().expect("data lock");
        let target_range = address >= TARGET && address < TARGET + data.primary.len();
        if target_range
            && protection == MemoryProtection::ExecuteReadWrite
            && take_failure(&mut data, Failure::TargetProtect)
        {
            return Err(failure("forced target protect failure"));
        }
        if target_range
            && protection == MemoryProtection::ReadOnly
            && take_failure(&mut data, Failure::TargetRestore)
        {
            return Err(failure("forced target restore failure"));
        }
        let previous = data.target_protection;
        data.target_protection = protection;
        Ok(previous)
    }

    fn start_remote_thread(
        &self,
        _handle: &Self::Handle,
        _start_address: usize,
        _parameter: Option<usize>,
    ) -> Result<StartedRemoteThread<Self::ThreadHandle>, ProcessBackendError> {
        Err(failure("not used by hooks"))
    }

    fn poll_remote_thread(
        &self,
        _thread: &Self::ThreadHandle,
        _wait_timeout_ms: u32,
    ) -> Result<RemoteThreadPoll, ProcessBackendError> {
        Err(failure("not used by hooks"))
    }

    fn flush_instruction_cache(
        &self,
        _handle: &Self::Handle,
        address: usize,
        _size: usize,
    ) -> Result<(), ProcessBackendError> {
        let mut data = self.0.lock().expect("data lock");
        let failure_stage = if address >= ALLOCATION {
            Failure::TrampolineFlush
        } else {
            Failure::TargetFlush
        };
        if take_failure(&mut data, failure_stage) {
            return Err(failure("forced instruction-cache flush failure"));
        }
        Ok(())
    }
}

fn process() -> ProcessDescriptor {
    let path = r"C:\\fixture\\deimos-memory-fixture.exe".to_string();
    ProcessDescriptor {
        pid: 7,
        name: "deimos-memory-fixture.exe".to_string(),
        kind: ProcessKind::MemoryFixture,
        executable_path: Some(path.clone()),
        identity: Some(ProcessIdentity {
            pid: 7,
            creation_time_100ns: "1".to_string(),
            executable_path: path,
        }),
    }
}

fn registry(
    backend: &Backend,
) -> (
    ProcessSessionRegistry<Handle>,
    ProcessSessionId,
) {
    let mut sessions = ProcessSessionRegistry::new(1, 1);
    let session = sessions
        .open(
            backend,
            &OpenProcessRequest {
                pid: 7,
                expected_identity: None,
                access_mode: ProcessAccessMode::Mutation,
            },
        )
        .expect("mutation session");
    (sessions, session.session_id)
}

fn hook_request(session_id: ProcessSessionId) -> HookActivateRequest {
    HookActivateRequest {
        session_id,
        hook_key: "fixture.detour".to_string(),
        signature: SIGNATURE.to_string(),
        scope: MemoryScanScope::Process,
        payload: vec![0x90],
    }
}

fn second_request(session_id: ProcessSessionId) -> HookActivateRequest {
    HookActivateRequest {
        session_id,
        hook_key: "fixture.second".to_string(),
        signature: SECOND_SIGNATURE.to_string(),
        scope: MemoryScanScope::Process,
        payload: vec![0x90],
    }
}

#[test]
fn absolute_detours_preserve_registers_and_pad_the_full_overwrite() {
    let detour = build_detour(0x1122_3344_5566_7788, 17);
    assert_eq!(&detour[..6], &[0xff, 0x25, 0, 0, 0, 0]);
    assert_eq!(&detour[6..14], &0x1122_3344_5566_7788u64.to_le_bytes());
    assert_eq!(&detour[14..], &[0x90; 3]);
}

#[test]
fn trampoline_falls_through_saved_bytes_then_continuation() {
    let trampoline = build_trampoline(&[0x90], &[1, 2, 3], 0x1234);
    assert_eq!(&trampoline[..4], &[0x90, 1, 2, 3]);
    assert_eq!(&trampoline[4..10], &[0xff, 0x25, 0, 0, 0, 0]);
    assert_eq!(&trampoline[10..], &0x1234u64.to_le_bytes());
}

#[test]
fn lease_is_the_documented_thirty_seconds() {
    assert_eq!(HOOK_LEASE_MS / 1000, 30);
}

#[test]
fn operand_size_prefixes_shorten_immediates_so_that_branches_stay_visible() {
    // mov word [rcx], 1; jmp short
    assert!(validate_relocatable_x64(&[0x66, 0xc7, 0x01, 0x01, 0x00, 0xeb, 0xfe]).is_err());
    assert!(validate_relocatable_x64(&[0x66, 0xc7, 0x01, 0x01, 0x00]).is_ok());
    // mov ax, 1; jmp short
    assert!(validate_relocatable_x64(&[0x66, 0xb8, 0x01, 0x00, 0xeb, 0xfe]).is_err());
    // add cx, 1; imul ax, cx, 1; test cx, 1
    assert!(validate_relocatable_x64(&[0x66, 0x81, 0xc1, 1, 0]).is_ok());
    assert!(validate_relocatable_x64(&[0x66, 0x69, 0xc1, 1, 0]).is_ok());
    assert!(validate_relocatable_x64(&[0x66, 0xf7, 0xc1, 1, 0]).is_ok());
    assert!(validate_relocatable_x64(&[0x66, 0xf7, 0xc1, 1, 0, 0xeb, 0xfe]).is_err());
    // A wide operand keeps its four bytes; a prefix in between takes the widening away.
    assert!(validate_relocatable_x64(&[0x66, 0x48, 0xc7, 0xc1, 1, 0, 0, 0]).is_ok());
    assert!(validate_relocatable_x64(&[0x48, 0x66, 0xc7, 0xc1, 1, 0, 0xeb, 0xfe]).is_err());
    // xbegin is a branch.
    assert!(validate_relocatable_x64(&[0xc7, 0xf8, 1, 0, 0, 0]).is_err());
}

#[test]
fn relocation_guard_accepts_safe_code_and_rejects_relative_operands() {
    assert!(validate_relocatable_x64(&[
        0xc7, 0x01, 1, 0, 0, 0, 0xc7, 0x41, 4, 0, 0, 0, 0, 0x31, 0xc0, 0xc3,
    ])
    .is_ok());
    assert_eq!(
        validate_relocatable_x64(&[0xe8, 0, 0, 0, 0])
            .expect_err("relative call must be rejected")
            .into_rpc_error(1, "hook.activate")
            .code,
        RpcErrorCode::InvalidRequest
    );
    assert_eq!(
        relocatable_prefix_len(
            &[
                0xf2, 0x0f, 0x10, 0x40, 0x58, // movsd xmm0,[rax+58]
                0xf2, 0x0f, 0x10, 0x48, 0x60, // movsd xmm1,[rax+60]
                0xf2, 0x0f, 0x10, 0x50, 0x68, // movsd xmm2,[rax+68]
                0xc3,
            ],
            14,
        )
        .expect("SIMD core-hook instructions should decode"),
        15
    );
    assert_eq!(
        validate_relocatable_x64(&[0x48, 0x8b, 0x05, 0, 0, 0, 0])
            .expect_err("RIP-relative read must be rejected")
            .into_rpc_error(2, "hook.activate")
            .code,
        RpcErrorCode::InvalidRequest
    );
    assert!(validate_relocatable_x64(&[
        0x48, 0xb8, 1, 2, 3, 4, 5, 6, 7, 8, // mov rax, imm64
        0x90,
    ])
    .is_ok());
    assert!(
        validate_relocatable_x64(&[0x48, 0xb8, 1, 2, 3, 4])
            .expect_err("truncated movabs must be rejected")
            .into_rpc_error(3, "hook.activate")
            .code
            == RpcErrorCode::InvalidRequest
    );
}

#[test]
fn activation_is_idempotent_and_deactivation_releases_its_allocation() {
    let backend = Backend::new(None);
    let before = backend.primary();
    let (mut sessions, session_id) = registry(&backend);
    let mut mutations = MutationState::new();
    let mut hooks = HookState::default();
    let now = 0;
    let first = activate(
        &mut sessions,
        &backend,
        &mut mutations,
        &mut hooks,
        &hook_request(session_id.clone()),
        now,
    )
    .expect("activation");
    assert_ne!(backend.primary(), before);
    assert_eq!(backend.allocation_count(), 1);
    let duplicate = activate(
        &mut sessions,
        &backend,
        &mut mutations,
        &mut hooks,
        &hook_request(session_id.clone()),
        now + HOOK_LEASE_MS,
    )
    .expect("duplicate activation");
    assert_eq!(duplicate.allocation_id, first.allocation_id);
    assert_eq!(backend.allocation_count(), 1);
    assert_eq!(hooks.tracked_count(&session_id), 1);
    let response = deactivate(
        &mut sessions,
        &backend,
        &mut mutations,
        &mut hooks,
        &HookDeactivateRequest {
            session_id: session_id.clone(),
            hook_key: "fixture.detour".to_string(),
        },
    )
    .expect("deactivate");
    assert!(response.deactivated && response.allocation_released);
    assert_eq!(backend.primary(), before);
    assert_eq!(backend.allocation_count(), 0);
    assert_eq!(mutations.tracked_count(&session_id), 0);
    assert!(
        !deactivate(
            &mut sessions,
            &backend,
            &mut mutations,
            &mut hooks,
            &HookDeactivateRequest {
                session_id,
                hook_key: "fixture.detour".to_string()
            }
        )
        .expect("idempotent deactivation")
        .deactivated
    );
}

#[test]
fn template_overwrite_does_not_modify_verified_signature_suffix() {
    let backend = Backend::new(None);
    let before = backend.primary();
    let (mut sessions, session_id) = registry(&backend);
    let mut mutations = MutationState::new();
    let mut hooks = HookState::default();
    let request = HookActivateRequest {
        session_id: session_id.clone(),
        hook_key: "fixture.long-signature".to_string(),
        signature: LONG_SIGNATURE.to_string(),
        scope: MemoryScanScope::Process,
        payload: vec![0x90],
    };

    activate_template(
        &mut sessions,
        &backend,
        &mut mutations,
        &mut hooks,
        &request,
        0,
        Some(16),
        0,
    )
    .expect("template activation");

    let active = backend.primary();
    assert_ne!(&active[..16], &before[..16]);
    assert_eq!(&active[16..], &before[16..]);

    deactivate(
        &mut sessions,
        &backend,
        &mut mutations,
        &mut hooks,
        &HookDeactivateRequest {
            session_id,
            hook_key: request.hook_key,
        },
    )
    .expect("template deactivation");
    assert_eq!(backend.primary(), before);
}

#[test]
fn every_activation_failure_rolls_back_fixture_bytes_and_allocations() {
    for failure_stage in [
        Failure::Allocate,
        Failure::TrampolineWrite,
        Failure::TrampolineFlush,
        Failure::TargetProtect,
        Failure::TargetWrite,
        Failure::TargetFlush,
        Failure::TargetRestore,
    ] {
        let backend = Backend::new(Some(failure_stage));
        let before = backend.primary();
        let (mut sessions, session_id) = registry(&backend);
        let mut mutations = MutationState::new();
        let mut hooks = HookState::default();
        assert!(activate(
            &mut sessions,
            &backend,
            &mut mutations,
            &mut hooks,
            &hook_request(session_id.clone()),
            0
        )
        .is_err());
        assert_eq!(
            backend.primary(),
            before,
            "failure stage must leave fixture unchanged"
        );
        assert_eq!(
            backend.allocation_count(),
            0,
            "failure stage must free its allocation"
        );
        assert_eq!(mutations.tracked_count(&session_id), 0);
        assert_eq!(hooks.tracked_count(&session_id), 0);
    }
}

#[test]
fn failed_cleanup_retains_a_retryable_hook_record_and_allocation() {
    let backend = Backend::with_failures(vec![Failure::TargetFlush, Failure::Free]);
    let before = backend.primary();
    let (mut sessions, session_id) = registry(&backend);
    let mut mutations = MutationState::new();
    let mut hooks = HookState::default();
    assert!(activate(
        &mut sessions,
        &backend,
        &mut mutations,
        &mut hooks,
        &hook_request(session_id.clone()),
        0,
    )
    .is_err());
    assert_eq!(hooks.tracked_count(&session_id), 1);
    assert_eq!(mutations.tracked_count(&session_id), 1);
    assert_eq!(backend.allocation_count(), 1);
    deactivate(
        &mut sessions,
        &backend,
        &mut mutations,
        &mut hooks,
        &HookDeactivateRequest {
            session_id: session_id.clone(),
            hook_key: "fixture.detour".to_string(),
        },
    )
    .expect("retained recovery record should be retryable");
    assert_eq!(backend.primary(), before);
    assert_eq!(hooks.tracked_count(&session_id), 0);
    assert_eq!(mutations.tracked_count(&session_id), 0);
}

#[test]
fn one_cleanup_failure_does_not_block_later_hooks_in_the_same_session() {
    let backend = Backend::with_failures(vec![Failure::Free]);
    let (mut sessions, session_id) = registry(&backend);
    let mut mutations = MutationState::new();
    let mut hooks = HookState::default();
    activate(
        &mut sessions,
        &backend,
        &mut mutations,
        &mut hooks,
        &hook_request(session_id.clone()),
        0,
    )
    .expect("first hook activation");
    activate(
        &mut sessions,
        &backend,
        &mut mutations,
        &mut hooks,
        &second_request(session_id.clone()),
        0,
    )
    .expect("second hook activation");
    let error = cleanup_session(
        &mut sessions,
        &backend,
        &mut mutations,
        &mut hooks,
        &session_id,
    )
    .expect_err("one forced release failure should be reported after every hook is attempted");
    assert_eq!(
        error.into_rpc_error(1, "hook.cleanup").code,
        RpcErrorCode::MemoryWriteFailed
    );
    assert_eq!(hooks.tracked_count(&session_id), 1);
    assert_eq!(mutations.tracked_count(&session_id), 1);
    cleanup_session(
        &mut sessions,
        &backend,
        &mut mutations,
        &mut hooks,
        &session_id,
    )
    .expect("the retained hook should clean up on retry");
    assert_eq!(hooks.tracked_count(&session_id), 0);
    assert_eq!(mutations.tracked_count(&session_id), 0);
}

#[test]
fn heartbeat_renews_and_expiry_or_session_cleanup_restores_memory() {
    let backend = Backend::new(None);
    let before = backend.primary();
    let (mut sessions, session_id) = registry(&backend);
    let mut mutations = MutationState::new();
    let mut hooks = HookState::default();
    let start = 0;
    activate(
        &mut sessions,
        &backend,
        &mut mutations,
        &mut hooks,
        &hook_request(session_id.clone()),
        start,
    )
    .expect("activation");
    heartbeat(
        &mut hooks,
        &HookHeartbeatRequest {
            session_id: session_id.clone(),
            hook_key: "fixture.detour".to_string(),
        },
        start + HOOK_LEASE_MS - 1000,
    )
    .expect("heartbeat");
    assert_eq!(
        expire_at(
            &mut sessions,
            &backend,
            &mut mutations,
            &mut hooks,
            start + HOOK_LEASE_MS
        )
        .expect("expiry sweep"),
        0
    );
    assert_eq!(
        expire_at(
            &mut sessions,
            &backend,
            &mut mutations,
            &mut hooks,
            start + HOOK_LEASE_MS * 2
        )
        .expect("expiry sweep"),
        1
    );
    assert_eq!(backend.primary(), before);
    assert_eq!(backend.allocation_count(), 0);
    assert_eq!(hooks.tracked_count(&session_id), 0);

    activate(
        &mut sessions,
        &backend,
        &mut mutations,
        &mut hooks,
        &hook_request(session_id.clone()),
        start,
    )
    .expect("reactivation");
    cleanup_session(
        &mut sessions,
        &backend,
        &mut mutations,
        &mut hooks,
        &session_id,
    )
    .expect("session cleanup");
    assert_eq!(backend.primary(), before);
    assert_eq!(backend.allocation_count(), 0);
}

#[test]
fn bad_or_ambiguous_signatures_do_not_allocate_or_modify_memory() {
    let backend = Backend::new(None);
    let before = backend.primary();
    let (mut sessions, session_id) = registry(&backend);
    let mut mutations = MutationState::new();
    let mut hooks = HookState::default();
    let mut short = hook_request(session_id.clone());
    short.signature = "10 11".to_string();
    assert_eq!(
        activate(
            &mut sessions,
            &backend,
            &mut mutations,
            &mut hooks,
            &short,
            0
        )
        .expect_err("short signature")
        .into_rpc_error(1, "hook.activate")
        .code,
        RpcErrorCode::MemoryPatternInvalid
    );
    let mut ambiguous = hook_request(session_id.clone());
    ambiguous.signature = "?? ?? ?? ?? ?? ?? ?? ?? ?? ?? ?? ?? ?? ??".to_string();
    assert_eq!(
        activate(
            &mut sessions,
            &backend,
            &mut mutations,
            &mut hooks,
            &ambiguous,
            0
        )
        .expect_err("ambiguous signature")
        .into_rpc_error(2, "hook.activate")
        .code,
        RpcErrorCode::MemoryAmbiguousMatch
    );
    let mut stale = hook_request(session_id);
    stale.signature = "AA BB CC DD EE FF 00 01 02 03 04 05 06 07".to_string();
    assert_eq!(
        activate(
            &mut sessions,
            &backend,
            &mut mutations,
            &mut hooks,
            &stale,
            0
        )
        .expect_err("stale signature")
        .into_rpc_error(3, "hook.activate")
        .code,
        RpcErrorCode::MemoryRequiredMatchNotFound
    );
    assert_eq!(backend.primary(), before);
    assert_eq!(backend.allocation_count(), 0);
}

#[test]
fn every_core_hook_has_an_isolated_definition_and_private_export() {
    for selected in CoreHook::all() {
        let template = core_hook::template(selected);
        assert!(template.overwrite_size == 0 || template.overwrite_size >= 14);
        assert!(template.target_offset + template.overwrite_size <= 64);
        assert_eq!(
            &template.payload[template.export_offset..template.export_offset + 8],
            &[0; 8]
        );
        assert!(core_hook::hook_key(selected).starts_with("wizwalker.core."));
    }
}

#[test]
fn payloads_skip_their_export_slots_before_saved_instructions() {
    for selected in CoreHook::all() {
        let template = core_hook::template(selected);
        assert_eq!(
            &template.payload[template.export_offset - 2..template.export_offset],
            &[0xeb, 0x08]
        );
    }
}

#[test]
fn root_window_hook_captures_the_current_r13_root_pointer() {
    let template = core_hook::template(CoreHook::RootWindow);
    assert!(template.signature.starts_with("49 8B 8D D8 00 00 00"));
    assert_eq!(
        &template.payload[1..8],
        &[0x49, 0x8b, 0x85, 0xd8, 0x00, 0x00, 0x00]
    );
}

#[test]
fn every_core_hook_is_idempotent_restores_original_bytes_and_releases_ownership() {
    for selected in CoreHook::all() {
        let backend = Backend::core_sites(None);
        let before = backend.primary();
        let (mut sessions, session_id) = registry(&backend);
        let mut mutations = MutationState::new();
        let mut hooks = HookState::default();
        let request = CoreHookRequest {
            session_id: session_id.clone(),
            hook: selected,
        };
        core_hook::activate(
            &mut sessions,
            &backend,
            &mut mutations,
            &mut hooks,
            &request,
            0,
        )
        .expect("core hook should activate");
        core_hook::activate(
            &mut sessions,
            &backend,
            &mut mutations,
            &mut hooks,
            &request,
            0,
        )
        .expect("core hook activation should be idempotent");
        assert_eq!(hooks.tracked_count(&session_id), 1);
        assert_eq!(mutations.tracked_count(&session_id), 1);
        assert_eq!(backend.allocation_count(), 1);
        assert_ne!(backend.primary(), before);
        assert!(
            core_hook::deactivate(
                &mut sessions,
                &backend,
                &mut mutations,
                &mut hooks,
                &request,
            )
            .expect("core hook should deactivate")
            .deactivated
        );
        assert_eq!(backend.primary(), before);
        assert_eq!(hooks.tracked_count(&session_id), 0);
        assert_eq!(mutations.tracked_count(&session_id), 0);
        assert_eq!(backend.allocation_count(), 0);
        assert!(
            !core_hook::deactivate(
                &mut sessions,
                &backend,
                &mut mutations,
                &mut hooks,
                &request,
            )
            .expect("core hook deactivation should be idempotent")
            .deactivated
        );
    }
}

#[test]
fn every_core_hook_rolls_back_each_transaction_failure_stage() {
    for selected in CoreHook::all() {
        for failure in [
            Failure::Allocate,
            Failure::TrampolineWrite,
            Failure::TrampolineFlush,
            Failure::TargetProtect,
            Failure::TargetWrite,
            Failure::TargetFlush,
            Failure::TargetRestore,
        ] {
            let backend = Backend::core_sites(Some(failure));
            let before = backend.primary();
            let (mut sessions, session_id) = registry(&backend);
            let mut mutations = MutationState::new();
            let mut hooks = HookState::default();
            assert!(
                core_hook::activate(
                    &mut sessions,
                    &backend,
                    &mut mutations,
                    &mut hooks,
                    &CoreHookRequest {
                        session_id: session_id.clone(),
                        hook: selected,
                    },
                    0,
                )
                .is_err(),
                "{selected:?} should report the forced {failure:?} failure"
            );
            assert_eq!(backend.primary(), before);
            assert_eq!(hooks.tracked_count(&session_id), 0);
            assert_eq!(mutations.tracked_count(&session_id), 0);
            assert_eq!(backend.allocation_count(), 0);
        }
    }
}

#[test]
fn combined_core_activation_and_cleanup_owns_exactly_six_hooks() {
    let backend = Backend::core_sites(None);
    let before = backend.primary();
    let (mut sessions, session_id) = registry(&backend);
    let mut mutations = MutationState::new();
    let mut hooks = HookState::default();
    let request = CoreHookSessionRequest {
        session_id: session_id.clone(),
    };
    let response = core_hook::activate_all(
        &mut sessions,
        &backend,
        &mut mutations,
        &mut hooks,
        &request,
        0,
    )
    .expect("combined activation should succeed");
    assert_eq!(response.hooks.len(), CoreHook::all().len());
    assert_eq!(hooks.tracked_count(&session_id), CoreHook::all().len());
    assert_eq!(mutations.tracked_count(&session_id), CoreHook::all().len());
    assert_eq!(backend.allocation_count(), CoreHook::all().len());
    assert_ne!(backend.primary(), before);
    assert_eq!(
        core_hook::heartbeat_all(&mut hooks, &request, 0)
            .expect("combined heartbeat should renew all hooks")
            .hooks
            .len(),
        CoreHook::all().len()
    );
    core_hook::deactivate_all(
        &mut sessions,
        &backend,
        &mut mutations,
        &mut hooks,
        &request,
    )
    .expect("combined cleanup should succeed");
    assert_eq!(backend.primary(), before);
    assert_eq!(hooks.tracked_count(&session_id), 0);
    assert_eq!(mutations.tracked_count(&session_id), 0);
    assert_eq!(backend.allocation_count(), 0);
}

#[test]
fn combined_activation_attempts_every_rollback_after_one_cleanup_failure() {
    let backend = Backend::core_sites(Some(Failure::Free));
    let (mut sessions, session_id) = registry(&backend);
    let mut mutations = MutationState::new();
    let mut hooks = HookState::default();
    core_hook::activate(
        &mut sessions,
        &backend,
        &mut mutations,
        &mut hooks,
        &CoreHookRequest {
            session_id: session_id.clone(),
            hook: CoreHook::Client,
        },
        0,
    )
    .expect("pre-existing client hook should activate");

    // Make player-stat activation fail only after player and quest were
    // newly installed by the combined request.
    backend.corrupt_primary_byte(3 * 16);
    let request = CoreHookSessionRequest {
        session_id: session_id.clone(),
    };
    let error = core_hook::activate_all(
        &mut sessions,
        &backend,
        &mut mutations,
        &mut hooks,
        &request,
        0,
    )
    .expect_err("combined activation should report activation and rollback failure");
    assert_eq!(
        error.into_rpc_error(1, "core_hook.activate_all").code,
        RpcErrorCode::MemoryWriteFailed
    );

    assert!(
        hooks
            .allocation_address(&session_id, &core_hook::hook_key(CoreHook::Player))
            .is_none(),
        "player rollback must still run after quest cleanup fails"
    );
    assert!(
        hooks
            .allocation_address(&session_id, &core_hook::hook_key(CoreHook::Quest))
            .is_some(),
        "failed quest cleanup must retain agent ownership for retry"
    );
    assert!(
        hooks
            .allocation_address(&session_id, &core_hook::hook_key(CoreHook::Client))
            .is_some(),
        "the hook that predated combined activation must remain active"
    );

    core_hook::deactivate_all(
        &mut sessions,
        &backend,
        &mut mutations,
        &mut hooks,
        &request,
    )
    .expect("retained hooks should clean up on retry");
    assert_eq!(hooks.tracked_count(&session_id), 0);
    assert_eq!(mutations.tracked_count(&session_id), 0);
    assert_eq!(backend.allocation_count(), 0);
}
