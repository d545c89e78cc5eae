//! Exports of loaded images, payloads, and the actions of feature hooks over a
//! backend that keeps its memory in a map.

use std::collections::BTreeMap;
use std::sync::{Arc, Mutex};

use deimos_agent::backend::{
    MemoryBackend, MutationBackend, OpenedProcess, ProcessBackend, ProcessBackendError,
    ProcessBackendErrorKind, ProcessThreadResume, RemoteThreadPoll, StartedRemoteThread,
    SuspendedProcess,
};
use deimos_agent::core_hook;
use deimos_agent::exports::{resolve_export_from_modules, ExportLookup};
use deimos_agent::feature_error::FeatureHookApiError;
use deimos_agent::feature_hook::{
    activate, add_buddy, deactivate, export_hook, heartbeat_all, hook_key, poll_action,
    read_export, resume_teleport, send_chat, set_mouse_position, teleport, TeleportTurn,
    ACTION_TIMEOUT_MS,
};
use deimos_agent::feature_template::{select_disambiguated_candidate, Marker};
use deimos_agent::hook::{self, HookApiError, HookState, HOOK_LEASE_MS};
use deimos_agent::mutation::MutationState;
use deimos_agent::payload::{
    build_payload, dance_code, movement_code, quiescence_counter_code, PayloadKind,
};
use deimos_agent::process::ProcessSessionRegistry;
use deimos_agent::protocol::{
    CoreHook, CoreHookRequest, FeatureBuddyAddRequest, FeatureChatSendRequest, FeatureHook,
    FeatureHookExport, FeatureHookExportRequest, FeatureHookRequest, FeatureHookSessionRequest,
    FeatureMousePositionRequest, FeatureTeleportRequest, MemoryProtection, MemoryRegionDescriptor,
    ModuleDescriptor, OpenProcessRequest, ProcessAccessMode, ProcessDescriptor, ProcessIdentity,
    ProcessKind, ProcessSessionId,
};
use deimos_agent::rpc::RpcErrorCode;

const IMAGE_SIZE: usize = 0x1000;
const PRIMARY: usize = 0x10000;
const ALLOCATION: usize = 0x20000;
const CHAT_TYPE_MARKER: &[u8] = &[0xc7, 0x45, 0xf0, 0x09, 0, 0, 0];
const CHAT_HOOK_SITE: &[u8] = &[0x48, 0x8d, 0x4d, 0xf8, 0x48, 0x3b, 0xc8];

/// What goes wrong once.
#[derive(Clone, Copy, PartialEq, Eq)]
enum Failure {
    /// A write inside an allocation, behind its start.
    FeatureActionWrite,
    /// The second write to the code of the process.
    SecondTargetWrite,
    /// A release.
    Free,
    /// A thread stands inside the first allocation.
    TrampolineExecuting,
}

struct Data {
    segments: BTreeMap<usize, Vec<u8>>,
    next_allocation: usize,
    failure: Option<Failure>,
    target_writes: usize,
    /// The access rights of ranges that were changed, by where they begin.
    protections: BTreeMap<usize, MemoryProtection>,
}

#[derive(Clone)]
struct Backend(Arc<Mutex<Data>>);

struct Resumed;

impl ProcessThreadResume for Resumed {
    fn resume(&mut self) -> Result<(), ProcessBackendError> {
        Ok(())
    }
}

fn failure(message: &str) -> ProcessBackendError {
    ProcessBackendError::new(ProcessBackendErrorKind::Native, message)
}

impl Backend {
    fn with_segments(segments: BTreeMap<usize, Vec<u8>>) -> Self {
        Self(Arc::new(Mutex::new(Data {
            segments,
            next_allocation: ALLOCATION,
            failure: None,
            target_writes: 0,
            protections: BTreeMap::new(),
        })))
    }

    /// A fixture process with the sites of every core and feature hook.
    fn fixture() -> Self {
        let mut primary = Vec::new();
        for marker in 1..=6u8 {
            primary.extend_from_slice(&[
                0xb8, marker, 0xd0, 0xc0, 0x00, 0x90, 0x90, 0x90, 0x90, 0x90, 0x90, 0x90, 0x90,
                0x90, 0x90, 0xc3,
            ]);
        }
        for marker in 1..=5u8 {
            primary.extend_from_slice(&[
                0xb8, marker, 0xd1, 0xc0, 0x00, 0x90, 0x90, 0x90, 0x90, 0x90, 0x90, 0x90, 0x90,
                0x90, 0x90, 0xc3,
            ]);
        }
        for marker in [0x11u8, 0x12, 0x13, 0x14, 0x21, 0x22, 0x23] {
            primary.extend_from_slice(&[0xb8, marker, 0xf1, 0xc7, 0x00, 0x90, 0x90, 0x90]);
        }
        Self::with_segments(BTreeMap::from([(PRIMARY, primary)]))
    }

    /// The same, with something that goes wrong.
    fn feature(failure: Option<Failure>) -> Self {
        let backend = Self::fixture();
        backend.0.lock().expect("data lock").failure = failure;
        backend
    }

    fn fail_next(&self, failure: Failure) {
        self.0.lock().expect("data lock").failure = Some(failure);
    }

    /// The access rights of the code: as they were, or those of a range that differs.
    fn target_protection(&self) -> MemoryProtection {
        let data = self.0.lock().expect("data lock");
        data.protections
            .values()
            .copied()
            .find(|protection| *protection != MemoryProtection::ReadOnly)
            .unwrap_or(MemoryProtection::ReadOnly)
    }

    fn allocation_count(&self) -> usize {
        self.0.lock().expect("data lock").segments.len() - 1
    }

    fn primary(&self) -> Vec<u8> {
        self.0.lock().expect("data lock").segments[&PRIMARY].clone()
    }

    fn peek(&self, address: usize, size: usize) -> Vec<u8> {
        let data = self.0.lock().expect("data lock");
        read_segments(&data, address, size).expect("readable")
    }

    fn poke(&self, address: usize, bytes: &[u8]) {
        let mut data = self.0.lock().expect("data lock");
        write_segments(&mut data, address, bytes).expect("writable");
    }
}

fn read_segments(data: &Data, address: usize, size: usize) -> Result<Vec<u8>, ProcessBackendError> {
    for (base, bytes) in &data.segments {
        if *base <= address && address + size <= *base + bytes.len() {
            return Ok(bytes[address - *base..address - *base + size].to_vec());
        }
    }
    Err(failure("read range"))
}

fn write_segments(data: &mut Data, address: usize, new: &[u8]) -> Result<(), ProcessBackendError> {
    for (base, bytes) in &mut data.segments {
        if *base <= address && address + new.len() <= *base + bytes.len() {
            bytes[address - *base..address - *base + new.len()].copy_from_slice(new);
            return Ok(());
        }
    }
    Err(failure("write range"))
}

impl ProcessBackend for Backend {
    type Handle = ();

    fn list_processes(&self) -> Result<Vec<ProcessDescriptor>, ProcessBackendError> {
        Ok(vec![process()])
    }

    fn open_process(&self, _pid: u32) -> Result<OpenedProcess<Self::Handle>, ProcessBackendError> {
        Ok(OpenedProcess {
            handle: (),
            process: process(),
        })
    }

    fn open_process_for_access(
        &self,
        pid: u32,
        _access_mode: ProcessAccessMode,
    ) -> Result<OpenedProcess<Self::Handle>, ProcessBackendError> {
        self.open_process(pid)
    }

    fn validate_process(
        &self,
        _handle: &Self::Handle,
        _expected: &ProcessIdentity,
    ) -> Result<(), ProcessBackendError> {
        Ok(())
    }

    fn enumerate_modules(
        &self,
        _handle: &Self::Handle,
        _expected: &ProcessIdentity,
    ) -> Result<Vec<ModuleDescriptor>, ProcessBackendError> {
        Ok(Vec::new())
    }
}

impl MemoryBackend for Backend {
    fn enumerate_memory_regions(
        &self,
        _handle: &Self::Handle,
        _expected: &ProcessIdentity,
    ) -> Result<Vec<MemoryRegionDescriptor>, ProcessBackendError> {
        let data = self.0.lock().expect("data lock");
        Ok(data
            .segments
            .iter()
            .filter(|(base, _)| **base < ALLOCATION)
            .map(|(base, bytes)| MemoryRegionDescriptor {
                base_address: format!("{base:#x}"),
                size: bytes.len(),
                protection: MemoryProtection::ExecuteRead,
            })
            .collect())
    }

    fn read_memory(
        &self,
        _handle: &Self::Handle,
        address: usize,
        size: usize,
    ) -> Result<Vec<u8>, ProcessBackendError> {
        let data = self.0.lock().expect("data lock");
        read_segments(&data, address, size)
    }
}

impl MutationBackend for Backend {
    type ThreadHandle = ();

    fn write_memory(
        &self,
        _handle: &Self::Handle,
        address: usize,
        bytes: &[u8],
    ) -> Result<(), ProcessBackendError> {
        let mut data = self.0.lock().expect("data lock");
        if address < ALLOCATION {
            data.target_writes += 1;
            if data.target_writes == 2 && data.failure == Some(Failure::SecondTargetWrite) {
                data.failure = None;
                return Err(failure("forced target write failure"));
            }
        } else if data.failure == Some(Failure::FeatureActionWrite)
            && !data.segments.contains_key(&address)
        {
            data.failure = None;
            return Err(failure("forced write failure"));
        }
        write_segments(&mut data, address, bytes)
    }

    fn allocate_memory(
        &self,
        _handle: &Self::Handle,
        size: usize,
        _protection: MemoryProtection,
    ) -> Result<usize, ProcessBackendError> {
        let mut data = self.0.lock().expect("data lock");
        let address = data.next_allocation;
        data.next_allocation += 0x10000;
        data.segments.insert(address, vec![0; size]);
        Ok(address)
    }

    fn free_memory(&self, _handle: &Self::Handle, address: usize) -> Result<(), ProcessBackendError> {
        let mut data = self.0.lock().expect("data lock");
        if data.failure == Some(Failure::Free) {
            data.failure = None;
            return Err(failure("forced free failure"));
        }
        data.segments
            .remove(&address)
            .map(|_| ())
            .ok_or_else(|| failure("free range"))
    }

    fn suspend_process_threads(
        &self,
        _handle: &Self::Handle,
    ) -> Result<SuspendedProcess, ProcessBackendError> {
        let mut data = self.0.lock().expect("data lock");
        let mut pointers = Vec::new();
        if data.failure == Some(Failure::TrampolineExecuting) {
            data.failure = None;
            pointers.push(ALLOCATION + 3);
        }
        Ok(SuspendedProcess::new(pointers, Resumed))
    }

    fn protect_memory(
        &self,
        _handle: &Self::Handle,
        address: usize,
        _size: usize,
        protection: MemoryProtection,
    ) -> Result<MemoryProtection, ProcessBackendError> {
        let mut data = self.0.lock().expect("data lock");
        let previous = data.protections.insert(address, protection);
        Ok(previous.unwrap_or(MemoryProtection::ReadOnly))
    }

    fn start_remote_thread(
        &self,
        _handle: &Self::Handle,
        _start_address: usize,
        _parameter: Option<usize>,
    ) -> Result<StartedRemoteThread<Self::ThreadHandle>, ProcessBackendError> {
        Err(failure("not used by hooks"))
    }

    fn poll_remote_thread(
        &self,
        _thread: &Self::ThreadHandle,
        _wait_timeout_ms: u32,
    ) -> Result<RemoteThreadPoll, ProcessBackendError> {
        Err(failure("not used by hooks"))
    }

    fn flush_instruction_cache(
        &self,
        _handle: &Self::Handle,
        _address: usize,
        _size: usize,
    ) -> Result<(), ProcessBackendError> {
        Ok(())
    }
}

fn process() -> ProcessDescriptor {
    let path = r"C:\fixture\deimos-memory-fixture.exe".to_string();
    ProcessDescriptor {
        pid: 7,
        name: "deimos-memory-fixture.exe".to_string(),
        kind: ProcessKind::MemoryFixture,
        executable_path: Some(path.clone()),
        identity: Some(ProcessIdentity {
            pid: 7,
            creation_time_100ns: "1".to_string(),
            executable_path: path,
        }),
    }
}

fn registry(backend: &Backend) -> (ProcessSessionRegistry<()>, ProcessSessionId) {
    let mut sessions = ProcessSessionRegistry::new(1, 1);
    let session = sessions
        .open(
            backend,
            &OpenProcessRequest {
                pid: 7,
                expected_identity: None,
                access_mode: ProcessAccessMode::Mutation,
            },
        )
        .expect("mutation session");
    (sessions, session.session_id)
}

fn put_in_place(
    sessions: &mut ProcessSessionRegistry<()>,
    backend: &Backend,
    mutations: &mut MutationState<()>,
    hooks: &mut HookState,
    session_id: &ProcessSessionId,
    hook: FeatureHook,
) {
    let request = FeatureHookRequest {
        session_id: session_id.clone(),
        hook,
    };
    let response = activate(sessions, backend, mutations, hooks, &request, 0)
        .expect("feature hook should activate");
    assert!(response.active && response.hook == hook);
}

fn deactivate_client_base(
    sessions: &mut ProcessSessionRegistry<()>,
    backend: &Backend,
    mutations: &mut MutationState<()>,
    hooks: &mut HookState,
    session_id: &ProcessSessionId,
) {
    core_hook::deactivate(
        sessions,
        backend,
        mutations,
        hooks,
        &CoreHookRequest {
            session_id: session_id.clone(),
            hook: CoreHook::Client,
        },
    )
    .expect("client core hook should deactivate");
}

fn activate_client_base(
    sessions: &mut ProcessSessionRegistry<()>,
    backend: &Backend,
    mutations: &mut MutationState<()>,
    hooks: &mut HookState,
    session_id: &ProcessSessionId,
    address: usize,
) {
    core_hook::activate(
        sessions,
        backend,
        mutations,
        hooks,
        &CoreHookRequest {
            session_id: session_id.clone(),
            hook: CoreHook::Client,
        },
        0,
    )
    .expect("client core hook should activate");
    let allocation = hooks
        .allocation_address(session_id, "wizwalker.core.client")
        .expect("client core hook allocation");
    backend.poke(allocation + 14, &(address as u64).to_le_bytes());
}

fn export_place(
    hooks: &HookState,
    session_id: &ProcessSessionId,
    export: FeatureHookExport,
) -> usize {
    hooks
        .export_address(session_id, export)
        .expect("export should be tracked")
}

fn teleport_request(session_id: &ProcessSessionId, position: [f32; 3]) -> FeatureTeleportRequest {
    FeatureTeleportRequest {
        session_id: session_id.clone(),
        object_address: "0x1234".to_string(),
        position: [
            position[0].to_bits(),
            position[1].to_bits(),
            position[2].to_bits(),
        ],
        wait_on_inuse: true,
        wait_timeout_ms: 10,
        purge_after_timeout: true,
        purge_timeout_ms: 10,
    }
}

fn resolve(
    modules: &[ModuleDescriptor],
    images: &BTreeMap<usize, Vec<u8>>,
    module: &str,
    symbol: &str,
) -> Result<usize, FeatureHookApiError> {
    let backend = Backend::with_segments(images.clone());
    let (mut sessions, session_id) = registry(&backend);
    resolve_export_from_modules(
        &mut sessions,
        &backend,
        &session_id,
        &modules.to_vec(),
        module,
        ExportLookup::Name(symbol.to_string()),
        0,
    )
}

#[test]
fn target_process_pe_resolver_finds_a_named_export() {
    let (modules, images) = images_with_export("user32.dll", 0x1000, "GetCursorPos", "", 0x500);
    let address = resolve(&modules, &images, "user32.dll", "GetCursorPos")
        .expect("named export should resolve");
    assert_eq!(address, 0x1500);
}

#[test]
fn chat_selector_requires_hook_site_when_type_markers_are_duplicated() {
    let candidates = vec![0x1000usize, 0x2000];
    let backend = Backend::with_segments(BTreeMap::from([
        (candidates[0] + 0x7e, CHAT_TYPE_MARKER.to_vec()),
        (candidates[1] + 0x7e, CHAT_TYPE_MARKER.to_vec()),
        (candidates[0] + 0x379, CHAT_HOOK_SITE.to_vec()),
        (
            candidates[1] + 0x379,
            vec![0x48, 0x8b, 0x10, 0x4c, 0x8b, 0x40, 0x10],
        ),
    ]));
    let (mut sessions, session_id) = registry(&backend);
    let kind = || Marker {
        offset: 0x7e,
        expected: CHAT_TYPE_MARKER.to_vec(),
    };
    let site = || Marker {
        offset: 0x379,
        expected: CHAT_HOOK_SITE.to_vec(),
    };

    let error = select_disambiguated_candidate(
        &mut sessions,
        &backend,
        &session_id,
        &candidates,
        &vec![kind()],
    )
    .expect_err("the legacy type marker alone should remain ambiguous");
    assert!(error_message(error).contains("more than one function"));

    let selected = select_disambiguated_candidate(
        &mut sessions,
        &backend,
        &session_id,
        &candidates,
        &vec![kind(), site()],
    )
    .expect("the hook-site instructions should disambiguate the candidates");
    assert_eq!(selected, Some(candidates[0]));
}

#[test]
fn target_process_pe_resolver_rejects_out_of_bounds_tables() {
    let (modules, mut images) =
        images_with_export("user32.dll", 0x1000, "GetCursorPos", "", 0x500);
    images.get_mut(&0x1000).expect("image")[0x200 + 28..0x200 + 32]
        .copy_from_slice(&0xfffu32.to_le_bytes());
    let error = resolve(&modules, &images, "user32.dll", "GetCursorPos")
        .expect_err("out-of-bounds function table must fail");
    assert!(error_message(error).contains("function table extends outside"));
}

#[test]
fn target_process_pe_resolver_follows_forwarders_and_bounds_recursion() {
    let (mut modules, mut images) =
        images_with_export("user32.dll", 0x1000, "GetCursorPos", "win32u.RealCursor", 0);
    let (forwarded_modules, forwarded_images) =
        images_with_export("win32u.dll", 0x3000, "RealCursor", "", 0x600);
    modules.extend(forwarded_modules);
    images.extend(forwarded_images);
    assert_eq!(
        resolve(&modules, &images, "user32.dll", "GetCursorPos")
            .expect("forwarded export should resolve"),
        0x3600
    );

    let (loop_modules, loop_images) =
        images_with_export("loop.dll", 0x5000, "Again", "loop.Again", 0);
    let error = resolve(&loop_modules, &loop_images, "loop.dll", "Again")
        .expect_err("forwarder cycles must hit the strict depth bound");
    assert!(error_message(error).contains("forwarder chain exceeded"));
}

#[test]
fn every_feature_payload_has_private_exports_and_behavior_code() {
    for kind in [
        PayloadKind::Movement {
            first_je: 0x2000,
            second_je: 0x2010,
            first_original: [0x74; 8],
            second_original: [0x75; 8],
        },
        PayloadKind::Mouse,
        PayloadKind::Chat,
        PayloadKind::ChatSend {
            send: 0x3000,
            buddy: 0x4000,
            operator_new: 0x5000,
        },
        PayloadKind::Dance,
    ] {
        let (payload, exports, quiescence_offset) = build_payload(kind, 0x7000);
        assert!(!exports.is_empty());
        assert!(payload.len() > exports.iter().map(|slot| slot.size).sum::<usize>() + 5);
        for slot in &exports {
            assert_eq!(
                &payload[slot.offset..slot.offset + slot.size],
                vec![0; slot.size]
            );
        }
        assert_eq!(
            &payload[quiescence_offset..quiescence_offset + std::mem::size_of::<u64>()],
            &[0; std::mem::size_of::<u64>()]
        );
        let quiescence = 0x7000 + quiescence_offset;
        assert!(payload.starts_with(&quiescence_counter_code(quiescence, true)));
        assert!(payload
            .windows(quiescence_counter_code(quiescence, false).len())
            .any(|bytes| bytes == quiescence_counter_code(quiescence, false)));
    }
}

#[test]
fn replacement_payloads_preserve_registers_and_publish_completion_state() {
    let (mouse, exports, _) = build_payload(PayloadKind::Mouse, 0x7000);
    let mouse_code_end = exports
        .iter()
        .find(|slot| slot.export == FeatureHookExport::MousePosition)
        .expect("mouse position")
        .offset
        - 5;
    assert!(mouse[..mouse_code_end]
        .windows(5)
        .any(|bytes| bytes == [0xb8, 1, 0, 0, 0]));
    assert_eq!(mouse[mouse_code_end - 1], 0xc3);

    let dance = dance_code(0x5678);
    assert!(dance.starts_with(&[0x50, 0x51]));
    assert!(dance.ends_with(&[0x59, 0x58]));

    let helper = 0x7000;
    let movement = movement_code(helper, 0x8000, 0x9000, &[0x74; 8], &[0x75; 8]);
    let mut completion = vec![0x30, 0xc0, 0xa2];
    completion.extend_from_slice(&((helper + 12) as u64).to_le_bytes());
    completion.push(0x58);
    assert!(movement.ends_with(&completion));
}

#[test]
fn teleport_rejects_a_stale_client_object_before_mutating_action_patches() {
    let backend = Backend::fixture();
    let (mut sessions, session_id) = registry(&backend);
    let mut mutations = MutationState::new();
    let mut hooks = HookState::default();
    put_in_place(
        &mut sessions,
        &backend,
        &mut mutations,
        &mut hooks,
        &session_id,
        FeatureHook::MovementTeleport,
    );
    activate_client_base(
        &mut sessions,
        &backend,
        &mut mutations,
        &mut hooks,
        &session_id,
        0x5678,
    );
    let before_action = backend.primary();

    let error = teleport(
        &mut sessions,
        &backend,
        &hooks,
        &teleport_request(&session_id, [1.0, 2.0, 3.0]),
        0,
    )
    .expect_err("a stale client object must fail closed");

    assert_eq!(
        error.into_rpc_error(1, "feature.teleport").code,
        RpcErrorCode::InvalidRequest
    );
    assert_eq!(backend.primary(), before_action);
}

#[test]
fn teleport_rejects_non_finite_coordinates_without_mutating_action_state() {
    let backend = Backend::fixture();
    let (mut sessions, session_id) = registry(&backend);
    let mut mutations = MutationState::new();
    let mut hooks = HookState::default();
    put_in_place(
        &mut sessions,
        &backend,
        &mut mutations,
        &mut hooks,
        &session_id,
        FeatureHook::MovementTeleport,
    );
    activate_client_base(
        &mut sessions,
        &backend,
        &mut mutations,
        &mut hooks,
        &session_id,
        0x1234,
    );
    let helper = export_place(&hooks, &session_id, FeatureHookExport::TeleportHelper);
    let helper_before = backend.peek(helper, 21);
    let patches_before = backend.primary();

    let error = teleport(
        &mut sessions,
        &backend,
        &hooks,
        &teleport_request(&session_id, [f32::NAN, 2.0, 3.0]),
        0,
    )
    .expect_err("non-finite coordinates must fail closed");

    assert_eq!(
        error.into_rpc_error(1, "feature.teleport").code,
        RpcErrorCode::InvalidRequest
    );
    assert_eq!(backend.primary(), patches_before);
    assert_eq!(backend.peek(helper, 21), helper_before);
}

#[test]
fn pending_main_thread_actions_block_reuse_and_deactivation() {
    let backend = Backend::fixture();
    let (mut sessions, session_id) = registry(&backend);
    let mut mutations = MutationState::new();
    let mut hooks = HookState::default();
    let request = FeatureHookRequest {
        session_id: session_id.clone(),
        hook: FeatureHook::ChatSend,
    };
    put_in_place(
        &mut sessions,
        &backend,
        &mut mutations,
        &mut hooks,
        &session_id,
        FeatureHook::ChatSend,
    );
    let trigger = export_place(&hooks, &session_id, FeatureHookExport::SendTrigger);
    backend.poke(trigger, &[1]);
    let error = send_chat(
        &mut sessions,
        &backend,
        &hooks,
        &FeatureChatSendRequest {
            session_id: session_id.clone(),
            message: "hello".to_string(),
            target_gid: 55,
        },
        0,
    )
    .expect_err("a pending send must reject shared-buffer reuse");
    assert!(error_message(error).contains("still pending"));
    let error = deactivate(&mut sessions, &backend, &mut mutations, &mut hooks, &request)
        .expect_err("a pending action must retain trampoline ownership");
    assert!(error_message(error).contains("still pending"));
    backend.poke(trigger, &[0]);
    assert!(
        deactivate(&mut sessions, &backend, &mut mutations, &mut hooks, &request)
            .expect("completed action should allow deactivation")
            .deactivated
    );
}

#[test]
fn a_failed_teleport_puts_the_action_patches_back() {
    let backend = Backend::fixture();
    let (mut sessions, session_id) = registry(&backend);
    let mut mutations = MutationState::new();
    let mut hooks = HookState::default();
    put_in_place(
        &mut sessions,
        &backend,
        &mut mutations,
        &mut hooks,
        &session_id,
        FeatureHook::MovementTeleport,
    );
    activate_client_base(
        &mut sessions,
        &backend,
        &mut mutations,
        &mut hooks,
        &session_id,
        0x1234,
    );
    let before_action = backend.primary();
    backend.fail_next(Failure::FeatureActionWrite);
    assert!(teleport(
        &mut sessions,
        &backend,
        &hooks,
        &teleport_request(&session_id, [1.0, 2.0, 3.0]),
        0,
    )
    .is_err());
    assert_eq!(backend.primary(), before_action);
}

#[test]
fn a_teleport_writes_where_to_and_ends_when_the_flag_is_cleared() {
    let backend = Backend::fixture();
    let (mut sessions, session_id) = registry(&backend);
    let mut mutations = MutationState::new();
    let mut hooks = HookState::default();
    put_in_place(
        &mut sessions,
        &backend,
        &mut mutations,
        &mut hooks,
        &session_id,
        FeatureHook::MovementTeleport,
    );
    activate_client_base(
        &mut sessions,
        &backend,
        &mut mutations,
        &mut hooks,
        &session_id,
        0x1234,
    );
    let helper = export_place(&hooks, &session_id, FeatureHookExport::TeleportHelper);
    let request = teleport_request(&session_id, [1.0, -2.5, 3.0]);
    let mut turn = teleport(&mut sessions, &backend, &hooks, &request, 0)
        .expect("the teleport should begin");
    assert_eq!(backend.peek(helper, 4), 1.0f32.to_le_bytes());
    assert_eq!(backend.peek(helper + 4, 4), (-2.5f32).to_le_bytes());
    assert_eq!(backend.peek(helper + 8, 4), 3.0f32.to_le_bytes());
    // On the fixture the flag is cleared as the game would clear it.
    assert_eq!(backend.peek(helper + 12, 1), [0]);
    assert_eq!(backend.peek(helper + 13, 8), 0x1234u64.to_le_bytes());
    for now in 1..4u64 {
        match turn {
            TeleportTurn::Done(response) => {
                assert_eq!(response.session_id, session_id);
                return;
            }
            TeleportTurn::Wait(wait) => {
                turn = resume_teleport(
                    &mut sessions,
                    &backend,
                    &hooks,
                    &request,
                    &wait,
                    now,
                )
                .expect("the teleport should go on");
            }
        }
    }
    assert!(matches!(turn, TeleportTurn::Done(_)));
}

#[test]
fn exports_are_read_where_the_hook_keeps_them() {
    let backend = Backend::fixture();
    let (mut sessions, session_id) = registry(&backend);
    let mut mutations = MutationState::new();
    let mut hooks = HookState::default();
    let request = FeatureHookExportRequest {
        session_id: session_id.clone(),
        export: FeatureHookExport::MousePosition,
    };
    assert!(read_export(&mut sessions, &backend, &hooks, &request).is_err());
    put_in_place(
        &mut sessions,
        &backend,
        &mut mutations,
        &mut hooks,
        &session_id,
        export_hook(FeatureHookExport::MousePosition),
    );
    let place = export_place(&hooks, &session_id, FeatureHookExport::MousePosition);
    set_mouse_position(
        &mut sessions,
        &backend,
        &hooks,
        &FeatureMousePositionRequest {
            session_id: session_id.clone(),
            x: 320,
            y: -7,
        },
    )
    .expect("the cursor should move");
    assert_eq!(backend.peek(place, 4), 320i32.to_le_bytes());
    assert_eq!(backend.peek(place + 4, 4), (-7i32).to_le_bytes());
    assert!(read_export(&mut sessions, &backend, &hooks, &request).is_ok());
}

#[test]
fn a_chat_or_a_buddy_request_ends_when_the_game_took_it_up_or_in_time() {
    let backend = Backend::fixture();
    let (mut sessions, session_id) = registry(&backend);
    let mut mutations = MutationState::new();
    let mut hooks = HookState::default();
    put_in_place(
        &mut sessions,
        &backend,
        &mut mutations,
        &mut hooks,
        &session_id,
        FeatureHook::ChatSend,
    );
    put_in_place(
        &mut sessions,
        &backend,
        &mut mutations,
        &mut hooks,
        &session_id,
        FeatureHook::Chat,
    );
    let session = FeatureHookSessionRequest {
        session_id: session_id.clone(),
    };
    let buddy = add_buddy(
        &mut sessions,
        &backend,
        &hooks,
        &FeatureBuddyAddRequest {
            session_id: session_id.clone(),
            target_gid: 77,
        },
        100,
    )
    .expect("the buddy request should be left");
    assert_eq!(buddy.deadline, 100 + ACTION_TIMEOUT_MS);
    // On the fixture the trigger is cleared as the game would clear it.
    assert_eq!(backend.peek(buddy.trigger, 1), [0]);
    backend.poke(buddy.trigger, &[1]);
    assert!(
        poll_action(&mut sessions, &backend, &session, &buddy, 101)
            .expect("the game has not looked yet")
            .is_none()
    );
    assert!(poll_action(&mut sessions, &backend, &session, &buddy, buddy.deadline).is_err());
    backend.poke(buddy.trigger, &[0]);
    assert!(
        poll_action(&mut sessions, &backend, &session, &buddy, 102)
            .expect("the game took it up")
            .is_some()
    );
}

#[test]
fn leases_are_renewed_together_and_a_second_activation_finds_the_hook_active() {
    let backend = Backend::fixture();
    let (mut sessions, session_id) = registry(&backend);
    let mut mutations = MutationState::new();
    let mut hooks = HookState::default();
    for hook in [FeatureHook::ChatSend, FeatureHook::DanceGameMoves] {
        put_in_place(
            &mut sessions,
            &backend,
            &mut mutations,
            &mut hooks,
            &session_id,
            hook,
        );
    }
    let request = FeatureHookRequest {
        session_id: session_id.clone(),
        hook: FeatureHook::DanceGameMoves,
    };
    let before = backend.primary();
    assert!(activate(&mut sessions, &backend, &mut mutations, &mut hooks, &request, 7).is_ok());
    assert_eq!(backend.primary(), before);
    assert_eq!(backend.allocation_count(), 2);
    let renewed = heartbeat_all(
        &mut hooks,
        &FeatureHookSessionRequest {
            session_id: session_id.clone(),
        },
        9,
    )
    .expect("leases should be renewed");
    assert_eq!(renewed.hooks.len(), 2);
    let early = hook::expire_at(
        &mut sessions,
        &backend,
        &mut mutations,
        &mut hooks,
        HOOK_LEASE_MS + 8,
    );
    assert!(matches!(early, Ok(0)));
    let late = hook::expire_at(
        &mut sessions,
        &backend,
        &mut mutations,
        &mut hooks,
        HOOK_LEASE_MS + 9,
    );
    assert!(matches!(late, Ok(2)));
    assert_eq!(hooks.tracked_count(&session_id), 0);
    assert!(hook_key(FeatureHook::DanceGameMoves).starts_with("wizwalker.feature."));
}

#[test]
fn a_feature_hook_that_cannot_be_undone_stays_owned() {
    let backend = Backend::feature(Some(Failure::SecondTargetWrite));
    let (mut sessions, session_id) = registry(&backend);
    let mut mutations = MutationState::new();
    let mut hooks = HookState::default();
    let request = FeatureHookRequest {
        session_id: session_id.clone(),
        hook: FeatureHook::DanceGameMoves,
    };
    put_in_place(
        &mut sessions,
        &backend,
        &mut mutations,
        &mut hooks,
        &session_id,
        FeatureHook::DanceGameMoves,
    );
    let key = hook_key(FeatureHook::DanceGameMoves);
    let before = hooks.allocation_address(&session_id, &key);
    assert!(before.is_some());
    let error = deactivate(&mut sessions, &backend, &mut mutations, &mut hooks, &request)
        .expect_err("the original bytes could not be written back");
    assert!(error_message(error).contains("forced target write failure"));
    assert_eq!(hooks.allocation_address(&session_id, &key), before);
    assert!(
        deactivate(&mut sessions, &backend, &mut mutations, &mut hooks, &request)
            .expect("the second try should succeed")
            .deactivated
    );
    assert!(
        !deactivate(&mut sessions, &backend, &mut mutations, &mut hooks, &request)
            .expect("there is nothing left")
            .deactivated
    );
}

#[test]
fn the_target_of_a_feature_hook_leads_to_its_allocation() {
    let backend = Backend::fixture();
    let (mut sessions, session_id) = registry(&backend);
    let mut mutations = MutationState::new();
    let mut hooks = HookState::default();
    let before = backend.primary();
    put_in_place(
        &mut sessions,
        &backend,
        &mut mutations,
        &mut hooks,
        &session_id,
        FeatureHook::DanceGameMoves,
    );
    let key = hook_key(FeatureHook::DanceGameMoves);
    let at = hooks
        .allocation_address(&session_id, &key)
        .expect("allocation");
    let after = backend.primary();
    let changed = (0..before.len())
        .find(|i| before[*i] != after[*i])
        .expect("a site was changed");
    assert_eq!(after[changed], 0xe9);
    let distance = i32::from_le_bytes([
        after[changed + 1],
        after[changed + 2],
        after[changed + 3],
        after[changed + 4],
    ]);
    assert_eq!((PRIMARY + changed + 5) as i64 + i64::from(distance), at as i64);
    let (payload, _, counter) = build_payload(PayloadKind::Dance, at);
    assert_eq!(backend.peek(at, payload.len()), payload);
    assert_eq!(hooks.quiescence_address(&session_id, &key), Some(at + counter));
    assert_eq!(hooks.quiescence_address(&session_id, "wizwalker.feature.chat"), None);
}

#[test]
fn active_feature_records_serve_every_export_and_fixture_action_without_rescanning() {
    let backend = Backend::feature(None);
    let before = backend.primary();
    let (mut sessions, session_id) = registry(&backend);
    let mut mutations = MutationState::new();
    let mut hooks = HookState::default();
    for selected in FeatureHook::all() {
        let request = FeatureHookRequest {
            session_id: session_id.clone(),
            hook: selected,
        };
        activate(&mut sessions, &backend, &mut mutations, &mut hooks, &request, 0)
            .expect("feature hook should activate");
        activate(&mut sessions, &backend, &mut mutations, &mut hooks, &request, 0)
            .expect("feature activation should be idempotent");
    }
    for export in [
        FeatureHookExport::TeleportHelper,
        FeatureHookExport::MousePosition,
        FeatureHookExport::ChatOwner,
        FeatureHookExport::ReceiveSourceGid,
        FeatureHookExport::ReceiveMessageBuffer,
        FeatureHookExport::ReceiveMessageLength,
        FeatureHookExport::ReceiveCounter,
        FeatureHookExport::SendTrigger,
        FeatureHookExport::SendStruct,
        FeatureHookExport::BuddyTrigger,
        FeatureHookExport::BuddyObject,
        FeatureHookExport::DanceGameMoves,
    ] {
        let response = read_export(
            &mut sessions,
            &backend,
            &hooks,
            &FeatureHookExportRequest {
                session_id: session_id.clone(),
                export,
            },
        )
        .expect("active feature export should use stored metadata");
        assert!(response.address.starts_with("0x"));
    }
    set_mouse_position(
        &mut sessions,
        &backend,
        &hooks,
        &FeatureMousePositionRequest {
            session_id: session_id.clone(),
            x: 40,
            y: 80,
        },
    )
    .expect("fixture mouse action should complete");
    activate_client_base(
        &mut sessions,
        &backend,
        &mut mutations,
        &mut hooks,
        &session_id,
        0x1234,
    );
    let request = teleport_request(&session_id, [1.0, 2.0, 3.0]);
    let mut turn = teleport(&mut sessions, &backend, &hooks, &request, 0)
        .expect("fixture teleport should begin");
    let mut now = 1;
    while let TeleportTurn::Wait(wait) = turn {
        assert!(now < 10, "fixture teleport should complete");
        turn = resume_teleport(
            &mut sessions,
            &backend,
            &hooks,
            &request,
            &wait,
            now,
        )
        .expect("fixture teleport should complete");
        now += 1;
    }
    let session = FeatureHookSessionRequest {
        session_id: session_id.clone(),
    };
    let chat = send_chat(
        &mut sessions,
        &backend,
        &hooks,
        &FeatureChatSendRequest {
            session_id: session_id.clone(),
            message: "a message longer than seven".to_string(),
            target_gid: 55,
        },
        0,
    )
    .expect("fixture chat send should be left");
    assert!(poll_action(&mut sessions, &backend, &session, &chat, 1)
        .expect("fixture chat send should complete")
        .is_some());
    let buddy = add_buddy(
        &mut sessions,
        &backend,
        &hooks,
        &FeatureBuddyAddRequest {
            session_id: session_id.clone(),
            target_gid: 77,
        },
        0,
    )
    .expect("fixture buddy action should be left");
    assert!(poll_action(&mut sessions, &backend, &session, &buddy, 1)
        .expect("fixture buddy action should complete")
        .is_some());
    for selected in FeatureHook::all().into_iter().rev() {
        let request = FeatureHookRequest {
            session_id: session_id.clone(),
            hook: selected,
        };
        deactivate(&mut sessions, &backend, &mut mutations, &mut hooks, &request)
            .expect("feature hook should deactivate");
    }
    deactivate_client_base(
        &mut sessions,
        &backend,
        &mut mutations,
        &mut hooks,
        &session_id,
    );
    assert_eq!(backend.primary(), before);
    assert_eq!(backend.target_protection(), MemoryProtection::ReadOnly);
    assert_eq!(backend.allocation_count(), 0);
    assert_eq!(mutations.tracked_count(&session_id), 0);
    assert_eq!(hooks.tracked_count(&session_id), 0);
}

#[test]
fn teleport_action_failures_restore_owned_bytes_and_deactivation_restores_protection() {
    let backend = Backend::feature(Some(Failure::FeatureActionWrite));
    let before_activation = backend.primary();
    let (mut sessions, session_id) = registry(&backend);
    let mut mutations = MutationState::new();
    let mut hooks = HookState::default();
    let request = FeatureHookRequest {
        session_id: session_id.clone(),
        hook: FeatureHook::MovementTeleport,
    };
    activate(&mut sessions, &backend, &mut mutations, &mut hooks, &request, 0)
        .expect("movement feature should activate");
    activate_client_base(
        &mut sessions,
        &backend,
        &mut mutations,
        &mut hooks,
        &session_id,
        0x1234,
    );
    let before_action = backend.primary();
    teleport(
        &mut sessions,
        &backend,
        &hooks,
        &teleport_request(&session_id, [1.0, 2.0, 3.0]),
        0,
    )
    .expect_err("forced helper write failure should be reported");
    assert_eq!(backend.primary(), before_action);
    assert_eq!(
        backend.target_protection(),
        MemoryProtection::ExecuteReadWrite
    );
    deactivate(&mut sessions, &backend, &mut mutations, &mut hooks, &request)
        .expect("movement cleanup should remain retryable");
    deactivate_client_base(
        &mut sessions,
        &backend,
        &mut mutations,
        &mut hooks,
        &session_id,
    );
    assert_eq!(backend.primary(), before_activation);
    assert_eq!(backend.target_protection(), MemoryProtection::ReadOnly);
}

#[test]
fn every_cleanup_path_retains_execution_ownership_until_quiescent() {
    let backend = Backend::feature(None);
    let (mut sessions, session_id) = registry(&backend);
    let mut mutations = MutationState::new();
    let mut hooks = HookState::default();
    let request = FeatureHookRequest {
        session_id: session_id.clone(),
        hook: FeatureHook::ChatSend,
    };
    activate(&mut sessions, &backend, &mut mutations, &mut hooks, &request, 0)
        .expect("chat-send feature should activate");
    backend.fail_next(Failure::TrampolineExecuting);
    let key = hook_key(FeatureHook::ChatSend);
    hook::cleanup_session(
        &mut sessions,
        &backend,
        &mut mutations,
        &mut hooks,
        &session_id,
    )
    .expect_err("cleanup must retain a trampoline that is still executing");
    assert_eq!(hooks.tracked_count(&session_id), 1);
    assert_eq!(backend.allocation_count(), 1);
    assert!(hooks.allocation_address(&session_id, &key).is_some());

    hook::cleanup_session(
        &mut sessions,
        &backend,
        &mut mutations,
        &mut hooks,
        &session_id,
    )
    .expect("quiescent cleanup should release the trampoline");
    assert_eq!(hooks.tracked_count(&session_id), 0);
    assert_eq!(backend.allocation_count(), 0);
}

#[test]
fn external_trampoline_calls_retain_ownership_until_the_counter_is_clear() {
    let backend = Backend::feature(None);
    let (mut sessions, session_id) = registry(&backend);
    let mut mutations = MutationState::new();
    let mut hooks = HookState::default();
    let request = FeatureHookRequest {
        session_id: session_id.clone(),
        hook: FeatureHook::ChatSend,
    };
    activate(&mut sessions, &backend, &mut mutations, &mut hooks, &request, 0)
        .expect("chat-send feature should activate");
    let key = hook_key(FeatureHook::ChatSend);
    let counter = hooks
        .quiescence_address(&session_id, &key)
        .expect("feature hook should publish its execution counter");
    backend.poke(counter, &1u64.to_le_bytes());

    let error = hook::cleanup_session(
        &mut sessions,
        &backend,
        &mut mutations,
        &mut hooks,
        &session_id,
    )
    .expect_err("an external trampoline frame must retain ownership");
    assert!(hook_message(error).contains("external trampoline call"));
    assert_eq!(hooks.tracked_count(&session_id), 1);
    assert_eq!(backend.allocation_count(), 1);

    backend.poke(counter, &0u64.to_le_bytes());
    hook::cleanup_session(
        &mut sessions,
        &backend,
        &mut mutations,
        &mut hooks,
        &session_id,
    )
    .expect("cleanup should release a quiescent trampoline");
    assert_eq!(hooks.tracked_count(&session_id), 0);
    assert_eq!(backend.allocation_count(), 0);
}

#[test]
fn feature_deactivation_retries_after_a_retirement_failure() {
    let backend = Backend::feature(Some(Failure::Free));
    let (mut sessions, session_id) = registry(&backend);
    let mut mutations = MutationState::new();
    let mut hooks = HookState::default();
    let request = FeatureHookRequest {
        session_id: session_id.clone(),
        hook: FeatureHook::MovementTeleport,
    };
    activate(&mut sessions, &backend, &mut mutations, &mut hooks, &request, 0)
        .expect("movement feature should activate");

    let error = deactivate(&mut sessions, &backend, &mut mutations, &mut hooks, &request)
        .expect_err("a failed release must retain cleanup ownership");
    assert!(error_message(error).contains("free"));
    assert_eq!(hooks.tracked_count(&session_id), 1);
    assert_eq!(backend.allocation_count(), 1);

    deactivate(&mut sessions, &backend, &mut mutations, &mut hooks, &request)
        .expect("feature deactivation should retry inactive cleanup directly");
    assert_eq!(hooks.tracked_count(&session_id), 0);
    assert_eq!(backend.allocation_count(), 0);
}

#[test]
fn feature_auxiliary_patches_restore_on_expiry_cleanup_and_partial_activation_failure() {
    for selected in [FeatureHook::MovementTeleport, FeatureHook::MouselessCursor] {
        let backend = Backend::feature(None);
        let before = backend.primary();
        let (mut sessions, session_id) = registry(&backend);
        let mut mutations = MutationState::new();
        let mut hooks = HookState::default();
        put_in_place(
            &mut sessions,
            &backend,
            &mut mutations,
            &mut hooks,
            &session_id,
            selected,
        );
        assert_ne!(backend.primary(), before);
        hook::expire_at(
            &mut sessions,
            &backend,
            &mut mutations,
            &mut hooks,
            HOOK_LEASE_MS + 1,
        )
        .expect("lease expiry should restore feature ownership");
        assert_eq!(backend.primary(), before);
        assert_eq!(backend.allocation_count(), 0);
    }

    let backend = Backend::feature(None);
    let before = backend.primary();
    let (mut sessions, session_id) = registry(&backend);
    let mut mutations = MutationState::new();
    let mut hooks = HookState::default();
    put_in_place(
        &mut sessions,
        &backend,
        &mut mutations,
        &mut hooks,
        &session_id,
        FeatureHook::MouselessCursor,
    );
    hook::cleanup_session(
        &mut sessions,
        &backend,
        &mut mutations,
        &mut hooks,
        &session_id,
    )
    .expect("session cleanup should restore feature ownership");
    assert_eq!(backend.primary(), before);
    assert_eq!(backend.allocation_count(), 0);

    let backend = Backend::feature(Some(Failure::SecondTargetWrite));
    let before = backend.primary();
    let (mut sessions, session_id) = registry(&backend);
    let mut mutations = MutationState::new();
    let mut hooks = HookState::default();
    assert!(activate(
        &mut sessions,
        &backend,
        &mut mutations,
        &mut hooks,
        &FeatureHookRequest {
            session_id: session_id.clone(),
            hook: FeatureHook::MovementTeleport,
        },
        0,
    )
    .is_err());
    assert_eq!(backend.primary(), before);
    assert_eq!(backend.target_protection(), MemoryProtection::ReadOnly);
    assert_eq!(backend.allocation_count(), 0);
    assert_eq!(mutations.tracked_count(&session_id), 0);
    assert_eq!(hooks.tracked_count(&session_id), 0);
}

#[test]
fn a_core_hook_tells_the_address_that_it_captured() {
    let backend = Backend::fixture();
    let (mut sessions, session_id) = registry(&backend);
    let mut mutations = MutationState::new();
    let mut hooks = HookState::default();
    let request = CoreHookRequest {
        session_id: session_id.clone(),
        hook: CoreHook::Client,
    };
    assert!(core_hook::read_base(&mut sessions, &backend, &hooks, &request).is_err());
    activate_client_base(
        &mut sessions,
        &backend,
        &mut mutations,
        &mut hooks,
        &session_id,
        0x1234,
    );
    let base = core_hook::read_base(&mut sessions, &backend, &hooks, &request)
        .expect("the captured address should be read");
    assert_eq!(base.base_address, "0x1234");
    let seen = sessions.with_live_session(&backend, &session_id, |_, _, process| {
        Ok::<u32, deimos_agent::process::ProcessApiError>(process.pid)
    });
    assert!(matches!(seen, Ok(7)));
}

fn hook_message(error: HookApiError) -> String {
    error.into_rpc_error(1, "test").message
}

fn images_with_export(
    name: &str,
    base: usize,
    symbol: &str,
    forwarder: &str,
    function_rva: u32,
) -> (Vec<ModuleDescriptor>, BTreeMap<usize, Vec<u8>>) {
    let mut image = vec![0u8; IMAGE_SIZE];
    image[0..2].copy_from_slice(b"MZ");
    image[0x3c..0x40].copy_from_slice(&0x80u32.to_le_bytes());
    image[0x80..0x84].copy_from_slice(b"PE\0\0");
    image[0x94..0x96].copy_from_slice(&0xf0u16.to_le_bytes());
    image[0x98..0x9a].copy_from_slice(&0x20bu16.to_le_bytes());
    image[0xd0..0xd4].copy_from_slice(&(IMAGE_SIZE as u32).to_le_bytes());
    image[0x104..0x108].copy_from_slice(&16u32.to_le_bytes());
    image[0x108..0x10c].copy_from_slice(&0x200u32.to_le_bytes());
    image[0x10c..0x110].copy_from_slice(&0x100u32.to_le_bytes());
    image[0x210..0x214].copy_from_slice(&1u32.to_le_bytes());
    image[0x214..0x218].copy_from_slice(&1u32.to_le_bytes());
    image[0x218..0x21c].copy_from_slice(&1u32.to_le_bytes());
    image[0x21c..0x220].copy_from_slice(&0x240u32.to_le_bytes());
    image[0x220..0x224].copy_from_slice(&0x244u32.to_le_bytes());
    image[0x224..0x228].copy_from_slice(&0x248u32.to_le_bytes());
    image[0x244..0x248].copy_from_slice(&0x260u32.to_le_bytes());
    image[0x248..0x24a].copy_from_slice(&0u16.to_le_bytes());
    image[0x260..0x260 + symbol.len()].copy_from_slice(symbol.as_bytes());
    if forwarder.is_empty() {
        image[0x240..0x244].copy_from_slice(&function_rva.to_le_bytes());
    } else {
        image[0x240..0x244].copy_from_slice(&0x280u32.to_le_bytes());
        image[0x280..0x280 + forwarder.len()].copy_from_slice(forwarder.as_bytes());
    }
    (
        vec![ModuleDescriptor {
            name: name.to_string(),
            executable_path: format!(r"C:\fixture\{name}"),
            base_address: format!("{base:#x}"),
            size: IMAGE_SIZE as u32,
        }],
        BTreeMap::from([(base, image)]),
    )
}

fn error_message(error: FeatureHookApiError) -> String {
    match error {
        FeatureHookApiError::Request { message, .. } => message,
        other => format!("{other:?}"),
    }
}
