//! Reads, scans and pointer chains over a backend that keeps a small memory.

use std::sync::atomic::{AtomicBool, AtomicUsize, Ordering};
use std::sync::Arc;

use deimos_agent::backend::{
    MemoryBackend, OpenedProcess, ProcessBackend, ProcessBackendError, ProcessBackendErrorKind,
};
use deimos_agent::memory::{read, read_batch, read_typed, validate_range, MemoryApiError};
use deimos_agent::process::ProcessSessionRegistry;
use deimos_agent::protocol::{
    classify_process, ByteOrder, MemoryBatchReadRequest, MemoryItemErrorCode,
    MemoryPointerChainRequest, MemoryProtection, MemoryReadItem, MemoryReadRequest,
    MemoryRegionDescriptor, MemoryScanRequest, MemoryScanScope, MemoryValueType, ModuleDescriptor,
    OpenProcessRequest, ProcessAccessMode, ProcessDescriptor, ProcessIdentity, ProcessSessionId,
    TypedMemoryReadRequest, MAX_MEMORY_READ_BYTES, WIZARD101_EXECUTABLE,
};
use deimos_agent::rpc::RpcErrorCode;
use deimos_agent::scan::{MIN_SCAN_CHUNK_SIZE, SCAN_CHUNK_SIZE};
use deimos_agent::search::{
    parse_signature, pointer_chain, scan, scan_optional_unique_signatures,
};

#[test]
fn signature_parser_accepts_exact_and_wildcard_bytes() {
    assert_eq!(
        parse_signature("A5 ?? 0f").expect("signature"),
        vec![Some(0xa5), None, Some(0x0f)]
    );
}

#[test]
fn signature_parser_rejects_malformed_tokens() {
    for input in ["", "A", "AAA", "GG", "?"] {
        assert_eq!(
            parse_signature(input)
                .expect_err("invalid signature")
                .into_code(),
            RpcErrorCode::MemoryPatternInvalid
        );
    }
}

#[test]
fn address_validation_rejects_overflow_and_non_hex() {
    assert_eq!(validate_range("0x100", 4).expect("address"), 0x100);
    assert_eq!(
        validate_range("100", 4).expect_err("notation").into_code(),
        RpcErrorCode::MemoryInvalidAddress
    );
    assert_eq!(
        validate_range("0xffffffffffffffff", 2)
            .expect_err("overflow")
            .into_code(),
        RpcErrorCode::MemoryInvalidAddress
    );
}

#[derive(Clone)]
struct MockMemoryBackend {
    stale_after_read: Arc<AtomicBool>,
    stale: Arc<AtomicBool>,
    large_memory: Option<Arc<Vec<u8>>>,
    max_read_size: Option<usize>,
    read_count: Arc<AtomicUsize>,
}

#[derive(Clone, Copy)]
struct MockHandle;

fn mock_process() -> ProcessDescriptor {
    let path = format!(r"C:\Wizard101\{WIZARD101_EXECUTABLE}");
    ProcessDescriptor {
        pid: 336,
        name: WIZARD101_EXECUTABLE.to_string(),
        kind: classify_process(WIZARD101_EXECUTABLE),
        executable_path: Some(path.clone()),
        identity: Some(ProcessIdentity {
            pid: 336,
            creation_time_100ns: "1000".to_string(),
            executable_path: path,
        }),
    }
}

impl ProcessBackend for MockMemoryBackend {
    type Handle = MockHandle;

    fn list_processes(&self) -> Result<Vec<ProcessDescriptor>, ProcessBackendError> {
        Ok(vec![mock_process()])
    }

    fn open_process(
        &self,
        pid: u32,
    ) -> Result<OpenedProcess<Self::Handle>, ProcessBackendError> {
        if pid != 336 {
            return Err(ProcessBackendError::new(
                ProcessBackendErrorKind::NotFound,
                "mock process not found",
            ));
        }
        Ok(OpenedProcess {
            handle: MockHandle,
            process: mock_process(),
        })
    }

    fn validate_process(
        &self,
        _handle: &Self::Handle,
        _expected: &ProcessIdentity,
    ) -> Result<(), ProcessBackendError> {
        if self.stale.load(Ordering::SeqCst) {
            Err(ProcessBackendError::new(
                ProcessBackendErrorKind::IdentityMismatch,
                "mock process identity changed",
            ))
        } else {
            Ok(())
        }
    }

    fn enumerate_modules(
        &self,
        _handle: &Self::Handle,
        _expected: &ProcessIdentity,
    ) -> Result<Vec<ModuleDescriptor>, ProcessBackendError> {
        Ok(vec![ModuleDescriptor {
            name: "WizardGraphicalClient.exe".to_string(),
            executable_path: r"C:\Wizard101\WizardGraphicalClient.exe".to_string(),
            base_address: "0x1000".to_string(),
            size: 0x20,
        }])
    }
}

impl MemoryBackend for MockMemoryBackend {
    fn enumerate_memory_regions(
        &self,
        _handle: &Self::Handle,
        _expected: &ProcessIdentity,
    ) -> Result<Vec<MemoryRegionDescriptor>, ProcessBackendError> {
        if let Some(memory) = &self.large_memory {
            return Ok(vec![MemoryRegionDescriptor {
                base_address: "0x1000".to_string(),
                size: memory.len(),
                protection: MemoryProtection::ReadWrite,
            }]);
        }
        Ok(vec![
            MemoryRegionDescriptor {
                base_address: "0x1000".to_string(),
                size: 0x40,
                protection: MemoryProtection::ReadWrite,
            },
            MemoryRegionDescriptor {
                base_address: "0x2000".to_string(),
                size: 0x10,
                protection: MemoryProtection::ReadOnly,
            },
        ])
    }

    fn read_memory(
        &self,
        _handle: &Self::Handle,
        address: usize,
        size: usize,
    ) -> Result<Vec<u8>, ProcessBackendError> {
        self.read_count.fetch_add(1, Ordering::SeqCst);
        if self.max_read_size.is_some_and(|maximum| size > maximum) {
            return Err(ProcessBackendError::new(
                ProcessBackendErrorKind::Native,
                "mock read exceeds its supported size",
            ));
        }
        if let Some(memory) = &self.large_memory {
            let offset = address.checked_sub(0x1000).ok_or_else(|| {
                ProcessBackendError::new(
                    ProcessBackendErrorKind::Native,
                    "mock address underflow",
                )
            })?;
            let end = offset.checked_add(size).ok_or_else(|| {
                ProcessBackendError::new(ProcessBackendErrorKind::Native, "mock read overflow")
            })?;
            if end > memory.len() {
                return Err(ProcessBackendError::new(
                    ProcessBackendErrorKind::Native,
                    "mock partial read",
                ));
            }
            if self.stale_after_read.load(Ordering::SeqCst) {
                self.stale.store(true, Ordering::SeqCst);
            }
            return Ok(memory[offset..end].to_vec());
        }
        if address >= 0x2000 {
            return Err(ProcessBackendError::new(
                ProcessBackendErrorKind::Native,
                "mock inaccessible region",
            ));
        }
        let mut memory = [0u8; 0x40];
        memory[0..4].copy_from_slice(&[0xa5, 0x11, 0x22, 0x33]);
        memory[4..8].copy_from_slice(&[0xde, 0xad, 0xbe, 0xef]);
        memory[8..12].copy_from_slice(&42i32.to_le_bytes());
        memory[0x10..0x18].copy_from_slice(&(0x1018u64).to_le_bytes());
        memory[0x18..0x20].copy_from_slice(&(0x1020u64).to_le_bytes());
        memory[0x20..0x28].copy_from_slice(&0xcafe_babe_1020_3040u64.to_le_bytes());
        let offset = address.checked_sub(0x1000).ok_or_else(|| {
            ProcessBackendError::new(ProcessBackendErrorKind::Native, "mock address underflow")
        })?;
        let end = offset.checked_add(size).ok_or_else(|| {
            ProcessBackendError::new(ProcessBackendErrorKind::Native, "mock read overflow")
        })?;
        if end > memory.len() {
            return Err(ProcessBackendError::new(
                ProcessBackendErrorKind::Native,
                "mock partial read",
            ));
        }
        if self.stale_after_read.load(Ordering::SeqCst) {
            self.stale.store(true, Ordering::SeqCst);
        }
        Ok(memory[offset..end].to_vec())
    }
}

fn mock_registry(
    stale_after_read: bool,
) -> (
    MockMemoryBackend,
    ProcessSessionRegistry<MockHandle>,
    String,
) {
    let backend = MockMemoryBackend {
        stale_after_read: Arc::new(AtomicBool::new(stale_after_read)),
        stale: Arc::new(AtomicBool::new(false)),
        large_memory: None,
        max_read_size: None,
        read_count: Arc::new(AtomicUsize::new(0)),
    };
    let mut registry = ProcessSessionRegistry::new(1, 1);
    let session = registry
        .open(
            &backend,
            &OpenProcessRequest {
                pid: 336,
                expected_identity: None,
                access_mode: ProcessAccessMode::ReadOnly,
            },
        )
        .expect("mock process should open");
    (backend, registry, session.session_id.0)
}

#[test]
fn scan_detects_signatures_spanning_chunks_without_duplicate_prior_matches() {
    let signature = [0xa1, 0xb2, 0xc3, 0xd4];
    let cross_chunk_offset = SCAN_CHUNK_SIZE - 2;
    let mut memory = vec![0u8; SCAN_CHUNK_SIZE + 32];
    memory[0x80..0x84].copy_from_slice(&signature);
    memory[cross_chunk_offset..cross_chunk_offset + signature.len()]
        .copy_from_slice(&signature);
    let backend = MockMemoryBackend {
        stale_after_read: Arc::new(AtomicBool::new(false)),
        stale: Arc::new(AtomicBool::new(false)),
        large_memory: Some(Arc::new(memory)),
        max_read_size: None,
        read_count: Arc::new(AtomicUsize::new(0)),
    };
    let mut registry = ProcessSessionRegistry::new(1, 1);
    let session = registry
        .open(
            &backend,
            &OpenProcessRequest {
                pid: 336,
                expected_identity: None,
                access_mode: ProcessAccessMode::ReadOnly,
            },
        )
        .expect("mock process should open");
    let response = scan(
        &mut registry,
        &backend,
        &MemoryScanRequest {
            session_id: session.session_id,
            signature: "A1 B2 C3 D4".to_string(),
            required: true,
            unique: false,
            max_matches: 8,
            scope: MemoryScanScope::Process,
        },
    )
    .expect("cross-chunk signature should be found");
    assert_eq!(
        response.matches,
        vec![
            "0x1080".to_string(),
            format!("{:#x}", 0x1000 + cross_chunk_offset),
        ]
    );
    assert_eq!(backend.read_count.load(Ordering::SeqCst), 2);
}

#[test]
fn scan_falls_back_to_smaller_reads_when_a_large_chunk_is_unavailable() {
    let signature = [0xa1, 0xb2, 0xc3, 0xd4];
    let match_offset = MIN_SCAN_CHUNK_SIZE - 2;
    let mut memory = vec![0u8; MIN_SCAN_CHUNK_SIZE + 32];
    memory[match_offset..match_offset + signature.len()].copy_from_slice(&signature);
    let backend = MockMemoryBackend {
        stale_after_read: Arc::new(AtomicBool::new(false)),
        stale: Arc::new(AtomicBool::new(false)),
        large_memory: Some(Arc::new(memory)),
        max_read_size: Some(MIN_SCAN_CHUNK_SIZE),
        read_count: Arc::new(AtomicUsize::new(0)),
    };
    let mut registry = ProcessSessionRegistry::new(1, 1);
    let session = registry
        .open(
            &backend,
            &OpenProcessRequest {
                pid: 336,
                expected_identity: None,
                access_mode: ProcessAccessMode::ReadOnly,
            },
        )
        .expect("mock process should open");

    let response = scan(
        &mut registry,
        &backend,
        &MemoryScanRequest {
            session_id: session.session_id,
            signature: "A1 B2 C3 D4".to_string(),
            required: true,
            unique: true,
            max_matches: 2,
            scope: MemoryScanScope::Process,
        },
    )
    .expect("fallback scan should preserve cross-chunk matches");

    assert_eq!(
        response.matches,
        vec![format!("{:#x}", 0x1000 + match_offset)]
    );
    assert_eq!(backend.read_count.load(Ordering::SeqCst), 3);
}

#[test]
fn unique_signature_batch_reads_each_region_once() {
    let (backend, mut registry, session_id) = mock_registry(false);
    let addresses = scan_optional_unique_signatures(
        &mut registry,
        &backend,
        &ProcessSessionId(session_id),
        &MemoryScanScope::Process,
        &["A5 11 22 33", "DE AD BE EF"],
    )
    .expect("both signatures should resolve in one scan");

    assert_eq!(addresses, vec![Some(0x1000), Some(0x1004)]);
    assert_eq!(backend.read_count.load(Ordering::SeqCst), 2);
}

#[test]
fn mock_backend_covers_typed_batch_scan_pointer_and_partial_reads() {
    let (backend, mut registry, session_id) = mock_registry(false);
    let session = ProcessSessionId(session_id.clone());
    let typed = read_typed(
        &mut registry,
        &backend,
        &TypedMemoryReadRequest {
            session_id: session.clone(),
            address: "0x1008".to_string(),
            value_type: MemoryValueType::I32,
            byte_order: ByteOrder::LittleEndian,
        },
    )
    .expect("typed mock read should work");
    assert_eq!(typed.raw_bytes, 42i32.to_le_bytes());

    let batch = read_batch(
        &mut registry,
        &backend,
        &MemoryBatchReadRequest {
            session_id: session.clone(),
            reads: vec![
                MemoryReadItem {
                    address: "0x1008".to_string(),
                    size: 4,
                },
                MemoryReadItem {
                    address: "not-an-address".to_string(),
                    size: 4,
                },
            ],
        },
    )
    .expect("batch should preserve per-item errors");
    assert_eq!(
        batch.results[0].bytes.as_deref(),
        Some(&42i32.to_le_bytes()[..])
    );
    assert_eq!(
        batch.results[1].error.as_ref().map(|error| error.code),
        Some(MemoryItemErrorCode::InvalidAddress)
    );

    let found = scan(
        &mut registry,
        &backend,
        &MemoryScanRequest {
            session_id: session.clone(),
            signature: "A5 ?? 22 ??".to_string(),
            required: true,
            unique: true,
            max_matches: 4,
            scope: MemoryScanScope::Process,
        },
    )
    .expect("mock exact/wildcard scan should work");
    assert_eq!(found.matches, vec!["0x1000"]);
    assert!(found.skipped_regions > 0);

    let resolved = pointer_chain(
        &mut registry,
        &backend,
        &MemoryPointerChainRequest {
            session_id: session,
            signature: "A5 11 22 33".to_string(),
            offsets: vec![0x10, 0, 0],
            dereference_count: 2,
            pointer_width: 8,
            byte_order: ByteOrder::LittleEndian,
            value_type: MemoryValueType::U64,
            scope: MemoryScanScope::Module {
                name: "WizardGraphicalClient.exe".to_string(),
            },
        },
    )
    .expect("mock pointer chain should resolve");
    assert_eq!(resolved.target_address, "0x1020");
    assert_eq!(resolved.raw_bytes, 0xcafe_babe_1020_3040u64.to_le_bytes());
}

#[test]
fn memory_operation_revalidates_after_read_and_returns_stale_session_error() {
    let (backend, mut registry, session_id) = mock_registry(true);
    let error = read(
        &mut registry,
        &backend,
        &MemoryReadRequest {
            session_id: ProcessSessionId(session_id),
            address: "0x1000".to_string(),
            size: 1,
        },
    )
    .expect_err("post-read identity change must invalidate the session");
    assert_eq!(
        error.into_rpc_error(7, "memory.read").code,
        RpcErrorCode::ProcessExited
    );
}

#[test]
fn memory_limits_reject_oversized_batches() {
    let (backend, mut registry, session_id) = mock_registry(false);
    let error = validate_range("0x1000", MAX_MEMORY_READ_BYTES + 1)
        .expect_err("oversized read should be rejected");
    assert_eq!(error.into_code(), RpcErrorCode::MemoryLimitExceeded);

    let session = ProcessSessionId(session_id);
    registry
        .close(&backend, &session)
        .expect("mock session should close");
    let error = read(
        &mut registry,
        &backend,
        &MemoryReadRequest {
            session_id: session,
            address: "0x1000".to_string(),
            size: 1,
        },
    )
    .expect_err("closed sessions must not read memory");
    assert_eq!(
        error.into_rpc_error(8, "memory.read").code,
        RpcErrorCode::InvalidRequest
    );
}

trait ErrorCode {
    fn into_code(self) -> RpcErrorCode;
}

impl ErrorCode for MemoryApiError {
    fn into_code(self) -> RpcErrorCode {
        match self {
            MemoryApiError::Request { code, .. } => code,
            MemoryApiError::Process(_) => RpcErrorCode::Internal,
        }
    }
}
