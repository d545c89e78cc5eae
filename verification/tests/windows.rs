//! What the agent decides of what Windows answers, and the probe that runs once.

use deimos_agent::backend::{
    OpenedProcess, ProcessBackend, ProcessBackendError, ProcessBackendErrorKind,
};
use deimos_agent::inspection::{
    failed_process_report, header_read, locate_module, parse_address, parse_pe_headers,
    probe_candidates, probe_report, process_report, PeHeaders, ProbeFault, ProcessReport,
};
use deimos_agent::protocol::{
    classify_process, MemoryProtection, ModuleDescriptor, ProbeRequest, ProcessAccessMode,
    ProcessDescriptor, ProcessIdentity, ProcessKind, WIZARD101_EXECUTABLE,
};
use deimos_agent::windows_process::{
    access_rights, align_up, describe_process, exact_protection, executable_name, exit_fault,
    fresh_threads, identity_fault, is_client_class, list_region, native_error, native_protection,
    near_candidate, near_next, near_range, next_region, open_error, process_identity, range_end,
    range_step, readable_protection, rollback_message, rollback_needed, thread_wait, unidentified,
    validate_protection_range, Need, QueriedRegion, ThreadWait, MEM_COMMIT, MEM_FREE,
};

const PROTECTIONS: [MemoryProtection; 6] = [
    MemoryProtection::ReadOnly,
    MemoryProtection::ReadWrite,
    MemoryProtection::ExecuteRead,
    MemoryProtection::ExecuteReadWrite,
    MemoryProtection::CopyOnWrite,
    MemoryProtection::ExecuteCopyOnWrite,
];

fn committed(base: usize, size: usize, protection: u32) -> QueriedRegion {
    QueriedRegion {
        base,
        size,
        state: MEM_COMMIT,
        protection,
    }
}

fn free(base: usize, size: usize) -> QueriedRegion {
    QueriedRegion {
        base,
        size,
        state: MEM_FREE,
        protection: 1,
    }
}

#[test]
fn protections_are_told_by_their_flags() {
    for protection in PROTECTIONS {
        assert_eq!(exact_protection(native_protection(protection)), Some(protection));
    }
    assert_eq!(exact_protection(0x01), None);
    assert_eq!(exact_protection(0x204), None);
    assert_eq!(readable_protection(0x204), Some(MemoryProtection::ReadWrite));
    assert_eq!(readable_protection(0x104), None);
    assert_eq!(readable_protection(0x10), None);
}

#[test]
fn a_range_is_walked_region_by_region() {
    assert_eq!(range_end(0x1000, 0x20).expect("end"), 0x1020);
    assert_eq!(
        range_end(usize::MAX, 1).expect_err("overflow").message,
        "memory address plus size overflowed"
    );
    let first = committed(0x1000, 0x1000, 0x04);
    assert_eq!(
        range_step(0x1800, 0x2800, Some(first), Need::Readable).expect("readable"),
        0x2000
    );
    assert_eq!(
        range_step(0x1800, 0x1900, Some(first), Need::Writable).expect("writable"),
        0x1900
    );
    assert_eq!(
        range_step(0x1800, 0x1900, Some(first), Need::Executable)
            .expect_err("not executable")
            .message,
        "memory range at 0x1800 is not executable and committed"
    );
    assert_eq!(
        range_step(0x1800, 0x1900, Some(committed(0x1000, 0x1000, 0x02)), Need::Writable)
            .expect_err("read-only")
            .message,
        "memory range at 0x1800 is not writable"
    );
    assert_eq!(
        range_step(0x1800, 0x1900, Some(free(0x1000, 0x1000)), Need::Readable)
            .expect_err("free")
            .message,
        "memory range at 0x1800 is not readable"
    );
    assert_eq!(
        range_step(0x1800, 0x1900, None, Need::Readable)
            .expect_err("nothing queried")
            .message,
        "VirtualQueryEx could not validate address 0x1800"
    );
    assert_eq!(
        range_step(0x1800, 0x1900, Some(committed(usize::MAX, 2, 0x04)), Need::Readable)
            .expect_err("overflow")
            .message,
        "VirtualQueryEx region address overflowed"
    );
}

#[test]
fn readable_regions_are_listed_in_a_walk_that_ends() {
    let listed = list_region(committed(0x1000, 0x200, 0x20)).expect("listed");
    assert_eq!(listed.base_address, "0x1000");
    assert_eq!(listed.size, 0x200);
    assert_eq!(listed.protection, MemoryProtection::ExecuteRead);
    assert!(list_region(committed(0x1000, 0, 0x20)).is_none());
    assert!(list_region(free(0x1000, 0x200)).is_none());
    assert_eq!(next_region(0, committed(0x1000, 0x200, 0x20)).expect("next"), Some(0x1200));
    assert_eq!(next_region(0x1200, committed(0x1000, 0x200, 0x20)).expect("next"), None);
    assert!(next_region(0, committed(usize::MAX, 2, 0x20)).is_err());
}

#[test]
fn near_memory_begins_on_a_granule_within_reach() {
    assert_eq!(align_up(0x10001, 0x10000), Some(0x20000));
    assert_eq!(align_up(0x10000, 0x10000), Some(0x10000));
    assert_eq!(align_up(usize::MAX, 0x10000), None);
    assert_eq!(align_up(13, 8), Some(16));
    assert_eq!(align_up(16, 8), Some(16));
    assert_eq!(align_up(usize::MAX - 7, 8), Some(usize::MAX - 7));
    assert_eq!(align_up(usize::MAX, 1), Some(usize::MAX));
    assert_eq!(align_up(5, 0), None);
    let target = 0x1_4000_0000usize;
    let (minimum, maximum) = near_range(target).expect("range");
    assert_eq!(minimum, 0xc001_0000);
    assert_eq!(maximum, 0x1_bfff_ffff);
    assert_eq!(near_range(0x5000).expect("low").0, 0x10000);
    assert_eq!(
        near_candidate(free(0xc001_2345, 0x100000), minimum, maximum, 0x1000).expect("room"),
        Some(0xc002_0000)
    );
    assert_eq!(
        near_candidate(free(0xc001_2345, 0x1000), minimum, maximum, 0x1000).expect("no room"),
        None
    );
    assert_eq!(
        near_candidate(committed(0xc002_0000, 0x100000, 4), minimum, maximum, 0x1000)
            .expect("in use"),
        None
    );
    assert!(near_candidate(free(usize::MAX, 0), minimum, maximum, 1).is_err());
    assert_eq!(near_next(0x20000, free(0x20000, 0x1000)), 0x30000);
    assert_eq!(near_next(0x20000, free(0x20000, 0x50000)), 0x70000);
}

#[test]
fn a_protection_is_changed_within_one_committed_region() {
    assert_eq!(
        validate_protection_range(0x1000, 0x10, Some(committed(0x1000, 0x1000, 0x20)))
            .expect("homogeneous"),
        (MemoryProtection::ExecuteRead, 0x20)
    );
    assert_eq!(
        validate_protection_range(0x1000, 0x1001, Some(committed(0x1000, 0x1000, 0x20)))
            .expect_err("two regions")
            .message,
        "VirtualProtectEx requires one homogeneous committed region for 0x1000..0x2001"
    );
    assert_eq!(
        validate_protection_range(0x1000, 0x10, Some(committed(0x1000, 0x1000, 0x120)))
            .expect_err("guarded")
            .message,
        "memory at 0x1000 has unsupported or modified protection 0x120"
    );
    assert_eq!(
        validate_protection_range(usize::MAX, 1, None).expect_err("overflow").message,
        "memory protection range overflowed"
    );
    assert!(!rollback_needed(0x20, 0x20));
    assert!(rollback_needed(0x04, 0x20));
    assert!(rollback_needed(0x120, 0x120));
    assert_eq!(
        rollback_message(0x1000, 0x10, 0x04, 0x20, true),
        "VirtualProtectEx changed 0x1000..0x1010, but raw previous flags 0x4 did not match the \
         prevalidated flags 0x20; rollback succeeded and restored the raw previous flags"
    );
    assert!(rollback_message(0x1000, 0x10, 0x04, 0x20, false).ends_with("may remain active"));
}

#[test]
fn processes_are_described_by_what_identifies_them() {
    assert_eq!(executable_name(r"C:\Games/Bin\game.exe"), "game.exe");
    assert_eq!(executable_name("game.exe"), "game.exe");
    assert_eq!(executable_name(r"C:\Games\"), "");
    let identity = process_identity(7, 1, 2, format!(r"C:\Games\{WIZARD101_EXECUTABLE}"));
    assert_eq!(identity.creation_time_100ns, "4294967298");
    let known = describe_process(7, "snapshot.exe".to_string(), Some(identity));
    assert_eq!(known.name, WIZARD101_EXECUTABLE);
    assert_eq!(known.kind, ProcessKind::Wizard101);
    let unknown = describe_process(8, "snapshot.exe".to_string(), None);
    assert_eq!(unknown.name, "snapshot.exe");
    assert_eq!(unknown.kind, ProcessKind::Other);
    assert!(unknown.executable_path.is_none());
    assert_eq!(access_rights(ProcessAccessMode::ReadOnly), 0x410);
    assert_eq!(access_rights(ProcessAccessMode::Mutation), 0x43a);
}

#[test]
fn failed_calls_keep_their_codes() {
    let denied = open_error(7, 0x8007_0005u32 as i32, "denied");
    assert_eq!(denied.kind, ProcessBackendErrorKind::AccessDenied);
    assert_eq!(denied.native_code, Some(0x8007_0005u32 as i32));
    assert_eq!(denied.message, "OpenProcess failed for process 7: denied");
    assert_eq!(
        open_error(7, 0x8007_0057u32 as i32, "invalid").kind,
        ProcessBackendErrorKind::NotFound
    );
    assert_eq!(open_error(7, 1, "other").kind, ProcessBackendErrorKind::Native);
    assert_eq!(native_error("call", 5, "text").message, "call: text");
    assert!(exit_fault(7, 259).is_none());
    let exited = exit_fault(7, 3).expect("exited");
    assert_eq!(exited.kind, ProcessBackendErrorKind::Exited);
    assert_eq!(exited.message, "process 7 exited with code 3");
    let again = unidentified(7, native_error("call", 5, "text"));
    assert_eq!(again.native_code, Some(5));
    assert_eq!(
        again.message,
        "active process 7 could not be re-identified: call: text"
    );
    let one = process_identity(7, 0, 1, r"C:\A.exe".to_string());
    let same = process_identity(7, 0, 1, r"c:\a.EXE".to_string());
    let other = process_identity(7, 0, 2, r"C:\A.exe".to_string());
    assert!(identity_fault(&one, &same).is_none());
    assert!(identity_fault(&one, &other).is_some());
}

#[test]
fn threads_are_taken_once() {
    let mut seen = vec![1, 2];
    assert_eq!(fresh_threads(&vec![2, 3, 3, 4], &mut seen), vec![3, 4]);
    assert_eq!(seen, vec![1, 2, 3, 4]);
    assert!(fresh_threads(&vec![1, 4], &mut seen).is_empty());
    assert!(matches!(thread_wait(0x102), ThreadWait::Running));
    assert!(matches!(thread_wait(0), ThreadWait::Ended));
    assert!(matches!(thread_wait(u32::MAX), ThreadWait::Failed));
    assert!(matches!(
        thread_wait(0x80),
        ThreadWait::Unexpected(error)
            if error.message == "remote thread returned unexpected wait status 0x80"
    ));
}

#[test]
fn game_clients_are_told_by_their_window_class() {
    let class: Vec<u16> = "Wizard Graphical Client".encode_utf16().collect();
    assert!(is_client_class(&class));
    assert!(!is_client_class(&class[1..]));
    let other: Vec<u16> = "Wizard Graphical Client2".encode_utf16().collect();
    assert!(!is_client_class(&other));
}

struct OneProcess {
    identity: bool,
    base: &'static str,
}

impl ProcessBackend for OneProcess {
    type Handle = u8;

    fn list_processes(&self) -> Result<Vec<ProcessDescriptor>, ProcessBackendError> {
        Ok(vec![listed(5, "Game.exe"), listed(6, "other.exe"), listed(7, "game.EXE")])
    }

    fn open_process(&self, pid: u32) -> Result<OpenedProcess<u8>, ProcessBackendError> {
        if pid == 9 {
            return Err(ProcessBackendError::new(
                ProcessBackendErrorKind::NotFound,
                "missing process",
            ));
        }
        let mut process = listed(pid, "Game.exe");
        if !self.identity {
            process.identity = None;
        }
        Ok(OpenedProcess { handle: 42, process })
    }

    fn validate_process(
        &self,
        _handle: &u8,
        _expected: &ProcessIdentity,
    ) -> Result<(), ProcessBackendError> {
        Ok(())
    }

    fn enumerate_modules(
        &self,
        _handle: &u8,
        _expected: &ProcessIdentity,
    ) -> Result<Vec<ModuleDescriptor>, ProcessBackendError> {
        Ok(vec![ModuleDescriptor {
            name: "Game.exe".to_string(),
            executable_path: r"C:\Game.exe".to_string(),
            base_address: self.base.to_string(),
            size: 4096,
        }])
    }
}

fn listed(pid: u32, name: &str) -> ProcessDescriptor {
    ProcessDescriptor {
        pid,
        name: name.to_string(),
        kind: classify_process(name),
        executable_path: None,
        identity: Some(ProcessIdentity {
            pid,
            creation_time_100ns: "1".to_string(),
            executable_path: format!(r"C:\{name}"),
        }),
    }
}

fn probe(target: &str) -> ProbeRequest {
    ProbeRequest {
        target_process: target.to_string(),
        target_module: "game.exe".to_string(),
    }
}

#[test]
fn the_probe_looks_into_every_process_of_the_name() {
    let backend = OneProcess { identity: true, base: "0x140000000" };
    let picked = probe_candidates::<u8>(&probe("GAME.exe"), backend.list_processes())
        .expect("two candidates");
    assert_eq!(picked.iter().map(|process| process.pid).collect::<Vec<_>>(), vec![5, 7]);
    let report = probe_candidates::<u8>(&probe("none.exe"), backend.list_processes())
        .expect_err("no candidate");
    assert!(!report.success);
    assert_eq!(report.errors, vec!["none.exe was not visible in the current Wine bottle"]);
    let report = probe_candidates::<u8>(
        &probe("game.exe"),
        Err(ProcessBackendError::new(ProcessBackendErrorKind::Native, "no list")),
    )
    .expect_err("no list");
    assert_eq!(report.errors, vec!["no list"]);
}

#[test]
fn a_module_is_located_or_the_reason_is_said() {
    let backend = OneProcess { identity: true, base: "0x140000000" };
    let located = locate_module(&backend, 5, "GAME.EXE").expect("located");
    assert_eq!(located.handle, 42);
    assert_eq!(located.address, 0x1_4000_0000);
    assert_eq!(located.module.size, 4096);

    let missing = locate_module(&backend, 5, "other.dll").err().expect("no module");
    assert!(missing.opened);
    assert_eq!(missing.error.fault, ProbeFault::ModuleEnumeration);
    assert_eq!(
        missing.error.message,
        "module other.dll was not visible in process 5"
    );
    let closed = locate_module(&backend, 9, "game.exe").err().expect("not opened");
    assert!(!closed.opened);
    assert_eq!(closed.error.message, "missing process");
    let nameless = OneProcess { identity: false, base: "0x1" };
    let nameless = locate_module(&nameless, 5, "game.exe").err().expect("no identity");
    assert_eq!(nameless.error.fault, ProbeFault::ProcessAccess);
    let unreadable = OneProcess { identity: true, base: "0xzz" };
    let unreadable = locate_module(&unreadable, 5, "game.exe").err().expect("no address");
    assert_eq!(
        unreadable.error.message,
        "module base address 0xzz was invalid: invalid digit found in string"
    );
    let report: ProcessReport<u8> = failed_process_report(5, "Game.exe", unreadable);
    assert!(report.process_opened);
    assert!(report.module.is_none());
}

#[test]
fn addresses_of_modules_are_hexadecimal() {
    assert_eq!(parse_address("0x10").expect("address"), 16);
    assert_eq!(parse_address("ff").expect("address"), 255);
    assert_eq!(parse_address("0x0xff").expect("address"), 255);
    assert_eq!(
        parse_address("0x").expect_err("nothing").message,
        "module base address 0x was invalid: cannot parse integer from empty string"
    );
    assert!(parse_address("0x10000000000000000").is_err());
}

#[test]
fn headers_that_were_read_and_parsed_make_the_probe_succeed() {
    assert_eq!(header_read(0x1000, Ok(512)).expect("read"), 512);
    assert_eq!(
        header_read(0x1000, Ok(0)).err().expect("nothing").error.message,
        "ReadProcessMemory at 0x1000 returned zero bytes"
    );
    assert_eq!(
        header_read(0x1000, Err("denied".to_string())).err().expect("failed").error.message,
        "ReadProcessMemory at 0x1000 failed: denied"
    );
    let module = ModuleDescriptor {
        name: "Game.exe".to_string(),
        executable_path: r"C:\Game.exe".to_string(),
        base_address: "0x1000".to_string(),
        size: 4096,
    };
    let failed: ProcessReport<u8> = process_report(
        5,
        "Game.exe",
        module.clone(),
        512,
        Err("no header".to_string()),
    );
    assert_eq!(failed.error.as_ref().map(|error| error.fault), Some(ProbeFault::PeParse));
    let good: ProcessReport<u8> = process_report(5, "Game.exe", module, 512, Ok(7));
    assert_eq!(good.module.as_ref().map(|module| (module.bytes_read, module.pe)), Some((512, 7)));
    assert!(!probe_report(&probe("game.exe"), vec![failed]).success);
    assert!(probe_report(&probe("game.exe"), vec![good]).success);
}

#[test]
fn headers_are_read_where_the_image_says() {
    let mut image = vec![0u8; 0x1_0210];
    image[..2].copy_from_slice(b"MZ");
    image[0x3c..0x40].copy_from_slice(&0x1_0200u32.to_le_bytes());
    assert_eq!(
        parse_pe_headers(&image),
        Err("the PE signature is missing".to_string())
    );
    image[0x1_0200..0x1_0204].copy_from_slice(b"PE\0\0");
    image[0x1_0204..0x1_0206].copy_from_slice(&0x8664u16.to_le_bytes());
    image[0x1_0206..0x1_0208].copy_from_slice(&7u16.to_le_bytes());
    assert_eq!(
        parse_pe_headers(&image),
        Ok(PeHeaders {
            machine: 0x8664,
            section_count: 7,
        })
    );
    assert_eq!(
        parse_pe_headers(&image[..0x1_0206]),
        Err("the PE header is incomplete".to_string())
    );
    assert_eq!(
        parse_pe_headers(&image[..0x20]),
        Err("the DOS header is incomplete".to_string())
    );
    assert_eq!(
        parse_pe_headers(b"no image"),
        Err("the DOS signature is missing".to_string())
    );
}
