//! The probe that runs once: it looks for a process and a module in it, and
//! reports what the headers of the module say. How the headers are read from
//! memory is up to the caller, who hands in what came of it.

use vstd::prelude::*;
use vstd::string::*;

use crate::backend::{OpenedProcess, ProcessBackend, ProcessBackendError};
use crate::codec::{le_value, lemma_pow256, read_le};
use crate::protocol::{ModuleDescriptor, ProbeRequest, ProcessDescriptor};
use crate::text::{
    address_text, chars_of, dec_text, format_decimal, format_hex, join2, join3, join4, lowered,
    numeral, same_ignoring_case, string_of,
};

verus! {

/// How many bytes of a module's headers are read.
pub const HEADER_READ_SIZE: usize = 4096;

/// What a part of the probe failed at.
#[derive(Clone, Copy, Debug, PartialEq, Eq, Structural)]
pub enum ProbeFault {
    /// The platform refused.
    Platform,
    ProcessAccess,
    ModuleEnumeration,
    MemoryRead,
    PeParse,
}

/// A failed part of the probe.
#[derive(Debug)]
pub struct ProbeError {
    pub fault: ProbeFault,
    pub message: String,
}

impl ProbeError {
    /// An error of the given fault and message.
    pub open spec fn says(&self, fault: ProbeFault, message: Seq<char>) -> bool {
        self.fault == fault && self.message@ == message
    }
}

/// What was found of a module. `P` is what its headers say.
#[derive(Debug)]
pub struct ModuleReport<P> {
    pub module_name: String,
    pub executable_path: String,
    pub module_base: String,
    pub module_size: u32,
    pub bytes_read: usize,
    pub pe: P,
}

/// What was found of a process.
#[derive(Debug)]
pub struct ProcessReport<P> {
    pub pid: u32,
    pub process_name: String,
    pub process_opened: bool,
    pub module: Option<ModuleReport<P>>,
    pub error: Option<ProbeError>,
}

/// What the probe found.
#[derive(Debug)]
pub struct ProbeReport<P> {
    pub target_process: String,
    pub success: bool,
    pub candidates: Vec<ProcessReport<P>>,
    pub errors: Vec<String>,
}

// ---------------------------------------------------------------------------
// Looking for the module.
// ---------------------------------------------------------------------------

/// A module that was found, with the process that holds it.
pub struct LocatedModule<H> {
    pub handle: H,
    pub module: ModuleDescriptor,
    pub address: u64,
}

/// Why the module was not found, and whether the process could be opened.
#[derive(Debug)]
pub struct Unlocated {
    pub opened: bool,
    pub error: ProbeError,
}

/// The first module of the given name, ASCII case ignored.
pub open spec fn module_named(modules: Seq<ModuleDescriptor>, name: Seq<char>) -> Option<
    ModuleDescriptor,
>
    decreases modules.len(),
{
    if modules.len() == 0 {
        None
    } else if lowered(modules[0].name@) == lowered(name) {
        Some(modules[0])
    } else {
        module_named(modules.drop_first(), name)
    }
}

fn find_module(modules: &Vec<ModuleDescriptor>, name: &str) -> (found: Option<ModuleDescriptor>)
    ensures
        found == module_named(modules@, name@),
{
    let mut i: usize = 0;
    proof {
        assert(modules@.skip(0) =~= modules@);
    }
    while i < modules.len()
        invariant
            i <= modules@.len(),
            module_named(modules@, name@) == module_named(modules@.skip(i as int), name@),
        decreases modules@.len() - i,
    {
        proof {
            assert(modules@.skip(i as int).drop_first() =~= modules@.skip(i + 1));
        }
        if same_ignoring_case(modules[i].name.as_str(), name) {
            return Some(modules[i].clone());
        }
        i += 1;
    }
    None
}

/// Text without the prefixes `0x` at its start.
pub open spec fn without_prefix(text: Seq<char>) -> Seq<char>
    decreases text.len(),
{
    if text.len() >= 2 && text[0] == '0' && text[1] == 'x' {
        without_prefix(text.skip(2))
    } else {
        text
    }
}

/// What the standard library says of text that is no hexadecimal number.
pub uninterp spec fn hexadecimal_fault(text: Seq<char>) -> Seq<char>;

/// `u64::from_str_radix` in base sixteen reads a numeral whose value fits, and
/// refuses any other text. What it says then is left to the standard library.
#[verifier::external_body]
fn read_hexadecimal(text: &str) -> (value: Result<u64, String>)
    ensures
        value matches Ok(number) ==> numeral(text@, 16) == Some(number as nat),
        value matches Err(message) ==> {
            &&& message@ == hexadecimal_fault(text@)
            &&& numeral(text@, 16) matches Some(number) ==> number > u64::MAX
        },
{
    match u64::from_str_radix(text, 16) {
        Ok(number) => Ok(number),
        Err(error) => Err(error.to_string()),
    }
}

/// The address that text gives: a hexadecimal number, with or without `0x`.
pub open spec fn module_address(text: Seq<char>) -> Option<nat> {
    match numeral(without_prefix(text), 16) {
        Some(value) if value <= u64::MAX => Some(value),
        _ => None,
    }
}

/// Reads the base address of a module.
pub fn parse_address(address: &str) -> (place: Result<u64, ProbeError>)
    ensures
        place is Ok <==> module_address(address@) is Some,
        place matches Ok(value) ==> module_address(address@) == Some(value as nat),
        place matches Err(error) ==> error.says(
            ProbeFault::ModuleEnumeration,
            "module base address "@ + address@ + " was invalid: "@ + hexadecimal_fault(
                without_prefix(address@),
            ),
        ),
{
    let chars = chars_of(address);
    let mut start: usize = 0;
    proof {
        assert(chars@.skip(0) =~= address@);
    }
    while chars.len() - start >= 2 && chars[start] == '0' && chars[start + 1] == 'x'
        invariant
            start <= chars@.len(),
            without_prefix(address@) == without_prefix(chars@.skip(start as int)),
        decreases chars@.len() - start,
    {
        proof {
            assert(chars@.skip(start as int).skip(2) =~= chars@.skip(start + 2));
        }
        start += 2;
    }
    let digits = string_of(vstd::slice::slice_subrange(chars.as_slice(), start, chars.len()));
    proof {
        assert(digits@ =~= chars@.skip(start as int));
    }
    match read_hexadecimal(digits.as_str()) {
        Ok(value) => Ok(value),
        Err(text) => Err(
            ProbeError {
                fault: ProbeFault::ModuleEnumeration,
                message: join4("module base address ", address, " was invalid: ", text.as_str()),
            },
        ),
    }
}

/// The process was opened, and where it has an identity its modules were
/// listed.
pub open spec fn looked_into<B: ProcessBackend>(
    backend: &B,
    pid: u32,
    opened: Result<OpenedProcess<B::Handle>, ProcessBackendError>,
    modules: Result<Vec<ModuleDescriptor>, ProcessBackendError>,
) -> bool {
    &&& call_ensures(B::open_process, (backend, pid), opened)
    &&& opened matches Ok(process) ==> (process.process.identity matches Some(identity)
        ==> call_ensures(B::enumerate_modules, (backend, &process.handle, &identity), modules))
}

/// Why a module was not found.
pub open spec fn unlocated(
    answer: Unlocated,
    opened: bool,
    fault: ProbeFault,
    message: Seq<char>,
) -> bool {
    answer.opened == opened && answer.error.says(fault, message)
}

/// What the search for a module answers, given what the platform answered.
pub open spec fn locates<H>(
    answer: Result<LocatedModule<H>, Unlocated>,
    pid: u32,
    target_module: Seq<char>,
    opened: Result<OpenedProcess<H>, ProcessBackendError>,
    modules: Result<Vec<ModuleDescriptor>, ProcessBackendError>,
) -> bool {
    match opened {
        Err(error) => answer matches Err(fault) && unlocated(
            fault,
            false,
            ProbeFault::Platform,
            error.message@,
        ),
        Ok(process) => if process.process.identity is None {
            answer matches Err(fault) && unlocated(
                fault,
                true,
                ProbeFault::ProcessAccess,
                "opened process did not provide an identity"@,
            )
        } else {
            match modules {
                Err(error) => answer matches Err(fault) && unlocated(
                    fault,
                    true,
                    ProbeFault::ModuleEnumeration,
                    error.message@,
                ),
                Ok(listed) => match module_named(listed@, target_module) {
                    None => answer matches Err(fault) && unlocated(
                        fault,
                        true,
                        ProbeFault::ModuleEnumeration,
                        "module "@ + target_module + " was not visible in process "@ + dec_text(
                            pid as nat,
                        ),
                    ),
                    Some(module) => match module_address(module.base_address@) {
                        None => answer matches Err(fault) && unlocated(
                            fault,
                            true,
                            ProbeFault::ModuleEnumeration,
                            "module base address "@ + module.base_address@ + " was invalid: "@
                                + hexadecimal_fault(without_prefix(module.base_address@)),
                        ),
                        Some(address) => answer matches Ok(located) && {
                            &&& located.handle == process.handle
                            &&& located.module == module
                            &&& located.address == address
                        },
                    },
                },
            }
        },
    }
}

proof fn lemma_locates<B: ProcessBackend>(
    backend: &B,
    answer: Result<LocatedModule<B::Handle>, Unlocated>,
    pid: u32,
    target_module: Seq<char>,
    opened: Result<OpenedProcess<B::Handle>, ProcessBackendError>,
    modules: Result<Vec<ModuleDescriptor>, ProcessBackendError>,
)
    requires
        looked_into(backend, pid, opened, modules),
        locates(answer, pid, target_module, opened, modules),
    ensures
        exists|
            o: Result<OpenedProcess<B::Handle>, ProcessBackendError>,
            m: Result<Vec<ModuleDescriptor>, ProcessBackendError>,
        | #[trigger]
            looked_into(backend, pid, o, m) && locates(answer, pid, target_module, o, m),
{
}

/// Opens a process and looks for a module in it.
pub fn locate_module<B: ProcessBackend>(backend: &B, pid: u32, target_module: &str) -> (answer:
    Result<LocatedModule<B::Handle>, Unlocated>)
    ensures
        exists|
            opened: Result<OpenedProcess<B::Handle>, ProcessBackendError>,
            modules: Result<Vec<ModuleDescriptor>, ProcessBackendError>,
        | #[trigger]
            looked_into(backend, pid, opened, modules) && locates(
                answer,
                pid,
                target_module@,
                opened,
                modules,
            ),
{
    let opened = backend.open_process(pid);
    let ghost outcome = opened;
    let ghost nothing = Ok::<Vec<ModuleDescriptor>, ProcessBackendError>(arbitrary());
    let process = match opened {
        Ok(process) => process,
        Err(error) => {
            let answer = Err(
                Unlocated {
                    opened: false,
                    error: ProbeError { fault: ProbeFault::Platform, message: error.message },
                },
            );
            proof {
                lemma_locates(backend, answer, pid, target_module@, outcome, nothing);
            }
            return answer;
        },
    };
    let listed = match &process.process.identity {
        Some(identity) => backend.enumerate_modules(&process.handle, identity),
        None => {
            let answer = Err(
                Unlocated {
                    opened: true,
                    error: ProbeError {
                        fault: ProbeFault::ProcessAccess,
                        message: "opened process did not provide an identity".to_owned(),
                    },
                },
            );
            proof {
                lemma_locates(backend, answer, pid, target_module@, outcome, nothing);
            }
            return answer;
        },
    };
    let ghost modules_outcome = listed;
    proof {
        assert(looked_into(backend, pid, outcome, modules_outcome));
    }
    let answer = match listed {
        Ok(modules) => choose_module(process.handle, pid, &modules, target_module),
        Err(error) => Err(
            Unlocated {
                opened: true,
                error: ProbeError { fault: ProbeFault::ModuleEnumeration, message: error.message },
            },
        ),
    };
    proof {
        lemma_locates(backend, answer, pid, target_module@, outcome, modules_outcome);
    }
    answer
}

fn choose_module<H>(handle: H, pid: u32, modules: &Vec<ModuleDescriptor>, target_module: &str) -> (
    answer: Result<LocatedModule<H>, Unlocated>)
    ensures
        match module_named(modules@, target_module@) {
            None => answer matches Err(fault) && unlocated(
                fault,
                true,
                ProbeFault::ModuleEnumeration,
                "module "@ + target_module@ + " was not visible in process "@ + dec_text(
                    pid as nat,
                ),
            ),
            Some(module) => match module_address(module.base_address@) {
                None => answer matches Err(fault) && unlocated(
                    fault,
                    true,
                    ProbeFault::ModuleEnumeration,
                    "module base address "@ + module.base_address@ + " was invalid: "@
                        + hexadecimal_fault(without_prefix(module.base_address@)),
                ),
                Some(address) => answer matches Ok(located) && {
                    &&& located.handle == handle
                    &&& located.module == module
                    &&& located.address == address
                },
            },
        },
{
    let module = match find_module(modules, target_module) {
        Some(module) => module,
        None => {
            let message = join4(
                "module ",
                target_module,
                " was not visible in process ",
                format_decimal(pid as u64).as_str(),
            );
            return Err(
                Unlocated {
                    opened: true,
                    error: ProbeError { fault: ProbeFault::ModuleEnumeration, message },
                },
            );
        },
    };
    match parse_address(module.base_address.as_str()) {
        Ok(address) => Ok(LocatedModule { handle, module, address }),
        Err(error) => Err(Unlocated { opened: true, error }),
    }
}

// ---------------------------------------------------------------------------
// What is reported.
// ---------------------------------------------------------------------------

/// Reports a process of which nothing more was found.
pub fn failed_process_report<P>(pid: u32, process_name: &str, fault: Unlocated) -> (report:
    ProcessReport<P>)
    ensures
        report.pid == pid,
        report.process_name@ == process_name@,
        report.process_opened == fault.opened,
        report.module is None,
        report.error == Some(fault.error),
{
    ProcessReport {
        pid,
        process_name: process_name.to_owned(),
        process_opened: fault.opened,
        module: None,
        error: Some(fault.error),
    }
}

/// How a read of a module's headers ended: with the number of bytes that were
/// read, or with what the platform said.
pub open spec fn header_fault(address: u64, read: Result<usize, String>) -> Option<Seq<char>> {
    match read {
        Err(text) => Some(
            "ReadProcessMemory at "@ + address_text(address as nat) + " failed: "@ + text@,
        ),
        Ok(bytes_read) => if bytes_read == 0 {
            Some(
                "ReadProcessMemory at "@ + address_text(address as nat) + " returned zero bytes"@,
            )
        } else {
            None
        },
    }
}

/// Refuses a read of a module's headers that failed or gave nothing.
pub fn header_read(address: u64, read: Result<usize, String>) -> (bytes: Result<usize, Unlocated>)
    ensures
        bytes is Ok <==> header_fault(address, read) is None,
        bytes matches Ok(bytes_read) ==> read == Ok::<usize, String>(bytes_read),
        bytes matches Err(fault) ==> unlocated(
            fault,
            true,
            ProbeFault::MemoryRead,
            header_fault(address, read)->0,
        ),
{
    let message = match read {
        Ok(bytes_read) => {
            if bytes_read != 0 {
                return Ok(bytes_read);
            }
            join3("ReadProcessMemory at ", format_hex(address).as_str(), " returned zero bytes")
        },
        Err(text) => join4(
            "ReadProcessMemory at ",
            format_hex(address).as_str(),
            " failed: ",
            text.as_str(),
        ),
    };
    Err(Unlocated { opened: true, error: ProbeError { fault: ProbeFault::MemoryRead, message } })
}

/// What the headers of a loaded image say of it.
#[derive(Clone, Copy, Debug, PartialEq, Eq, Structural)]
pub struct PeHeaders {
    pub machine: u16,
    pub section_count: u16,
}

/// The number in so many bytes from a place on.
pub open spec fn number_at(bytes: Seq<u8>, at: int, width: int) -> int {
    le_value(bytes.subrange(at, at + width)) as int
}

/// What the headers at the start of an image say, or why they cannot be read: the DOS
/// header leads to the PE header, which begins with its signature.
pub open spec fn headers_of(bytes: Seq<u8>) -> Result<PeHeaders, Seq<char>> {
    if bytes.len() < 2 || bytes[0] != 0x4d || bytes[1] != 0x5a {
        Err("the DOS signature is missing"@)
    } else if bytes.len() < 0x40 {
        Err("the DOS header is incomplete"@)
    } else {
        let start = number_at(bytes, 0x3c, 4);
        if start + 4 > bytes.len() || bytes.subrange(start, start + 4) != seq![
            0x50u8,
            0x45,
            0,
            0,
        ] {
            Err("the PE signature is missing"@)
        } else if start + 8 > bytes.len() {
            Err("the PE header is incomplete"@)
        } else {
            Ok(
                PeHeaders {
                    machine: number_at(bytes, start + 4, 2) as u16,
                    section_count: number_at(bytes, start + 6, 2) as u16,
                },
            )
        }
    }
}

/// Reads the headers at the start of an image.
pub fn parse_pe_headers(bytes: &[u8]) -> (parsed: Result<PeHeaders, String>)
    ensures
        match (parsed, headers_of(bytes@)) {
            (Ok(headers), Ok(expected)) => headers == expected,
            (Err(text), Err(reason)) => text@ == reason,
            _ => false,
        },
{
    let length: u64 = bytes.len() as u64;
    if length < 2 || bytes[0] != 0x4d || bytes[1] != 0x5a {
        return Err("the DOS signature is missing".to_owned());
    }
    if length < 0x40 {
        return Err("the DOS header is incomplete".to_owned());
    }
    let offset: u64 = read_le(bytes, 0x3c, 4);
    proof {
        lemma_pow256();
    }
    if offset + 4 > length {
        return Err("the PE signature is missing".to_owned());
    }
    let start: usize = offset as usize;
    let signed = bytes[start] == 0x50 && bytes[start + 1] == 0x45 && bytes[start + 2] == 0
        && bytes[start + 3] == 0;
    proof {
        let found = bytes@.subrange(start as int, start + 4);
        if signed {
            assert(found =~= seq![0x50u8, 0x45, 0, 0]);
        } else if found == seq![0x50u8, 0x45, 0, 0] {
            assert(found[0] == bytes@[start as int]);
            assert(found[1] == bytes@[start + 1]);
            assert(found[2] == bytes@[start + 2]);
            assert(found[3] == bytes@[start + 3]);
        }
    }
    if !signed {
        return Err("the PE signature is missing".to_owned());
    }
    if offset + 8 > length {
        return Err("the PE header is incomplete".to_owned());
    }
    let machine: u64 = read_le(bytes, start + 4, 2);
    let sections: u64 = read_le(bytes, start + 6, 2);
    Ok(PeHeaders { machine: machine as u16, section_count: sections as u16 })
}

/// Reports a module whose headers were read, by what parsing them gave.
pub fn process_report<P>(
    pid: u32,
    process_name: &str,
    module: ModuleDescriptor,
    bytes_read: usize,
    parsed: Result<P, String>,
) -> (report: ProcessReport<P>)
    ensures
        report.pid == pid,
        report.process_name@ == process_name@,
        report.process_opened,
        match parsed {
            Ok(pe) => {
                &&& report.error is None
                &&& report.module == Some(
                    ModuleReport {
                        module_name: module.name,
                        executable_path: module.executable_path,
                        module_base: module.base_address,
                        module_size: module.size,
                        bytes_read,
                        pe,
                    },
                )
            },
            Err(text) => {
                &&& report.module is None
                &&& report.error matches Some(error) && error.says(
                    ProbeFault::PeParse,
                    "in-memory PE validation failed: "@ + text@,
                )
            },
        },
{
    match parsed {
        Ok(pe) => ProcessReport {
            pid,
            process_name: process_name.to_owned(),
            process_opened: true,
            module: Some(
                ModuleReport {
                    module_name: module.name,
                    executable_path: module.executable_path,
                    module_base: module.base_address,
                    module_size: module.size,
                    bytes_read,
                    pe,
                },
            ),
            error: None,
        },
        Err(text) => ProcessReport {
            pid,
            process_name: process_name.to_owned(),
            process_opened: true,
            module: None,
            error: Some(
                ProbeError {
                    fault: ProbeFault::PeParse,
                    message: join2("in-memory PE validation failed: ", text.as_str()),
                },
            ),
        },
    }
}

/// The processes of the given name, ASCII case ignored, in their order.
pub open spec fn processes_named(processes: Seq<ProcessDescriptor>, name: Seq<char>) -> Seq<
    ProcessDescriptor,
> {
    processes.filter(|process: ProcessDescriptor| lowered(process.name@) == lowered(name))
}

/// The probe cannot go on: the processes could not be listed, or none has the
/// name.
pub open spec fn probe_fault(
    request: ProbeRequest,
    listed: Result<Vec<ProcessDescriptor>, ProcessBackendError>,
) -> Option<Seq<char>> {
    match listed {
        Err(error) => Some(error.message@),
        Ok(processes) => if processes_named(processes@, request.target_process@).len() == 0 {
            Some(request.target_process@ + " was not visible in the current Wine bottle"@)
        } else {
            None
        },
    }
}

/// Picks the processes that the probe looks into, or reports that there are
/// none.
pub fn probe_candidates<P>(
    request: &ProbeRequest,
    listed: Result<Vec<ProcessDescriptor>, ProcessBackendError>,
) -> (candidates: Result<Vec<ProcessDescriptor>, ProbeReport<P>>)
    ensures
        candidates is Ok <==> probe_fault(*request, listed) is None,
        candidates matches Ok(picked) ==> picked@ == processes_named(
            listed->Ok_0@,
            request.target_process@,
        ),
        candidates matches Err(report) ==> {
            &&& report.target_process@ == request.target_process@
            &&& !report.success
            &&& report.candidates@.len() == 0
            &&& report.errors@.len() == 1
            &&& report.errors@[0]@ == probe_fault(*request, listed)->0
        },
{
    let processes = match listed {
        Ok(processes) => processes,
        Err(error) => {
            return Err(empty_report(request, error.message));
        },
    };
    let ghost wanted = |process: ProcessDescriptor|
        lowered(process.name@) == lowered(request.target_process@);
    let mut picked: Vec<ProcessDescriptor> = Vec::new();
    let mut i: usize = 0;
    proof {
        assert(processes@.take(0) =~= Seq::empty());
        reveal(Seq::filter);
    }
    while i < processes.len()
        invariant
            i <= processes@.len(),
            wanted == (|process: ProcessDescriptor|
                lowered(process.name@) == lowered(request.target_process@)),
            picked@ == processes@.take(i as int).filter(wanted),
        decreases processes@.len() - i,
    {
        proof {
            reveal(Seq::filter);
            assert(processes@.take(i + 1).drop_last() =~= processes@.take(i as int));
        }
        if same_ignoring_case(processes[i].name.as_str(), request.target_process.as_str()) {
            picked.push(processes[i].clone());
        }
        i += 1;
    }
    proof {
        assert(processes@.take(i as int) =~= processes@);
    }
    if picked.len() == 0 {
        let message = join2(
            request.target_process.as_str(),
            " was not visible in the current Wine bottle",
        );
        return Err(empty_report(request, message));
    }
    Ok(picked)
}

fn empty_report<P>(request: &ProbeRequest, message: String) -> (report: ProbeReport<P>)
    ensures
        report.target_process@ == request.target_process@,
        !report.success,
        report.candidates@.len() == 0,
        report.errors@ == seq![message],
{
    let mut errors: Vec<String> = Vec::new();
    errors.push(message);
    ProbeReport {
        target_process: request.target_process.clone(),
        success: false,
        candidates: Vec::new(),
        errors,
    }
}

/// Reports the processes that the probe looked into. It succeeded if one of
/// them did.
pub fn probe_report<P>(request: &ProbeRequest, candidates: Vec<ProcessReport<P>>) -> (report:
    ProbeReport<P>)
    ensures
        report.target_process@ == request.target_process@,
        report.success <==> exists|i: int|
            0 <= i < candidates@.len() && (#[trigger] candidates@[i]).error is None,
        report.candidates == candidates,
        report.errors@.len() == 0,
{
    let mut success = false;
    let mut i: usize = 0;
    while i < candidates.len()
        invariant
            i <= candidates@.len(),
            success <==> exists|j: int|
                0 <= j < i && (#[trigger] candidates@[j]).error is None,
        decreases candidates@.len() - i,
    {
        if candidates[i].error.is_none() {
            assert(candidates@[i as int].error is None);
            success = true;
        }
        i += 1;
    }
    ProbeReport {
        target_process: request.target_process.clone(),
        success,
        candidates,
        errors: Vec::new(),
    }
}

}
