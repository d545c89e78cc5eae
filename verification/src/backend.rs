//! What the agent asks of the platform it runs on.

use vstd::prelude::*;
use vstd::string::*;

use crate::protocol::{
    KeyAction, MemoryProtection, MemoryRegionDescriptor, MessageDelivery, ModuleDescriptor,
    MouseButton, ProcessAccessMode, ProcessDescriptor, ProcessIdentity, WindowPoint,
    WindowRectangle, WindowSize,
};

verus! {

/// Why a platform call failed.
#[derive(Clone, Copy, Debug, PartialEq, Eq, Structural)]
pub enum ProcessBackendErrorKind {
    NotFound,
    AccessDenied,
    Exited,
    IdentityMismatch,
    Native,
}

impl ProcessBackendErrorKind {
    /// Kinds that say that the process is no longer there.
    pub open spec fn says_gone(self) -> bool {
        ||| self == ProcessBackendErrorKind::NotFound
        ||| self == ProcessBackendErrorKind::Exited
        ||| self == ProcessBackendErrorKind::IdentityMismatch
    }

    /// Whether the kind says that the process is no longer there.
    pub fn is_gone(self) -> (gone: bool)
        ensures
            gone == self.says_gone(),
    {
        matches!(
            self,
            ProcessBackendErrorKind::NotFound | ProcessBackendErrorKind::Exited | ProcessBackendErrorKind::IdentityMismatch
        )
    }
}

/// A failed platform call.
#[derive(Debug)]
pub struct ProcessBackendError {
    pub kind: ProcessBackendErrorKind,
    pub message: String,
    pub native_code: Option<i32>,
}

impl Clone for ProcessBackendError {
    fn clone(&self) -> (copy: Self)
        ensures
            copy == *self,
    {
        ProcessBackendError {
            kind: self.kind,
            message: self.message.clone(),
            native_code: self.native_code,
        }
    }
}

impl ProcessBackendError {
    /// The error of the given kind and message, without a native code.
    pub open spec fn says(&self, kind: ProcessBackendErrorKind, message: Seq<char>) -> bool {
        &&& self.kind == kind
        &&& self.message@ == message
        &&& self.native_code is None
    }

    /// An error without a native code.
    pub fn new(kind: ProcessBackendErrorKind, message: &str) -> (error: Self)
        ensures
            error.says(kind, message@),
    {
        ProcessBackendError { kind, message: message.to_owned(), native_code: None }
    }

    /// The same error with the code that the platform gave.
    pub fn with_native_code(self, native_code: i32) -> (error: Self)
        ensures
            error == (ProcessBackendError { native_code: Some(native_code), ..self }),
    {
        ProcessBackendError { kind: self.kind, message: self.message, native_code: Some(native_code) }
    }
}

/// A process that was opened, with its handle.
pub struct OpenedProcess<H> {
    pub handle: H,
    pub process: ProcessDescriptor,
}

/// A window that may belong to a game client.
#[derive(Debug)]
pub struct ClientWindowCandidate {
    pub native_window_id: u64,
    pub pid: u32,
    /// Identity captured while the candidate still belongs to this window, so
    /// that a process id that was reused meanwhile can be told.
    pub process_identity: ProcessIdentity,
    pub is_foreground: bool,
    pub left: i32,
    pub top: i32,
}

impl Clone for ClientWindowCandidate {
    fn clone(&self) -> (copy: Self)
        ensures
            copy == *self,
    {
        ClientWindowCandidate {
            native_window_id: self.native_window_id,
            pid: self.pid,
            process_identity: self.process_identity.clone(),
            is_foreground: self.is_foreground,
            left: self.left,
            top: self.top,
        }
    }
}

/// The window of a game client that is still active.
#[derive(Debug)]
pub struct ClientWindowTarget {
    pub native_window_id: u64,
    pub process_identity: ProcessIdentity,
}

impl Clone for ClientWindowTarget {
    fn clone(&self) -> (copy: Self)
        ensures
            copy == *self,
    {
        ClientWindowTarget {
            native_window_id: self.native_window_id,
            process_identity: self.process_identity.clone(),
        }
    }
}

/// A window as it stands.
#[derive(Debug)]
pub struct ClientWindowSnapshot {
    pub title: String,
    pub is_foreground: bool,
    pub rectangle: WindowRectangle,
    pub client_origin: WindowPoint,
    pub client_size: WindowSize,
}

/// What a backend without window support answers.
pub open spec fn window_refusal() -> Seq<char> {
    "window operations require the Windows agent running natively or inside Wine/CrossOver"@
}

/// What a backend without input support answers.
pub open spec fn input_refusal() -> Seq<char> {
    "input operations require the Windows agent running natively or inside Wine/CrossOver"@
}

/// What a backend without process support answers.
pub open spec fn process_refusal() -> Seq<char> {
    "process APIs require the Windows agent running natively or inside Wine/CrossOver"@
}

/// What a backend without memory support answers.
pub open spec fn memory_refusal() -> Seq<char> {
    "memory APIs require the Windows agent running natively or inside Wine/CrossOver"@
}

/// What a backend without mutation support answers.
pub open spec fn mutation_refusal() -> Seq<char> {
    "mutation APIs require the Windows agent running natively or inside Wine/CrossOver"@
}

/// What a backend without game control answers.
pub open spec fn game_refusal() -> Seq<char> {
    "game control requires the Windows agent running natively or inside Wine/CrossOver"@
}

/// A refusal of the given kind and message.
pub open spec fn refused<T>(
    outcome: Result<T, ProcessBackendError>,
    kind: ProcessBackendErrorKind,
    message: Seq<char>,
) -> bool {
    outcome matches Err(error) && error.says(kind, message)
}

/// The error of a backend without window support.
pub fn unsupported_window_operation() -> (error: ProcessBackendError)
    ensures
        error.says(ProcessBackendErrorKind::AccessDenied, window_refusal()),
{
    ProcessBackendError::new(
        ProcessBackendErrorKind::AccessDenied,
        "window operations require the Windows agent running natively or inside Wine/CrossOver",
    )
}

/// The error of a backend without input support.
pub fn unsupported_input_operation() -> (error: ProcessBackendError)
    ensures
        error.says(ProcessBackendErrorKind::AccessDenied, input_refusal()),
{
    ProcessBackendError::new(
        ProcessBackendErrorKind::AccessDenied,
        "input operations require the Windows agent running natively or inside Wine/CrossOver",
    )
}

/// The error of a backend without mutation support.
pub fn unsupported_mutation<T>() -> (outcome: Result<T, ProcessBackendError>)
    ensures
        refused(outcome, ProcessBackendErrorKind::Native, mutation_refusal()),
{
    Err(
        ProcessBackendError::new(
            ProcessBackendErrorKind::Native,
            "mutation APIs require the Windows agent running natively or inside Wine/CrossOver",
        ),
    )
}

/// Processes and windows. What a platform answers is up to it: no method
/// promises anything of its result.
pub trait ProcessBackend: Send + Sync + 'static {
    type Handle: Send + 'static;

    /// All processes.
    fn list_processes(
        &self,
    ) -> Result<Vec<ProcessDescriptor>, ProcessBackendError>;

    /// The windows that may belong to game clients.
    fn list_client_windows(
        &self,
    ) -> (outcome: Result<Vec<ClientWindowCandidate>, ProcessBackendError>)
        default_ensures
            outcome matches Ok(windows) && windows@.len() == 0,
    {
        Ok(Vec::new())
    }

    /// Opens a process for reading.
    fn open_process(
        &self,
        pid: u32,
    ) -> Result<OpenedProcess<Self::Handle>, ProcessBackendError>;

    /// Opens a process for the given access.
    fn open_process_for_access(
        &self,
        pid: u32,
        access_mode: ProcessAccessMode,
    ) -> (outcome: Result<OpenedProcess<Self::Handle>, ProcessBackendError>)
        default_ensures
            access_mode == ProcessAccessMode::ReadOnly ==> call_ensures(
                Self::open_process,
                (self, pid),
                outcome,
            ),
            access_mode == ProcessAccessMode::Mutation ==> refused(
                outcome,
                ProcessBackendErrorKind::AccessDenied,
                "this process backend does not support mutation sessions"@,
            ),
    {
        match access_mode {
            ProcessAccessMode::ReadOnly => self.open_process(pid),
            ProcessAccessMode::Mutation => Err(
                ProcessBackendError::new(
                    ProcessBackendErrorKind::AccessDenied,
                    "this process backend does not support mutation sessions",
                ),
            ),
        }
    }

    /// Checks that a handle still belongs to the expected process.
    fn validate_process(
        &self,
        handle: &Self::Handle,
        expected: &ProcessIdentity,
    ) -> Result<(), ProcessBackendError>;

    /// The modules of a process.
    fn enumerate_modules(
        &self,
        handle: &Self::Handle,
        expected: &ProcessIdentity,
    ) -> Result<Vec<ModuleDescriptor>, ProcessBackendError>;

    /// A window as it stands.
    fn inspect_client_window(
        &self,
        target: &ClientWindowTarget,
    ) -> (outcome: Result<ClientWindowSnapshot, ProcessBackendError>)
        default_ensures
            refused(outcome, ProcessBackendErrorKind::AccessDenied, window_refusal()),
    {
        Err(unsupported_window_operation())
    }

    /// Brings a window to the front.
    fn focus_client_window(
        &self,
        target: &ClientWindowTarget,
    ) -> (outcome: Result<bool, ProcessBackendError>)
        default_ensures
            refused(outcome, ProcessBackendErrorKind::AccessDenied, window_refusal()),
    {
        Err(unsupported_window_operation())
    }

    /// Renames a window.
    fn set_client_window_title(
        &self,
        target: &ClientWindowTarget,
        title: &str,
    ) -> (outcome: Result<(), ProcessBackendError>)
        default_ensures
            refused(outcome, ProcessBackendErrorKind::AccessDenied, window_refusal()),
    {
        Err(unsupported_window_operation())
    }

    /// A point of a window on the screen.
    fn client_to_screen(
        &self,
        target: &ClientWindowTarget,
        point: WindowPoint,
    ) -> (outcome: Result<WindowPoint, ProcessBackendError>)
        default_ensures
            refused(outcome, ProcessBackendErrorKind::AccessDenied, window_refusal()),
    {
        Err(unsupported_window_operation())
    }

    /// A point of the screen in a window.
    fn screen_to_client(
        &self,
        target: &ClientWindowTarget,
        point: WindowPoint,
    ) -> (outcome: Result<WindowPoint, ProcessBackendError>)
        default_ensures
            refused(outcome, ProcessBackendErrorKind::AccessDenied, window_refusal()),
    {
        Err(unsupported_window_operation())
    }

    /// Sends a key event.
    fn send_client_key_event(
        &self,
        target: &ClientWindowTarget,
        virtual_key: u16,
        action: KeyAction,
        delivery: MessageDelivery,
    ) -> (outcome: Result<(), ProcessBackendError>)
        default_ensures
            refused(outcome, ProcessBackendErrorKind::AccessDenied, input_refusal()),
    {
        Err(unsupported_input_operation())
    }

    /// Sends a mouse movement.
    fn send_client_mouse_move(
        &self,
        target: &ClientWindowTarget,
        point: WindowPoint,
        delivery: MessageDelivery,
    ) -> (outcome: Result<(), ProcessBackendError>)
        default_ensures
            refused(outcome, ProcessBackendErrorKind::AccessDenied, input_refusal()),
    {
        Err(unsupported_input_operation())
    }

    /// Sends a mouse button event.
    fn send_client_mouse_button(
        &self,
        target: &ClientWindowTarget,
        point: WindowPoint,
        button: MouseButton,
        pressed: bool,
        delivery: MessageDelivery,
    ) -> (outcome: Result<(), ProcessBackendError>)
        default_ensures
            refused(outcome, ProcessBackendErrorKind::AccessDenied, input_refusal()),
    {
        Err(unsupported_input_operation())
    }

    /// Starts the game.
    fn launch_game(
        &self,
        game_path: &str,
        login_server: &str,
    ) -> (outcome: Result<ProcessIdentity, ProcessBackendError>)
        default_ensures
            refused(outcome, ProcessBackendErrorKind::AccessDenied, game_refusal()),
    {
        Err(
            ProcessBackendError::new(
                ProcessBackendErrorKind::AccessDenied,
                "game control requires the Windows agent running natively or inside Wine/CrossOver",
            ),
        )
    }

    /// Ends a process and waits until it is gone.
    fn terminate_process_and_wait(
        &self,
        expected: &ProcessIdentity,
        timeout_ms: u32,
    ) -> (outcome: Result<(), ProcessBackendError>)
        default_ensures
            refused(outcome, ProcessBackendErrorKind::AccessDenied, game_refusal()),
    {
        Err(
            ProcessBackendError::new(
                ProcessBackendErrorKind::AccessDenied,
                "game control requires the Windows agent running natively or inside Wine/CrossOver",
            ),
        )
    }
}

/// Reading memory. No method here can change a target.
pub trait MemoryBackend: ProcessBackend {
    /// The readable regions of a process.
    fn enumerate_memory_regions(
        &self,
        handle: &Self::Handle,
        expected: &ProcessIdentity,
    ) -> Result<Vec<MemoryRegionDescriptor>, ProcessBackendError>;

    /// Reads bytes.
    fn read_memory(
        &self,
        handle: &Self::Handle,
        address: usize,
        size: usize,
    ) -> Result<Vec<u8>, ProcessBackendError>;
}

/// A thread that was started in another process.
pub struct StartedRemoteThread<T> {
    pub thread_id: u32,
    pub handle: T,
}

/// How a remote thread stands.
#[derive(Clone, Copy, Debug, PartialEq, Eq, Structural)]
pub struct RemoteThreadPoll {
    pub completed: bool,
    pub exit_code: Option<u32>,
}

/// Lets suspended threads go on. A guard that is dropped lets them go on too.
pub trait ProcessThreadResume: Send {
    /// What the guard, as it stands, may say when it is asked to let the threads go on.
    /// Nothing is known of one that does not tell.
    closed spec fn answers(&self, outcome: Result<(), ProcessBackendError>) -> bool {
        arbitrary()
    }

    /// Lets the threads go on.
    fn resume(&mut self) -> (outcome: Result<(), ProcessBackendError>)
        ensures
            old(self).answers(outcome),
    ;
}

/// A process whose threads are suspended, with where each of them stood.
pub struct SuspendedProcess {
    instruction_pointers: Vec<usize>,
    resume_guard: Box<dyn ProcessThreadResume>,
}

impl SuspendedProcess {
    /// Where the threads stood.
    pub closed spec fn pointers(&self) -> Seq<usize> {
        self.instruction_pointers@
    }

    /// What letting the threads go on may come to.
    pub closed spec fn answers(&self, outcome: Result<(), ProcessBackendError>) -> bool {
        self.resume_guard.answers(outcome)
    }

    /// Some thread stood inside the range, or the range wraps around.
    pub open spec fn executes(&self, address: usize, size: usize) -> bool {
        ||| address + size > usize::MAX
        ||| exists|i: int|
            0 <= i < self.pointers().len() && address <= #[trigger] self.pointers()[i] < address
                + size
    }

    /// A suspended process whose threads the guard lets go on: what that may come to is
    /// what this guard may say.
    pub fn new<G: ProcessThreadResume + 'static>(
        instruction_pointers: Vec<usize>,
        resume_guard: G,
    ) -> (suspended: Self)
        ensures
            suspended.pointers() == instruction_pointers@,
            forall|outcome: Result<(), ProcessBackendError>| #[trigger]
                suspended.answers(outcome) == ({
                    let any: &dyn ProcessThreadResume = &resume_guard;
                    any.answers(outcome)
                }),
    {
        SuspendedProcess { instruction_pointers, resume_guard: Box::new(resume_guard) }
    }

    /// Whether some thread stood inside the range.
    pub fn executes_range(&self, address: usize, size: usize) -> (executes: bool)
        ensures
            executes == self.executes(address, size),
    {
        let end: usize = match address.checked_add(size) {
            Some(end) => end,
            None => {
                return true;
            },
        };
        let mut i: usize = 0;
        while i < self.instruction_pointers.len()
            invariant
                i <= self.instruction_pointers@.len(),
                end == address + size,
                forall|j: int|
                    0 <= j < i ==> !(address <= #[trigger] self.instruction_pointers@[j] < end),
            decreases self.instruction_pointers@.len() - i,
        {
            let pointer: usize = self.instruction_pointers[i];
            if address <= pointer && pointer < end {
                assert(self.pointers()[i as int] == pointer);
                return true;
            }
            i += 1;
        }
        false
    }

    /// Lets the threads go on, and says what the guard said. Where it failed it is asked a
    /// second time, and what it says then is not heard.
    pub fn resume(self) -> (outcome: Result<(), ProcessBackendError>)
        ensures
            self.answers(outcome),
    {
        let mut this = self;
        let outcome = this.resume_guard.resume();
        if outcome.is_err() {
            let _ = this.resume_guard.resume();
        }
        outcome
    }
}

/// Changing another process. Apart from reading, so that a caller has to ask
/// for a mutation session and for this.
pub trait MutationBackend: MemoryBackend {
    type ThreadHandle: Send + 'static;

    /// Writes bytes.
    fn write_memory(
        &self,
        handle: &Self::Handle,
        address: usize,
        bytes: &[u8],
    ) -> Result<(), ProcessBackendError>;

    /// Allocates memory and returns its address.
    fn allocate_memory(
        &self,
        handle: &Self::Handle,
        size: usize,
        protection: MemoryProtection,
    ) -> Result<usize, ProcessBackendError>;

    /// Allocates within reach of a relative jump from a hook site. A backend
    /// that cannot honour the hint may place the memory anywhere; callers
    /// check the final displacement before they change the target.
    fn allocate_memory_near(
        &self,
        handle: &Self::Handle,
        target: usize,
        size: usize,
        protection: MemoryProtection,
    ) -> (outcome: Result<usize, ProcessBackendError>)
        default_ensures
            call_ensures(Self::allocate_memory, (self, handle, size, protection), outcome),
    {
        self.allocate_memory(handle, size, protection)
    }

    /// Releases an allocation.
    fn free_memory(
        &self,
        handle: &Self::Handle,
        address: usize,
    ) -> Result<(), ProcessBackendError>;

    /// Suspends every thread of a process.
    fn suspend_process_threads(
        &self,
        handle: &Self::Handle,
    ) -> Result<SuspendedProcess, ProcessBackendError>;

    /// Changes access rights and returns the earlier ones.
    fn protect_memory(
        &self,
        handle: &Self::Handle,
        address: usize,
        size: usize,
        protection: MemoryProtection,
    ) -> Result<MemoryProtection, ProcessBackendError>;

    /// Starts a thread.
    fn start_remote_thread(
        &self,
        handle: &Self::Handle,
        start_address: usize,
        parameter: Option<usize>,
    ) -> Result<StartedRemoteThread<Self::ThreadHandle>, ProcessBackendError>;

    /// Waits for a thread and says how it stands.
    fn poll_remote_thread(
        &self,
        thread: &Self::ThreadHandle,
        wait_timeout_ms: u32,
    ) -> Result<RemoteThreadPoll, ProcessBackendError>;

    /// Makes written code visible to execution, in a range or, where address and
    /// size are zero, in the whole process.
    fn flush_instruction_cache(
        &self,
        handle: &Self::Handle,
        address: usize,
        size: usize,
    ) -> Result<(), ProcessBackendError>;
}

/// The backend of a platform that the agent cannot work on: it refuses all.
#[derive(Clone, Copy, Debug)]
pub struct UnsupportedProcessBackend;

impl ProcessBackend for UnsupportedProcessBackend {
    type Handle = ();

    fn list_processes(
        &self,
    ) -> (outcome: Result<Vec<ProcessDescriptor>, ProcessBackendError>)
        ensures
            refused(outcome, ProcessBackendErrorKind::Native, process_refusal()),
    {
        Err(
            ProcessBackendError::new(
                ProcessBackendErrorKind::Native,
                "process APIs require the Windows agent running natively or inside Wine/CrossOver",
            ),
        )
    }

    fn open_process(
        &self,
        pid: u32,
    ) -> (outcome: Result<OpenedProcess<()>, ProcessBackendError>)
        ensures
            refused(outcome, ProcessBackendErrorKind::Native, process_refusal()),
    {
        Err(
            ProcessBackendError::new(
                ProcessBackendErrorKind::Native,
                "process APIs require the Windows agent running natively or inside Wine/CrossOver",
            ),
        )
    }

    fn validate_process(
        &self,
        handle: &(),
        expected: &ProcessIdentity,
    ) -> (outcome: Result<(), ProcessBackendError>)
        ensures
            refused(outcome, ProcessBackendErrorKind::Native, process_refusal()),
    {
        Err(
            ProcessBackendError::new(
                ProcessBackendErrorKind::Native,
                "process APIs require the Windows agent running natively or inside Wine/CrossOver",
            ),
        )
    }

    fn enumerate_modules(
        &self,
        handle: &(),
        expected: &ProcessIdentity,
    ) -> (outcome: Result<Vec<ModuleDescriptor>, ProcessBackendError>)
        ensures
            refused(outcome, ProcessBackendErrorKind::Native, process_refusal()),
    {
        Err(
            ProcessBackendError::new(
                ProcessBackendErrorKind::Native,
                "process APIs require the Windows agent running natively or inside Wine/CrossOver",
            ),
        )
    }
}

impl MemoryBackend for UnsupportedProcessBackend {
    fn enumerate_memory_regions(
        &self,
        handle: &(),
        expected: &ProcessIdentity,
    ) -> (outcome: Result<Vec<MemoryRegionDescriptor>, ProcessBackendError>)
        ensures
            refused(outcome, ProcessBackendErrorKind::Native, memory_refusal()),
    {
        Err(
            ProcessBackendError::new(
                ProcessBackendErrorKind::Native,
                "memory APIs require the Windows agent running natively or inside Wine/CrossOver",
            ),
        )
    }

    fn read_memory(
        &self,
        handle: &(),
        address: usize,
        size: usize,
    ) -> (outcome: Result<Vec<u8>, ProcessBackendError>)
        ensures
            refused(outcome, ProcessBackendErrorKind::Native, memory_refusal()),
    {
        Err(
            ProcessBackendError::new(
                ProcessBackendErrorKind::Native,
                "memory APIs require the Windows agent running natively or inside Wine/CrossOver",
            ),
        )
    }
}

impl MutationBackend for UnsupportedProcessBackend {
    type ThreadHandle = ();

    fn write_memory(
        &self,
        handle: &(),
        address: usize,
        bytes: &[u8],
    ) -> (outcome: Result<(), ProcessBackendError>)
        ensures
            refused(outcome, ProcessBackendErrorKind::Native, mutation_refusal()),
    {
        unsupported_mutation()
    }

    fn allocate_memory(
        &self,
        handle: &(),
        size: usize,
        protection: MemoryProtection,
    ) -> (outcome: Result<usize, ProcessBackendError>)
        ensures
            refused(outcome, ProcessBackendErrorKind::Native, mutation_refusal()),
    {
        unsupported_mutation()
    }

    fn free_memory(
        &self,
        handle: &(),
        address: usize,
    ) -> (outcome: Result<(), ProcessBackendError>)
        ensures
            refused(outcome, ProcessBackendErrorKind::Native, mutation_refusal()),
    {
        unsupported_mutation()
    }

    fn suspend_process_threads(
        &self,
        handle: &(),
    ) -> (outcome: Result<SuspendedProcess, ProcessBackendError>)
        ensures
            refused(outcome, ProcessBackendErrorKind::Native, mutation_refusal()),
    {
        unsupported_mutation()
    }

    fn protect_memory(
        &self,
        handle: &(),
        address: usize,
        size: usize,
        protection: MemoryProtection,
    ) -> (outcome: Result<MemoryProtection, ProcessBackendError>)
        ensures
            refused(outcome, ProcessBackendErrorKind::Native, mutation_refusal()),
    {
        unsupported_mutation()
    }

    fn start_remote_thread(
        &self,
        handle: &(),
        start_address: usize,
        parameter: Option<usize>,
    ) -> (outcome: Result<StartedRemoteThread<()>, ProcessBackendError>)
        ensures
            refused(outcome, ProcessBackendErrorKind::Native, mutation_refusal()),
    {
        unsupported_mutation()
    }

    fn poll_remote_thread(
        &self,
        thread: &(),
        wait_timeout_ms: u32,
    ) -> (outcome: Result<RemoteThreadPoll, ProcessBackendError>)
        ensures
            refused(outcome, ProcessBackendErrorKind::Native, mutation_refusal()),
    {
        unsupported_mutation()
    }

    fn flush_instruction_cache(
        &self,
        handle: &(),
        address: usize,
        size: usize,
    ) -> (outcome: Result<(), ProcessBackendError>)
        ensures
            refused(outcome, ProcessBackendErrorKind::Native, mutation_refusal()),
    {
        unsupported_mutation()
    }
}

/// Collects the modules of a process between two checks of its identity: the
/// collector may go by the process id alone, so the handle is checked again
/// before its result is let out.
pub fn enumerate_modules_with_revalidation<B, F>(
    backend: &B,
    handle: &B::Handle,
    expected: &ProcessIdentity,
    collect: F,
) -> (outcome: Result<Vec<ModuleDescriptor>, ProcessBackendError>) where
    B: ProcessBackend,
    F: FnOnce() -> Result<Vec<ModuleDescriptor>, ProcessBackendError>,

    requires
        collect.requires(()),
    ensures
        exists|
            before: Result<(), ProcessBackendError>,
            collected: Result<Vec<ModuleDescriptor>, ProcessBackendError>,
            after: Result<(), ProcessBackendError>,
        |
            #[trigger] collected_between(
                backend,
                handle,
                expected,
                collect,
                before,
                collected,
                after,
            ) && outcome == revalidated(before, collected, after),
{
    let ghost mut collected: Result<Vec<ModuleDescriptor>, ProcessBackendError> = arbitrary();
    let ghost mut after: Result<(), ProcessBackendError> = arbitrary();
    let before = backend.validate_process(handle, expected);
    let outcome = match before {
        Err(error) => Err(error),
        Ok(()) => {
            let found = collect();
            proof {
                collected = found;
            }
            match found {
                Err(error) => Err(error),
                Ok(modules) => {
                    let again = backend.validate_process(handle, expected);
                    proof {
                        after = again;
                    }
                    match again {
                        Err(error) => Err(error),
                        Ok(()) => Ok(modules),
                    }
                },
            }
        },
    };
    assert(collected_between(backend, handle, expected, collect, before, collected, after));
    outcome
}

/// The outcomes of the calls that a collection between two checks makes.
pub open spec fn collected_between<B, F>(
    backend: &B,
    handle: &B::Handle,
    expected: &ProcessIdentity,
    collect: F,
    before: Result<(), ProcessBackendError>,
    collected: Result<Vec<ModuleDescriptor>, ProcessBackendError>,
    after: Result<(), ProcessBackendError>,
) -> bool where
    B: ProcessBackend,
    F: FnOnce() -> Result<Vec<ModuleDescriptor>, ProcessBackendError>,
 {
    &&& call_ensures(B::validate_process, (backend, handle, expected), before)
    &&& before is Ok ==> call_ensures(collect, (), collected)
    &&& before is Ok && collected is Ok ==> call_ensures(
        B::validate_process,
        (backend, handle, expected),
        after,
    )
}

/// What is let out of a collection between two checks.
pub open spec fn revalidated<T>(
    before: Result<(), ProcessBackendError>,
    collected: Result<T, ProcessBackendError>,
    after: Result<(), ProcessBackendError>,
) -> Result<T, ProcessBackendError> {
    match (before, collected, after) {
        (Err(error), _, _) => Err(error),
        (_, Err(error), _) => Err(error),
        (_, _, Err(error)) => Err(error),
        (_, Ok(value), _) => Ok(value),
    }
}

}
