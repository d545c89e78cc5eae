//! Requests, responses and descriptors that the host and the agent exchange.

use vstd::prelude::*;
use vstd::string::*;

use crate::text::{lowered, same_ignoring_case};

verus! {

/// Executable name of the game client.
pub const WIZARD101_EXECUTABLE: &'static str = "WizardGraphicalClient.exe";

/// Executable name of the controlled process that memory operations are exercised on.
pub const MEMORY_FIXTURE_EXECUTABLE: &'static str = "deimos-memory-fixture.exe";

/// Largest single memory read.
pub const MAX_MEMORY_READ_BYTES: usize = 1048576;

/// Largest number of reads in one batch.
pub const MAX_BATCH_ITEMS: usize = 256;

/// Largest number of bytes that one batch may ask for.
pub const MAX_BATCH_BYTES: usize = 4194304;

/// Largest number of offsets in a pointer chain.
pub const MAX_POINTER_OFFSETS: usize = 32;

/// Largest number of region failures that a scan reports.
pub const MAX_SCAN_ERRORS: usize = 64;

/// Largest number of matches that a scan may be asked for.
pub const MAX_SCAN_MATCHES: usize = 4096;

/// Largest number of regions that one response or scan may cover.
pub const MAX_SCAN_REGIONS: usize = 65536;

/// Longest signature, in bytes.
pub const MAX_SIGNATURE_BYTES: usize = 256;

/// Largest single memory write.
pub const MAX_MEMORY_WRITE_BYTES: usize = 1048576;

/// Largest remote allocation.
pub const MAX_ALLOCATION_BYTES: usize = 16777216;

/// Longest wait for a remote thread.
pub const MAX_REMOTE_THREAD_WAIT_MS: u32 = 30000;

/// Largest payload of a hook.
pub const MAX_HOOK_PAYLOAD_BYTES: usize = 65536;

/// Shortest signature that a hook may be placed by.
pub const MIN_HOOK_SIGNATURE_BYTES: usize = 14;

/// Longest game launch, termination or login.
pub const MAX_GAME_OPERATION_TIMEOUT_MS: u32 = 300000;

/// Longest time that a key or button is held.
pub const MAX_INPUT_DURATION_MS: u32 = 60000;

/// Largest number of modifiers in a key combination.
pub const MAX_KEY_COMBINATION_MODIFIERS: usize = 8;

/// Longest window title.
pub const MAX_WINDOW_TITLE_CHARS: usize = 256;

/// What the agent takes a process for.
#[derive(Clone, Copy, Debug, PartialEq, Eq, Structural)]
pub enum ProcessKind {
    Wizard101,
    MemoryFixture,
    Other,
}

/// What a process of the given executable name is taken for.
pub open spec fn process_kind(name: Seq<char>) -> ProcessKind {
    if lowered(name) == lowered(WIZARD101_EXECUTABLE@) {
        ProcessKind::Wizard101
    } else if lowered(name) == lowered(MEMORY_FIXTURE_EXECUTABLE@) {
        ProcessKind::MemoryFixture
    } else {
        ProcessKind::Other
    }
}

/// Classifies a process by its executable name, ASCII case ignored.
pub fn classify_process(name: &str) -> (kind: ProcessKind)
    ensures
        kind == process_kind(name@),
{
    if same_ignoring_case(name, WIZARD101_EXECUTABLE) {
        ProcessKind::Wizard101
    } else if same_ignoring_case(name, MEMORY_FIXTURE_EXECUTABLE) {
        ProcessKind::MemoryFixture
    } else {
        ProcessKind::Other
    }
}

/// What a session may do to its process.
#[derive(Clone, Copy, Debug, PartialEq, Eq, Structural)]
pub enum ProcessAccessMode {
    ReadOnly,
    Mutation,
}

/// What tells one run of a process from another that reuses its id.
#[derive(Debug)]
pub struct ProcessIdentity {
    pub pid: u32,
    pub creation_time_100ns: String,
    pub executable_path: String,
}

impl Clone for ProcessIdentity {
    fn clone(&self) -> (copy: Self)
        ensures
            copy == *self,
    {
        ProcessIdentity {
            pid: self.pid,
            creation_time_100ns: self.creation_time_100ns.clone(),
            executable_path: self.executable_path.clone(),
        }
    }
}

/// A process as a backend reports it.
#[derive(Debug)]
pub struct ProcessDescriptor {
    pub pid: u32,
    pub name: String,
    pub kind: ProcessKind,
    pub executable_path: Option<String>,
    pub identity: Option<ProcessIdentity>,
}

impl Clone for ProcessDescriptor {
    fn clone(&self) -> (copy: Self)
        ensures
            copy == *self,
    {
        ProcessDescriptor {
            pid: self.pid,
            name: self.name.clone(),
            kind: self.kind,
            executable_path: match &self.executable_path {
                Some(value) => Some(value.clone()),
                None => None,
            },
            identity: match &self.identity {
                Some(value) => Some(value.clone()),
                None => None,
            },
        }
    }
}

/// A module that a process has loaded.
#[derive(Debug)]
pub struct ModuleDescriptor {
    pub name: String,
    pub executable_path: String,
    pub base_address: String,
    pub size: u32,
}

impl Clone for ModuleDescriptor {
    fn clone(&self) -> (copy: Self)
        ensures
            copy == *self,
    {
        ModuleDescriptor {
            name: self.name.clone(),
            executable_path: self.executable_path.clone(),
            base_address: self.base_address.clone(),
            size: self.size,
        }
    }
}

/// The name of a process session.
#[derive(Debug, PartialEq, Eq)]
pub struct ProcessSessionId(pub String);

impl Clone for ProcessSessionId {
    fn clone(&self) -> (copy: Self)
        ensures
            copy == *self,
    {
        ProcessSessionId(self.0.clone())
    }
}

/// Where a process session stands.
#[derive(Clone, Copy, Debug, PartialEq, Eq, Structural)]
pub enum ProcessSessionState {
    Open,
    Closed,
    Exited,
}

/// A session and the process it is on.
#[derive(Debug)]
pub struct ProcessSessionResponse {
    pub session_id: ProcessSessionId,
    pub state: ProcessSessionState,
    pub access_mode: ProcessAccessMode,
    pub process: ProcessDescriptor,
}

/// Asks for the processes of the given names; no names ask for all.
#[derive(Debug)]
pub struct ListProcessesRequest {
    pub names: Vec<String>,
}

/// The processes, by ascending id.
#[derive(Debug)]
pub struct ListProcessesResponse {
    pub processes: Vec<ProcessDescriptor>,
}

/// Asks for a session on a process.
#[derive(Debug)]
pub struct OpenProcessRequest {
    pub pid: u32,
    pub expected_identity: Option<ProcessIdentity>,
    pub access_mode: ProcessAccessMode,
}

/// Names a session.
#[derive(Debug)]
pub struct SessionRequest {
    pub session_id: ProcessSessionId,
}

/// The modules of a session's process.
#[derive(Debug)]
pub struct ListModulesResponse {
    pub session_id: ProcessSessionId,
    pub process: ProcessDescriptor,
    pub modules: Vec<ModuleDescriptor>,
}

/// How many sessions stand in each state.
#[derive(Clone, Copy, Debug, PartialEq, Eq, Structural)]
pub struct SessionDiagnostics {
    pub open: usize,
    pub closed: usize,
    pub exited: usize,
}

/// Access rights of a memory page.
#[derive(Clone, Copy, Debug, PartialEq, Eq, Structural)]
pub enum MemoryProtection {
    ReadOnly,
    ReadWrite,
    ExecuteRead,
    ExecuteReadWrite,
    CopyOnWrite,
    ExecuteCopyOnWrite,
}

/// A readable region of a process.
#[derive(Debug)]
pub struct MemoryRegionDescriptor {
    pub base_address: String,
    pub size: usize,
    pub protection: MemoryProtection,
}

impl Clone for MemoryRegionDescriptor {
    fn clone(&self) -> (copy: Self)
        ensures
            copy == *self,
    {
        MemoryRegionDescriptor {
            base_address: self.base_address.clone(),
            size: self.size,
            protection: self.protection,
        }
    }
}

/// Names the session whose memory is meant.
#[derive(Debug)]
pub struct MemorySessionRequest {
    pub session_id: ProcessSessionId,
}

/// The readable regions by ascending address.
#[derive(Debug)]
pub struct MemoryRegionsResponse {
    pub session_id: ProcessSessionId,
    pub regions: Vec<MemoryRegionDescriptor>,
}

/// Asks for bytes at an address.
#[derive(Debug)]
pub struct MemoryReadRequest {
    pub session_id: ProcessSessionId,
    pub address: String,
    pub size: usize,
}

/// The bytes read.
#[derive(Debug)]
pub struct MemoryReadResponse {
    pub session_id: ProcessSessionId,
    pub address: String,
    pub bytes: Vec<u8>,
}

/// One read of a batch.
#[derive(Debug)]
pub struct MemoryReadItem {
    pub address: String,
    pub size: usize,
}

/// Asks for several reads at once.
#[derive(Debug)]
pub struct MemoryBatchReadRequest {
    pub session_id: ProcessSessionId,
    pub reads: Vec<MemoryReadItem>,
}

/// Why one read of a batch failed.
#[derive(Clone, Copy, Debug, PartialEq, Eq, Structural)]
pub enum MemoryItemErrorCode {
    InvalidAddress,
    InvalidSize,
    ReadFailed,
}

/// A failed read of a batch.
#[derive(Debug)]
pub struct MemoryItemError {
    pub code: MemoryItemErrorCode,
    pub message: String,
}

/// The outcome of one read of a batch.
#[derive(Debug)]
pub struct MemoryReadItemResult {
    pub address: String,
    pub requested_size: usize,
    pub bytes: Option<Vec<u8>>,
    pub error: Option<MemoryItemError>,
}

/// The outcomes of a batch, in request order.
#[derive(Debug)]
pub struct MemoryBatchReadResponse {
    pub session_id: ProcessSessionId,
    pub results: Vec<MemoryReadItemResult>,
}

/// Order of the bytes of a value in memory.
#[derive(Clone, Copy, Debug, PartialEq, Eq, Structural)]
pub enum ByteOrder {
    LittleEndian,
    BigEndian,
}

/// The type of a value in memory.
#[derive(Clone, Copy, Debug, PartialEq, Eq, Structural)]
pub enum MemoryValueType {
    U8,
    I32,
    U32,
    U64,
    F32,
    F64,
}

impl MemoryValueType {
    /// How many bytes a value of this type takes.
    pub open spec fn width(self) -> usize {
        match self {
            MemoryValueType::U8 => 1,
            MemoryValueType::I32 | MemoryValueType::U32 | MemoryValueType::F32 => 4,
            MemoryValueType::U64 | MemoryValueType::F64 => 8,
        }
    }

    /// How many bytes a value of this type takes.
    pub fn size(self) -> (size: usize)
        ensures
            size == self.width(),
    {
        match self {
            MemoryValueType::U8 => 1,
            MemoryValueType::I32 | MemoryValueType::U32 | MemoryValueType::F32 => 4,
            MemoryValueType::U64 | MemoryValueType::F64 => 8,
        }
    }
}

/// A decoded value. The two floating-point types are held by their bits.
#[allow(inconsistent_fields)]
#[derive(Clone, Copy, Debug, PartialEq, Eq, Structural)]
pub enum TypedMemoryValue {
    U8 { value: u8 },
    I32 { value: i32 },
    U32 { value: u32 },
    U64 { value: u64 },
    F32 { bits: u32 },
    F64 { bits: u64 },
}

/// Asks for a value at an address.
#[derive(Debug)]
pub struct TypedMemoryReadRequest {
    pub session_id: ProcessSessionId,
    pub address: String,
    pub value_type: MemoryValueType,
    pub byte_order: ByteOrder,
}

/// The value read.
#[derive(Debug)]
pub struct TypedMemoryReadResponse {
    pub session_id: ProcessSessionId,
    pub address: String,
    pub value_type: MemoryValueType,
    pub byte_order: ByteOrder,
    pub raw_bytes: Vec<u8>,
    pub value: TypedMemoryValue,
}

/// Where a scan looks.
#[derive(Debug)]
pub enum MemoryScanScope {
    Process,
    Module { name: String },
}

impl Clone for MemoryScanScope {
    fn clone(&self) -> (copy: Self)
        ensures
            copy == *self,
    {
        match self {
            MemoryScanScope::Process => MemoryScanScope::Process,
            MemoryScanScope::Module { name } => MemoryScanScope::Module { name: name.clone() },
        }
    }
}

/// Asks where a signature occurs.
#[derive(Debug)]
pub struct MemoryScanRequest {
    pub session_id: ProcessSessionId,
    pub signature: String,
    pub required: bool,
    pub unique: bool,
    pub max_matches: usize,
    pub scope: MemoryScanScope,
}

/// A region that a scan could not read.
#[derive(Debug)]
pub struct MemoryScanRegionError {
    pub base_address: String,
    pub message: String,
}

/// Where a signature occurs.
#[derive(Debug)]
pub struct MemoryScanResponse {
    pub session_id: ProcessSessionId,
    pub matches: Vec<String>,
    pub scanned_regions: usize,
    pub skipped_regions: usize,
    pub errors: Vec<MemoryScanRegionError>,
}

/// Asks for the value at the end of a chain of pointers.
#[derive(Debug)]
pub struct MemoryPointerChainRequest {
    pub session_id: ProcessSessionId,
    pub signature: String,
    pub offsets: Vec<u64>,
    pub dereference_count: usize,
    pub pointer_width: u8,
    pub byte_order: ByteOrder,
    pub value_type: MemoryValueType,
    pub scope: MemoryScanScope,
}

/// The value at the end of a chain of pointers.
#[derive(Debug)]
pub struct MemoryPointerChainResponse {
    pub session_id: ProcessSessionId,
    pub root_match: String,
    pub target_address: String,
    pub value_type: MemoryValueType,
    pub byte_order: ByteOrder,
    pub raw_bytes: Vec<u8>,
    pub value: TypedMemoryValue,
}

/// The name of a game client.
#[derive(Debug, PartialEq, Eq)]
pub struct ClientId(pub String);

impl Clone for ClientId {
    fn clone(&self) -> (copy: Self)
        ensures
            copy == *self,
    {
        ClientId(self.0.clone())
    }
}

/// A point of a window or of the screen.
#[derive(Clone, Copy, Debug, PartialEq, Eq, Structural)]
pub struct WindowPoint {
    pub x: i32,
    pub y: i32,
}

/// The size of a window's client area.
#[derive(Clone, Copy, Debug, PartialEq, Eq, Structural)]
pub struct WindowSize {
    pub width: i32,
    pub height: i32,
}

/// The outline of a window on the screen.
#[derive(Clone, Copy, Debug, PartialEq, Eq, Structural)]
pub struct WindowRectangle {
    pub left: i32,
    pub top: i32,
    pub right: i32,
    pub bottom: i32,
}

/// Whether a key goes down or up.
#[derive(Clone, Copy, Debug, PartialEq, Eq, Structural)]
pub enum KeyAction {
    Down,
    Up,
}

/// How an input message is handed to a window.
#[derive(Clone, Copy, Debug, PartialEq, Eq, Structural)]
pub enum MessageDelivery {
    Post,
    Send,
}

/// A mouse button.
#[derive(Clone, Copy, Debug, PartialEq, Eq, Structural)]
pub enum MouseButton {
    Left,
    Right,
}

/// A game client with its process and its place on the screen.
#[derive(Debug)]
pub struct ClientDescriptor {
    pub client_id: ClientId,
    pub process: ProcessDescriptor,
    pub is_foreground: bool,
    pub screen_order: usize,
}

/// The game clients in the order in which their windows were found.
#[derive(Debug)]
pub struct ListClientsResponse {
    pub clients: Vec<ClientDescriptor>,
}

/// Asks for bytes to be written.
#[derive(Debug)]
pub struct MemoryWriteRequest {
    pub session_id: ProcessSessionId,
    pub address: String,
    pub bytes: Vec<u8>,
}

/// Bytes were written.
#[derive(Debug)]
pub struct MemoryWriteResponse {
    pub session_id: ProcessSessionId,
    pub address: String,
    pub bytes_written: usize,
}

/// Asks for memory in another process.
#[derive(Debug)]
pub struct MemoryAllocateRequest {
    pub session_id: ProcessSessionId,
    pub size: usize,
    pub protection: MemoryProtection,
}

/// Memory was allocated.
#[derive(Debug)]
pub struct MemoryAllocationResponse {
    pub session_id: ProcessSessionId,
    pub allocation_id: String,
    pub address: String,
    pub size: usize,
    pub protection: MemoryProtection,
}

/// Asks for an allocation to be released.
#[derive(Debug)]
pub struct MemoryFreeRequest {
    pub session_id: ProcessSessionId,
    pub allocation_id: String,
}

/// An allocation was released.
#[derive(Debug)]
pub struct MemoryFreeResponse {
    pub session_id: ProcessSessionId,
    pub allocation_id: String,
    pub address: String,
    pub size: usize,
}

/// Asks for other access rights of a range.
#[derive(Debug)]
pub struct MemoryProtectRequest {
    pub session_id: ProcessSessionId,
    pub address: String,
    pub size: usize,
    pub protection: MemoryProtection,
}

/// The access rights of a range were changed.
#[derive(Debug)]
pub struct MemoryProtectResponse {
    pub session_id: ProcessSessionId,
    pub address: String,
    pub size: usize,
    pub previous_protection: MemoryProtection,
    pub protection: MemoryProtection,
}

/// Asks for a thread in another process.
#[derive(Debug)]
pub struct RemoteThreadStartRequest {
    pub session_id: ProcessSessionId,
    pub start_address: String,
    pub parameter: Option<String>,
    pub wait_timeout_ms: u32,
}

/// A thread was started and waited for.
#[derive(Debug)]
pub struct RemoteThreadStartResponse {
    pub session_id: ProcessSessionId,
    pub thread_id: u32,
    pub completed: bool,
    pub exit_code: Option<u32>,
}

/// Asks for a hook on the one place where a signature occurs.
#[derive(Debug)]
pub struct HookActivateRequest {
    pub session_id: ProcessSessionId,
    pub hook_key: String,
    pub signature: String,
    pub scope: MemoryScanScope,
    pub payload: Vec<u8>,
}

/// A hook is in place.
#[derive(Debug)]
pub struct HookActivateResponse {
    pub session_id: ProcessSessionId,
    pub hook_key: String,
    pub target_address: String,
    pub allocation_id: String,
    pub allocation_address: String,
    pub active: bool,
}

/// Asks for a hook to be taken out.
#[derive(Debug)]
pub struct HookDeactivateRequest {
    pub session_id: ProcessSessionId,
    pub hook_key: String,
}

/// A hook was taken out, or was not there.
#[derive(Debug)]
pub struct HookDeactivateResponse {
    pub session_id: ProcessSessionId,
    pub hook_key: String,
    pub deactivated: bool,
    pub allocation_released: bool,
}

/// Asks for a hook's lease to be renewed.
#[derive(Debug)]
pub struct HookHeartbeatRequest {
    pub session_id: ProcessSessionId,
    pub hook_key: String,
}

/// A hook's lease was renewed.
#[derive(Debug)]
pub struct HookHeartbeatResponse {
    pub session_id: ProcessSessionId,
    pub hook_key: String,
    pub active: bool,
}

/// The hooks that give access to the state of the game.
#[derive(Clone, Copy, Debug, PartialEq, Eq, Structural)]
pub enum CoreHook {
    Client,
    Player,
    Quest,
    PlayerStat,
    RootWindow,
    RenderContext,
}

/// All core hooks, in the order in which they are activated.
pub open spec fn core_hooks() -> Seq<CoreHook> {
    seq![
        CoreHook::Client,
        CoreHook::Player,
        CoreHook::Quest,
        CoreHook::PlayerStat,
        CoreHook::RootWindow,
        CoreHook::RenderContext,
    ]
}

impl CoreHook {
    /// All core hooks, in the order in which they are activated.
    pub fn all() -> (hooks: Vec<CoreHook>)
        ensures
            hooks@ == core_hooks(),
    {
        let hooks = vec![
            CoreHook::Client,
            CoreHook::Player,
            CoreHook::Quest,
            CoreHook::PlayerStat,
            CoreHook::RootWindow,
            CoreHook::RenderContext,
        ];
        proof {
            assert(hooks@ =~= core_hooks());
        }
        hooks
    }
}

/// Asks for one core hook of a session.
#[derive(Debug)]
pub struct CoreHookRequest {
    pub session_id: ProcessSessionId,
    pub hook: CoreHook,
}

/// Asks for all core hooks of a session.
#[derive(Debug)]
pub struct CoreHookSessionRequest {
    pub session_id: ProcessSessionId,
}

/// Where a core hook stands.
#[derive(Debug)]
pub struct CoreHookResponse {
    pub session_id: ProcessSessionId,
    pub hook: CoreHook,
    pub active: bool,
}

/// Where several core hooks stand.
#[derive(Debug)]
pub struct CoreHooksResponse {
    pub session_id: ProcessSessionId,
    pub hooks: Vec<CoreHookResponse>,
}

/// Whether a core hook was taken out.
#[derive(Debug)]
pub struct CoreHookDeactivateResponse {
    pub session_id: ProcessSessionId,
    pub hook: CoreHook,
    pub deactivated: bool,
}

/// The address that a core hook captured.
#[derive(Debug)]
pub struct CoreHookBaseResponse {
    pub session_id: ProcessSessionId,
    pub hook: CoreHook,
    pub base_address: String,
}

/// The hooks that movement, chat and automation rest on.
#[derive(Clone, Copy, Debug, PartialEq, Eq, Structural)]
pub enum FeatureHook {
    MovementTeleport,
    MouselessCursor,
    Chat,
    ChatSend,
    DanceGameMoves,
}

/// All feature hooks, in the order in which they are walked.
pub open spec fn feature_hooks() -> Seq<FeatureHook> {
    seq![
        FeatureHook::MovementTeleport,
        FeatureHook::MouselessCursor,
        FeatureHook::Chat,
        FeatureHook::ChatSend,
        FeatureHook::DanceGameMoves,
    ]
}

impl FeatureHook {
    /// All feature hooks, in the order in which they are walked.
    pub fn all() -> (hooks: Vec<FeatureHook>)
        ensures
            hooks@ == feature_hooks(),
    {
        let hooks = vec![
            FeatureHook::MovementTeleport,
            FeatureHook::MouselessCursor,
            FeatureHook::Chat,
            FeatureHook::ChatSend,
            FeatureHook::DanceGameMoves,
        ];
        proof {
            assert(hooks@ =~= feature_hooks());
        }
        hooks
    }
}

/// The places in a feature hook's memory that others may use.
#[derive(Clone, Copy, Debug, PartialEq, Eq, Structural)]
pub enum FeatureHookExport {
    TeleportHelper,
    MousePosition,
    ChatOwner,
    ReceiveSourceGid,
    ReceiveMessageBuffer,
    ReceiveMessageLength,
    ReceiveCounter,
    SendTrigger,
    SendStruct,
    BuddyTrigger,
    BuddyObject,
    DanceGameMoves,
}

/// Asks for one feature hook of a session.
#[derive(Debug)]
pub struct FeatureHookRequest {
    pub session_id: ProcessSessionId,
    pub hook: FeatureHook,
}

/// Asks for all feature hooks of a session.
#[derive(Debug)]
pub struct FeatureHookSessionRequest {
    pub session_id: ProcessSessionId,
}

/// Where a feature hook stands.
#[derive(Debug)]
pub struct FeatureHookResponse {
    pub session_id: ProcessSessionId,
    pub hook: FeatureHook,
    pub active: bool,
}

/// Where several feature hooks stand.
#[derive(Debug)]
pub struct FeatureHooksResponse {
    pub session_id: ProcessSessionId,
    pub hooks: Vec<FeatureHookResponse>,
}

/// Whether a feature hook was taken out.
#[derive(Debug)]
pub struct FeatureHookDeactivateResponse {
    pub session_id: ProcessSessionId,
    pub hook: FeatureHook,
    pub deactivated: bool,
}

/// Asks where a place of a feature hook is.
#[derive(Debug)]
pub struct FeatureHookExportRequest {
    pub session_id: ProcessSessionId,
    pub export: FeatureHookExport,
}

/// Where a place of a feature hook is.
#[derive(Debug)]
pub struct FeatureHookExportResponse {
    pub session_id: ProcessSessionId,
    pub export: FeatureHookExport,
    pub address: String,
}

/// Asks for the cursor that the game sees to be moved.
#[derive(Debug)]
pub struct FeatureMousePositionRequest {
    pub session_id: ProcessSessionId,
    pub x: i32,
    pub y: i32,
}

/// Asks for the player to be moved. The position is given by the bits of its
/// three coordinates.
#[derive(Debug)]
pub struct FeatureTeleportRequest {
    pub session_id: ProcessSessionId,
    pub object_address: String,
    pub position: [u32; 3],
    pub wait_on_inuse: bool,
    pub wait_timeout_ms: u32,
    pub purge_after_timeout: bool,
    pub purge_timeout_ms: u32,
}

/// Asks for a chat message to be sent.
#[derive(Debug)]
pub struct FeatureChatSendRequest {
    pub session_id: ProcessSessionId,
    pub message: String,
    pub target_gid: u64,
}

/// Asks for a friend request to be sent.
#[derive(Debug)]
pub struct FeatureBuddyAddRequest {
    pub session_id: ProcessSessionId,
    pub target_gid: u64,
}

/// Whether an action of a feature hook was completed.
#[derive(Debug)]
pub struct FeatureActionResponse {
    pub session_id: ProcessSessionId,
    pub completed: bool,
}

/// Who an agent is.
#[derive(Debug)]
pub struct AgentIdentity {
    pub instance_id: String,
    pub version: String,
    pub build_id: String,
    pub process_id: u32,
}

impl Clone for AgentIdentity {
    fn clone(&self) -> (copy: Self)
        ensures
            copy == *self,
    {
        AgentIdentity {
            instance_id: self.instance_id.clone(),
            version: self.version.clone(),
            build_id: self.build_id.clone(),
            process_id: self.process_id,
        }
    }
}

/// Asks for a game to be started.
#[derive(Debug)]
pub struct GameLaunchRequest {
    pub game_path: String,
    pub login_server: String,
    pub timeout_ms: u32,
}

/// The game that was started.
#[derive(Debug)]
pub struct GameLaunchResponse {
    pub launched_process_id: u32,
    pub client: ClientDescriptor,
}

/// Asks for a game to be ended.
#[derive(Debug)]
pub struct GameTerminateRequest {
    pub client_id: ClientId,
    pub timeout_ms: u32,
}

/// The game that was ended.
#[derive(Debug)]
pub struct GameTerminateResponse {
    pub client_id: ClientId,
    pub process_id: u32,
    pub terminated: bool,
}

/// Asks for a login with an account that was handed over under a name of its own. The
/// account itself comes sealed and is opened before the login.
#[derive(Debug)]
pub struct GameLoginRequest {
    pub client_id: ClientId,
    pub agent_instance_id: String,
    pub transfer_id: String,
    pub timeout_ms: u32,
}

/// A login that was completed.
#[derive(Debug)]
pub struct GameLoginResponse {
    pub client_id: ClientId,
    pub authenticated: bool,
    pub cleanup_complete: bool,
}

/// What coordinates are relative to.
#[derive(Clone, Copy, Debug, PartialEq, Eq, Structural)]
pub enum CoordinateSpace {
    Client,
    Screen,
}

/// Asks for the window of a client.
#[derive(Debug)]
pub struct ClientWindowRequest {
    pub client_id: ClientId,
}

/// The window of a client as it stands.
#[derive(Debug)]
pub struct ClientWindowStateResponse {
    pub client_id: ClientId,
    pub title: String,
    pub is_foreground: bool,
    pub rectangle: WindowRectangle,
    pub client_origin: WindowPoint,
    pub client_size: WindowSize,
}

/// Whether the window of a client is in front now.
#[derive(Debug)]
pub struct ClientWindowFocusResponse {
    pub client_id: ClientId,
    pub is_foreground: bool,
}

/// Asks for the window of a client to be renamed.
#[derive(Debug)]
pub struct ClientWindowSetTitleRequest {
    pub client_id: ClientId,
    pub title: String,
}

/// The title that the window of a client has now.
#[derive(Debug)]
pub struct ClientWindowSetTitleResponse {
    pub client_id: ClientId,
    pub title: String,
}

/// Asks where a point of a window is on the screen.
#[derive(Debug)]
pub struct ClientToScreenRequest {
    pub client_id: ClientId,
    pub point: WindowPoint,
}

/// Where a point of a window is on the screen.
#[derive(Debug)]
pub struct ClientToScreenResponse {
    pub client_id: ClientId,
    pub point: WindowPoint,
}

/// Asks for a key to go down or up.
#[derive(Debug)]
pub struct ClientKeyEventRequest {
    pub client_id: ClientId,
    pub virtual_key: u16,
    pub action: KeyAction,
    pub delivery: MessageDelivery,
}

/// Asks for a key to be held for a while.
#[derive(Debug)]
pub struct ClientTimedKeyRequest {
    pub client_id: ClientId,
    pub virtual_key: u16,
    pub duration_ms: u32,
    pub delivery: MessageDelivery,
}

/// Asks for a key to be struck while others are held.
#[derive(Debug)]
pub struct ClientKeyCombinationRequest {
    pub client_id: ClientId,
    pub modifiers: Vec<u16>,
    pub virtual_key: u16,
    pub delivery: MessageDelivery,
}

/// Asks for the mouse to be moved.
#[derive(Debug)]
pub struct ClientMouseMoveRequest {
    pub client_id: ClientId,
    pub point: WindowPoint,
    pub coordinate_space: CoordinateSpace,
    pub delivery: MessageDelivery,
}

/// Asks for a mouse button to be pressed and let go.
#[derive(Debug)]
pub struct ClientMouseClickRequest {
    pub client_id: ClientId,
    pub point: WindowPoint,
    pub coordinate_space: CoordinateSpace,
    pub button: MouseButton,
    pub hold_ms: u32,
    pub delivery: MessageDelivery,
}

/// Input was delivered.
#[derive(Debug)]
pub struct ClientInputResponse {
    pub client_id: ClientId,
    pub delivered: bool,
}

/// Whether an agent takes work.
#[derive(Clone, Copy, Debug, PartialEq, Eq, Structural)]
pub enum AgentState {
    Ready,
    ShuttingDown,
}

/// How an agent is.
#[derive(Debug)]
pub struct AgentHealth {
    pub identity: AgentIdentity,
    pub state: AgentState,
    pub sessions: SessionDiagnostics,
}

/// Asks an agent to end.
#[derive(Debug)]
pub struct AgentShutdownRequest {
    pub reason: String,
}

/// An agent that is about to end.
#[derive(Debug)]
pub struct AgentShutdownResponse {
    pub identity: AgentIdentity,
    pub state: AgentState,
    pub reason: String,
}

/// Asks for a game to be inspected.
#[derive(Debug)]
pub struct ProbeRequest {
    pub target_process: String,
    pub target_module: String,
}

}
