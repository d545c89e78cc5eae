//! Detours that the agent owns. A hook belongs to the mutation session that made it,
//! is undone through that session alone, and keeps its allocation until the original
//! bytes are restored. A feature hook, which changes more than one place, keeps it until
//! nothing runs in it besides.

use vstd::prelude::*;
use vstd::slice::*;
use vstd::std_specs::convert::FromSpecImpl;
use vstd::string::*;
use vstd::utf8::encode_utf8;

use crate::backend::{MutationBackend, SuspendedProcess};
use crate::codec::{
    copy_bytes, filled, le_bytes, le_value, lemma_le_bytes_len, lemma_pow256, push_all, push_u64,
    same_bytes, written_value_reads_back,
};
use crate::feature_template::{patches, HookPatch, Patch, Template};
use crate::game_login::{relative_detour, relative_jump};
use crate::memory::{parse_signature, MemoryApiError};
use crate::mutation::{is_zero_counter, MutationApiError, MutationState, Owned};
use crate::ordered::{
    ascending_lists_agree, ascends, in_order, lemma_nothing_in_order, TextMap,
};
use crate::payload::{
    build_payload, counter_offset, find_counter, payload, payload_len, PayloadKind,
};
use crate::process::ProcessSessionRegistry;
use crate::protocol::{
    HookActivateRequest, HookActivateResponse, HookDeactivateRequest, HookDeactivateResponse,
    HookHeartbeatRequest, HookHeartbeatResponse, MemoryProtection, MemoryScanScope,
    ProcessSessionId, MAX_HOOK_PAYLOAD_BYTES, MAX_SIGNATURE_BYTES, MIN_HOOK_SIGNATURE_BYTES,
};
use crate::rpc::{code_name, failure, Failure, RpcError, RpcErrorCode};
use crate::search::signature_value;
use crate::signature::{matches_at, signature_matches};
use crate::steps::{
    answered_looks_found_nothing, completed, fault_of, faulted, follows, keeps_session,
    lemma_follows_step, lemma_freed, lemma_keeps_session, ran, scope_name, step_allocate,
    step_flush, step_free, step_made, step_protect, step_read, step_scan, step_vacate, step_write,
    world_after, world_at, Op, Reply, Step, World,
};
use crate::text::{
    address_text, blank, dec_text, format_address, format_decimal, is_blank, join2, join3, join4,
    join5, join_all, joined, quoted, quoted_text, same_text, texts,
};
use crate::x64::{
    check_relocatable, first_fault, shortest_relocatable, shortest_span, RelocationFault,
};

verus! {

/// How long a hook stays in place without a heartbeat, in milliseconds.
pub const HOOK_LEASE_MS: u64 = 30_000;

/// The length of an absolute jump.
pub const ABSOLUTE_JUMP_BYTES: usize = 14;

/// The length of a relative jump.
pub const RELATIVE_JUMP_BYTES: usize = 5;

/// The longest hook key, in bytes.
pub const MAX_HOOK_KEY_BYTES: usize = 128;

/// What a hook was asked to be.
#[verifier::ext_equal]
pub ghost struct HookPlan {
    pub signature: Seq<char>,
    pub scope: Option<Seq<char>>,
    pub payload: Seq<u8>,
    pub target_offset: usize,
    pub overwrite_size: Option<usize>,
}

/// A hook that is owned.
#[verifier::ext_equal]
pub ghost struct Hooked {
    pub plan: HookPlan,
    pub target: usize,
    pub original: Seq<u8>,
    pub allocation: Seq<char>,
    pub at: usize,
    /// The access rights of the target before it was opened for writing.
    pub protection: Option<MemoryProtection>,
    /// The target may hold other bytes than its original ones.
    pub modified: bool,
    pub complete: bool,
    pub deadline: u64,
    /// The bytes that were opened for writing besides, in the order in which they were.
    pub changes: Seq<Changed>,
    /// What a feature hook keeps in its allocation, once anything leads there.
    pub feature: Option<Extra>,
}

/// Bytes that were opened for writing, and how they were.
#[verifier::ext_equal]
pub ghost struct Changed {
    pub address: usize,
    pub original: Seq<u8>,
    pub previous: MemoryProtection,
}

/// What a feature hook keeps in its allocation, and the patches that belong to it.
#[verifier::ext_equal]
pub ghost struct Extra {
    pub kind: PayloadKind,
    pub patches: Seq<Patch>,
    pub actions: Option<(usize, usize)>,
    pub size: usize,
}

/// The hooks that are owned, by session and key.
pub type Hooks = Map<(Seq<char>, Seq<char>), Hooked>;

struct HookSpec {
    signature: String,
    scope: MemoryScanScope,
    payload: Vec<u8>,
    target_offset: usize,
    overwrite_size: Option<usize>,
}

fn same_scope(a: &MemoryScanScope, b: &MemoryScanScope) -> (same: bool)
    ensures
        same == (scope_name(*a) == scope_name(*b)),
{
    match (a, b) {
        (MemoryScanScope::Process, MemoryScanScope::Process) => true,
        (MemoryScanScope::Module { name: x }, MemoryScanScope::Module { name: y }) => same_text(
            x.as_str(),
            y.as_str(),
        ),
        _ => false,
    }
}

impl HookSpec {
    spec fn plan(&self) -> HookPlan {
        HookPlan {
            signature: self.signature@,
            scope: scope_name(self.scope),
            payload: self.payload@,
            target_offset: self.target_offset,
            overwrite_size: self.overwrite_size,
        }
    }

    fn same(&self, other: &HookSpec) -> (same: bool)
        ensures
            same == (self.plan() == other.plan()),
    {
        let sizes = match (self.overwrite_size, other.overwrite_size) {
            (Some(a), Some(b)) => a == b,
            (None, None) => true,
            _ => false,
        };
        same_text(self.signature.as_str(), other.signature.as_str()) && same_scope(
            &self.scope,
            &other.scope,
        ) && same_bytes(self.payload.as_slice(), other.payload.as_slice()) && self.target_offset
            == other.target_offset && sizes
    }
}

/// Bytes that were opened for writing, and how they were.
struct OwnedChange {
    address: usize,
    original: Vec<u8>,
    previous: MemoryProtection,
}

impl OwnedChange {
    spec fn changed(&self) -> Changed {
        Changed { address: self.address, original: self.original@, previous: self.previous }
    }
}

spec fn changed_of(list: Seq<OwnedChange>) -> Seq<Changed> {
    list.map_values(|change: OwnedChange| change.changed())
}

/// What a feature hook keeps in its allocation, and the patches that belong to it.
#[derive(Debug)]
pub struct FeatureSite {
    pub kind: PayloadKind,
    pub patches: Vec<HookPatch>,
    pub actions: Option<(usize, usize)>,
    pub size: usize,
}

impl View for FeatureSite {
    type V = Extra;

    open spec fn view(&self) -> Extra {
        Extra {
            kind: self.kind,
            patches: patches(self.patches@),
            actions: self.actions,
            size: self.size,
        }
    }
}

struct HookRecord {
    spec: HookSpec,
    target_address: usize,
    original_bytes: Vec<u8>,
    allocation_id: String,
    allocation_address: usize,
    original_protection: Option<MemoryProtection>,
    target_may_be_modified: bool,
    activation_complete: bool,
    lease_deadline: u64,
    changes: Vec<OwnedChange>,
    feature: Option<FeatureSite>,
}

impl HookRecord {
    spec fn hooked(&self) -> Hooked {
        Hooked {
            plan: self.spec.plan(),
            target: self.target_address,
            original: self.original_bytes@,
            allocation: self.allocation_id@,
            at: self.allocation_address,
            protection: self.original_protection,
            modified: self.target_may_be_modified,
            complete: self.activation_complete,
            deadline: self.lease_deadline,
            changes: changed_of(self.changes@),
            feature: match self.feature {
                Some(site) => Some(site@),
                None => None,
            },
        }
    }
}

/// The hooks of all sessions.
pub struct HookState {
    sessions: TextMap<TextMap<HookRecord>>,
}

impl View for HookState {
    type V = Hooks;

    closed spec fn view(&self) -> Hooks {
        Map::new(
            |place: (Seq<char>, Seq<char>)|
                self.sessions@.dom().contains(place.0) && self.sessions@[place.0]@.dom().contains(
                    place.1,
                ),
            |place: (Seq<char>, Seq<char>)| self.sessions@[place.0]@[place.1].hooked(),
        )
    }
}

/// A target that may have been modified has known access rights. What a feature hook
/// keeps lies inside the address space, and its actions are among its patches.
pub open spec fn recoverable(hooked: Hooked) -> bool {
    &&& hooked.modified ==> hooked.protection is Some
    &&& hooked.feature matches Some(extra) ==> {
        &&& hooked.at + payload_len(extra.kind) <= usize::MAX
        &&& extra.actions matches Some((first, second)) ==> first < extra.patches.len() && second
            < extra.patches.len()
    }
}

/// The keys of a session's hooks.
pub open spec fn keys_of(hooks: Hooks, id: Seq<char>) -> Set<Seq<char>> {
    Set::new(|key: Seq<char>| hooks.dom().contains((id, key)))
}

impl Default for HookState {
    fn default() -> (state: Self)
        ensures
            state.wf(),
            state@ == Map::<(Seq<char>, Seq<char>), Hooked>::empty(),
    {
        let state = HookState { sessions: TextMap::new() };
        proof {
            assert(state@ =~= Map::empty());
        }
        state
    }
}

impl HookState {
    /// Every hook can be undone.
    pub closed spec fn wf(&self) -> bool {
        &&& self.sessions.wf()
        &&& forall|id: Seq<char>| #[trigger]
            self.sessions@.dom().contains(id) ==> self.sessions@[id].wf()
        &&& forall|place: (Seq<char>, Seq<char>)| #[trigger]
            self@.dom().contains(place) ==> recoverable(self@[place])
    }

    /// A hook that may have modified its target can be undone.
    pub proof fn changed_sites_can_be_undone(&self, id: Seq<char>, key: Seq<char>)
        requires
            self.wf(),
            self@.dom().contains((id, key)),
        ensures
            recoverable(self@[(id, key)]),
    {
    }

    /// How many hooks a session owns.
    pub fn tracked_count(&self, session_id: &ProcessSessionId) -> (count: usize)
        requires
            self.wf(),
        ensures
            count == keys_of(self@, session_id.0@).len(),
    {
        match self.sessions.get(session_id.0.as_str()) {
            Some(records) => {
                proof {
                    records.lemma_keys();
                    assert(keys_of(self@, session_id.0@) =~= records@.dom());
                }
                records.len()
            },
            None => {
                proof {
                    assert(keys_of(self@, session_id.0@) =~= Set::empty());
                }
                0
            },
        }
    }

    fn get(&self, session_id: &ProcessSessionId, hook_key: &str) -> (found: Option<&HookRecord>)
        requires
            self.wf(),
        ensures
            found is Some <==> self@.dom().contains((session_id.0@, hook_key@)),
            found matches Some(record) ==> record.hooked() == self@[(session_id.0@, hook_key@)]
                && recoverable(record.hooked()),
    {
        match self.sessions.get(session_id.0.as_str()) {
            Some(records) => {
                let found = records.get(hook_key);
                proof {
                    if found is Some {
                        assert(self@.dom().contains((session_id.0@, hook_key@)));
                    }
                }
                found
            },
            None => None,
        }
    }

    fn take(&mut self, session_id: &ProcessSessionId, hook_key: &str) -> (taken: Option<HookRecord>)
        requires
            old(self).wf(),
        ensures
            final(self).wf(),
            final(self)@ == old(self)@.remove((session_id.0@, hook_key@)),
            taken is Some <==> old(self)@.dom().contains((session_id.0@, hook_key@)),
            taken matches Some(record) ==> record.hooked() == old(self)@[(
                session_id.0@,
                hook_key@,
            )] && recoverable(record.hooked()),
    {
        let ghost before = *self;
        let ghost place = (session_id.0@, hook_key@);
        match self.sessions.remove(session_id.0.as_str()) {
            Some(records) => {
                let mut records = records;
                let ghost held = records;
                let taken = records.remove(hook_key);
                let left = records.len();
                proof {
                    records.lemma_keys();
                }
                if left > 0 {
                    self.sessions.put(session_id.0.clone(), records);
                } else {
                    proof {
                        assert(records@.dom() =~= Set::empty());
                    }
                }
                proof {
                    if taken is Some {
                        assert(before@.dom().contains(place));
                    }
                    assert forall|p: (Seq<char>, Seq<char>)| #[trigger]
                        before@.dom().contains(p) && p != place implies self@.dom().contains(p)
                        && self@[p] == before@[p] by {
                        if p.0 == place.0 {
                            assert(records@.dom().contains(p.1));
                        }
                    }
                    assert forall|p: (Seq<char>, Seq<char>)| #[trigger]
                        self@.dom().contains(p) implies before@.dom().contains(p) && p
                        != place by {
                        if p.0 == place.0 {
                            assert(records@.dom().contains(p.1));
                        }
                    }
                    assert(self@ =~= before@.remove(place));
                    assert forall|p: (Seq<char>, Seq<char>)| #[trigger]
                        self@.dom().contains(p) implies recoverable(self@[p]) by {
                        assert(before@.dom().contains(p));
                    }
                }
                taken
            },
            None => {
                proof {
                    assert(self@ =~= before@.remove(place));
                    assert forall|p: (Seq<char>, Seq<char>)| #[trigger]
                        self@.dom().contains(p) implies recoverable(self@[p]) by {
                        assert(before@.dom().contains(p));
                    }
                }
                None
            },
        }
    }

    fn insert(&mut self, session_id: &ProcessSessionId, hook_key: &str, record: HookRecord)
        requires
            old(self).wf(),
            recoverable(record.hooked()),
        ensures
            final(self).wf(),
            final(self)@ == old(self)@.insert((session_id.0@, hook_key@), record.hooked()),
    {
        let ghost before = *self;
        let ghost place = (session_id.0@, hook_key@);
        let ghost hooked = record.hooked();
        let mut records = match self.sessions.remove(session_id.0.as_str()) {
            Some(records) => records,
            None => TextMap::new(),
        };
        records.put(hook_key.to_owned(), record);
        self.sessions.put(session_id.0.clone(), records);
        proof {
            assert(self@ =~= before@.insert(place, hooked));
            assert forall|p: (Seq<char>, Seq<char>)| #[trigger]
                self@.dom().contains(p) implies recoverable(self@[p]) by {
                if p != place {
                    assert(before@.dom().contains(p));
                }
            }
        }
    }

    /// Where a complete hook's allocation is.
    pub fn allocation_address(&self, session_id: &ProcessSessionId, hook_key: &str) -> (address:
        Option<usize>)
        requires
            self.wf(),
        ensures
            address == placed_at(self@, session_id.0@, hook_key@),
    {
        match self.get(session_id, hook_key) {
            Some(record) => if record.activation_complete {
                Some(record.allocation_address)
            } else {
                None
            },
            None => None,
        }
    }

    /// Whether a session owns a hook under a key, complete or not.
    pub fn tracks(&self, session_id: &ProcessSessionId, hook_key: &str) -> (yes: bool)
        requires
            self.wf(),
        ensures
            yes == self@.dom().contains((session_id.0@, hook_key@)),
    {
        self.get(session_id, hook_key).is_some()
    }

    /// What a complete feature hook keeps in its allocation, and where that is.
    pub fn feature_site(&self, session_id: &ProcessSessionId, hook_key: &str) -> (found: Option<
        (usize, &FeatureSite),
    >)
        requires
            self.wf(),
        ensures
            match found {
                Some((at, site)) => {
                    let place = (session_id.0@, hook_key@);
                    &&& self@.dom().contains(place)
                    &&& self@[place].complete
                    &&& self@[place].at == at
                    &&& self@[place].feature == Some(site@)
                    &&& recoverable(self@[place])
                },
                None => placed_at(self@, session_id.0@, hook_key@) is None
                    || self@[(session_id.0@, hook_key@)].feature is None,
            },
    {
        match self.get(session_id, hook_key) {
            Some(record) => match &record.feature {
                Some(site) => if record.activation_complete {
                    Some((record.allocation_address, site))
                } else {
                    None
                },
                None => None,
            },
            None => None,
        }
    }

    /// Where a complete feature hook counts the calls into its allocation.
    pub fn quiescence_address(&self, session_id: &ProcessSessionId, hook_key: &str) -> (address:
        Option<usize>)
        requires
            self.wf(),
        ensures
            address == counter_at(self@, session_id.0@, hook_key@),
    {
        match self.feature_site(session_id, hook_key) {
            Some((at, site)) => Some(at + find_counter(site.kind)),
            None => None,
        }
    }

    fn keys(&self, session_id: &ProcessSessionId) -> (keys: Vec<String>)
        requires
            self.wf(),
        ensures
            texts(keys@) == in_order(keys_of(self@, session_id.0@)),
            texts(keys@).to_set() == keys_of(self@, session_id.0@),
            texts(keys@).no_duplicates(),
    {
        let mut keys: Vec<String> = Vec::new();
        match self.sessions.get(session_id.0.as_str()) {
            Some(records) => {
                let mut i: usize = 0;
                proof {
                    assert(texts(keys@) =~= records.keys().take(0));
                }
                while i < records.len()
                    invariant
                        i <= records.keys().len(),
                        texts(keys@) == records.keys().take(i as int),
                    decreases records.keys().len() - i,
                {
                    let key = records.key_at(i).clone();
                    let ghost before = keys@;
                    keys.push(key);
                    proof {
                        assert(texts(keys@) =~= texts(before).push(key@));
                        assert(records.keys().take(i + 1) =~= records.keys().take(i as int).push(
                            key@,
                        ));
                    }
                    i += 1;
                }
                proof {
                    records.lemma_keys();
                    assert(records.keys().take(i as int) =~= records.keys());
                    assert(keys_of(self@, session_id.0@) =~= records@.dom());
                    assert(texts(keys@).to_set() =~= records@.dom());
                }
            },
            None => {
                proof {
                    assert(keys_of(self@, session_id.0@) =~= Set::empty());
                    lemma_nothing_in_order();
                    assert(texts(keys@) =~= Seq::empty());
                    assert(texts(keys@).to_set() =~= Set::empty());
                }
            },
        }
        keys
    }
}

/// Where a complete hook's allocation is.
pub open spec fn placed_at(hooks: Hooks, id: Seq<char>, key: Seq<char>) -> Option<usize> {
    if hooks.dom().contains((id, key)) && hooks[(id, key)].complete {
        Some(hooks[(id, key)].at)
    } else {
        None
    }
}

/// Where a complete feature hook counts the calls into its allocation.
pub open spec fn counter_at(hooks: Hooks, id: Seq<char>, key: Seq<char>) -> Option<usize> {
    match placed_at(hooks, id, key) {
        None => None,
        Some(at) => match hooks[(id, key)].feature {
            None => None,
            Some(extra) => Some((at + counter_offset(extra.kind)) as usize),
        },
    }
}

/// A failed request on hooks.
#[derive(Debug)]
pub enum HookApiError {
    Memory(MemoryApiError),
    Mutation(MutationApiError),
    Request { code: RpcErrorCode, message: String },
}

/// What a failure says, and how it is quoted in another one.
pub ghost struct Trouble {
    pub fault: Failure,
    pub said: Seq<char>,
}

impl View for HookApiError {
    type V = Failure;

    open spec fn view(&self) -> Failure {
        match self {
            HookApiError::Memory(error) => error@,
            HookApiError::Mutation(error) => error@,
            HookApiError::Request { code, message } => failure(*code, message@),
        }
    }
}

impl From<MemoryApiError> for HookApiError {
    fn from(error: MemoryApiError) -> (wrapped: Self) {
        HookApiError::Memory(error)
    }
}

impl FromSpecImpl<MemoryApiError> for HookApiError {
    open spec fn obeys_from_spec() -> bool {
        true
    }

    open spec fn from_spec(error: MemoryApiError) -> Self {
        HookApiError::Memory(error)
    }
}

impl From<MutationApiError> for HookApiError {
    fn from(error: MutationApiError) -> (wrapped: Self) {
        HookApiError::Mutation(error)
    }
}

impl FromSpecImpl<MutationApiError> for HookApiError {
    open spec fn obeys_from_spec() -> bool {
        true
    }

    open spec fn from_spec(error: MutationApiError) -> Self {
        HookApiError::Mutation(error)
    }
}

impl HookApiError {
    /// How the error is quoted in another one.
    pub open spec fn text(&self) -> Seq<char> {
        match self {
            HookApiError::Memory(error) => error.text(),
            HookApiError::Mutation(error) => error.text(),
            HookApiError::Request { code, message } => message@,
        }
    }

    /// The error and how it is quoted.
    pub open spec fn trouble(&self) -> Trouble {
        Trouble { fault: self@, said: self.text() }
    }

    /// An error of the request itself.
    pub fn request(code: RpcErrorCode, message: String) -> (error: Self)
        ensures
            error@ == failure(code, message@),
            error.text() == message@,
    {
        HookApiError::Request { code, message }
    }

    /// The error as the answer to one request.
    pub fn into_rpc_error(self, request_id: u64, operation: &str) -> (error: RpcError)
        ensures
            error.answers(self@, request_id, operation@),
            error.native_context is None,
    {
        match self {
            HookApiError::Memory(error) => error.into_rpc_error(request_id, operation),
            HookApiError::Mutation(error) => error.into_rpc_error(request_id, operation),
            HookApiError::Request { code, message } => RpcError::new(
                code,
                message,
                request_id,
                operation,
                None,
            ),
        }
    }

    /// The error in debug form.
    pub open spec fn debug_text(&self) -> Seq<char> {
        match self {
            HookApiError::Memory(error) => "Memory("@ + error.text() + ")"@,
            HookApiError::Mutation(error) => "Mutation("@ + error.text() + ")"@,
            HookApiError::Request { code, message } => "Request { code: "@ + code_name(*code)
                + ", message: "@ + quoted_text(message@) + " }"@,
        }
    }

    /// Writes the error in debug form.
    pub fn describe(&self) -> (text: String)
        ensures
            text@ == self.debug_text(),
    {
        match self {
            HookApiError::Memory(error) => {
                let shown = error.describe();
                join3("Memory(", shown.as_str(), ")")
            },
            HookApiError::Mutation(error) => {
                let shown = error.describe();
                join3("Mutation(", shown.as_str(), ")")
            },
            HookApiError::Request { code, message } => {
                let shown = quoted(message.as_str());
                join5("Request { code: ", code.name(), ", message: ", shown.as_str(), " }")
            },
        }
    }

    fn summary(&self) -> (text: String)
        ensures
            text@ == self.text(),
    {
        match self {
            HookApiError::Memory(error) => error.describe(),
            HookApiError::Mutation(error) => error.describe(),
            HookApiError::Request { code: _, message } => message.clone(),
        }
    }
}

/// An absolute jump, padded with no-operations to a span.
pub open spec fn detour(destination: usize, span: int) -> Seq<u8> {
    seq![0xffu8, 0x25, 0, 0, 0, 0] + le_bytes(destination as nat, 8) + Seq::new(
        (span - ABSOLUTE_JUMP_BYTES) as nat,
        |i: int| 0x90u8,
    )
}

/// A payload, the saved instructions and a jump back.
pub open spec fn trampoline(payload: Seq<u8>, original: Seq<u8>, continuation: usize) -> Seq<u8> {
    payload + original + detour(continuation, ABSOLUTE_JUMP_BYTES as int)
}

/// Builds an absolute jump that fills a span.
pub fn build_detour(destination: usize, overwrite_len: usize) -> (bytes: Vec<u8>)
    requires
        overwrite_len >= ABSOLUTE_JUMP_BYTES,
    ensures
        bytes@ == detour(destination, overwrite_len as int),
        bytes@.len() == overwrite_len,
{
    let mut bytes: Vec<u8> = Vec::new();
    bytes.push(0xff);
    bytes.push(0x25);
    bytes.push(0);
    bytes.push(0);
    bytes.push(0);
    bytes.push(0);
    push_u64(&mut bytes, destination as u64);
    let padding = filled(0x90, overwrite_len - ABSOLUTE_JUMP_BYTES);
    push_all(&mut bytes, padding.as_slice());
    proof {
        lemma_le_bytes_len(destination as nat, 8);
        assert(bytes@ =~= detour(destination, overwrite_len as int));
    }
    bytes
}

/// Builds a trampoline.
pub fn build_trampoline(payload: &[u8], original_bytes: &[u8], continuation: usize) -> (bytes: Vec<
    u8,
>)
    requires
        payload@.len() + original_bytes@.len() + ABSOLUTE_JUMP_BYTES <= usize::MAX,
    ensures
        bytes@ == trampoline(payload@, original_bytes@, continuation),
        bytes@.len() == payload@.len() + original_bytes@.len() + ABSOLUTE_JUMP_BYTES,
{
    let mut bytes = copy_bytes(payload);
    push_all(&mut bytes, original_bytes);
    let back = build_detour(continuation, ABSOLUTE_JUMP_BYTES);
    push_all(&mut bytes, back.as_slice());
    bytes
}

/// Where a detour leads: its first fourteen bytes jump to the address that its
/// last eight of them hold, and all bytes after them do nothing.
pub proof fn detour_leads_to_its_destination(destination: usize, span: int)
    requires
        span >= ABSOLUTE_JUMP_BYTES,
    ensures
        detour(destination, span).len() == span,
        detour(destination, span).take(6) == seq![0xffu8, 0x25, 0, 0, 0, 0],
        le_value(detour(destination, span).subrange(6, 14)) == destination,
        forall|i: int| 14 <= i < span ==> #[trigger] detour(destination, span)[i] == 0x90,
{
    let code = detour(destination, span);
    lemma_le_bytes_len(destination as nat, 8);
    assert(code.take(6) =~= seq![0xffu8, 0x25, 0, 0, 0, 0]);
    assert(code.subrange(6, 14) =~= le_bytes(destination as nat, 8));
    lemma_pow256();
    written_value_reads_back(destination as nat, 8);
}

/// A trampoline runs the payload, goes on to the saved instructions, and then
/// jumps to the instruction after the overwritten ones.
pub proof fn trampoline_continues_after_the_target(
    payload: Seq<u8>,
    original: Seq<u8>,
    continuation: usize,
)
    ensures
        ({
            let code = trampoline(payload, original, continuation);
            let back = (payload.len() + original.len()) as int;
            &&& code.len() == back + ABSOLUTE_JUMP_BYTES
            &&& code.take(payload.len() as int) == payload
            &&& code.subrange(payload.len() as int, back) == original
            &&& code.subrange(back, back + 6) == seq![0xffu8, 0x25, 0, 0, 0, 0]
            &&& le_value(code.subrange(back + 6, back + 14)) == continuation
        }),
{
    let code = trampoline(payload, original, continuation);
    let back = (payload.len() + original.len()) as int;
    detour_leads_to_its_destination(continuation, 14);
    let jump = detour(continuation, 14);
    assert(code.take(payload.len() as int) =~= payload);
    assert(code.subrange(payload.len() as int, back) =~= original);
    assert(code.subrange(back, back + 6) =~= jump.take(6));
    assert(code.subrange(back + 6, back + 14) =~= jump.subrange(6, 14));
}

/// Why a hook key is refused.
pub open spec fn key_refusal(key: Seq<char>) -> Option<Failure> {
    if is_blank(key) || encode_utf8(key).len() > MAX_HOOK_KEY_BYTES {
        Some(
            failure(
                RpcErrorCode::InvalidRequest,
                "hook_key must contain 1..="@ + dec_text(MAX_HOOK_KEY_BYTES as nat)
                    + " non-whitespace bytes"@,
            ),
        )
    } else {
        None
    }
}

/// A result that succeeds where there is no fault and else fails with it.
pub open spec fn decides<T>(result: Result<T, HookApiError>, fault: Option<Failure>) -> bool {
    match result {
        Ok(_) => fault is None,
        Err(error) => fault == Some(error@),
    }
}

fn validate_hook_key(value: &str) -> (verdict: Result<(), HookApiError>)
    ensures
        decides(verdict, key_refusal(value@)),
{
    if blank(value) || value.as_bytes().len() > MAX_HOOK_KEY_BYTES {
        let most = format_decimal(MAX_HOOK_KEY_BYTES as u64);
        return Err(
            HookApiError::request(
                RpcErrorCode::InvalidRequest,
                join3("hook_key must contain 1..=", most.as_str(), " non-whitespace bytes"),
            ),
        );
    }
    Ok(())
}

/// How bytes are put back: opened for writing, written, made visible to execution,
/// and given their access rights back.
pub open spec fn restore_script(address: usize, original: Seq<u8>, previous: MemoryProtection) -> Seq<
    Op,
> {
    let address = address_text(address as nat);
    let size = original.len() as usize;
    seq![
        Op::Protect { address, size, protection: MemoryProtection::ExecuteReadWrite },
        Op::Write { address, bytes: original },
        Op::Flush { address, size },
        Op::Protect { address, size, protection: previous },
    ]
}

/// How changes are put back: the last one first.
pub open spec fn revert_script(changes: Seq<Changed>) -> Seq<Op>
    decreases changes.len(),
{
    if changes.len() == 0 {
        Seq::empty()
    } else {
        let last = changes.last();
        restore_script(last.address, last.original, last.previous) + revert_script(
            changes.drop_last(),
        )
    }
}

/// How the code of a hook is given back: its target and its other changes get their
/// original bytes back, made visible to execution, and their access rights.
pub open spec fn give_back_script(hooked: Hooked) -> Seq<Op> {
    let restore = if hooked.modified {
        restore_script(hooked.target, hooked.original, hooked.protection->Some_0)
    } else {
        Seq::empty()
    };
    restore + revert_script(hooked.changes)
}

/// How a hook is undone: its code is given back, and only after that the allocation is
/// released. That of a feature hook is released only while nothing runs in it.
pub open spec fn undo_script(hooked: Hooked) -> Seq<Op> {
    let look = match hooked.feature {
        Some(extra) => seq![
            Op::Vacate {
                at: hooked.at,
                size: extra.size,
                counter: (hooked.at + counter_offset(extra.kind)) as usize,
            },
        ],
        None => Seq::empty(),
    };
    (give_back_script(hooked) + look).push(Op::Free { name: hooked.allocation })
}

/// A script that puts bytes back from one of its steps on.
spec fn restores_at(
    script: Seq<Op>,
    from: int,
    address: usize,
    original: Seq<u8>,
    previous: MemoryProtection,
) -> bool {
    let one = restore_script(address, original, previous);
    &&& from + 4 <= script.len()
    &&& script[from] == one[0]
    &&& script[from + 1] == one[1]
    &&& script[from + 2] == one[2]
    &&& script[from + 3] == one[3]
}

spec fn reverts_at(script: Seq<Op>, from: int, change: Changed) -> bool {
    restores_at(script, from, change.address, change.original, change.previous)
}

proof fn lemma_revert_script(changes: Seq<Changed>, i: int)
    requires
        0 <= i <= changes.len(),
    ensures
        revert_script(changes).len() == 4 * changes.len(),
        i < changes.len() ==> reverts_at(
            revert_script(changes),
            4 * (changes.len() - 1 - i),
            changes[i],
        ),
    decreases changes.len(),
{
    if changes.len() > 0 {
        let rest = changes.drop_last();
        if i < rest.len() {
            lemma_revert_script(rest, i);
            assert(rest[i] == changes[i]);
        } else {
            lemma_revert_script(rest, 0);
        }
    }
}

proof fn lemma_revert_ops(changes: Seq<Changed>, j: int)
    requires
        0 <= j < revert_script(changes).len(),
    ensures
        revert_script(changes)[j] is Protect || revert_script(changes)[j] is Write
            || revert_script(changes)[j] is Flush,
    decreases changes.len(),
{
    if changes.len() > 0 && j >= 4 {
        lemma_revert_ops(changes.drop_last(), j - 4);
    }
}

spec fn target_len(hooked: Hooked) -> int {
    if hooked.modified {
        4
    } else {
        0
    }
}

spec fn look_len(hooked: Hooked) -> int {
    if hooked.feature is Some {
        1
    } else {
        0
    }
}

proof fn lemma_undo_script(hooked: Hooked)
    ensures
        give_back_script(hooked).len() == target_len(hooked) + 4 * hooked.changes.len(),
        undo_script(hooked).len() == give_back_script(hooked).len() + look_len(hooked) + 1,
        hooked.modified ==> restores_at(
            undo_script(hooked),
            0,
            hooked.target,
            hooked.original,
            hooked.protection->Some_0,
        ),
        forall|i: int|
            0 <= i < hooked.changes.len() ==> reverts_at(
                undo_script(hooked),
                target_len(hooked) + 4 * (hooked.changes.len() - 1 - i),
                #[trigger] hooked.changes[i],
            ),
        hooked.feature matches Some(extra) ==> undo_script(hooked)[give_back_script(
            hooked,
        ).len() as int] == (Op::Vacate {
            at: hooked.at,
            size: extra.size,
            counter: (hooked.at + counter_offset(extra.kind)) as usize,
        }),
        undo_script(hooked).last() == (Op::Free { name: hooked.allocation }),
{
    lemma_revert_script(hooked.changes, 0);
    assert forall|i: int| 0 <= i < hooked.changes.len() implies reverts_at(
        undo_script(hooked),
        target_len(hooked) + 4 * (hooked.changes.len() - 1 - i),
        #[trigger] hooked.changes[i],
    ) by {
        lemma_revert_script(hooked.changes, i);
        let script = revert_script(hooked.changes);
        let from = 4 * (hooked.changes.len() - 1 - i);
        let base = target_len(hooked);
        assert(undo_script(hooked)[base + from] == script[from]);
        assert(undo_script(hooked)[base + (from + 1)] == script[from + 1]);
        assert(undo_script(hooked)[base + (from + 2)] == script[from + 2]);
        assert(undo_script(hooked)[base + (from + 3)] == script[from + 3]);
    }
}

proof fn lemma_undo_frees_last(hooked: Hooked, j: int)
    requires
        0 <= j < undo_script(hooked).len(),
        undo_script(hooked)[j] is Free,
    ensures
        j == undo_script(hooked).len() - 1,
{
    lemma_undo_script(hooked);
    let base = target_len(hooked);
    if base <= j < base + 4 * hooked.changes.len() {
        lemma_revert_script(hooked.changes, 0);
        lemma_revert_ops(hooked.changes, j - base);
        assert(undo_script(hooked)[j] == revert_script(hooked.changes)[j - base]);
    }
}

proof fn lemma_undo_ops(hooked: Hooked, j: int)
    requires
        0 <= j < undo_script(hooked).len(),
    ensures
        ({
            let op = undo_script(hooked)[j];
            op is Write || op is Flush || op is Protect || op is Vacate || op is Free
        }),
{
    lemma_undo_script(hooked);
    let base = target_len(hooked);
    if base <= j < base + 4 * hooked.changes.len() {
        lemma_revert_script(hooked.changes, 0);
        lemma_revert_ops(hooked.changes, j - base);
        assert(undo_script(hooked)[j] == revert_script(hooked.changes)[j - base]);
    }
}

/// What undoing a hook does. It is owned until the last step is done.
pub open spec fn undone<B: MutationBackend>(
    backend: &B,
    place: (Seq<char>, Seq<char>),
    before: World<B::Handle, B::ThreadHandle>,
    hooks: Hooks,
    steps: Seq<Step<B::Handle, B::ThreadHandle>>,
    after: World<B::Handle, B::ThreadHandle>,
    left: Hooks,
    result: Result<(), Trouble>,
) -> bool {
    let script = undo_script(hooks[place]);
    &&& ran(backend, place.0, before, script, steps)
    &&& after == world_after(before, steps)
    &&& if completed(script, steps) {
        left == hooks.remove(place) && result == Ok::<(), Trouble>(())
    } else {
        left == hooks && result == Err::<(), Trouble>(trouble_of(steps))
    }
}

/// The failure that steps ended with.
pub open spec fn trouble_of<H, T>(steps: Seq<Step<H, T>>) -> Trouble {
    Trouble { fault: steps.last().reply->fault, said: steps.last().reply->said }
}

/// What a result without a value says.
pub open spec fn verdict(result: Result<(), HookApiError>) -> Result<(), Trouble> {
    match result {
        Ok(_) => Ok(()),
        Err(error) => Err(error.trouble()),
    }
}

fn restore_bytes<B: MutationBackend>(
    sessions: &mut ProcessSessionRegistry<B::Handle>,
    backend: &B,
    session_id: &ProcessSessionId,
    target: usize,
    original: &Vec<u8>,
    protection: MemoryProtection,
    Ghost(start): Ghost<World<B::Handle, B::ThreadHandle>>,
    Ghost(script): Ghost<Seq<Op>>,
    Ghost(before): Ghost<Seq<Step<B::Handle, B::ThreadHandle>>>,
) -> (done: (Result<(), MutationApiError>, Ghost<Seq<Step<B::Handle, B::ThreadHandle>>>))
    requires
        old(sessions).wf(),
        follows(backend, session_id.0@, start, script, before),
        !faulted(before),
        world_after(start, before) == (World { sessions: old(sessions)@, ..start }),
        restores_at(script, before.len() as int, target, original@, protection),
    ensures
        final(sessions).wf(),
        old(sessions)@.leads_to(final(sessions)@),
        follows(backend, session_id.0@, start, script, done.1@),
        world_after(start, done.1@) == (World { sessions: final(sessions)@, ..start }),
        match done.0 {
            Ok(_) => done.1@.len() == before.len() + 4 && !faulted(done.1@),
            Err(error) => faulted(done.1@) && trouble_of(done.1@) == (Trouble {
                fault: error@,
                said: error.text(),
            }),
        },
{
    let ghost id = session_id.0@;
    let ghost owned = start.owned;
    let ghost mut steps: Seq<Step<B::Handle, B::ThreadHandle>> = before;
    let size: usize = original.len();
    let address = format_address(target);
    let (answer, Ghost(step)) = step_protect(
        sessions,
        backend,
        session_id,
        address.as_str(),
        size,
        MemoryProtection::ExecuteReadWrite,
        Ghost(owned),
    );
    proof {
        lemma_follows_step(backend, id, start, script, steps, step);
        steps = steps.push(step);
    }
    if let Err(error) = answer {
        return (Err(error), Ghost(steps));
    }
    let (answer, Ghost(step)) = step_write(
        sessions,
        backend,
        session_id,
        address.as_str(),
        copy_bytes(original.as_slice()),
        Ghost(owned),
    );
    proof {
        lemma_follows_step(backend, id, start, script, steps, step);
        steps = steps.push(step);
    }
    if let Err(error) = answer {
        return (Err(error), Ghost(steps));
    }
    let (answer, Ghost(step)) = step_flush(
        sessions,
        backend,
        session_id,
        address.as_str(),
        size,
        Ghost(owned),
    );
    proof {
        lemma_follows_step(backend, id, start, script, steps, step);
        steps = steps.push(step);
    }
    if let Err(error) = answer {
        return (Err(error), Ghost(steps));
    }
    let (answer, Ghost(step)) = step_protect(
        sessions,
        backend,
        session_id,
        address.as_str(),
        size,
        protection,
        Ghost(owned),
    );
    proof {
        lemma_follows_step(backend, id, start, script, steps, step);
        steps = steps.push(step);
    }
    match answer {
        Ok(_) => (Ok(()), Ghost(steps)),
        Err(error) => (Err(error), Ghost(steps)),
    }
}

fn give_back<B: MutationBackend>(
    sessions: &mut ProcessSessionRegistry<B::Handle>,
    backend: &B,
    session_id: &ProcessSessionId,
    record: &HookRecord,
    Ghost(start): Ghost<World<B::Handle, B::ThreadHandle>>,
) -> (done: (Result<(), MutationApiError>, Ghost<Seq<Step<B::Handle, B::ThreadHandle>>>))
    requires
        old(sessions).wf(),
        start.sessions == old(sessions)@,
        recoverable(record.hooked()),
    ensures
        final(sessions).wf(),
        old(sessions)@.leads_to(final(sessions)@),
        follows(backend, session_id.0@, start, undo_script(record.hooked()), done.1@),
        world_after(start, done.1@) == (World { sessions: final(sessions)@, ..start }),
        match done.0 {
            Ok(_) => done.1@.len() == give_back_script(record.hooked()).len() && !faulted(done.1@),
            Err(error) => faulted(done.1@) && trouble_of(done.1@) == (Trouble {
                fault: error@,
                said: error.text(),
            }),
        },
{
    let ghost hooked = record.hooked();
    let ghost script = undo_script(hooked);
    let ghost id = session_id.0@;
    let ghost n = hooked.changes.len();
    let ghost mut steps: Seq<Step<B::Handle, B::ThreadHandle>> = Seq::empty();
    proof {
        lemma_undo_script(hooked);
    }
    if record.target_may_be_modified {
        let protection = match record.original_protection {
            Some(protection) => protection,
            None => {
                proof {
                    assert(false);
                }
                vstd::pervasive::unreached()
            },
        };
        let (answer, Ghost(restored)) = restore_bytes(
            sessions,
            backend,
            session_id,
            record.target_address,
            &record.original_bytes,
            protection,
            Ghost(start),
            Ghost(script),
            Ghost(steps),
        );
        proof {
            steps = restored;
        }
        if let Err(error) = answer {
            return (Err(error), Ghost(steps));
        }
    }
    let ghost base = steps.len();
    let ghost changes = hooked.changes;
    let mut i: usize = record.changes.len();
    let mut verdict: Result<(), MutationApiError> = Ok(());
    while i > 0 && verdict.is_ok()
        invariant
            i <= record.changes@.len(),
            changes == changed_of(record.changes@),
            id == session_id.0@,
            n == changes.len(),
            forall|k: int|
                0 <= k < n ==> reverts_at(
                    script,
                    base + 4 * (n - 1 - k),
                    #[trigger] changes[k],
                ),
            sessions.wf(),
            start.sessions.leads_to(sessions@),
            follows(backend, id, start, script, steps),
            match verdict {
                Ok(_) => steps.len() == base + 4 * (n - i) && !faulted(steps),
                Err(error) => faulted(steps) && trouble_of(steps) == (Trouble {
                    fault: error@,
                    said: error.text(),
                }),
            },
            world_after(start, steps) == (World { sessions: sessions@, ..start }),
        decreases i,
    {
        i -= 1;
        let change = &record.changes[i];
        proof {
            assert(changes[i as int] == change.changed());
            assert(reverts_at(script, base + 4 * (n - 1 - i), changes[i as int]));
        }
        let (answer, Ghost(restored)) = restore_bytes(
            sessions,
            backend,
            session_id,
            change.address,
            &change.original,
            change.previous,
            Ghost(start),
            Ghost(script),
            Ghost(steps),
        );
        proof {
            steps = restored;
        }
        verdict = answer;
    }
    (verdict, Ghost(steps))
}

fn cleanup_one<B: MutationBackend>(
    sessions: &mut ProcessSessionRegistry<B::Handle>,
    backend: &B,
    mutations: &mut MutationState<B::ThreadHandle>,
    hooks: &mut HookState,
    session_id: &ProcessSessionId,
    hook_key: &str,
) -> (done: (Result<(), HookApiError>, Ghost<Seq<Step<B::Handle, B::ThreadHandle>>>))
    requires
        old(sessions).wf(),
        old(mutations).wf(),
        old(hooks).wf(),
        old(hooks)@.dom().contains((session_id.0@, hook_key@)),
    ensures
        final(sessions).wf(),
        final(mutations).wf(),
        final(hooks).wf(),
        old(sessions)@.leads_to(final(sessions)@),
        undone(
            backend,
            (session_id.0@, hook_key@),
            World { sessions: old(sessions)@, owned: old(mutations)@ },
            old(hooks)@,
            done.1@,
            World { sessions: final(sessions)@, owned: final(mutations)@ },
            final(hooks)@,
            verdict(done.0),
        ),
        done.0 is Err ==> done.0->Err_0 is Mutation,
{
    let ghost start = World { sessions: sessions@, owned: mutations@ };
    let ghost place = (session_id.0@, hook_key@);
    let ghost script = undo_script(hooks@[place]);
    let record = match hooks.get(session_id, hook_key) {
        Some(record) => record,
        None => {
            proof {
                assert(false);
            }
            vstd::pervasive::unreached()
        },
    };
    proof {
        lemma_undo_script(hooks@[place]);
    }
    let (answer, Ghost(restored)) = give_back(
        sessions,
        backend,
        session_id,
        record,
        Ghost(start),
    );
    let ghost mut steps = restored;
    if let Err(error) = answer {
        return (Err(HookApiError::Mutation(error)), Ghost(steps));
    }
    if let Some(site) = &record.feature {
        let counter: usize = record.allocation_address + find_counter(site.kind);
        let (answer, Ghost(step)) = step_vacate(
            sessions,
            backend,
            session_id,
            record.allocation_address,
            site.size,
            counter,
            Ghost(start.owned),
        );
        proof {
            lemma_follows_step(backend, place.0, start, script, steps, step);
            steps = steps.push(step);
        }
        if let Err(error) = answer {
            return (Err(HookApiError::Mutation(error)), Ghost(steps));
        }
    }
    let (answer, Ghost(step)) = step_free(
        sessions,
        backend,
        mutations,
        session_id,
        record.allocation_id.as_str(),
    );
    proof {
        lemma_follows_step(backend, place.0, start, script, steps, step);
        steps = steps.push(step);
    }
    if let Err(error) = answer {
        return (Err(HookApiError::Mutation(error)), Ghost(steps));
    }
    let _ = hooks.take(session_id, hook_key);
    (Ok(()), Ghost(steps))
}

/// The place that a hook goes to and what it holds.
pub ghost struct Site {
    pub target: usize,
    pub original: Seq<u8>,
}

/// The reads that find a hook's place.
pub ghost struct Search<H, T> {
    pub scan: Step<H, T>,
    pub candidate: Step<H, T>,
    pub original: Step<H, T>,
}

/// Why code cannot be moved, as a failure.
pub open spec fn relocation_failure(fault: RelocationFault) -> Failure {
    failure(
        RpcErrorCode::InvalidRequest,
        match fault {
            RelocationFault::RelativeBranch =>
                "hook overwrite contains a relative branch or call that requires relocation"@,
            RelocationFault::RelativeConditionalBranch =>
                "hook overwrite contains a relative conditional branch that requires relocation"@,
            RelocationFault::InstructionRelative =>
                "hook overwrite contains RIP-relative memory access that requires relocation"@,
            RelocationFault::AddressRelative =>
                "hook overwrite contains address-relative memory access that requires relocation"@,
            RelocationFault::Unsupported { start } =>
                "hook overwrite contains an unsupported or incomplete x64 instruction at byte "@
                + dec_text(start as nat),
        },
    )
}

/// Reports why code cannot be moved.
pub fn relocation_error(fault: RelocationFault) -> (error: HookApiError)
    ensures
        error@ == relocation_failure(fault),
{
    let message = match fault {
        RelocationFault::RelativeBranch =>
            "hook overwrite contains a relative branch or call that requires relocation".to_owned(),
        RelocationFault::RelativeConditionalBranch =>
            "hook overwrite contains a relative conditional branch that requires relocation".to_owned(),
        RelocationFault::InstructionRelative =>
            "hook overwrite contains RIP-relative memory access that requires relocation".to_owned(),
        RelocationFault::AddressRelative =>
            "hook overwrite contains address-relative memory access that requires relocation".to_owned(),
        RelocationFault::Unsupported { start } => {
            let at = format_decimal(start as u64);
            join2(
                "hook overwrite contains an unsupported or incomplete x64 instruction at byte ",
                at.as_str(),
            )
        },
    };
    HookApiError::request(RpcErrorCode::InvalidRequest, message)
}

/// Checks that saved instructions can be copied verbatim.
pub fn validate_relocatable_x64(bytes: &[u8]) -> (verdict: Result<(), HookApiError>)
    ensures
        decides(
            verdict,
            match first_fault(bytes@, 0) {
                Some(fault) => Some(relocation_failure(fault)),
                None => None,
            },
        ),
{
    match check_relocatable(bytes) {
        Ok(()) => Ok(()),
        Err(fault) => Err(relocation_error(fault)),
    }
}

/// A site without enough complete instructions that can be moved.
pub open spec fn no_prefix(minimum: usize) -> Failure {
    failure(
        RpcErrorCode::InvalidRequest,
        "hook site does not contain at least "@ + dec_text(minimum as nat)
            + " complete position-independent x64 bytes"@,
    )
}

/// The length of the shortest run of complete instructions that can be moved.
pub fn relocatable_prefix_len(bytes: &[u8], minimum: usize) -> (size: Result<usize, HookApiError>)
    ensures
        match shortest_span(bytes@, minimum as int) {
            Some(n) => size matches Ok(m) && m == n,
            None => size matches Err(error) && error@ == no_prefix(minimum),
        },
{
    match shortest_relocatable(bytes, minimum) {
        Some(size) => Ok(size),
        None => {
            let least = format_decimal(minimum as u64);
            Err(
                HookApiError::request(
                    RpcErrorCode::InvalidRequest,
                    join3(
                        "hook site does not contain at least ",
                        least.as_str(),
                        " complete position-independent x64 bytes",
                    ),
                ),
            )
        },
    }
}

/// A place that no longer holds what the scan found.
pub open spec fn site_changed() -> Failure {
    failure(
        RpcErrorCode::MemoryRequiredMatchNotFound,
        "hook signature changed after scanning and before mutation"@,
    )
}

/// Whether bytes are what a signature says.
pub open spec fn agrees_with(bytes: Seq<u8>, signature: Seq<Option<u8>>) -> bool {
    bytes.len() == signature.len() && matches_at(bytes, signature, 0)
}

/// The address that a hook goes to, for the place that was found.
pub open spec fn target_of_scan(
    plan: HookPlan,
    signature: Seq<Option<u8>>,
    scan: Reply,
) -> Result<usize, Failure> {
    match scan {
        Reply::Found { at } => if at + plan.target_offset > usize::MAX {
            Err(
                failure(
                    RpcErrorCode::MemoryInvalidAddress,
                    "core hook target offset overflowed the agent address width"@,
                ),
            )
        } else if plan.target_offset > signature.len() {
            Err(
                failure(
                    RpcErrorCode::InvalidRequest,
                    "hook target offset extends beyond its verified signature"@,
                ),
            )
        } else {
            Ok((at + plan.target_offset) as usize)
        },
        Reply::Fault { fault, said } => Err(fault),
        _ => Err(arbitrary()),
    }
}

/// How many bytes a hook overwrites.
pub open spec fn overwrite_of(
    plan: HookPlan,
    signature: Seq<Option<u8>>,
    candidate: Reply,
) -> Result<usize, Failure> {
    match plan.overwrite_size {
        None => Ok(signature.len() as usize),
        Some(size) => if size != 0 {
            Ok(size)
        } else {
            match candidate {
                Reply::Bytes { bytes } => if !agrees_with(
                    bytes,
                    signature.skip(plan.target_offset as int),
                ) {
                    Err(site_changed())
                } else {
                    match shortest_span(bytes, ABSOLUTE_JUMP_BYTES as int) {
                        Some(size) => Ok(size as usize),
                        None => Err(no_prefix(ABSOLUTE_JUMP_BYTES)),
                    }
                },
                Reply::Fault { fault, said } => Err(fault),
                _ => Err(arbitrary()),
            }
        },
    }
}

/// Why a span may not be overwritten.
pub open spec fn overwrite_refusal(
    plan: HookPlan,
    signature: Seq<Option<u8>>,
    size: usize,
) -> Option<Failure> {
    if size < ABSOLUTE_JUMP_BYTES {
        Some(
            failure(
                RpcErrorCode::InvalidRequest,
                "hook overwrite must span at least "@ + dec_text(ABSOLUTE_JUMP_BYTES as nat)
                    + " complete x64 bytes"@,
            ),
        )
    } else if plan.target_offset + size > signature.len() {
        Some(
            failure(
                RpcErrorCode::InvalidRequest,
                "hook overwrite extends beyond its verified signature"@,
            ),
        )
    } else {
        None
    }
}

/// The site, for the bytes that the place holds.
pub open spec fn site_of(
    plan: HookPlan,
    signature: Seq<Option<u8>>,
    target: usize,
    size: usize,
    original: Reply,
) -> Result<Site, Failure> {
    match original {
        Reply::Bytes { bytes } => if !agrees_with(
            bytes,
            signature.subrange(plan.target_offset as int, plan.target_offset + size),
        ) {
            Err(site_changed())
        } else {
            match first_fault(bytes, 0) {
                Some(fault) => Err(relocation_failure(fault)),
                None => Ok(Site { target, original: bytes }),
            }
        },
        Reply::Fault { fault, said } => Err(fault),
        _ => Err(arbitrary()),
    }
}

/// Whether the length of the overwritten span is to be read off the site.
pub open spec fn sizes_itself(plan: HookPlan) -> bool {
    plan.overwrite_size == Some(0usize)
}

/// The world in which the site's bytes are read.
pub open spec fn before_original<H, T>(plan: HookPlan, search: Search<H, T>) -> World<H, T> {
    if sizes_itself(plan) {
        search.candidate.after
    } else {
        search.scan.after
    }
}

/// What a search finds and the world after it.
pub open spec fn search_outcome<H, T>(
    plan: HookPlan,
    signature: Seq<Option<u8>>,
    search: Search<H, T>,
) -> (World<H, T>, Result<Site, Failure>) {
    match target_of_scan(plan, signature, search.scan.reply) {
        Err(fault) => (search.scan.after, Err(fault)),
        Ok(target) => match overwrite_of(plan, signature, search.candidate.reply) {
            Err(fault) => (search.candidate.after, Err(fault)),
            Ok(size) => match overwrite_refusal(plan, signature, size) {
                Some(fault) => (before_original(plan, search), Err(fault)),
                None => (
                    search.original.after,
                    site_of(plan, signature, target, size, search.original.reply),
                ),
            },
        },
    }
}

/// Whether the steps of a search were made. Nothing is changed before the site
/// is known.
pub open spec fn searched<B: MutationBackend>(
    backend: &B,
    id: Seq<char>,
    before: World<B::Handle, B::ThreadHandle>,
    plan: HookPlan,
    signature: Seq<Option<u8>>,
    search: Search<B::Handle, B::ThreadHandle>,
) -> bool {
    &&& step_made(backend, id, before, search.scan)
    &&& search.scan.op == (Op::Scan { signature: plan.signature, scope: plan.scope })
    &&& (search.scan.reply is Found || search.scan.reply is Fault)
    &&& target_of_scan(plan, signature, search.scan.reply) matches Ok(target) ==> {
        let address = address_text(target as nat);
        &&& sizes_itself(plan) ==> {
            &&& step_made(backend, id, search.scan.after, search.candidate)
            &&& search.candidate.op == (Op::Read {
                address,
                size: (signature.len() - plan.target_offset) as usize,
            })
            &&& (search.candidate.reply is Bytes || search.candidate.reply is Fault)
        }
        &&& overwrite_of(plan, signature, search.candidate.reply) matches Ok(size) ==> (
        overwrite_refusal(plan, signature, size) is None ==> {
            &&& step_made(backend, id, before_original(plan, search), search.original)
            &&& search.original.op == (Op::Read { address, size })
            &&& (search.original.reply is Bytes || search.original.reply is Fault)
        })
    }
}

fn find_site<B: MutationBackend>(
    sessions: &mut ProcessSessionRegistry<B::Handle>,
    backend: &B,
    session_id: &ProcessSessionId,
    spec: &HookSpec,
    signature: &Vec<Option<u8>>,
    Ghost(owned): Ghost<Owned<B::ThreadHandle>>,
) -> (found: (
    Result<(usize, Vec<u8>), HookApiError>,
    Ghost<Search<B::Handle, B::ThreadHandle>>,
))
    requires
        old(sessions).wf(),
    ensures
        final(sessions).wf(),
        old(sessions)@.leads_to(final(sessions)@),
        searched(
            backend,
            session_id.0@,
            World { sessions: old(sessions)@, owned },
            spec.plan(),
            signature@,
            found.1@,
        ),
        ({
            let (after, outcome) = search_outcome(spec.plan(), signature@, found.1@);
            &&& after == (World { sessions: final(sessions)@, owned })
            &&& match (found.0, outcome) {
                (Ok((target, original)), Ok(site)) => {
                    &&& site == (Site { target, original: original@ })
                    &&& ABSOLUTE_JUMP_BYTES <= original@.len() <= signature@.len()
                },
                (Err(error), Err(fault)) => error@ == fault,
                _ => false,
            }
        }),
{
    let ghost plan = spec.plan();
    let ghost mut search: Search<B::Handle, B::ThreadHandle> = arbitrary();
    let (answer, Ghost(step)) = step_scan(
        sessions,
        backend,
        session_id,
        spec.signature.as_str(),
        &spec.scope,
        Ghost(owned),
    );
    proof {
        search = Search { scan: step, candidate: arbitrary(), original: arbitrary() };
    }
    let at: usize = match answer {
        Ok(at) => at,
        Err(error) => {
            return (Err(HookApiError::Memory(error)), Ghost(search));
        },
    };
    let target: usize = match at.checked_add(spec.target_offset) {
        Some(target) => target,
        None => {
            return (
                Err(
                    HookApiError::request(
                        RpcErrorCode::MemoryInvalidAddress,
                        "core hook target offset overflowed the agent address width".to_owned(),
                    ),
                ),
                Ghost(search),
            );
        },
    };
    if spec.target_offset > signature.len() {
        return (
            Err(
                HookApiError::request(
                    RpcErrorCode::InvalidRequest,
                    "hook target offset extends beyond its verified signature".to_owned(),
                ),
            ),
            Ghost(search),
        );
    }
    let available: usize = signature.len() - spec.target_offset;
    let address = format_address(target);
    let size: usize = match spec.overwrite_size {
        None => signature.len(),
        Some(size) => if size != 0 {
            size
        } else {
            let (answer, Ghost(step)) = step_read(
                sessions,
                backend,
                session_id,
                address.as_str(),
                available,
                Ghost(owned),
            );
            proof {
                search = Search { candidate: step, ..search };
            }
            let candidate = match answer {
                Ok(bytes) => bytes,
                Err(error) => {
                    return (Err(HookApiError::Memory(error)), Ghost(search));
                },
            };
            let wanted = vstd::slice::slice_subrange(
                signature.as_slice(),
                spec.target_offset,
                signature.len(),
            );
            proof {
                assert(wanted@ =~= signature@.skip(plan.target_offset as int));
            }
            if !signature_matches(candidate.as_slice(), wanted) {
                return (
                    Err(
                        HookApiError::request(
                            RpcErrorCode::MemoryRequiredMatchNotFound,
                            "hook signature changed after scanning and before mutation".to_owned(),
                        ),
                    ),
                    Ghost(search),
                );
            }
            match relocatable_prefix_len(candidate.as_slice(), ABSOLUTE_JUMP_BYTES) {
                Ok(size) => size,
                Err(error) => {
                    return (Err(error), Ghost(search));
                },
            }
        },
    };
    proof {
        assert(overwrite_of(plan, signature@, search.candidate.reply) == Ok::<usize, Failure>(
            size,
        ));
    }
    if size < ABSOLUTE_JUMP_BYTES {
        let least = format_decimal(ABSOLUTE_JUMP_BYTES as u64);
        return (
            Err(
                HookApiError::request(
                    RpcErrorCode::InvalidRequest,
                    join3(
                        "hook overwrite must span at least ",
                        least.as_str(),
                        " complete x64 bytes",
                    ),
                ),
            ),
            Ghost(search),
        );
    }
    if size > available {
        return (
            Err(
                HookApiError::request(
                    RpcErrorCode::InvalidRequest,
                    "hook overwrite extends beyond its verified signature".to_owned(),
                ),
            ),
            Ghost(search),
        );
    }
    let (answer, Ghost(step)) = step_read(
        sessions,
        backend,
        session_id,
        address.as_str(),
        size,
        Ghost(owned),
    );
    proof {
        search = Search { original: step, ..search };
    }
    let original = match answer {
        Ok(bytes) => bytes,
        Err(error) => {
            return (Err(HookApiError::Memory(error)), Ghost(search));
        },
    };
    let wanted = vstd::slice::slice_subrange(
        signature.as_slice(),
        spec.target_offset,
        spec.target_offset + size,
    );
    proof {
        assert(wanted@ =~= signature@.subrange(
            plan.target_offset as int,
            plan.target_offset + size,
        ));
    }
    if !signature_matches(original.as_slice(), wanted) {
        return (
            Err(
                HookApiError::request(
                    RpcErrorCode::MemoryRequiredMatchNotFound,
                    "hook signature changed after scanning and before mutation".to_owned(),
                ),
            ),
            Ghost(search),
        );
    }
    if let Err(error) = validate_relocatable_x64(original.as_slice()) {
        return (Err(error), Ghost(search));
    }
    (Ok((target, original)), Ghost(search))
}

/// How a hook is put in place up to the opening of its target: the trampoline is
/// written and made visible, and the target is opened for writing.
pub open spec fn prepare_script(plan: HookPlan, site: Site, at: usize) -> Seq<Op> {
    let size = site.original.len() as usize;
    let code = trampoline(plan.payload, site.original, (site.target + size) as usize);
    seq![
        Op::Write { address: address_text(at as nat), bytes: code },
        Op::Flush { address: address_text(at as nat), size: code.len() as usize },
        Op::Protect {
            address: address_text(site.target as nat),
            size,
            protection: MemoryProtection::ExecuteReadWrite,
        },
    ]
}

/// How an opened target is made to lead to its trampoline: the detour is written
/// and made visible, and the target gets its access rights back.
pub open spec fn divert_script(site: Site, at: usize, previous: MemoryProtection) -> Seq<Op> {
    let address = address_text(site.target as nat);
    let size = site.original.len() as usize;
    seq![
        Op::Write { address, bytes: detour(at, size as int) },
        Op::Flush { address, size },
        Op::Protect { address, size, protection: previous },
    ]
}

/// A hook whose allocation exists and whose target is untouched.
pub open spec fn provisional(
    plan: HookPlan,
    site: Site,
    name: Seq<char>,
    at: usize,
    now: u64,
) -> Hooked {
    Hooked {
        plan,
        target: site.target,
        original: site.original,
        allocation: name,
        at,
        protection: None,
        modified: false,
        complete: false,
        deadline: (now + HOOK_LEASE_MS) as u64,
        changes: Seq::empty(),
        feature: None,
    }
}

/// The steps of an activation.
pub ghost struct Activation<H, T> {
    pub search: Search<H, T>,
    pub allocate: Step<H, T>,
    pub prepare: Seq<Step<H, T>>,
    pub divert: Seq<Step<H, T>>,
    pub undo: Seq<Step<H, T>>,
    /// The world at the end.
    pub end: World<H, T>,
    /// The hooks at the end.
    pub left: Hooks,
    /// What undoing the hook came to, where it was undone.
    pub recovery: Result<(), Trouble>,
}

/// An activation that failed and could not be undone.
pub open spec fn unrecovered() -> Failure {
    failure(
        RpcErrorCode::MemoryWriteFailed,
        "hook activation failed and cleanup could not be verified; recovery ownership is retained and deactivation may be retried"@,
    )
}

/// The failure that a failed activation answers with. The hook is undone first.
pub open spec fn failed_with(fault: Failure, recovery: Result<(), Trouble>) -> Failure {
    match recovery {
        Ok(_) => fault,
        Err(_) => unrecovered(),
    }
}

/// What comes of putting a hook in place at a site.
pub open spec fn installed<B: MutationBackend>(
    backend: &B,
    place: (Seq<char>, Seq<char>),
    plan: HookPlan,
    site: Site,
    now: u64,
    before: World<B::Handle, B::ThreadHandle>,
    hooks: Hooks,
    a: Activation<B::Handle, B::ThreadHandle>,
    result: Result<Hooked, Failure>,
) -> bool {
    let size = (plan.payload.len() + site.original.len() + ABSOLUTE_JUMP_BYTES) as usize;
    &&& step_made(backend, place.0, before, a.allocate)
    &&& a.allocate.op == (Op::Allocate {
        near: None,
        size,
        protection: MemoryProtection::ExecuteReadWrite,
    })
    &&& match a.allocate.reply {
        Reply::Fault { fault, said } => {
            &&& a.end == a.allocate.after
            &&& a.left == hooks
            &&& result == Err::<Hooked, Failure>(fault)
        },
        Reply::Allocated { name, at } => {
            let first = provisional(plan, site, name, at, now);
            let owned = hooks.insert(place, first);
            if site.target + site.original.len() > usize::MAX {
                &&& a.end == a.allocate.after
                &&& a.left == owned
                &&& result == Err::<Hooked, Failure>(
                    failure(
                        RpcErrorCode::MemoryInvalidAddress,
                        "hook continuation address overflowed"@,
                    ),
                )
            } else {
                let prepare = prepare_script(plan, site, at);
                let prepared = world_after(a.allocate.after, a.prepare);
                &&& ran(backend, place.0, a.allocate.after, prepare, a.prepare)
                &&& if !completed(prepare, a.prepare) {
                    &&& undone(
                        backend,
                        place,
                        prepared,
                        owned,
                        a.undo,
                        a.end,
                        a.left,
                        a.recovery,
                    )
                    &&& result == Err::<Hooked, Failure>(
                        failed_with(fault_of(a.prepare), a.recovery),
                    )
                } else {
                    &&& a.prepare.last().reply is Previous
                    &&& ({
                        let previous = a.prepare.last().reply->Previous_protection;
                        let opened = Hooked {
                            protection: Some(previous),
                            modified: true,
                            ..first
                        };
                        let divert = divert_script(site, at, previous);
                        let diverted = world_after(prepared, a.divert);
                        &&& ran(backend, place.0, prepared, divert, a.divert)
                        &&& if !completed(divert, a.divert) {
                            &&& undone(
                                backend,
                                place,
                                diverted,
                                hooks.insert(place, opened),
                                a.undo,
                                a.end,
                                a.left,
                                a.recovery,
                            )
                            &&& result == Err::<Hooked, Failure>(
                                failed_with(fault_of(a.divert), a.recovery),
                            )
                        } else {
                            let done = Hooked { complete: true, ..opened };
                            &&& a.end == diverted
                            &&& a.left == hooks.insert(place, done)
                            &&& result == Ok::<Hooked, Failure>(done)
                        }
                    })
                }
            }
        },
        _ => false,
    }
}

/// Why a hook is refused before anything is looked at.
pub open spec fn plan_refusal(plan: HookPlan, signature: Seq<Option<u8>>) -> Option<Failure> {
    if signature.len() < MIN_HOOK_SIGNATURE_BYTES {
        Some(
            failure(
                RpcErrorCode::MemoryPatternInvalid,
                "hook signatures must span at least "@ + dec_text(MIN_HOOK_SIGNATURE_BYTES as nat)
                    + " bytes for an x64 absolute detour"@,
            ),
        )
    } else if plan.payload.len() > MAX_HOOK_PAYLOAD_BYTES {
        Some(
            failure(
                RpcErrorCode::MemoryLimitExceeded,
                "hook payload must not exceed "@ + dec_text(MAX_HOOK_PAYLOAD_BYTES as nat)
                    + " bytes"@,
            ),
        )
    } else {
        None
    }
}

/// What an activation does: the world and the hooks after it, and the hook that
/// is then in place. One that is in place already has its lease renewed, and
/// nothing else happens.
pub open spec fn activates<B: MutationBackend>(
    backend: &B,
    place: (Seq<char>, Seq<char>),
    plan: HookPlan,
    now: u64,
    before: World<B::Handle, B::ThreadHandle>,
    hooks: Hooks,
    after: World<B::Handle, B::ThreadHandle>,
    left: Hooks,
    result: Result<Hooked, Failure>,
) -> bool {
    let refused = |fault: Failure|
        after == before && left == hooks && result == Err::<Hooked, Failure>(fault);
    match key_refusal(place.1) {
        Some(fault) => refused(fault),
        None => match signature_value(plan.signature) {
            Err(fault) => refused(fault),
            Ok(signature) => match plan_refusal(plan, signature) {
                Some(fault) => refused(fault),
                None => if hooks.dom().contains(place) {
                    let held = hooks[place];
                    if held.plan != plan {
                        refused(
                            failure(
                                RpcErrorCode::InvalidRequest,
                                "hook key "@ + quoted_text(place.1)
                                    + " is already active with a different specification"@,
                            ),
                        )
                    } else if !held.complete {
                        refused(
                            failure(
                                RpcErrorCode::InvalidRequest,
                                "a prior hook activation failed and its recovery ownership is retained; deactivate it before retrying"@,
                            ),
                        )
                    } else {
                        let renewed = Hooked {
                            deadline: (now + HOOK_LEASE_MS) as u64,
                            ..held
                        };
                        &&& after == before
                        &&& left == hooks.insert(place, renewed)
                        &&& result == Ok::<Hooked, Failure>(renewed)
                    }
                } else {
                    exists|a: Activation<B::Handle, B::ThreadHandle>| #[trigger]
                        activation_made(
                            backend,
                            place,
                            plan,
                            signature,
                            now,
                            before,
                            hooks,
                            a,
                            result,
                        ) && after == a.end && left == a.left
                },
            },
        },
    }
}

/// Whether the steps of an activation were made, and what came of them.
pub open spec fn activation_made<B: MutationBackend>(
    backend: &B,
    place: (Seq<char>, Seq<char>),
    plan: HookPlan,
    signature: Seq<Option<u8>>,
    now: u64,
    before: World<B::Handle, B::ThreadHandle>,
    hooks: Hooks,
    a: Activation<B::Handle, B::ThreadHandle>,
    result: Result<Hooked, Failure>,
) -> bool {
    &&& searched(backend, place.0, before, plan, signature, a.search)
    &&& match search_outcome(plan, signature, a.search) {
        (found, Err(fault)) => {
            &&& a.end == found
            &&& a.left == hooks
            &&& result == Err::<Hooked, Failure>(fault)
        },
        (found, Ok(site)) => installed(backend, place, plan, site, now, found, hooks, a, result),
    }
}

fn activation_failure<B: MutationBackend>(
    sessions: &mut ProcessSessionRegistry<B::Handle>,
    backend: &B,
    mutations: &mut MutationState<B::ThreadHandle>,
    hooks: &mut HookState,
    session_id: &ProcessSessionId,
    hook_key: &str,
    activation_error: HookApiError,
) -> (failed: (
    HookApiError,
    Ghost<Seq<Step<B::Handle, B::ThreadHandle>>>,
    Ghost<Result<(), Trouble>>,
))
    requires
        old(sessions).wf(),
        old(mutations).wf(),
        old(hooks).wf(),
        old(hooks)@.dom().contains((session_id.0@, hook_key@)),
    ensures
        final(sessions).wf(),
        final(mutations).wf(),
        final(hooks).wf(),
        old(sessions)@.leads_to(final(sessions)@),
        undone(
            backend,
            (session_id.0@, hook_key@),
            World { sessions: old(sessions)@, owned: old(mutations)@ },
            old(hooks)@,
            failed.1@,
            World { sessions: final(sessions)@, owned: final(mutations)@ },
            final(hooks)@,
            failed.2@,
        ),
        failed.0@ == failed_with(activation_error@, failed.2@),
{
    let (answer, Ghost(steps)) = cleanup_one(
        sessions,
        backend,
        mutations,
        hooks,
        session_id,
        hook_key,
    );
    let ghost recovery = verdict(answer);
    match answer {
        Ok(()) => (activation_error, Ghost(steps), Ghost(recovery)),
        Err(_) => (
            HookApiError::request(
                RpcErrorCode::MemoryWriteFailed,
                "hook activation failed and cleanup could not be verified; recovery ownership is retained and deactivation may be retried".to_owned(),
            ),
            Ghost(steps),
            Ghost(recovery),
        ),
    }
}

fn prepare_target<B: MutationBackend>(
    sessions: &mut ProcessSessionRegistry<B::Handle>,
    backend: &B,
    session_id: &ProcessSessionId,
    payload: &Vec<u8>,
    original: &Vec<u8>,
    target: usize,
    at: usize,
    Ghost(plan): Ghost<HookPlan>,
    Ghost(start): Ghost<World<B::Handle, B::ThreadHandle>>,
) -> (done: (
    Result<MemoryProtection, MutationApiError>,
    Ghost<Seq<Step<B::Handle, B::ThreadHandle>>>,
))
    requires
        old(sessions).wf(),
        start.sessions == old(sessions)@,
        plan.payload == payload@,
        target + original@.len() <= usize::MAX,
        payload@.len() + original@.len() + ABSOLUTE_JUMP_BYTES <= usize::MAX,
    ensures
        final(sessions).wf(),
        old(sessions)@.leads_to(final(sessions)@),
        ran(
            backend,
            session_id.0@,
            start,
            prepare_script(plan, Site { target, original: original@ }, at),
            done.1@,
        ),
        world_after(start, done.1@) == (World { sessions: final(sessions)@, ..start }),
        match done.0 {
            Ok(previous) => done.1@.len() == 3 && !faulted(done.1@) && done.1@.last().reply
                == (Reply::Previous { protection: previous }),
            Err(error) => faulted(done.1@) && fault_of(done.1@) == error@,
        },
{
    let ghost site = Site { target, original: original@ };
    let ghost script = prepare_script(plan, site, at);
    let ghost id = session_id.0@;
    let ghost owned = start.owned;
    let ghost mut steps: Seq<Step<B::Handle, B::ThreadHandle>> = Seq::empty();
    let size: usize = original.len();
    let code = build_trampoline(payload.as_slice(), original.as_slice(), target + size);
    let length: usize = code.len();
    let home = format_address(at);
    let (answer, Ghost(step)) = step_write(
        sessions,
        backend,
        session_id,
        home.as_str(),
        code,
        Ghost(owned),
    );
    proof {
        assert(script.len() == 3);
        lemma_follows_step(backend, id, start, script, steps, step);
        steps = steps.push(step);
    }
    if let Err(error) = answer {
        return (Err(error), Ghost(steps));
    }
    let (answer, Ghost(step)) = step_flush(
        sessions,
        backend,
        session_id,
        home.as_str(),
        length,
        Ghost(owned),
    );
    proof {
        lemma_follows_step(backend, id, start, script, steps, step);
        steps = steps.push(step);
    }
    if let Err(error) = answer {
        return (Err(error), Ghost(steps));
    }
    let address = format_address(target);
    let (answer, Ghost(step)) = step_protect(
        sessions,
        backend,
        session_id,
        address.as_str(),
        size,
        MemoryProtection::ExecuteReadWrite,
        Ghost(owned),
    );
    proof {
        lemma_follows_step(backend, id, start, script, steps, step);
        steps = steps.push(step);
    }
    (answer, Ghost(steps))
}

fn divert_target<B: MutationBackend>(
    sessions: &mut ProcessSessionRegistry<B::Handle>,
    backend: &B,
    session_id: &ProcessSessionId,
    size: usize,
    target: usize,
    at: usize,
    previous: MemoryProtection,
    Ghost(site): Ghost<Site>,
    Ghost(start): Ghost<World<B::Handle, B::ThreadHandle>>,
) -> (done: (Result<(), MutationApiError>, Ghost<Seq<Step<B::Handle, B::ThreadHandle>>>))
    requires
        old(sessions).wf(),
        start.sessions == old(sessions)@,
        site.target == target,
        site.original.len() == size,
        size >= ABSOLUTE_JUMP_BYTES,
    ensures
        final(sessions).wf(),
        old(sessions)@.leads_to(final(sessions)@),
        ran(backend, session_id.0@, start, divert_script(site, at, previous), done.1@),
        world_after(start, done.1@) == (World { sessions: final(sessions)@, ..start }),
        match done.0 {
            Ok(_) => done.1@.len() == 3 && !faulted(done.1@),
            Err(error) => faulted(done.1@) && fault_of(done.1@) == error@,
        },
{
    let ghost script = divert_script(site, at, previous);
    let ghost id = session_id.0@;
    let ghost owned = start.owned;
    let ghost mut steps: Seq<Step<B::Handle, B::ThreadHandle>> = Seq::empty();
    let code = build_detour(at, size);
    let address = format_address(target);
    let (answer, Ghost(step)) = step_write(
        sessions,
        backend,
        session_id,
        address.as_str(),
        code,
        Ghost(owned),
    );
    proof {
        assert(script.len() == 3);
        lemma_follows_step(backend, id, start, script, steps, step);
        steps = steps.push(step);
    }
    if let Err(error) = answer {
        return (Err(error), Ghost(steps));
    }
    let (answer, Ghost(step)) = step_flush(
        sessions,
        backend,
        session_id,
        address.as_str(),
        size,
        Ghost(owned),
    );
    proof {
        lemma_follows_step(backend, id, start, script, steps, step);
        steps = steps.push(step);
    }
    if let Err(error) = answer {
        return (Err(error), Ghost(steps));
    }
    let (answer, Ghost(step)) = step_protect(
        sessions,
        backend,
        session_id,
        address.as_str(),
        size,
        previous,
        Ghost(owned),
    );
    proof {
        lemma_follows_step(backend, id, start, script, steps, step);
        steps = steps.push(step);
    }
    match answer {
        Ok(_) => (Ok(()), Ghost(steps)),
        Err(error) => (Err(error), Ghost(steps)),
    }
}

fn install<B: MutationBackend>(
    sessions: &mut ProcessSessionRegistry<B::Handle>,
    backend: &B,
    mutations: &mut MutationState<B::ThreadHandle>,
    hooks: &mut HookState,
    session_id: &ProcessSessionId,
    hook_key: &str,
    spec: HookSpec,
    target: usize,
    original: Vec<u8>,
    now: u64,
) -> (done: (
    Result<(), HookApiError>,
    Ghost<Activation<B::Handle, B::ThreadHandle>>,
    Ghost<Result<Hooked, Failure>>,
))
    requires
        old(sessions).wf(),
        old(mutations).wf(),
        old(hooks).wf(),
        now + HOOK_LEASE_MS <= u64::MAX,
        spec.payload@.len() <= MAX_HOOK_PAYLOAD_BYTES,
        ABSOLUTE_JUMP_BYTES <= original@.len() <= MAX_SIGNATURE_BYTES,
    ensures
        final(sessions).wf(),
        final(mutations).wf(),
        final(hooks).wf(),
        old(sessions)@.leads_to(final(sessions)@),
        installed(
            backend,
            (session_id.0@, hook_key@),
            spec.plan(),
            Site { target, original: original@ },
            now,
            World { sessions: old(sessions)@, owned: old(mutations)@ },
            old(hooks)@,
            done.1@,
            done.2@,
        ),
        done.1@.end == (World { sessions: final(sessions)@, owned: final(mutations)@ }),
        done.1@.left == final(hooks)@,
        match (done.0, done.2@) {
            (Ok(_), Ok(hooked)) => {
                &&& final(hooks)@.dom().contains((session_id.0@, hook_key@))
                &&& final(hooks)@[(session_id.0@, hook_key@)] == hooked
            },
            (Err(error), Err(fault)) => error@ == fault,
            _ => false,
        },
{
    let ghost place = (session_id.0@, hook_key@);
    let ghost plan = spec.plan();
    let ghost site = Site { target, original: original@ };
    let ghost held = hooks@;
    let ghost mut a: Activation<B::Handle, B::ThreadHandle> = arbitrary();
    let length: usize = spec.payload.len() + original.len() + ABSOLUTE_JUMP_BYTES;
    let (answer, Ghost(step)) = step_allocate(
        sessions,
        backend,
        mutations,
        session_id,
        None,
        length,
        MemoryProtection::ExecuteReadWrite,
    );
    proof {
        a = Activation { allocate: step, end: step.after, left: held, ..a };
    }
    let (name, at): (String, usize) = match answer {
        Ok(allocated) => allocated,
        Err(error) => {
            let ghost fault = error@;
            return (Err(HookApiError::Mutation(error)), Ghost(a), Ghost(Err(fault)));
        },
    };
    let size: usize = original.len();
    let payload = copy_bytes(spec.payload.as_slice());
    let saved = copy_bytes(original.as_slice());
    let record = HookRecord {
        spec,
        target_address: target,
        original_bytes: original,
        allocation_id: name,
        allocation_address: at,
        original_protection: None,
        target_may_be_modified: false,
        activation_complete: false,
        lease_deadline: now + HOOK_LEASE_MS,
        changes: Vec::new(),
        feature: None,
    };
    let ghost first = provisional(plan, site, name@, at, now);
    proof {
        assert(changed_of(record.changes@) =~= Seq::empty());
    }
    hooks.insert(session_id, hook_key, record);
    proof {
        assert(hooks@ == held.insert(place, first));
    }
    if target.checked_add(size).is_none() {
        proof {
            a = Activation { left: hooks@, ..a };
        }
        let error = HookApiError::request(
            RpcErrorCode::MemoryInvalidAddress,
            "hook continuation address overflowed".to_owned(),
        );
        let ghost fault = error@;
        return (Err(error), Ghost(a), Ghost(Err(fault)));
    }
    let ghost start = step.after;
    let (answer, Ghost(prepare)) = prepare_target(
        sessions,
        backend,
        session_id,
        &payload,
        &saved,
        target,
        at,
        Ghost(plan),
        Ghost(start),
    );
    let ghost prepared = world_after(start, prepare);
    let previous = match answer {
        Ok(previous) => previous,
        Err(error) => {
            let (error, Ghost(undo), Ghost(recovery)) = activation_failure(
                sessions,
                backend,
                mutations,
                hooks,
                session_id,
                hook_key,
                HookApiError::Mutation(error),
            );
            proof {
                a = Activation {
                    prepare,
                    undo,
                    recovery,
                    end: World { sessions: sessions@, owned: mutations@ },
                    left: hooks@,
                    ..a
                };
            }
            let ghost fault = error@;
            return (Err(error), Ghost(a), Ghost(Err(fault)));
        },
    };
    let ghost opened = Hooked { protection: Some(previous), modified: true, ..first };
    match hooks.take(session_id, hook_key) {
        Some(record) => {
            let mut record = record;
            record.original_protection = Some(previous);
            record.target_may_be_modified = true;
            hooks.insert(session_id, hook_key, record);
        },
        None => {
            proof {
                assert(false);
            }
        },
    }
    proof {
        assert(hooks@ =~= held.insert(place, opened));
    }
    let (answer, Ghost(divert)) = divert_target(
        sessions,
        backend,
        session_id,
        size,
        target,
        at,
        previous,
        Ghost(site),
        Ghost(prepared),
    );
    let ghost diverted = world_after(prepared, divert);
    if let Err(error) = answer {
        let (error, Ghost(undo), Ghost(recovery)) = activation_failure(
            sessions,
            backend,
            mutations,
            hooks,
            session_id,
            hook_key,
            HookApiError::Mutation(error),
        );
        proof {
            a = Activation {
                prepare,
                divert,
                undo,
                recovery,
                end: World { sessions: sessions@, owned: mutations@ },
                left: hooks@,
                ..a
            };
        }
        let ghost fault = error@;
        return (Err(error), Ghost(a), Ghost(Err(fault)));
    }
    let ghost finished = Hooked { complete: true, ..opened };
    match hooks.take(session_id, hook_key) {
        Some(record) => {
            let mut record = record;
            record.activation_complete = true;
            hooks.insert(session_id, hook_key, record);
        },
        None => {
            proof {
                assert(false);
            }
        },
    }
    proof {
        assert(hooks@ =~= held.insert(place, finished));
        a = Activation {
            prepare,
            divert,
            end: World { sessions: sessions@, owned: mutations@ },
            left: hooks@,
            ..a
        };
    }
    (Ok(()), Ghost(a), Ghost(Ok(finished)))
}

/// A feature hook that is to be put in place.
#[verifier::ext_equal]
pub ghost struct Placement {
    pub plan: HookPlan,
    pub target: usize,
    pub overwrite: usize,
    pub kind: PayloadKind,
    pub patches: Seq<Patch>,
    pub actions: Option<(usize, usize)>,
    /// The original bytes of the target run after the payload.
    pub replay: bool,
}

/// What a template puts in place.
pub open spec fn placement_of(template: Template) -> Placement {
    Placement {
        plan: HookPlan {
            signature: template.signature@,
            scope: scope_name(template.scope),
            payload: template.payload@,
            target_offset: template.target_offset,
            overwrite_size: Some(template.overwrite_size),
        },
        target: template.resolved_target->Some_0,
        overwrite: template.overwrite_size,
        kind: template.payload_kind,
        patches: patches(template.auxiliary_patches@),
        actions: template.movement_action_patches,
        replay: template.replay_original,
    }
}

/// Why a feature hook is refused before anything is looked at.
pub open spec fn placement_refusal(p: Placement) -> Option<Failure> {
    match signature_value(p.plan.signature) {
        Err(fault) => Some(fault),
        Ok(signature) => if p.overwrite < RELATIVE_JUMP_BYTES {
            Some(
                failure(
                    RpcErrorCode::InvalidRequest,
                    "feature hook overwrite must span at least 5 complete x64 bytes"@,
                ),
            )
        } else if p.overwrite > signature.len() {
            Some(
                failure(
                    RpcErrorCode::InvalidRequest,
                    "hook overwrite extends beyond its verified signature"@,
                ),
            )
        } else if p.target + p.overwrite > usize::MAX {
            Some(
                failure(
                    RpcErrorCode::MemoryInvalidAddress,
                    "hook continuation address overflowed"@,
                ),
            )
        } else if p.actions matches Some((first, second)) && (first >= p.patches.len() || second
            >= p.patches.len()) {
            Some(
                failure(
                    RpcErrorCode::InvalidRequest,
                    "feature hook actions are not among its patches"@,
                ),
            )
        } else {
            None
        },
    }
}

/// The reads before a feature hook is put in place: of its target, and of each patch.
pub open spec fn survey_script(p: Placement) -> Seq<Op> {
    seq![
        Op::Read { address: address_text(p.target as nat), size: p.overwrite },
    ] + Seq::new(
        p.patches.len(),
        |i: int|
            Op::Read {
                address: address_text(p.patches[i].address as nat),
                size: p.patches[i].expected.len() as usize,
            },
    )
}

/// What the reads come to: the original bytes of the target, where they are as the
/// signature says and can be moved if they are to run elsewhere, and where every patch
/// still finds what it expects.
pub open spec fn survey_outcome<H, T>(p: Placement, steps: Seq<Step<H, T>>) -> Result<
    Seq<u8>,
    Failure,
> {
    let signature = signature_value(p.plan.signature)->Ok_0;
    if !completed(survey_script(p), steps) {
        Err(fault_of(steps))
    } else {
        let original = steps[0].reply->bytes;
        if !agrees_with(original, signature.take(p.overwrite as int)) {
            Err(site_changed())
        } else if p.replay && first_fault(original, 0) is Some {
            Err(relocation_failure(first_fault(original, 0)->Some_0))
        } else if exists|i: int|
            0 <= i < p.patches.len() && #[trigger] p.patches[i].expected != steps[i
                + 1].reply->bytes {
            Err(site_changed())
        } else {
            Ok(original)
        }
    }
}

/// The original bytes that run after the payload.
pub open spec fn replayed(p: Placement, original: Seq<u8>) -> Seq<u8> {
    if p.replay {
        original
    } else {
        Seq::empty()
    }
}

/// The code in the allocation of a feature hook.
pub open spec fn feature_code(p: Placement, original: Seq<u8>, at: usize) -> Seq<u8> {
    trampoline(payload(p.kind, at), replayed(p, original), (p.target + p.overwrite) as usize)
}

/// How long that is.
pub open spec fn feature_code_len(p: Placement, original: Seq<u8>) -> nat {
    payload_len(p.kind) + replayed(p, original).len() + ABSOLUTE_JUMP_BYTES as nat
}

/// Everything that a feature hook changes: its patches, and last its target, which is
/// made to lead into the allocation.
pub open spec fn all_patches(p: Placement, original: Seq<u8>, at: usize) -> Seq<Patch> {
    p.patches.push(
        Patch {
            address: p.target,
            expected: original,
            replacement: relative_jump(p.target, at, p.overwrite as nat)->Ok_0,
            applied: true,
            writable: false,
        },
    )
}

/// How a patch is made: its bytes are opened for writing, written and made visible if it
/// is applied, and given their access rights back unless they stay writable.
pub open spec fn patch_script(patch: Patch, previous: MemoryProtection) -> Seq<Op> {
    let address = address_text(patch.address as nat);
    let size = patch.expected.len() as usize;
    let open = seq![
        Op::Protect { address, size, protection: MemoryProtection::ExecuteReadWrite },
    ];
    let change = if patch.applied {
        seq![
            Op::Write { address, bytes: patch.replacement },
            Op::Flush { address, size: patch.replacement.len() as usize },
        ]
    } else {
        Seq::empty()
    };
    let close = if patch.writable {
        Seq::empty()
    } else {
        seq![Op::Protect { address, size, protection: previous }]
    };
    open + change + close
}

/// The access rights that a patch found.
pub open spec fn found_rights<H, T>(steps: Seq<Step<H, T>>) -> MemoryProtection {
    steps[0].reply->Previous_protection
}

/// Whether a patch was opened for writing.
pub open spec fn was_opened<H, T>(steps: Seq<Step<H, T>>) -> bool {
    steps.len() > 0 && steps[0].reply is Previous
}

/// A patch that was made to its end.
pub open spec fn patch_made<H, T>(patch: Patch, steps: Seq<Step<H, T>>) -> bool {
    completed(patch_script(patch, found_rights(steps)), steps)
}

/// The world after the first patches.
pub open spec fn world_of_patches<H, T>(
    start: World<H, T>,
    made: Seq<Seq<Step<H, T>>>,
) -> World<H, T>
    decreases made.len(),
{
    if made.len() == 0 {
        start
    } else {
        world_after(world_of_patches(start, made.drop_last()), made.last())
    }
}

/// Patches that were made to their end.
pub open spec fn patches_made<H, T>(list: Seq<Patch>, made: Seq<Seq<Step<H, T>>>) -> bool {
    forall|i: int| 0 <= i < made.len() ==> patch_made(list[i], #[trigger] made[i])
}

/// Patches that were made one after the other, up to the first that fails.
pub open spec fn patches_ran<B: MutationBackend>(
    backend: &B,
    id: Seq<char>,
    start: World<B::Handle, B::ThreadHandle>,
    list: Seq<Patch>,
    made: Seq<Seq<Step<B::Handle, B::ThreadHandle>>>,
) -> bool
    decreases made.len(),
{
    made.len() == 0 || {
        let before = made.drop_last();
        &&& made.len() <= list.len()
        &&& patches_ran(backend, id, start, list, before)
        &&& patches_made(list, before)
        &&& ran(
            backend,
            id,
            world_of_patches(start, before),
            patch_script(list[before.len() as int], found_rights(made.last())),
            made.last(),
        )
    }
}

/// The bytes that patches opened for writing.
pub open spec fn changes_of<H, T>(list: Seq<Patch>, made: Seq<Seq<Step<H, T>>>) -> Seq<Changed>
    decreases made.len(),
{
    if made.len() == 0 {
        Seq::empty()
    } else {
        let before = made.drop_last();
        let patch = list[before.len() as int];
        if was_opened(made.last()) {
            changes_of(list, before).push(
                Changed {
                    address: patch.address,
                    original: patch.expected,
                    previous: found_rights(made.last()),
                },
            )
        } else {
            changes_of(list, before)
        }
    }
}

/// The steps of putting a feature hook in place.
pub ghost struct Placing<H, T> {
    pub survey: Seq<Step<H, T>>,
    pub allocate: Step<H, T>,
    pub write: Seq<Step<H, T>>,
    pub made: Seq<Seq<Step<H, T>>>,
    pub undo: Seq<Step<H, T>>,
    /// The world at the end.
    pub end: World<H, T>,
    /// The hooks at the end.
    pub left: Hooks,
    /// What undoing the hook came to, where it was undone.
    pub recovery: Result<(), Trouble>,
}

/// A feature hook that owns an allocation and the changes that were made for it.
pub open spec fn owned_site(
    p: Placement,
    original: Seq<u8>,
    name: Seq<char>,
    at: usize,
    now: u64,
    changes: Seq<Changed>,
    feature: Option<Extra>,
) -> Hooked {
    Hooked {
        plan: p.plan,
        target: p.target,
        original,
        allocation: name,
        at,
        protection: None,
        modified: false,
        complete: false,
        deadline: (now + HOOK_LEASE_MS) as u64,
        changes,
        feature,
    }
}

/// An allocation that the target cannot lead to.
pub open spec fn out_of_reach() -> Failure {
    failure(
        RpcErrorCode::InvalidRequest,
        "hook trampoline is outside relative jump range"@,
    )
}

/// A feature hook that could not be put in place is undone.
pub open spec fn gives_up<B: MutationBackend>(
    backend: &B,
    place: (Seq<char>, Seq<char>),
    world: World<B::Handle, B::ThreadHandle>,
    hooks: Hooks,
    owned: Hooked,
    fault: Failure,
    a: Placing<B::Handle, B::ThreadHandle>,
    result: Result<Hooked, Failure>,
) -> bool {
    &&& undone(
        backend,
        place,
        world,
        hooks.insert(place, owned),
        a.undo,
        a.end,
        a.left,
        a.recovery,
    )
    &&& result == Err::<Hooked, Failure>(failed_with(fault, a.recovery))
}

/// What comes of a feature hook once it has its allocation: its code is written there,
/// and only after that the patches and last the target are changed.
pub open spec fn set_up<B: MutationBackend>(
    backend: &B,
    place: (Seq<char>, Seq<char>),
    p: Placement,
    original: Seq<u8>,
    name: Seq<char>,
    at: usize,
    now: u64,
    hooks: Hooks,
    a: Placing<B::Handle, B::ThreadHandle>,
    result: Result<Hooked, Failure>,
) -> bool {
    let start = a.allocate.after;
    let bare = owned_site(p, original, name, at, now, Seq::empty(), None);
    let size = feature_code_len(p, original);
    if at + size > usize::MAX || relative_jump(p.target, at, p.overwrite as nat) is Err {
        gives_up(backend, place, start, hooks, bare, out_of_reach(), a, result)
    } else {
        let address = address_text(at as nat);
        let script = seq![
            Op::Write { address, bytes: feature_code(p, original, at) },
            Op::Flush { address, size: size as usize },
        ];
        let written = world_after(start, a.write);
        &&& ran(backend, place.0, start, script, a.write)
        &&& if !completed(script, a.write) {
            gives_up(backend, place, written, hooks, bare, fault_of(a.write), a, result)
        } else {
            let list = all_patches(p, original, at);
            let after = world_of_patches(written, a.made);
            let owned = owned_site(
                p,
                original,
                name,
                at,
                now,
                changes_of(list, a.made),
                Some(
                    Extra {
                        kind: p.kind,
                        patches: list,
                        actions: p.actions,
                        size: size as usize,
                    },
                ),
            );
            &&& patches_ran(backend, place.0, written, list, a.made)
            &&& if a.made.len() == list.len() && patches_made(list, a.made) {
                let done = Hooked { complete: true, ..owned };
                &&& a.end == after
                &&& a.left == hooks.insert(place, done)
                &&& result == Ok::<Hooked, Failure>(done)
            } else {
                &&& a.made.len() > 0
                &&& gives_up(
                    backend,
                    place,
                    after,
                    hooks,
                    owned,
                    fault_of(a.made.last()),
                    a,
                    result,
                )
            }
        }
    }
}

/// What comes of putting a feature hook in place: everything is read before anything is
/// changed, and what was changed is undone where the hook cannot be completed.
pub open spec fn placed<B: MutationBackend>(
    backend: &B,
    place: (Seq<char>, Seq<char>),
    p: Placement,
    now: u64,
    before: World<B::Handle, B::ThreadHandle>,
    hooks: Hooks,
    a: Placing<B::Handle, B::ThreadHandle>,
    result: Result<Hooked, Failure>,
) -> bool {
    match placement_refusal(p) {
        Some(fault) => {
            &&& a.end == before
            &&& a.left == hooks
            &&& result == Err::<Hooked, Failure>(fault)
        },
        None => {
            let seen = world_after(before, a.survey);
            &&& ran(backend, place.0, before, survey_script(p), a.survey)
            &&& match survey_outcome(p, a.survey) {
                Err(fault) => {
                    &&& a.end == seen
                    &&& a.left == hooks
                    &&& result == Err::<Hooked, Failure>(fault)
                },
                Ok(original) => {
                    &&& step_made(backend, place.0, seen, a.allocate)
                    &&& a.allocate.op == (Op::Allocate {
                        near: Some(p.target),
                        size: feature_code_len(p, original) as usize,
                        protection: MemoryProtection::ExecuteReadWrite,
                    })
                    &&& match a.allocate.reply {
                        Reply::Fault { fault, said } => {
                            &&& a.end == a.allocate.after
                            &&& a.left == hooks
                            &&& result == Err::<Hooked, Failure>(fault)
                        },
                        Reply::Allocated { name, at } => set_up(
                            backend,
                            place,
                            p,
                            original,
                            name,
                            at,
                            now,
                            hooks,
                            a,
                            result,
                        ),
                        _ => false,
                    }
                },
            }
        },
    }
}

/// Makes one patch.
fn make_patch<B: MutationBackend>(
    sessions: &mut ProcessSessionRegistry<B::Handle>,
    backend: &B,
    session_id: &ProcessSessionId,
    patch: &HookPatch,
    Ghost(start): Ghost<World<B::Handle, B::ThreadHandle>>,
) -> (done: (
    Result<(), MutationApiError>,
    Option<MemoryProtection>,
    Ghost<Seq<Step<B::Handle, B::ThreadHandle>>>,
))
    requires
        old(sessions).wf(),
        start.sessions == old(sessions)@,
    ensures
        final(sessions).wf(),
        old(sessions)@.leads_to(final(sessions)@),
        ran(
            backend,
            session_id.0@,
            start,
            patch_script(patch@, found_rights(done.2@)),
            done.2@,
        ),
        world_after(start, done.2@) == (World { sessions: final(sessions)@, ..start }),
        done.1 is Some == was_opened(done.2@),
        done.1 matches Some(previous) ==> found_rights(done.2@) == previous,
        match done.0 {
            Ok(_) => done.1 is Some && patch_made(patch@, done.2@),
            Err(error) => faulted(done.2@) && fault_of(done.2@) == error@,
        },
{
    let ghost id = session_id.0@;
    let ghost owned = start.owned;
    let ghost mut steps: Seq<Step<B::Handle, B::ThreadHandle>> = Seq::empty();
    let address = format_address(patch.address);
    let size: usize = patch.expected_bytes.len();
    let (answer, Ghost(step)) = step_protect(
        sessions,
        backend,
        session_id,
        address.as_str(),
        size,
        MemoryProtection::ExecuteReadWrite,
        Ghost(owned),
    );
    let ghost first = seq![step];
    let ghost script = patch_script(patch@, found_rights(first));
    proof {
        lemma_follows_step(backend, id, start, script, steps, step);
        assert(steps.push(step) =~= first);
        steps = first;
    }
    let previous: MemoryProtection = match answer {
        Ok(previous) => previous,
        Err(error) => {
            return (Err(error), None, Ghost(steps));
        },
    };
    if patch.apply_on_activation {
        let (answer, Ghost(step)) = step_write(
            sessions,
            backend,
            session_id,
            address.as_str(),
            copy_bytes(patch.replacement_bytes.as_slice()),
            Ghost(owned),
        );
        proof {
            lemma_follows_step(backend, id, start, script, steps, step);
            steps = steps.push(step);
        }
        if let Err(error) = answer {
            return (Err(error), Some(previous), Ghost(steps));
        }
        let (answer, Ghost(step)) = step_flush(
            sessions,
            backend,
            session_id,
            address.as_str(),
            patch.replacement_bytes.len(),
            Ghost(owned),
        );
        proof {
            lemma_follows_step(backend, id, start, script, steps, step);
            steps = steps.push(step);
        }
        if let Err(error) = answer {
            return (Err(error), Some(previous), Ghost(steps));
        }
    }
    if !patch.keep_writable {
        let (answer, Ghost(step)) = step_protect(
            sessions,
            backend,
            session_id,
            address.as_str(),
            size,
            previous,
            Ghost(owned),
        );
        proof {
            lemma_follows_step(backend, id, start, script, steps, step);
            steps = steps.push(step);
        }
        if let Err(error) = answer {
            return (Err(error), Some(previous), Ghost(steps));
        }
    }
    (Ok(()), Some(previous), Ghost(steps))
}

fn make_patches<B: MutationBackend>(
    sessions: &mut ProcessSessionRegistry<B::Handle>,
    backend: &B,
    session_id: &ProcessSessionId,
    list: &Vec<HookPatch>,
    Ghost(start): Ghost<World<B::Handle, B::ThreadHandle>>,
) -> (done: (
    Result<(), MutationApiError>,
    Vec<OwnedChange>,
    Ghost<Seq<Seq<Step<B::Handle, B::ThreadHandle>>>>,
))
    requires
        old(sessions).wf(),
        start.sessions == old(sessions)@,
    ensures
        final(sessions).wf(),
        old(sessions)@.leads_to(final(sessions)@),
        patches_ran(backend, session_id.0@, start, patches(list@), done.2@),
        world_of_patches(start, done.2@) == (World { sessions: final(sessions)@, ..start }),
        changed_of(done.1@) == changes_of(patches(list@), done.2@),
        match done.0 {
            Ok(_) => done.2@.len() == list@.len() && patches_made(patches(list@), done.2@),
            Err(error) => {
                &&& 0 < done.2@.len()
                &&& !patches_made(patches(list@), done.2@)
                &&& fault_of(done.2@.last()) == error@
            },
        },
{
    let ghost all = patches(list@);
    let ghost id = session_id.0@;
    let ghost mut made: Seq<Seq<Step<B::Handle, B::ThreadHandle>>> = Seq::empty();
    let mut changes: Vec<OwnedChange> = Vec::new();
    let mut verdict: Result<(), MutationApiError> = Ok(());
    let mut i: usize = 0;
    proof {
        assert(changed_of(changes@) =~= Seq::empty());
    }
    while i < list.len() && verdict.is_ok()
        invariant
            i <= list@.len(),
            all == patches(list@),
            id == session_id.0@,
            made.len() == i,
            sessions.wf(),
            start.sessions.leads_to(sessions@),
            patches_ran(backend, id, start, all, made),
            world_of_patches(start, made) == (World { sessions: sessions@, ..start }),
            changed_of(changes@) == changes_of(all, made),
            match verdict {
                Ok(_) => patches_made(all, made),
                Err(error) => {
                    &&& 0 < made.len()
                    &&& !patches_made(all, made)
                    &&& fault_of(made.last()) == error@
                },
            },
        decreases list@.len() - i,
    {
        let patch = &list[i];
        let ghost before = made;
        let ghost owned = changes@;
        proof {
            assert(all[i as int] == patch@);
        }
        let (answer, opened, Ghost(steps)) = make_patch(
            sessions,
            backend,
            session_id,
            patch,
            Ghost(world_of_patches(start, made)),
        );
        if let Some(previous) = opened {
            changes.push(
                OwnedChange {
                    address: patch.address,
                    original: copy_bytes(patch.expected_bytes.as_slice()),
                    previous,
                },
            );
        }
        proof {
            made = before.push(steps);
            assert(made.drop_last() =~= before);
            if opened is Some {
                assert(changed_of(changes@) =~= changed_of(owned).push(changes@.last().changed()));
            }
            if answer is Ok {
                assert forall|j: int| 0 <= j < made.len() implies patch_made(
                    all[j],
                    #[trigger] made[j],
                ) by {
                    if j < before.len() {
                        assert(made[j] == before[j]);
                    }
                }
            } else {
                assert(!patch_made(all[i as int], made[i as int]));
            }
        }
        verdict = answer;
        i += 1;
    }
    (verdict, changes, Ghost(made))
}

fn survey_site<B: MutationBackend>(
    sessions: &mut ProcessSessionRegistry<B::Handle>,
    backend: &B,
    session_id: &ProcessSessionId,
    target: usize,
    template: &Template,
    signature: &Vec<Option<u8>>,
    Ghost(start): Ghost<World<B::Handle, B::ThreadHandle>>,
) -> (done: (Result<Vec<u8>, HookApiError>, Ghost<Seq<Step<B::Handle, B::ThreadHandle>>>))
    requires
        old(sessions).wf(),
        start.sessions == old(sessions)@,
        template.resolved_target == Some(target),
        signature_value(template.signature@) == Ok::<Seq<Option<u8>>, Failure>(signature@),
        template.overwrite_size <= signature@.len(),
    ensures
        final(sessions).wf(),
        old(sessions)@.leads_to(final(sessions)@),
        ran(
            backend,
            session_id.0@,
            start,
            survey_script(placement_of(*template)),
            done.1@,
        ),
        world_after(start, done.1@) == (World { sessions: final(sessions)@, ..start }),
        match (done.0, survey_outcome(placement_of(*template), done.1@)) {
            (Ok(bytes), Ok(original)) => bytes@ == original && bytes@.len()
                == template.overwrite_size,
            (Err(error), Err(fault)) => error@ == fault,
            _ => false,
        },
{
    let ghost p = placement_of(*template);
    let ghost script = survey_script(p);
    let ghost id = session_id.0@;
    let ghost owned = start.owned;
    let ghost mut steps: Seq<Step<B::Handle, B::ThreadHandle>> = Seq::empty();
    let address = format_address(target);
    let (answer, Ghost(step)) = step_read(
        sessions,
        backend,
        session_id,
        address.as_str(),
        template.overwrite_size,
        Ghost(owned),
    );
    proof {
        lemma_follows_step(backend, id, start, script, steps, step);
        steps = steps.push(step);
    }
    let original = match answer {
        Ok(original) => original,
        Err(error) => {
            return (Err(HookApiError::Memory(error)), Ghost(steps));
        },
    };
    let list = &template.auxiliary_patches;
    let mut alike = true;
    let mut trouble: Option<MemoryApiError> = None;
    let mut i: usize = 0;
    while i < list.len() && trouble.is_none()
        invariant
            i <= list@.len(),
            list@ == template.auxiliary_patches@,
            p == placement_of(*template),
            script == survey_script(p),
            id == session_id.0@,
            owned == start.owned,
            sessions.wf(),
            start.sessions.leads_to(sessions@),
            steps.len() == i + 1,
            follows(backend, id, start, script, steps),
            world_after(start, steps) == (World { sessions: sessions@, ..start }),
            steps[0].reply == (Reply::Bytes { bytes: original@ }),
            match trouble {
                None => {
                    &&& !faulted(steps)
                    &&& alike == forall|j: int|
                        0 <= j < i ==> #[trigger] p.patches[j].expected == steps[j + 1].reply->bytes
                },
                Some(error) => faulted(steps) && fault_of(steps) == error@,
            },
        decreases list@.len() - i,
    {
        let patch = &list[i];
        let place = format_address(patch.address);
        let ghost before = steps;
        proof {
            assert(p.patches[i as int] == patch@);
            assert(script[i + 1] == (Op::Read {
                address: place@,
                size: patch.expected_bytes@.len() as usize,
            }));
        }
        let (answer, Ghost(step)) = step_read(
            sessions,
            backend,
            session_id,
            place.as_str(),
            patch.expected_bytes.len(),
            Ghost(owned),
        );
        proof {
            lemma_follows_step(backend, id, start, script, steps, step);
            steps = steps.push(step);
            assert(forall|j: int| 0 <= j <= i ==> #[trigger] steps[j] == before[j]);
        }
        match answer {
            Err(error) => {
                trouble = Some(error);
            },
            Ok(bytes) => {
                let ghost was = alike;
                if !same_bytes(patch.expected_bytes.as_slice(), bytes.as_slice()) {
                    alike = false;
                }
                proof {
                    assert(alike == forall|j: int|
                        0 <= j < i + 1 ==> #[trigger] p.patches[j].expected == steps[j
                            + 1].reply->bytes) by {
                        if was {
                            assert forall|j: int| 0 <= j < i implies #[trigger] p.patches[j].expected
                                == steps[j + 1].reply->bytes by {
                                assert(steps[j + 1] == before[j + 1]);
                            }
                        } else {
                            let j = choose|j: int|
                                0 <= j < i && #[trigger] p.patches[j].expected != before[j
                                    + 1].reply->bytes;
                            assert(steps[j + 1] == before[j + 1]);
                            assert(p.patches[j].expected != steps[j + 1].reply->bytes);
                        }
                        assert(p.patches[i as int].expected == patch.expected_bytes@);
                        assert(steps[i + 1].reply->bytes == bytes@);
                    }
                }
            },
        }
        i += 1;
    }
    proof {
        assert(script.len() == 1 + p.patches.len());
        assert(p.patches.len() == list@.len());
    }
    if let Some(error) = trouble {
        return (Err(HookApiError::Memory(error)), Ghost(steps));
    }
    let head = slice_subrange(signature.as_slice(), 0, template.overwrite_size);
    proof {
        assert(head@ =~= signature@.take(template.overwrite_size as int));
        assert(completed(script, steps));
    }
    if !signature_matches(original.as_slice(), head) {
        return (
            Err(
                HookApiError::request(
                    RpcErrorCode::MemoryRequiredMatchNotFound,
                    "hook signature changed after scanning and before mutation".to_owned(),
                ),
            ),
            Ghost(steps),
        );
    }
    if template.replay_original {
        if let Err(error) = validate_relocatable_x64(original.as_slice()) {
            return (Err(error), Ghost(steps));
        }
    }
    if !alike {
        return (
            Err(
                HookApiError::request(
                    RpcErrorCode::MemoryRequiredMatchNotFound,
                    "hook signature changed after scanning and before mutation".to_owned(),
                ),
            ),
            Ghost(steps),
        );
    }
    (Ok(original), Ghost(steps))
}

fn check_placement(target: usize, template: &Template) -> (verdict: Result<
    Vec<Option<u8>>,
    HookApiError,
>)
    requires
        template.resolved_target == Some(target),
    ensures
        match (verdict, placement_refusal(placement_of(*template))) {
            (Ok(signature), None) => {
                &&& signature_value(template.signature@) == Ok::<Seq<Option<u8>>, Failure>(
                    signature@,
                )
                &&& signature@.len() <= MAX_SIGNATURE_BYTES
                &&& RELATIVE_JUMP_BYTES <= template.overwrite_size <= signature@.len()
                &&& target + template.overwrite_size <= usize::MAX
            },
            (Err(error), Some(fault)) => error@ == fault,
            _ => false,
        },
{
    proof {
        assert(placement_of(*template).patches.len() == template.auxiliary_patches@.len());
    }
    let signature = match parse_signature(template.signature.as_str()) {
        Ok(signature) => signature,
        Err(error) => {
            return Err(HookApiError::Memory(error));
        },
    };
    if template.overwrite_size < RELATIVE_JUMP_BYTES {
        return Err(
            HookApiError::request(
                RpcErrorCode::InvalidRequest,
                "feature hook overwrite must span at least 5 complete x64 bytes".to_owned(),
            ),
        );
    }
    if template.overwrite_size > signature.len() {
        return Err(
            HookApiError::request(
                RpcErrorCode::InvalidRequest,
                "hook overwrite extends beyond its verified signature".to_owned(),
            ),
        );
    }
    if target.checked_add(template.overwrite_size).is_none() {
        return Err(
            HookApiError::request(
                RpcErrorCode::MemoryInvalidAddress,
                "hook continuation address overflowed".to_owned(),
            ),
        );
    }
    if let Some((first, second)) = template.movement_action_patches {
        let count: usize = template.auxiliary_patches.len();
        if first >= count || second >= count {
            return Err(
                HookApiError::request(
                    RpcErrorCode::InvalidRequest,
                    "feature hook actions are not among its patches".to_owned(),
                ),
            );
        }
    }
    Ok(signature)
}

/// Undoes a feature hook that could not be put in place.
fn give_up<B: MutationBackend>(
    sessions: &mut ProcessSessionRegistry<B::Handle>,
    backend: &B,
    mutations: &mut MutationState<B::ThreadHandle>,
    hooks: &mut HookState,
    session_id: &ProcessSessionId,
    hook_key: &str,
    record: HookRecord,
    error: MutationApiError,
    Ghost(so_far): Ghost<Placing<B::Handle, B::ThreadHandle>>,
) -> (failed: (
    HookApiError,
    Ghost<Placing<B::Handle, B::ThreadHandle>>,
    Ghost<Result<Hooked, Failure>>,
))
    requires
        old(sessions).wf(),
        old(mutations).wf(),
        old(hooks).wf(),
        recoverable(record.hooked()),
    ensures
        final(sessions).wf(),
        final(mutations).wf(),
        final(hooks).wf(),
        old(sessions)@.leads_to(final(sessions)@),
        failed.1@ == (Placing {
            undo: failed.1@.undo,
            end: failed.1@.end,
            left: failed.1@.left,
            recovery: failed.1@.recovery,
            ..so_far
        }),
        gives_up(
            backend,
            (session_id.0@, hook_key@),
            World { sessions: old(sessions)@, owned: old(mutations)@ },
            old(hooks)@,
            record.hooked(),
            error@,
            failed.1@,
            failed.2@,
        ),
        failed.1@.end == (World { sessions: final(sessions)@, owned: final(mutations)@ }),
        failed.1@.left == final(hooks)@,
        failed.2@ == Err::<Hooked, Failure>(failed.0@),
{
    hooks.insert(session_id, hook_key, record);
    let (error, Ghost(undo), Ghost(recovery)) = activation_failure(
        sessions,
        backend,
        mutations,
        hooks,
        session_id,
        hook_key,
        HookApiError::Mutation(error),
    );
    let ghost a = Placing {
        undo,
        end: World { sessions: sessions@, owned: mutations@ },
        left: hooks@,
        recovery,
        ..so_far
    };
    let ghost fault = error@;
    (error, Ghost(a), Ghost(Err(fault)))
}

fn write_code<B: MutationBackend>(
    sessions: &mut ProcessSessionRegistry<B::Handle>,
    backend: &B,
    session_id: &ProcessSessionId,
    at: usize,
    code: Vec<u8>,
    Ghost(start): Ghost<World<B::Handle, B::ThreadHandle>>,
) -> (done: (Result<(), MutationApiError>, Ghost<Seq<Step<B::Handle, B::ThreadHandle>>>))
    requires
        old(sessions).wf(),
        start.sessions == old(sessions)@,
    ensures
        final(sessions).wf(),
        old(sessions)@.leads_to(final(sessions)@),
        ran(
            backend,
            session_id.0@,
            start,
            seq![
                Op::Write { address: address_text(at as nat), bytes: code@ },
                Op::Flush { address: address_text(at as nat), size: code@.len() as usize },
            ],
            done.1@,
        ),
        world_after(start, done.1@) == (World { sessions: final(sessions)@, ..start }),
        match done.0 {
            Ok(_) => done.1@.len() == 2 && !faulted(done.1@),
            Err(error) => faulted(done.1@) && fault_of(done.1@) == error@,
        },
{
    let ghost script = seq![
        Op::Write { address: address_text(at as nat), bytes: code@ },
        Op::Flush { address: address_text(at as nat), size: code@.len() as usize },
    ];
    let ghost id = session_id.0@;
    let ghost owned = start.owned;
    let ghost mut steps: Seq<Step<B::Handle, B::ThreadHandle>> = Seq::empty();
    let home = format_address(at);
    let length: usize = code.len();
    let (answer, Ghost(step)) = step_write(
        sessions,
        backend,
        session_id,
        home.as_str(),
        code,
        Ghost(owned),
    );
    proof {
        lemma_follows_step(backend, id, start, script, steps, step);
        steps = steps.push(step);
    }
    if let Err(error) = answer {
        return (Err(error), Ghost(steps));
    }
    let (answer, Ghost(step)) = step_flush(
        sessions,
        backend,
        session_id,
        home.as_str(),
        length,
        Ghost(owned),
    );
    proof {
        lemma_follows_step(backend, id, start, script, steps, step);
        steps = steps.push(step);
    }
    (answer, Ghost(steps))
}

/// Puts a feature hook in place, given the bytes of its target.
fn set_up_feature<B: MutationBackend>(
    sessions: &mut ProcessSessionRegistry<B::Handle>,
    backend: &B,
    mutations: &mut MutationState<B::ThreadHandle>,
    hooks: &mut HookState,
    session_id: &ProcessSessionId,
    hook_key: &str,
    template: Template,
    target: usize,
    original: Vec<u8>,
    name: String,
    at: usize,
    size: usize,
    now: u64,
    Ghost(so_far): Ghost<Placing<B::Handle, B::ThreadHandle>>,
) -> (done: (
    Result<(), HookApiError>,
    Ghost<Placing<B::Handle, B::ThreadHandle>>,
    Ghost<Result<Hooked, Failure>>,
))
    requires
        old(sessions).wf(),
        old(mutations).wf(),
        old(hooks).wf(),
        now + HOOK_LEASE_MS <= u64::MAX,
        template.resolved_target == Some(target),
        placement_refusal(placement_of(template)) is None,
        original@.len() == template.overwrite_size,
        original@.len() <= MAX_SIGNATURE_BYTES,
        size == feature_code_len(placement_of(template), original@),
        so_far.allocate.after == (World { sessions: old(sessions)@, owned: old(mutations)@ }),
    ensures
        final(sessions).wf(),
        final(mutations).wf(),
        final(hooks).wf(),
        old(sessions)@.leads_to(final(sessions)@),
        done.1@.survey == so_far.survey,
        done.1@.allocate == so_far.allocate,
        set_up(
            backend,
            (session_id.0@, hook_key@),
            placement_of(template),
            original@,
            name@,
            at,
            now,
            old(hooks)@,
            done.1@,
            done.2@,
        ),
        done.1@.end == (World { sessions: final(sessions)@, owned: final(mutations)@ }),
        done.1@.left == final(hooks)@,
        match (done.0, done.2@) {
            (Ok(_), Ok(_)) => true,
            (Err(error), Err(fault)) => error@ == fault,
            _ => false,
        },
{
    let ghost p = placement_of(template);
    let ghost place = (session_id.0@, hook_key@);
    let ghost start = so_far.allocate.after;
    let ghost saved = original@;
    let kind = template.payload_kind;
    let replay = template.replay_original;
    let span = template.overwrite_size;
    let actions = template.movement_action_patches;
    let replaying = if replay {
        copy_bytes(original.as_slice())
    } else {
        Vec::new()
    };
    let known = copy_bytes(original.as_slice());
    let spec = HookSpec {
        signature: template.signature,
        scope: template.scope,
        payload: template.payload,
        target_offset: template.target_offset,
        overwrite_size: Some(span),
    };
    let mut list = template.auxiliary_patches;
    let mut record = HookRecord {
        spec,
        target_address: target,
        original_bytes: original,
        allocation_id: name,
        allocation_address: at,
        original_protection: None,
        target_may_be_modified: false,
        activation_complete: false,
        lease_deadline: now + HOOK_LEASE_MS,
        changes: Vec::new(),
        feature: None,
    };
    proof {
        assert(replaying@ =~= replayed(p, saved));
        assert(changed_of(record.changes@) =~= Seq::empty());
        assert(record.hooked() == owned_site(p, saved, name@, at, now, Seq::empty(), None));
    }
    let jump = relative_detour(target, at, span);
    let jump = match (jump, at.checked_add(size)) {
        (Ok(jump), Some(_)) => jump,
        _ => {
            let (error, Ghost(a), Ghost(result)) = give_up(
                sessions,
                backend,
                mutations,
                hooks,
                session_id,
                hook_key,
                record,
                MutationApiError::request(
                    RpcErrorCode::InvalidRequest,
                    "hook trampoline is outside relative jump range".to_owned(),
                ),
                Ghost(so_far),
            );
            return (Err(error), Ghost(a), Ghost(result));
        },
    };
    let (body, _, _) = build_payload(kind, at);
    let code = build_trampoline(body.as_slice(), replaying.as_slice(), target + span);
    proof {
        assert(code@ == feature_code(p, saved, at));
    }
    let (answer, Ghost(write)) = write_code(sessions, backend, session_id, at, code, Ghost(start));
    let ghost written = world_after(start, write);
    let ghost so_far = Placing { write, ..so_far };
    if let Err(error) = answer {
        let (error, Ghost(a), Ghost(result)) = give_up(
            sessions,
            backend,
            mutations,
            hooks,
            session_id,
            hook_key,
            record,
            error,
            Ghost(so_far),
        );
        return (Err(error), Ghost(a), Ghost(result));
    }
    let ghost before = list@;
    list.push(
        HookPatch {
            address: target,
            expected_bytes: known,
            replacement_bytes: jump,
            apply_on_activation: true,
            keep_writable: false,
        },
    );
    let ghost all = all_patches(p, saved, at);
    proof {
        assert(patches(list@) =~= patches(before).push(list@.last()@));
        assert(patches(list@) == all);
    }
    let (answer, changes, Ghost(made)) = make_patches(
        sessions,
        backend,
        session_id,
        &list,
        Ghost(written),
    );
    let ghost so_far = Placing { made, ..so_far };
    record.changes = changes;
    record.feature = Some(FeatureSite { kind, patches: list, actions, size });
    let ghost extra = Extra { kind: p.kind, patches: all, actions: p.actions, size };
    let ghost owned = owned_site(p, saved, name@, at, now, changes_of(all, made), Some(extra));
    proof {
        assert(record.hooked() == owned);
        assert(p.patches.len() < all.len());
        assert(recoverable(owned));
    }
    if let Err(error) = answer {
        let (error, Ghost(a), Ghost(result)) = give_up(
            sessions,
            backend,
            mutations,
            hooks,
            session_id,
            hook_key,
            record,
            error,
            Ghost(so_far),
        );
        return (Err(error), Ghost(a), Ghost(result));
    }
    record.activation_complete = true;
    let ghost finished = Hooked { complete: true, ..owned };
    proof {
        assert(record.hooked() == finished);
    }
    hooks.insert(session_id, hook_key, record);
    let ghost a = Placing {
        end: World { sessions: sessions@, owned: mutations@ },
        left: hooks@,
        ..so_far
    };
    (Ok(()), Ghost(a), Ghost(Ok(finished)))
}

/// How putting a feature hook in place ends.
pub open spec fn placing_does<B: MutationBackend>(
    backend: &B,
    place: (Seq<char>, Seq<char>),
    p: Placement,
    now: u64,
    before: World<B::Handle, B::ThreadHandle>,
    hooks: Hooks,
    after: World<B::Handle, B::ThreadHandle>,
    left: Hooks,
    result: Result<(), Failure>,
) -> bool {
    exists|a: Placing<B::Handle, B::ThreadHandle>, hooked: Result<Hooked, Failure>|
        {
            &&& #[trigger] placed(backend, place, p, now, before, hooks, a, hooked)
            &&& after == a.end
            &&& left == a.left
            &&& match (result, hooked) {
                (Ok(_), Ok(_)) => true,
                (Err(one), Err(other)) => one == other,
                _ => false,
            }
        }
}

/// What an answer without a value says.
pub open spec fn plainly(answer: Result<(), HookApiError>) -> Result<(), Failure> {
    match answer {
        Ok(_) => Ok(()),
        Err(error) => Err(error@),
    }
}

/// Puts a feature hook in place as its template says.
pub fn activate_feature_template<B: MutationBackend>(
    sessions: &mut ProcessSessionRegistry<B::Handle>,
    backend: &B,
    mutations: &mut MutationState<B::ThreadHandle>,
    hooks: &mut HookState,
    session_id: &ProcessSessionId,
    hook_key: &str,
    template: Template,
    now: u64,
) -> (answer: Result<(), HookApiError>)
    requires
        old(sessions).wf(),
        old(mutations).wf(),
        old(hooks).wf(),
        now + HOOK_LEASE_MS <= u64::MAX,
        template.resolved_target is Some,
    ensures
        final(sessions).wf(),
        final(mutations).wf(),
        final(hooks).wf(),
        old(sessions)@.leads_to(final(sessions)@),
        placing_does(
            backend,
            (session_id.0@, hook_key@),
            placement_of(template),
            now,
            World { sessions: old(sessions)@, owned: old(mutations)@ },
            old(hooks)@,
            World { sessions: final(sessions)@, owned: final(mutations)@ },
            final(hooks)@,
            plainly(answer),
        ),
{
    let ghost place = (session_id.0@, hook_key@);
    let ghost p = placement_of(template);
    let ghost before = World { sessions: sessions@, owned: mutations@ };
    let ghost held = hooks@;
    let ghost blank: Placing<B::Handle, B::ThreadHandle> = arbitrary();
    let target: usize = match template.resolved_target {
        Some(target) => target,
        None => {
            proof {
                assert(false);
            }
            vstd::pervasive::unreached()
        },
    };
    let signature = match check_placement(target, &template) {
        Ok(signature) => signature,
        Err(error) => {
            proof {
                let a = Placing { end: before, left: held, ..blank };
                assert(placed(backend, place, p, now, before, held, a, Err(error@)));
            }
            return Err(error);
        },
    };
    let (surveyed, Ghost(survey)) = survey_site(
        sessions,
        backend,
        session_id,
        target,
        &template,
        &signature,
        Ghost(before),
    );
    let ghost seen = world_after(before, survey);
    let original = match surveyed {
        Ok(original) => original,
        Err(error) => {
            proof {
                let a = Placing { survey, end: seen, left: held, ..blank };
                assert(placed(backend, place, p, now, before, held, a, Err(error@)));
            }
            return Err(error);
        },
    };
    let room: usize = if template.replay_original {
        original.len()
    } else {
        0
    };
    let size: usize = find_counter(template.payload_kind) + 8 + room + ABSOLUTE_JUMP_BYTES;
    let (answer, Ghost(step)) = step_allocate(
        sessions,
        backend,
        mutations,
        session_id,
        Some(target),
        size,
        MemoryProtection::ExecuteReadWrite,
    );
    let ghost so_far = Placing { survey, allocate: step, end: step.after, left: held, ..blank };
    let (name, at): (String, usize) = match answer {
        Ok(allocated) => allocated,
        Err(error) => {
            proof {
                assert(placed(backend, place, p, now, before, held, so_far, Err(error@)));
            }
            return Err(HookApiError::Mutation(error));
        },
    };
    let (done, Ghost(a), Ghost(result)) = set_up_feature(
        sessions,
        backend,
        mutations,
        hooks,
        session_id,
        hook_key,
        template,
        target,
        original,
        name,
        at,
        size,
        now,
        Ghost(so_far),
    );
    proof {
        assert(placed(backend, place, p, now, before, held, a, result));
    }
    done
}

/// The answer to an activation, for the hook that is in place.
pub open spec fn shows_hook(
    response: HookActivateResponse,
    place: (Seq<char>, Seq<char>),
    hooked: Hooked,
) -> bool {
    &&& response.session_id.0@ == place.0
    &&& response.hook_key@ == place.1
    &&& response.target_address@ == address_text(hooked.target as nat)
    &&& response.allocation_id@ == hooked.allocation
    &&& response.allocation_address@ == address_text(hooked.at as nat)
    &&& response.active
}

fn activation_response(
    session_id: &ProcessSessionId,
    hook_key: &str,
    record: &HookRecord,
) -> (response: HookActivateResponse)
    ensures
        shows_hook(response, (session_id.0@, hook_key@), record.hooked()),
{
    HookActivateResponse {
        session_id: session_id.clone(),
        hook_key: hook_key.to_owned(),
        target_address: format_address(record.target_address),
        allocation_id: record.allocation_id.clone(),
        allocation_address: format_address(record.allocation_address),
        active: true,
    }
}

/// The plan of a request.
pub open spec fn requested(
    request: HookActivateRequest,
    target_offset: usize,
    overwrite_size: Option<usize>,
) -> HookPlan {
    HookPlan {
        signature: request.signature@,
        scope: scope_name(request.scope),
        payload: request.payload@,
        target_offset,
        overwrite_size,
    }
}

/// What an activation does, with its answer.
pub open spec fn activate_does<B: MutationBackend>(
    backend: &B,
    request: HookActivateRequest,
    target_offset: usize,
    overwrite_size: Option<usize>,
    now: u64,
    before: World<B::Handle, B::ThreadHandle>,
    hooks: Hooks,
    after: World<B::Handle, B::ThreadHandle>,
    left: Hooks,
    answer: Result<HookActivateResponse, HookApiError>,
) -> bool {
    let place = (request.session_id.0@, request.hook_key@);
    exists|result: Result<Hooked, Failure>|
        {
            &&& #[trigger] activates(
                backend,
                place,
                requested(request, target_offset, overwrite_size),
                now,
                before,
                hooks,
                after,
                left,
                result,
            )
            &&& match (answer, result) {
                (Ok(response), Ok(hooked)) => shows_hook(response, place, hooked),
                (Err(error), Err(fault)) => error@ == fault,
                _ => false,
            }
        }
}

/// Puts a hook in place at an offset from the one place where a signature
/// occurs, over a span that is given, that is read off the site, or that is as
/// long as the signature.
pub fn activate_template<B: MutationBackend>(
    sessions: &mut ProcessSessionRegistry<B::Handle>,
    backend: &B,
    mutations: &mut MutationState<B::ThreadHandle>,
    hooks: &mut HookState,
    request: &HookActivateRequest,
    target_offset: usize,
    overwrite_size: Option<usize>,
    now: u64,
) -> (answer: Result<HookActivateResponse, HookApiError>)
    requires
        old(sessions).wf(),
        old(mutations).wf(),
        old(hooks).wf(),
        now + HOOK_LEASE_MS <= u64::MAX,
    ensures
        final(sessions).wf(),
        final(mutations).wf(),
        final(hooks).wf(),
        old(sessions)@.leads_to(final(sessions)@),
        activate_does(
            backend,
            *request,
            target_offset,
            overwrite_size,
            now,
            World { sessions: old(sessions)@, owned: old(mutations)@ },
            old(hooks)@,
            World { sessions: final(sessions)@, owned: final(mutations)@ },
            final(hooks)@,
            answer,
        ),
{
    let ghost before = World { sessions: sessions@, owned: mutations@ };
    let ghost held = hooks@;
    let ghost place = (request.session_id.0@, request.hook_key@);
    let ghost plan = requested(*request, target_offset, overwrite_size);
    if let Err(error) = validate_hook_key(request.hook_key.as_str()) {
        proof {
            assert(activates(backend, place, plan, now, before, held, before, held, Err(error@)));
        }
        return Err(error);
    }
    let signature = match parse_signature(request.signature.as_str()) {
        Ok(signature) => signature,
        Err(error) => {
            proof {
                assert(activates(backend, place, plan, now, before, held, before, held, Err(error@)));
            }
            return Err(HookApiError::Memory(error));
        },
    };
    if signature.len() < MIN_HOOK_SIGNATURE_BYTES {
        let least = format_decimal(MIN_HOOK_SIGNATURE_BYTES as u64);
        let error = HookApiError::request(
            RpcErrorCode::MemoryPatternInvalid,
            join3(
                "hook signatures must span at least ",
                least.as_str(),
                " bytes for an x64 absolute detour",
            ),
        );
        proof {
            assert(activates(backend, place, plan, now, before, held, before, held, Err(error@)));
        }
        return Err(error);
    }
    if request.payload.len() > MAX_HOOK_PAYLOAD_BYTES {
        let most = format_decimal(MAX_HOOK_PAYLOAD_BYTES as u64);
        let error = HookApiError::request(
            RpcErrorCode::MemoryLimitExceeded,
            join3("hook payload must not exceed ", most.as_str(), " bytes"),
        );
        proof {
            assert(activates(backend, place, plan, now, before, held, before, held, Err(error@)));
        }
        return Err(error);
    }
    let spec = HookSpec {
        signature: request.signature.clone(),
        scope: request.scope.clone(),
        payload: copy_bytes(request.payload.as_slice()),
        target_offset,
        overwrite_size,
    };
    assert(spec.plan() == plan);
    match hooks.take(&request.session_id, request.hook_key.as_str()) {
        Some(existing) => {
            let mut existing = existing;
            if !existing.spec.same(&spec) {
                hooks.insert(&request.session_id, request.hook_key.as_str(), existing);
                let shown = quoted(request.hook_key.as_str());
                let error = HookApiError::request(
                    RpcErrorCode::InvalidRequest,
                    join3(
                        "hook key ",
                        shown.as_str(),
                        " is already active with a different specification",
                    ),
                );
                proof {
                    assert(hooks@ =~= held);
                    assert(activates(backend, place, plan, now, before, held, before, held, Err(error@)));
                }
                return Err(error);
            }
            if !existing.activation_complete {
                hooks.insert(&request.session_id, request.hook_key.as_str(), existing);
                let error = HookApiError::request(
                    RpcErrorCode::InvalidRequest,
                    "a prior hook activation failed and its recovery ownership is retained; deactivate it before retrying".to_owned(),
                );
                proof {
                    assert(hooks@ =~= held);
                    assert(activates(backend, place, plan, now, before, held, before, held, Err(error@)));
                }
                return Err(error);
            }
            existing.lease_deadline = now + HOOK_LEASE_MS;
            let response = activation_response(
                &request.session_id,
                request.hook_key.as_str(),
                &existing,
            );
            let ghost renewed = existing.hooked();
            hooks.insert(&request.session_id, request.hook_key.as_str(), existing);
            proof {
                assert(hooks@ =~= held.insert(place, renewed));
                assert(activates(backend, place, plan, now, before, held, before, hooks@, Ok(renewed)));
            }
            return Ok(response);
        },
        None => {
            proof {
                assert(hooks@ =~= held);
            }
        },
    }
    let ghost value = signature@;
    let (found, Ghost(search)) = find_site(
        sessions,
        backend,
        &request.session_id,
        &spec,
        &signature,
        Ghost(before.owned),
    );
    match found {
        Err(error) => {
            proof {
                let a = Activation {
                    search,
                    allocate: arbitrary(),
                    prepare: arbitrary(),
                    divert: arbitrary(),
                    undo: arbitrary(),
                    end: World { sessions: sessions@, owned: mutations@ },
                    left: held,
                    recovery: arbitrary(),
                };
                let result = Err::<Hooked, Failure>(error@);
                assert(activation_made(backend, place, plan, value, now, before, held, a, result));
                lemma_activates(backend, place, plan, value, now, before, held, a, result);
            }
            Err(error)
        },
        Ok((target, original)) => {
            let (done, Ghost(a), Ghost(result)) = install(
                sessions,
                backend,
                mutations,
                hooks,
                &request.session_id,
                request.hook_key.as_str(),
                spec,
                target,
                original,
                now,
            );
            proof {
                let a = Activation { search, ..a };
                assert(activation_made(backend, place, plan, value, now, before, held, a, result));
                lemma_activates(backend, place, plan, value, now, before, held, a, result);
            }
            match done {
                Err(error) => Err(error),
                Ok(()) => match hooks.get(&request.session_id, request.hook_key.as_str()) {
                    Some(record) => Ok(
                        activation_response(
                            &request.session_id,
                            request.hook_key.as_str(),
                            record,
                        ),
                    ),
                    None => {
                        proof {
                            assert(false);
                        }
                        vstd::pervasive::unreached()
                    },
                },
            }
        },
    }
}

proof fn lemma_activates<B: MutationBackend>(
    backend: &B,
    place: (Seq<char>, Seq<char>),
    plan: HookPlan,
    signature: Seq<Option<u8>>,
    now: u64,
    before: World<B::Handle, B::ThreadHandle>,
    hooks: Hooks,
    a: Activation<B::Handle, B::ThreadHandle>,
    result: Result<Hooked, Failure>,
)
    requires
        key_refusal(place.1) is None,
        signature_value(plan.signature) == Ok::<Seq<Option<u8>>, Failure>(signature),
        plan_refusal(plan, signature) is None,
        !hooks.dom().contains(place),
        activation_made(
            backend,
            place,
            plan,
            signature,
            now,
            before,
            hooks,
            a,
            result,
        ),
    ensures
        activates(backend, place, plan, now, before, hooks, a.end, a.left, result),
{
}

/// Puts a hook in place over the one place where a signature occurs.
pub fn activate<B: MutationBackend>(
    sessions: &mut ProcessSessionRegistry<B::Handle>,
    backend: &B,
    mutations: &mut MutationState<B::ThreadHandle>,
    hooks: &mut HookState,
    request: &HookActivateRequest,
    now: u64,
) -> (answer: Result<HookActivateResponse, HookApiError>)
    requires
        old(sessions).wf(),
        old(mutations).wf(),
        old(hooks).wf(),
        now + HOOK_LEASE_MS <= u64::MAX,
    ensures
        final(sessions).wf(),
        final(mutations).wf(),
        final(hooks).wf(),
        old(sessions)@.leads_to(final(sessions)@),
        activate_does(
            backend,
            *request,
            0,
            None,
            now,
            World { sessions: old(sessions)@, owned: old(mutations)@ },
            old(hooks)@,
            World { sessions: final(sessions)@, owned: final(mutations)@ },
            final(hooks)@,
            answer,
        ),
{
    activate_template(sessions, backend, mutations, hooks, request, 0, None, now)
}

/// What taking a hook out does, and whether there was one. Where there is none,
/// nothing happens.
pub open spec fn takes_out<B: MutationBackend>(
    backend: &B,
    place: (Seq<char>, Seq<char>),
    before: World<B::Handle, B::ThreadHandle>,
    hooks: Hooks,
    after: World<B::Handle, B::ThreadHandle>,
    left: Hooks,
    result: Result<bool, Trouble>,
) -> bool {
    if !hooks.dom().contains(place) {
        after == before && left == hooks && result == Ok::<bool, Trouble>(false)
    } else {
        exists|steps: Seq<Step<B::Handle, B::ThreadHandle>>, outcome: Result<(), Trouble>|
            {
                &&& #[trigger] undone(
                    backend,
                    place,
                    before,
                    hooks,
                    steps,
                    after,
                    left,
                    outcome,
                )
                &&& result == match outcome {
                    Ok(_) => Ok::<bool, Trouble>(true),
                    Err(trouble) => Err(trouble),
                }
            }
    }
}

/// What a request to take a hook out does, with its answer.
pub open spec fn deactivate_does<B: MutationBackend>(
    backend: &B,
    request: HookDeactivateRequest,
    before: World<B::Handle, B::ThreadHandle>,
    hooks: Hooks,
    after: World<B::Handle, B::ThreadHandle>,
    left: Hooks,
    answer: Result<HookDeactivateResponse, HookApiError>,
) -> bool {
    let place = (request.session_id.0@, request.hook_key@);
    match key_refusal(place.1) {
        Some(fault) => after == before && left == hooks && decides(answer, Some(fault)),
        None => exists|result: Result<bool, Trouble>|
            {
                &&& #[trigger] takes_out(backend, place, before, hooks, after, left, result)
                &&& match (answer, result) {
                    (Ok(response), Ok(there)) => {
                        &&& response.session_id.0@ == place.0
                        &&& response.hook_key@ == place.1
                        &&& response.deactivated == there
                        &&& response.allocation_released == there
                    },
                    (Err(error), Err(trouble)) => error.trouble() == trouble && error is Mutation,
                    _ => false,
                }
            },
    }
}

/// Takes a hook out.
pub fn deactivate<B: MutationBackend>(
    sessions: &mut ProcessSessionRegistry<B::Handle>,
    backend: &B,
    mutations: &mut MutationState<B::ThreadHandle>,
    hooks: &mut HookState,
    request: &HookDeactivateRequest,
) -> (answer: Result<HookDeactivateResponse, HookApiError>)
    requires
        old(sessions).wf(),
        old(mutations).wf(),
        old(hooks).wf(),
    ensures
        final(sessions).wf(),
        final(mutations).wf(),
        final(hooks).wf(),
        old(sessions)@.leads_to(final(sessions)@),
        deactivate_does(
            backend,
            *request,
            World { sessions: old(sessions)@, owned: old(mutations)@ },
            old(hooks)@,
            World { sessions: final(sessions)@, owned: final(mutations)@ },
            final(hooks)@,
            answer,
        ),
{
    let ghost before = World { sessions: sessions@, owned: mutations@ };
    let ghost held = hooks@;
    let ghost place = (request.session_id.0@, request.hook_key@);
    if let Err(error) = validate_hook_key(request.hook_key.as_str()) {
        return Err(error);
    }
    if hooks.get(&request.session_id, request.hook_key.as_str()).is_none() {
        assert(takes_out(backend, place, before, held, before, held, Ok(false)));
        return Ok(
            HookDeactivateResponse {
                session_id: request.session_id.clone(),
                hook_key: request.hook_key.clone(),
                deactivated: false,
                allocation_released: false,
            },
        );
    }
    let (done, Ghost(steps)) = cleanup_one(
        sessions,
        backend,
        mutations,
        hooks,
        &request.session_id,
        request.hook_key.as_str(),
    );
    proof {
        let after = World { sessions: sessions@, owned: mutations@ };
        assert(undone(backend, place, before, held, steps, after, hooks@, verdict(done)));
        let result = match verdict(done) {
            Ok(_) => Ok::<bool, Trouble>(true),
            Err(trouble) => Err(trouble),
        };
        assert(takes_out(backend, place, before, held, after, hooks@, result));
    }
    match done {
        Err(error) => Err(error),
        Ok(()) => Ok(
            HookDeactivateResponse {
                session_id: request.session_id.clone(),
                hook_key: request.hook_key.clone(),
                deactivated: true,
                allocation_released: true,
            },
        ),
    }
}

/// A hook key that has no hook.
pub open spec fn not_active(key: Seq<char>) -> Failure {
    failure(RpcErrorCode::InvalidRequest, "hook key "@ + quoted_text(key) + " is not active"@)
}

/// The hooks after a heartbeat, and its failure. A heartbeat renews the lease and
/// changes nothing else.
pub open spec fn after_heartbeat(hooks: Hooks, place: (Seq<char>, Seq<char>), now: u64) -> (
    Hooks,
    Option<Failure>,
) {
    match key_refusal(place.1) {
        Some(fault) => (hooks, Some(fault)),
        None => if !hooks.dom().contains(place) {
            (hooks, Some(not_active(place.1)))
        } else {
            (
                hooks.insert(
                    place,
                    Hooked { deadline: (now + HOOK_LEASE_MS) as u64, ..hooks[place] },
                ),
                None,
            )
        },
    }
}

/// Renews the lease of a hook.
pub fn heartbeat(
    hooks: &mut HookState,
    request: &HookHeartbeatRequest,
    now: u64,
) -> (answer: Result<HookHeartbeatResponse, HookApiError>)
    requires
        old(hooks).wf(),
        now + HOOK_LEASE_MS <= u64::MAX,
    ensures
        final(hooks).wf(),
        ({
            let place = (request.session_id.0@, request.hook_key@);
            let (left, fault) = after_heartbeat(old(hooks)@, place, now);
            &&& final(hooks)@ == left
            &&& decides(answer, fault)
            &&& answer matches Ok(response) ==> {
                &&& response.session_id.0@ == place.0
                &&& response.hook_key@ == place.1
                &&& response.active
            }
        }),
{
    let ghost held = hooks@;
    let ghost place = (request.session_id.0@, request.hook_key@);
    if let Err(error) = validate_hook_key(request.hook_key.as_str()) {
        return Err(error);
    }
    match hooks.take(&request.session_id, request.hook_key.as_str()) {
        None => {
            proof {
                assert(hooks@ =~= held);
            }
            let shown = quoted(request.hook_key.as_str());
            Err(
                HookApiError::request(
                    RpcErrorCode::InvalidRequest,
                    join3("hook key ", shown.as_str(), " is not active"),
                ),
            )
        },
        Some(record) => {
            let mut record = record;
            record.lease_deadline = now + HOOK_LEASE_MS;
            let ghost renewed = record.hooked();
            hooks.insert(&request.session_id, request.hook_key.as_str(), record);
            proof {
                assert(hooks@ =~= held.insert(place, renewed));
            }
            Ok(
                HookHeartbeatResponse {
                    session_id: request.session_id.clone(),
                    hook_key: request.hook_key.clone(),
                    active: true,
                },
            )
        },
    }
}

/// Where the undoing of one hook left things.
pub ghost struct HookTurn<H, T> {
    pub world: World<H, T>,
    pub hooks: Hooks,
    pub result: Result<(), Trouble>,
}

/// Where things stood before a turn.
pub open spec fn before_hook_turn<H, T>(
    first: HookTurn<H, T>,
    turns: Seq<HookTurn<H, T>>,
    i: int,
) -> HookTurn<H, T> {
    if i == 0 {
        first
    } else {
        turns[i - 1]
    }
}

/// Whether one hook was undone in its turn.
#[verifier::opaque]
pub open spec fn hook_turn_made<B: MutationBackend>(
    backend: &B,
    place: (Seq<char>, Seq<char>),
    before: HookTurn<B::Handle, B::ThreadHandle>,
    after: HookTurn<B::Handle, B::ThreadHandle>,
) -> bool {
    exists|steps: Seq<Step<B::Handle, B::ThreadHandle>>| #[trigger]
        undone(
            backend,
            place,
            before.world,
            before.hooks,
            steps,
            after.world,
            after.hooks,
            after.result,
        )
}

/// Whether hooks were undone in turn, each one whatever came of the others.
pub open spec fn hook_turns_made<B: MutationBackend>(
    backend: &B,
    places: Seq<(Seq<char>, Seq<char>)>,
    first: HookTurn<B::Handle, B::ThreadHandle>,
    turns: Seq<HookTurn<B::Handle, B::ThreadHandle>>,
) -> bool {
    &&& turns.len() == places.len()
    &&& forall|i: int|
        0 <= i < places.len() ==> hook_turn_made(
            backend,
            places[i],
            before_hook_turn(first, turns, i),
            #[trigger] turns[i],
        )
}

proof fn lemma_hook_turn<B: MutationBackend>(
    backend: &B,
    place: (Seq<char>, Seq<char>),
    before: HookTurn<B::Handle, B::ThreadHandle>,
    after: HookTurn<B::Handle, B::ThreadHandle>,
    steps: Seq<Step<B::Handle, B::ThreadHandle>>,
)
    requires
        undone(
            backend,
            place,
            before.world,
            before.hooks,
            steps,
            after.world,
            after.hooks,
            after.result,
        ),
    ensures
        hook_turn_made(backend, place, before, after),
{
    reveal(hook_turn_made);
}

/// How a hook that was not undone is named.
pub open spec fn unreleased(place: (Seq<char>, Seq<char>), expired: bool, said: Seq<char>) -> Seq<
    char,
> {
    if expired {
        "expired hook "@ + quoted_text(place.1) + " in session "@ + place.0 + ": "@ + said
    } else {
        "hook "@ + quoted_text(place.1) + ": "@ + said
    }
}

/// What failed in the first turns.
pub open spec fn hook_failures<H, T>(
    places: Seq<(Seq<char>, Seq<char>)>,
    turns: Seq<HookTurn<H, T>>,
    expired: bool,
    n: int,
) -> Seq<Seq<char>>
    decreases n,
{
    if n <= 0 {
        Seq::empty()
    } else {
        let before = hook_failures(places, turns, expired, n - 1);
        match turns[n - 1].result {
            Ok(_) => before,
            Err(trouble) => before.push(unreleased(places[n - 1], expired, trouble.said)),
        }
    }
}

proof fn lemma_hook_failures_agree<H, T>(
    places: Seq<(Seq<char>, Seq<char>)>,
    a: Seq<HookTurn<H, T>>,
    b: Seq<HookTurn<H, T>>,
    expired: bool,
    n: int,
)
    requires
        forall|i: int| 0 <= i < n ==> a[i] == b[i],
    ensures
        hook_failures(places, a, expired, n) == hook_failures(places, b, expired, n),
    decreases n,
{
    if n > 0 {
        lemma_hook_failures_agree(places, a, b, expired, n - 1);
    }
}

/// The places of a list of sessions and keys.
pub open spec fn places_of(list: Seq<(ProcessSessionId, String)>) -> Seq<(Seq<char>, Seq<char>)> {
    list.map_values(|entry: (ProcessSessionId, String)| (entry.0.0@, entry.1@))
}

fn undo_in_turn<B: MutationBackend>(
    sessions: &mut ProcessSessionRegistry<B::Handle>,
    backend: &B,
    mutations: &mut MutationState<B::ThreadHandle>,
    hooks: &mut HookState,
    list: &Vec<(ProcessSessionId, String)>,
    expired: bool,
) -> (done: (Vec<String>, Ghost<Seq<HookTurn<B::Handle, B::ThreadHandle>>>))
    requires
        old(sessions).wf(),
        old(mutations).wf(),
        old(hooks).wf(),
        places_of(list@).no_duplicates(),
        forall|i: int|
            0 <= i < list@.len() ==> old(hooks)@.dom().contains(#[trigger] places_of(list@)[i]),
    ensures
        final(sessions).wf(),
        final(mutations).wf(),
        final(hooks).wf(),
        old(sessions)@.leads_to(final(sessions)@),
        ({
            let places = places_of(list@);
            let n = list@.len() as int;
            let first = HookTurn {
                world: World { sessions: old(sessions)@, owned: old(mutations)@ },
                hooks: old(hooks)@,
                result: Ok(()),
            };
            let last = before_hook_turn(first, done.1@, n);
            &&& hook_turns_made(backend, places, first, done.1@)
            &&& last.world == (World { sessions: final(sessions)@, owned: final(mutations)@ })
            &&& last.hooks == final(hooks)@
            &&& texts(done.0@) == hook_failures(places, done.1@, expired, n)
            &&& done.0@.len() <= n
        }),
{
    let ghost places = places_of(list@);
    let ghost first = HookTurn {
        world: World { sessions: sessions@, owned: mutations@ },
        hooks: hooks@,
        result: Ok(()),
    };
    let ghost mut turns: Seq<HookTurn<B::Handle, B::ThreadHandle>> = Seq::empty();
    let mut failures: Vec<String> = Vec::new();
    proof {
        assert(texts(failures@) =~= Seq::empty());
    }
    let mut i: usize = 0;
    while i < list.len()
        invariant
            i <= list@.len(),
            places == places_of(list@),
            places.no_duplicates(),
            sessions.wf(),
            mutations.wf(),
            hooks.wf(),
            first.world.sessions == old(sessions)@,
            first.world.owned == old(mutations)@,
            first.hooks == old(hooks)@,
            first.result == Ok::<(), Trouble>(()),
            first.world.sessions.leads_to(sessions@),
            turns.len() == i,
            forall|j: int|
                0 <= j < i ==> hook_turn_made(
                    backend,
                    places[j],
                    before_hook_turn(first, turns, j),
                    #[trigger] turns[j],
                ),
            before_hook_turn(first, turns, i as int).world == (World {
                sessions: sessions@,
                owned: mutations@,
            }),
            before_hook_turn(first, turns, i as int).hooks == hooks@,
            forall|j: int|
                i <= j < list@.len() ==> hooks@.dom().contains(#[trigger] places[j]),
            texts(failures@) == hook_failures(places, turns, expired, i as int),
            failures@.len() <= i,
        decreases list@.len() - i,
    {
        let ghost before = turns;
        let ghost at = before_hook_turn(first, turns, i as int);
        let ghost held = hooks@;
        let entry = &list[i];
        proof {
            assert(places[i as int] == (entry.0.0@, entry.1@));
            assert(hooks@.dom().contains(places[i as int]));
        }
        let (answer, Ghost(steps)) = cleanup_one(
            sessions,
            backend,
            mutations,
            hooks,
            &entry.0,
            entry.1.as_str(),
        );
        proof {
            let turn = HookTurn {
                world: World { sessions: sessions@, owned: mutations@ },
                hooks: hooks@,
                result: verdict(answer),
            };
            lemma_hook_turn(backend, places[i as int], at, turn, steps);
            turns = before.push(turn);
            assert forall|j: int| 0 <= j <= i implies hook_turn_made(
                backend,
                places[j],
                before_hook_turn(first, turns, j),
                #[trigger] turns[j],
            ) by {
                assert(before_hook_turn(first, turns, j) == before_hook_turn(first, before, j));
                if j < i {
                    assert(hook_turn_made(
                        backend,
                        places[j],
                        before_hook_turn(first, before, j),
                        before[j],
                    ));
                }
            }
            lemma_hook_failures_agree(places, before, turns, expired, i as int);
            assert forall|j: int| i + 1 <= j < list@.len() implies hooks@.dom().contains(
                #[trigger] places[j],
            ) by {
                assert(held.dom().contains(places[j]));
                assert(places[j] != places[i as int]);
            }
        }
        if let Err(error) = answer {
            let key = quoted(entry.1.as_str());
            let said = error.summary();
            let text = if expired {
                let head = join4(
                    "expired hook ",
                    key.as_str(),
                    " in session ",
                    entry.0.0.as_str(),
                );
                join3(head.as_str(), ": ", said.as_str())
            } else {
                join4("hook ", key.as_str(), ": ", said.as_str())
            };
            let ghost told = failures@;
            failures.push(text);
            proof {
                assert(texts(failures@) =~= texts(told).push(text@));
            }
        }
        i += 1;
    }
    (failures, Ghost(turns))
}

/// Hooks that were not undone, as a failure.
pub open spec fn cleanup_failure(
    context: Seq<char>,
    id: Option<Seq<char>>,
    failures: Seq<Seq<char>>,
) -> Failure {
    let session = match id {
        Some(id) => " for session "@ + id,
        None => Seq::empty(),
    };
    failure(
        RpcErrorCode::MemoryWriteFailed,
        "hook cleanup "@ + context + session + " failed for "@ + dec_text(failures.len())
            + " record(s); failed records remain tracked for retry: "@ + joined(
            failures,
            "; "@,
        ),
    )
}

fn cleanup_failures(
    context: &str,
    session_id: Option<&ProcessSessionId>,
    failures: &Vec<String>,
) -> (verdict: Result<(), HookApiError>)
    ensures
        match verdict {
            Ok(_) => failures@.len() == 0,
            Err(error) => failures@.len() > 0 && error@ == cleanup_failure(
                context@,
                match session_id {
                    Some(id) => Some(id.0@),
                    None => None,
                },
                texts(failures@),
            ) && error.text() == error@.message,
        },
{
    if failures.len() == 0 {
        return Ok(());
    }
    let session = match session_id {
        Some(session_id) => join2(" for session ", session_id.0.as_str()),
        None => String::new(),
    };
    let count = format_decimal(failures.len() as u64);
    let listed = join_all(failures, "; ");
    let head = join4("hook cleanup ", context, session.as_str(), " failed for ");
    let message = join4(
        head.as_str(),
        count.as_str(),
        " record(s); failed records remain tracked for retry: ",
        listed.as_str(),
    );
    proof {
        assert(texts(failures@).len() == failures@.len());
    }
    Err(HookApiError::request(RpcErrorCode::MemoryWriteFailed, message))
}

/// The places of a session's hooks, by ascending key.
pub open spec fn session_places(hooks: Hooks, id: Seq<char>) -> Seq<(Seq<char>, Seq<char>)> {
    in_order(keys_of(hooks, id)).map_values(|key: Seq<char>| (id, key))
}

/// What cleaning up a session does: every hook of it has its turn.
pub open spec fn cleanup_session_does<B: MutationBackend>(
    backend: &B,
    id: Seq<char>,
    before: World<B::Handle, B::ThreadHandle>,
    hooks: Hooks,
    after: World<B::Handle, B::ThreadHandle>,
    left: Hooks,
    result: Result<(), Trouble>,
) -> bool {
    let places = session_places(hooks, id);
    let first = HookTurn { world: before, hooks, result: Ok(()) };
    exists|turns: Seq<HookTurn<B::Handle, B::ThreadHandle>>|
        {
            let n = places.len() as int;
            let failures = hook_failures(places, turns, false, n);
            let last = before_hook_turn(first, turns, n);
            &&& #[trigger] hook_turns_made(backend, places, first, turns)
            &&& after == last.world
            &&& left == last.hooks
            &&& result == if failures.len() == 0 {
                Ok(())
            } else {
                let fault = cleanup_failure("session"@, Some(id), failures);
                Err(Trouble { fault, said: fault.message })
            }
        }
}

/// Undoes all hooks of a session. It is tried again where one was kept.
pub fn cleanup_session<B: MutationBackend>(
    sessions: &mut ProcessSessionRegistry<B::Handle>,
    backend: &B,
    mutations: &mut MutationState<B::ThreadHandle>,
    hooks: &mut HookState,
    session_id: &ProcessSessionId,
) -> (answer: Result<(), HookApiError>)
    requires
        old(sessions).wf(),
        old(mutations).wf(),
        old(hooks).wf(),
    ensures
        final(sessions).wf(),
        final(mutations).wf(),
        final(hooks).wf(),
        old(sessions)@.leads_to(final(sessions)@),
        cleanup_session_does(
            backend,
            session_id.0@,
            World { sessions: old(sessions)@, owned: old(mutations)@ },
            old(hooks)@,
            World { sessions: final(sessions)@, owned: final(mutations)@ },
            final(hooks)@,
            verdict(answer),
        ),
{
    let ghost id = session_id.0@;
    let ghost held = hooks@;
    let ghost before = World { sessions: sessions@, owned: mutations@ };
    let keys = hooks.keys(session_id);
    let mut list: Vec<(ProcessSessionId, String)> = Vec::new();
    let ghost places = session_places(held, id);
    proof {
        assert(places_of(list@) =~= places.take(0));
    }
    let mut i: usize = 0;
    while i < keys.len()
        invariant
            i <= keys@.len(),
            id == session_id.0@,
            places == session_places(held, id),
            texts(keys@) == in_order(keys_of(held, id)),
            places_of(list@) == places.take(i as int),
            list@.len() == i,
        decreases keys@.len() - i,
    {
        let ghost told = list@;
        list.push((session_id.clone(), keys[i].clone()));
        proof {
            assert(texts(keys@)[i as int] == keys@[i as int]@);
            assert(places.len() == keys@.len());
            assert(places[i as int] == (id, keys@[i as int]@));
            assert(places_of(list@) =~= places_of(told).push((id, keys@[i as int]@)));
            assert(places.take(i + 1) =~= places.take(i as int).push(places[i as int]));
        }
        i += 1;
    }
    proof {
        assert(texts(keys@).len() == keys@.len());
        assert(places.take(i as int) =~= places);
        lemma_session_places(held, id, texts(keys@));
    }
    let (failures, Ghost(turns)) = undo_in_turn(
        sessions,
        backend,
        mutations,
        hooks,
        &list,
        false,
    );
    let answer = cleanup_failures("session", Some(session_id), &failures);
    proof {
        assert(texts(failures@).len() == failures@.len());
        let first = HookTurn { world: before, hooks: held, result: Ok::<(), Trouble>(()) };
        assert(hook_turns_made(backend, places, first, turns));
        lemma_cleanup_session_does(backend, id, before, held, turns);
    }
    answer
}

proof fn lemma_cleanup_session_does<B: MutationBackend>(
    backend: &B,
    id: Seq<char>,
    before: World<B::Handle, B::ThreadHandle>,
    hooks: Hooks,
    turns: Seq<HookTurn<B::Handle, B::ThreadHandle>>,
)
    requires
        hook_turns_made(
            backend,
            session_places(hooks, id),
            HookTurn { world: before, hooks, result: Ok(()) },
            turns,
        ),
    ensures
        ({
            let places = session_places(hooks, id);
            let first = HookTurn { world: before, hooks, result: Ok(()) };
            let n = places.len() as int;
            let failures = hook_failures(places, turns, false, n);
            let last = before_hook_turn(first, turns, n);
            let fault = cleanup_failure("session"@, Some(id), failures);
            cleanup_session_does(
                backend,
                id,
                before,
                hooks,
                last.world,
                last.hooks,
                if failures.len() == 0 {
                    Ok(())
                } else {
                    Err(Trouble { fault, said: fault.message })
                },
            )
        }),
{
}

proof fn lemma_session_places(hooks: Hooks, id: Seq<char>, keys: Seq<Seq<char>>)
    requires
        keys == in_order(keys_of(hooks, id)),
        keys.to_set() == keys_of(hooks, id),
        keys.no_duplicates(),
    ensures
        session_places(hooks, id).no_duplicates(),
        forall|i: int|
            0 <= i < keys.len() ==> hooks.dom().contains(#[trigger] session_places(hooks, id)[i]),
{
    let places = session_places(hooks, id);
    assert forall|i: int| 0 <= i < keys.len() implies hooks.dom().contains(
        #[trigger] places[i],
    ) by {
        assert(keys.to_set().contains(keys[i]));
        assert(keys_of(hooks, id).contains(keys[i]));
    }
    assert forall|i: int, j: int|
        0 <= i < places.len() && 0 <= j < places.len() && i != j implies places[i]
        != places[j] by {
        assert(keys[i] != keys[j]);
    }
}

/// A hook whose lease has run out.
pub open spec fn has_expired(hooks: Hooks, place: (Seq<char>, Seq<char>), now: u64) -> bool {
    hooks.dom().contains(place) && hooks[place].deadline <= now
}

/// The hooks whose lease has run out, each once.
pub open spec fn lists_expired(
    places: Seq<(Seq<char>, Seq<char>)>,
    hooks: Hooks,
    now: u64,
) -> bool {
    &&& places.no_duplicates()
    &&& forall|place: (Seq<char>, Seq<char>)| #[trigger]
        places.contains(place) <==> has_expired(hooks, place, now)
}

spec fn gathered(
    places: Seq<(Seq<char>, Seq<char>)>,
    hooks: Hooks,
    now: u64,
    ids: Seq<Seq<char>>,
    id: Seq<char>,
    keys: Seq<Seq<char>>,
) -> bool {
    &&& places.no_duplicates()
    &&& forall|place: (Seq<char>, Seq<char>)| #[trigger]
        places.contains(place) <==> has_expired(hooks, place, now) && (ids.contains(place.0) || (
        place.0 == id && keys.contains(place.1)))
}

proof fn lemma_contains_push<A>(list: Seq<A>, item: A)
    ensures
        forall|other: A| #[trigger]
            list.push(item).contains(other) <==> list.contains(other) || other == item,
{
    assert forall|other: A| list.contains(other) || other == item implies #[trigger] list.push(
        item,
    ).contains(other) by {
        if list.contains(other) {
            let i = choose|i: int| 0 <= i < list.len() && list[i] == other;
            assert(list.push(item)[i] == other);
        } else {
            assert(list.push(item)[list.len() as int] == other);
        }
    }
    assert forall|other: A| #[trigger] list.push(item).contains(other) implies list.contains(other)
        || other == item by {
        let i = choose|i: int| 0 <= i < list.push(item).len() && list.push(item)[i] == other;
        if i < list.len() {
            assert(list[i] == other);
        }
    }
}

proof fn lemma_no_duplicates_push<A>(list: Seq<A>, item: A)
    requires
        list.no_duplicates(),
        !list.contains(item),
    ensures
        list.push(item).no_duplicates(),
{
    let longer = list.push(item);
    assert forall|i: int, j: int|
        0 <= i < longer.len() && 0 <= j < longer.len() && i != j implies longer[i] != longer[j] by {
        if i < list.len() && j < list.len() {
            assert(list[i] != list[j]);
        } else if i < list.len() {
            assert(list.contains(list[i]));
        } else {
            assert(list.contains(list[j]));
        }
    }
}

impl HookState {
    fn session_ids(&self) -> (ids: Vec<ProcessSessionId>)
        requires
            self.wf(),
        ensures
            lists_hook_sessions(ids@, self@),
    {
        let mut ids: Vec<ProcessSessionId> = Vec::new();
        let mut i: usize = 0;
        while i < self.sessions.len()
            invariant
                i <= self.sessions.keys().len(),
                ids@.len() == i,
                forall|j: int| 0 <= j < i ==> (#[trigger] ids@[j]).0@ == self.sessions.keys()[j],
            decreases self.sessions.keys().len() - i,
        {
            ids.push(ProcessSessionId(self.sessions.key_at(i).clone()));
            i += 1;
        }
        proof {
            self.sessions.lemma_keys();
            assert forall|place: (Seq<char>, Seq<char>)| #[trigger]
                self@.dom().contains(place) implies exists|j: int|
                0 <= j < ids@.len() && (#[trigger] ids@[j]).0@ == place.0 by {
                assert(self.sessions.keys().contains(place.0));
                let j = choose|j: int|
                    0 <= j < self.sessions.keys().len() && self.sessions.keys()[j] == place.0;
                assert(ids@[j].0@ == place.0);
            }
        }
        ids
    }

    fn expired(&self, now: u64) -> (list: Vec<(ProcessSessionId, String)>)
        requires
            self.wf(),
        ensures
            lists_expired(places_of(list@), self@, now),
    {
        let ids = self.session_ids();
        let ghost names = Seq::new(ids@.len(), |j: int| ids@[j].0@);
        let mut list: Vec<(ProcessSessionId, String)> = Vec::new();
        let mut i: usize = 0;
        proof {
            assert(places_of(list@) =~= Seq::empty());
        }
        while i < ids.len()
            invariant
                i <= ids@.len(),
                self.wf(),
                lists_hook_sessions(ids@, self@),
                names == Seq::new(ids@.len(), |j: int| ids@[j].0@),
                gathered(
                    places_of(list@),
                    self@,
                    now,
                    names.take(i as int),
                    Seq::empty(),
                    Seq::empty(),
                ),
            decreases ids@.len() - i,
        {
            let id = &ids[i];
            let keys = self.keys(id);
            let ghost seen = names.take(i as int);
            proof {
                assert(!seen.contains(id.0@)) by {
                    if seen.contains(id.0@) {
                        let j = choose|j: int| 0 <= j < seen.len() && seen[j] == id.0@;
                        assert(ids@[j].0@ == ids@[i as int].0@);
                    }
                }
                assert(texts(keys@).take(0) =~= Seq::empty());
            }
            let mut k: usize = 0;
            while k < keys.len()
                invariant
                    k <= keys@.len(),
                    self.wf(),
                    texts(keys@).no_duplicates(),
                    texts(keys@).to_set() == keys_of(self@, id.0@),
                    !seen.contains(id.0@),
                    gathered(
                        places_of(list@),
                        self@,
                        now,
                        seen,
                        id.0@,
                        texts(keys@).take(k as int),
                    ),
                decreases keys@.len() - k,
            {
                let key = &keys[k];
                let ghost place = (id.0@, key@);
                let ghost before = list@;
                let ghost some = texts(keys@).take(k as int);
                proof {
                    assert(texts(keys@)[k as int] == key@);
                    assert(texts(keys@).to_set().contains(key@));
                    assert(keys_of(self@, id.0@).contains(key@));
                    assert(texts(keys@).take(k + 1) =~= some.push(key@));
                    lemma_contains_push(some, key@);
                    assert(!some.contains(key@)) by {
                        if some.contains(key@) {
                            let j = choose|j: int| 0 <= j < some.len() && some[j] == key@;
                            assert(texts(keys@)[j] == texts(keys@)[k as int]);
                        }
                    }
                }
                match self.get(id, key.as_str()) {
                    Some(record) => {
                        if record.lease_deadline <= now {
                            list.push((id.clone(), key.clone()));
                            proof {
                                assert(places_of(list@) =~= places_of(before).push(place));
                                lemma_contains_push(places_of(before), place);
                                lemma_no_duplicates_push(places_of(before), place);
                            }
                        }
                    },
                    None => {
                        proof {
                            assert(false);
                        }
                    },
                }
                k += 1;
            }
            proof {
                assert(texts(keys@).len() == keys@.len());
                assert(texts(keys@).take(k as int) =~= texts(keys@));
                assert(names.take(i + 1) =~= seen.push(id.0@));
                lemma_contains_push(seen, id.0@);
                assert forall|place: (Seq<char>, Seq<char>)| #[trigger]
                    places_of(list@).contains(place) <==> has_expired(self@, place, now)
                        && names.take(i + 1).contains(place.0) by {
                    if has_expired(self@, place, now) && place.0 == id.0@ {
                        assert(keys_of(self@, id.0@).contains(place.1));
                        assert(texts(keys@).to_set().contains(place.1));
                    }
                }
                assert(gathered(
                    places_of(list@),
                    self@,
                    now,
                    names.take(i + 1),
                    Seq::empty(),
                    Seq::empty(),
                ));
            }
            i += 1;
        }
        proof {
            assert(names.take(i as int) =~= names);
            assert forall|place: (Seq<char>, Seq<char>)| #[trigger]
                places_of(list@).contains(place) <==> has_expired(self@, place, now) by {
                if has_expired(self@, place, now) {
                    let j = choose|j: int| 0 <= j < ids@.len() && (#[trigger] ids@[j]).0@ == place.0;
                    assert(names[j] == place.0);
                }
            }
        }
        list
    }
}

/// The sessions that own hooks, each once.
pub open spec fn lists_hook_sessions(ids: Seq<ProcessSessionId>, hooks: Hooks) -> bool {
    &&& forall|place: (Seq<char>, Seq<char>)| #[trigger]
        hooks.dom().contains(place) ==> exists|j: int|
            0 <= j < ids.len() && (#[trigger] ids[j]).0@ == place.0
    &&& forall|i: int, j: int|
        0 <= i < j < ids.len() ==> (#[trigger] ids[i]).0@ != (#[trigger] ids[j]).0@
}

/// What expiry does: exactly the hooks whose lease has run out are undone, each
/// whatever came of the others. The answer is how many were.
pub open spec fn expire_does<B: MutationBackend>(
    backend: &B,
    now: u64,
    before: World<B::Handle, B::ThreadHandle>,
    hooks: Hooks,
    after: World<B::Handle, B::ThreadHandle>,
    left: Hooks,
    result: Result<nat, Failure>,
) -> bool {
    let first = HookTurn { world: before, hooks, result: Ok(()) };
    exists|
        places: Seq<(Seq<char>, Seq<char>)>,
        turns: Seq<HookTurn<B::Handle, B::ThreadHandle>>,
    |
        {
            let n = places.len() as int;
            let failures = hook_failures(places, turns, true, n);
            let last = before_hook_turn(first, turns, n);
            &&& lists_expired(places, hooks, now)
            &&& #[trigger] hook_turns_made(backend, places, first, turns)
            &&& after == last.world
            &&& left == last.hooks
            &&& result == if failures.len() == 0 {
                Ok(n as nat)
            } else {
                Err(cleanup_failure("lease expiry"@, None, failures))
            }
        }
}

proof fn lemma_expire_does<B: MutationBackend>(
    backend: &B,
    now: u64,
    before: World<B::Handle, B::ThreadHandle>,
    hooks: Hooks,
    places: Seq<(Seq<char>, Seq<char>)>,
    turns: Seq<HookTurn<B::Handle, B::ThreadHandle>>,
)
    requires
        lists_expired(places, hooks, now),
        hook_turns_made(
            backend,
            places,
            HookTurn { world: before, hooks, result: Ok(()) },
            turns,
        ),
    ensures
        ({
            let first = HookTurn { world: before, hooks, result: Ok(()) };
            let n = places.len() as int;
            let failures = hook_failures(places, turns, true, n);
            let last = before_hook_turn(first, turns, n);
            expire_does(
                backend,
                now,
                before,
                hooks,
                last.world,
                last.hooks,
                if failures.len() == 0 {
                    Ok(n as nat)
                } else {
                    Err(cleanup_failure("lease expiry"@, None, failures))
                },
            )
        }),
{
}

/// A count or a failure.
pub open spec fn counted(answer: Result<usize, HookApiError>) -> Result<nat, Failure> {
    match answer {
        Ok(count) => Ok(count as nat),
        Err(error) => Err(error@),
    }
}

/// Undoes the hooks whose lease has run out by the given time.
pub fn expire_at<B: MutationBackend>(
    sessions: &mut ProcessSessionRegistry<B::Handle>,
    backend: &B,
    mutations: &mut MutationState<B::ThreadHandle>,
    hooks: &mut HookState,
    now: u64,
) -> (answer: Result<usize, HookApiError>)
    requires
        old(sessions).wf(),
        old(mutations).wf(),
        old(hooks).wf(),
    ensures
        final(sessions).wf(),
        final(mutations).wf(),
        final(hooks).wf(),
        old(sessions)@.leads_to(final(sessions)@),
        expire_does(
            backend,
            now,
            World { sessions: old(sessions)@, owned: old(mutations)@ },
            old(hooks)@,
            World { sessions: final(sessions)@, owned: final(mutations)@ },
            final(hooks)@,
            counted(answer),
        ),
{
    let ghost held = hooks@;
    let ghost before = World { sessions: sessions@, owned: mutations@ };
    let list = hooks.expired(now);
    let ghost places = places_of(list@);
    proof {
        assert forall|i: int| 0 <= i < list@.len() implies held.dom().contains(
            #[trigger] places[i],
        ) by {
            assert(places.contains(places[i]));
        }
    }
    let (failures, Ghost(turns)) = undo_in_turn(
        sessions,
        backend,
        mutations,
        hooks,
        &list,
        true,
    );
    proof {
        assert(texts(failures@).len() == failures@.len());
        assert(places.len() == list@.len());
        lemma_expire_does(backend, now, before, held, places, turns);
    }
    match cleanup_failures("lease expiry", None, &failures) {
        Err(error) => Err(error),
        Ok(()) => Ok(list.len()),
    }
}

/// Whether one session was cleaned up in its turn.
#[verifier::opaque]
pub open spec fn session_turn_made<B: MutationBackend>(
    backend: &B,
    id: Seq<char>,
    before: HookTurn<B::Handle, B::ThreadHandle>,
    after: HookTurn<B::Handle, B::ThreadHandle>,
) -> bool {
    cleanup_session_does(
        backend,
        id,
        before.world,
        before.hooks,
        after.world,
        after.hooks,
        after.result,
    )
}

proof fn lemma_session_turn<B: MutationBackend>(
    backend: &B,
    id: Seq<char>,
    before: HookTurn<B::Handle, B::ThreadHandle>,
    after: HookTurn<B::Handle, B::ThreadHandle>,
)
    requires
        cleanup_session_does(
            backend,
            id,
            before.world,
            before.hooks,
            after.world,
            after.hooks,
            after.result,
        ),
    ensures
        session_turn_made(backend, id, before, after),
{
    reveal(session_turn_made);
}

/// Whether sessions were cleaned up in turn.
pub open spec fn session_turns_made<B: MutationBackend>(
    backend: &B,
    ids: Seq<ProcessSessionId>,
    first: HookTurn<B::Handle, B::ThreadHandle>,
    turns: Seq<HookTurn<B::Handle, B::ThreadHandle>>,
) -> bool {
    &&& turns.len() == ids.len()
    &&& forall|i: int|
        0 <= i < ids.len() ==> session_turn_made(
            backend,
            ids[i].0@,
            before_hook_turn(first, turns, i),
            #[trigger] turns[i],
        )
}

/// What failed in the first sessions.
pub open spec fn session_failures<H, T>(
    ids: Seq<ProcessSessionId>,
    turns: Seq<HookTurn<H, T>>,
    n: int,
) -> Seq<Seq<char>>
    decreases n,
{
    if n <= 0 {
        Seq::empty()
    } else {
        let before = session_failures(ids, turns, n - 1);
        match turns[n - 1].result {
            Ok(_) => before,
            Err(trouble) => before.push("session "@ + ids[n - 1].0@ + ": "@ + trouble.said),
        }
    }
}

proof fn lemma_session_failures_agree<H, T>(
    ids: Seq<ProcessSessionId>,
    a: Seq<HookTurn<H, T>>,
    b: Seq<HookTurn<H, T>>,
    n: int,
)
    requires
        forall|i: int| 0 <= i < n ==> a[i] == b[i],
    ensures
        session_failures(ids, a, n) == session_failures(ids, b, n),
    decreases n,
{
    if n > 0 {
        lemma_session_failures_agree(ids, a, b, n - 1);
    }
}

/// What cleaning up everything does: every session that owns hooks has its turn.
pub open spec fn cleanup_all_does<B: MutationBackend>(
    backend: &B,
    before: World<B::Handle, B::ThreadHandle>,
    hooks: Hooks,
    after: World<B::Handle, B::ThreadHandle>,
    left: Hooks,
    result: Result<(), Failure>,
) -> bool {
    let first = HookTurn { world: before, hooks, result: Ok(()) };
    exists|ids: Seq<ProcessSessionId>, turns: Seq<HookTurn<B::Handle, B::ThreadHandle>>|
        {
            let n = ids.len() as int;
            let failures = session_failures(ids, turns, n);
            let last = before_hook_turn(first, turns, n);
            &&& lists_hook_sessions(ids, hooks)
            &&& #[trigger] session_turns_made(backend, ids, first, turns)
            &&& after == last.world
            &&& left == last.hooks
            &&& result == if failures.len() == 0 {
                Ok(())
            } else {
                Err(cleanup_failure("agent"@, None, failures))
            }
        }
}

proof fn lemma_cleanup_all_does<B: MutationBackend>(
    backend: &B,
    before: World<B::Handle, B::ThreadHandle>,
    hooks: Hooks,
    ids: Seq<ProcessSessionId>,
    turns: Seq<HookTurn<B::Handle, B::ThreadHandle>>,
)
    requires
        lists_hook_sessions(ids, hooks),
        session_turns_made(
            backend,
            ids,
            HookTurn { world: before, hooks, result: Ok(()) },
            turns,
        ),
    ensures
        ({
            let first = HookTurn { world: before, hooks, result: Ok(()) };
            let n = ids.len() as int;
            let failures = session_failures(ids, turns, n);
            let last = before_hook_turn(first, turns, n);
            cleanup_all_does(
                backend,
                before,
                hooks,
                last.world,
                last.hooks,
                if failures.len() == 0 {
                    Ok(())
                } else {
                    Err(cleanup_failure("agent"@, None, failures))
                },
            )
        }),
{
}

/// A verdict or a failure.
pub open spec fn plain_verdict(answer: Result<(), HookApiError>) -> Result<(), Failure> {
    match answer {
        Ok(_) => Ok(()),
        Err(error) => Err(error@),
    }
}

/// Undoes all hooks of all sessions.
pub fn cleanup_all<B: MutationBackend>(
    sessions: &mut ProcessSessionRegistry<B::Handle>,
    backend: &B,
    mutations: &mut MutationState<B::ThreadHandle>,
    hooks: &mut HookState,
) -> (answer: Result<(), HookApiError>)
    requires
        old(sessions).wf(),
        old(mutations).wf(),
        old(hooks).wf(),
    ensures
        final(sessions).wf(),
        final(mutations).wf(),
        final(hooks).wf(),
        old(sessions)@.leads_to(final(sessions)@),
        cleanup_all_does(
            backend,
            World { sessions: old(sessions)@, owned: old(mutations)@ },
            old(hooks)@,
            World { sessions: final(sessions)@, owned: final(mutations)@ },
            final(hooks)@,
            plain_verdict(answer),
        ),
{
    let ghost held = hooks@;
    let ghost before = World { sessions: sessions@, owned: mutations@ };
    let ghost first = HookTurn { world: before, hooks: held, result: Ok::<(), Trouble>(()) };
    let ids = hooks.session_ids();
    let ghost mut turns: Seq<HookTurn<B::Handle, B::ThreadHandle>> = Seq::empty();
    let mut failures: Vec<String> = Vec::new();
    proof {
        assert(texts(failures@) =~= Seq::empty());
    }
    let mut i: usize = 0;
    while i < ids.len()
        invariant
            i <= ids@.len(),
            sessions.wf(),
            mutations.wf(),
            hooks.wf(),
            before.sessions == old(sessions)@,
            before.sessions.leads_to(sessions@),
            first == (HookTurn { world: before, hooks: held, result: Ok::<(), Trouble>(()) }),
            turns.len() == i,
            forall|j: int|
                0 <= j < i ==> session_turn_made(
                    backend,
                    ids@[j].0@,
                    before_hook_turn(first, turns, j),
                    #[trigger] turns[j],
                ),
            before_hook_turn(first, turns, i as int).world == (World {
                sessions: sessions@,
                owned: mutations@,
            }),
            before_hook_turn(first, turns, i as int).hooks == hooks@,
            texts(failures@) == session_failures(ids@, turns, i as int),
        decreases ids@.len() - i,
    {
        let ghost earlier = turns;
        let ghost at = before_hook_turn(first, turns, i as int);
        let answer = cleanup_session(sessions, backend, mutations, hooks, &ids[i]);
        proof {
            let turn = HookTurn {
                world: World { sessions: sessions@, owned: mutations@ },
                hooks: hooks@,
                result: verdict(answer),
            };
            lemma_session_turn(backend, ids@[i as int].0@, at, turn);
            turns = earlier.push(turn);
            assert forall|j: int| 0 <= j <= i implies session_turn_made(
                backend,
                ids@[j].0@,
                before_hook_turn(first, turns, j),
                #[trigger] turns[j],
            ) by {
                assert(before_hook_turn(first, turns, j) == before_hook_turn(first, earlier, j));
                if j < i {
                    assert(session_turn_made(
                        backend,
                        ids@[j].0@,
                        before_hook_turn(first, earlier, j),
                        earlier[j],
                    ));
                }
            }
            lemma_session_failures_agree(ids@, earlier, turns, i as int);
        }
        if let Err(error) = answer {
            let said = error.summary();
            let text = join4("session ", ids[i].0.as_str(), ": ", said.as_str());
            let ghost told = failures@;
            failures.push(text);
            proof {
                assert(texts(failures@) =~= texts(told).push(text@));
            }
        }
        i += 1;
    }
    proof {
        assert(session_turns_made(backend, ids@, first, turns));
        lemma_cleanup_all_does(backend, before, held, ids@, turns);
        assert(texts(failures@).len() == failures@.len());
    }
    cleanup_failures("agent", None, &failures)
}

/// A failed activation leaves no hook behind, or one that is still owned and not
/// complete. The hooks of other keys are as they were.
pub proof fn failed_activation_is_undone_or_owned<B: MutationBackend>(
    backend: &B,
    place: (Seq<char>, Seq<char>),
    plan: HookPlan,
    now: u64,
    before: World<B::Handle, B::ThreadHandle>,
    hooks: Hooks,
    after: World<B::Handle, B::ThreadHandle>,
    left: Hooks,
    fault: Failure,
)
    requires
        !hooks.dom().contains(place),
        activates(backend, place, plan, now, before, hooks, after, left, Err(fault)),
    ensures
        left == hooks || (left.dom().contains(place) && !left[place].complete
            && left.remove(place) == hooks),
{
    if key_refusal(place.1) is None && signature_value(plan.signature) is Ok {
        let signature = signature_value(plan.signature)->Ok_0;
        if plan_refusal(plan, signature) is None {
            let a = choose|a: Activation<B::Handle, B::ThreadHandle>| #[trigger]
                activation_made(
                    backend,
                    place,
                    plan,
                    signature,
                    now,
                    before,
                    hooks,
                    a,
                    Err(fault),
                ) && after == a.end && left == a.left;
            if let Reply::Allocated { name, at } = a.allocate.reply {
                if let Ok(site) = search_outcome(plan, signature, a.search).1 {
                    let first = provisional(plan, site, name, at, now);
                    assert(hooks.insert(place, first).remove(place) =~= hooks);
                    if a.prepare.len() > 0 {
                        let previous = a.prepare.last().reply->Previous_protection;
                        let opened = Hooked {
                            protection: Some(previous),
                            modified: true,
                            ..first
                        };
                        assert(hooks.insert(place, opened).remove(place) =~= hooks);
                    }
                }
            }
        }
    }
}

/// What undoes a hook that was put in place writes back the bytes that its site
/// held when it was found, makes them visible, gives the site the access rights
/// back that it had, and releases the allocation last.
pub proof fn deactivation_restores_the_site<B: MutationBackend>(
    backend: &B,
    place: (Seq<char>, Seq<char>),
    plan: HookPlan,
    site: Site,
    now: u64,
    before: World<B::Handle, B::ThreadHandle>,
    hooks: Hooks,
    a: Activation<B::Handle, B::ThreadHandle>,
    hooked: Hooked,
)
    requires
        installed(backend, place, plan, site, now, before, hooks, a, Ok(hooked)),
    ensures
        ({
            let address = address_text(site.target as nat);
            let size = site.original.len() as usize;
            undo_script(hooked) == seq![
                Op::Protect { address, size, protection: MemoryProtection::ExecuteReadWrite },
                Op::Write { address, bytes: site.original },
                Op::Flush { address, size },
                Op::Protect {
                    address,
                    size,
                    protection: a.prepare.last().reply->Previous_protection,
                },
                Op::Free { name: a.allocate.reply->name },
            ]
        }),
{
    let address = address_text(site.target as nat);
    let size = site.original.len() as usize;
    assert(undo_script(hooked) =~= seq![
        Op::Protect { address, size, protection: MemoryProtection::ExecuteReadWrite },
        Op::Write { address, bytes: site.original },
        Op::Flush { address, size },
        Op::Protect {
            address,
            size,
            protection: a.prepare.last().reply->Previous_protection,
        },
        Op::Free { name: a.allocate.reply->name },
    ]);
}

/// An activation of a hook that is in place already, with the same plan, answers with the
/// same hook and moves its lease to thirty seconds after it. Nothing else happens.
pub proof fn repeated_activation_renews_the_lease<B: MutationBackend>(
    backend: &B,
    place: (Seq<char>, Seq<char>),
    plan: HookPlan,
    now: u64,
    before: World<B::Handle, B::ThreadHandle>,
    hooks: Hooks,
    middle: World<B::Handle, B::ThreadHandle>,
    active: Hooks,
    hooked: Hooked,
    later: u64,
    again: World<B::Handle, B::ThreadHandle>,
    after: World<B::Handle, B::ThreadHandle>,
    left: Hooks,
    result: Result<Hooked, Failure>,
)
    requires
        activates(backend, place, plan, now, before, hooks, middle, active, Ok(hooked)),
        activates(backend, place, plan, later, again, active, after, left, result),
        later + HOOK_LEASE_MS <= u64::MAX,
    ensures
        after == again,
        result matches Ok(renewed) && {
            &&& renewed.deadline == later + HOOK_LEASE_MS
            &&& renewed == Hooked { deadline: renewed.deadline, ..hooked }
            &&& left == active.insert(place, renewed)
        },
{
    assert(active.dom().contains(place) && active[place] == hooked);
    assert(hooked.plan == plan && hooked.complete);
}

/// The steps by which a hook was put in place, and what it keeps of them: the site that
/// was found, with the bytes that it held and the access rights that it had, and the
/// allocation that was made.
pub open spec fn put_in_by<B: MutationBackend>(
    backend: &B,
    place: (Seq<char>, Seq<char>),
    plan: HookPlan,
    now: u64,
    before: World<B::Handle, B::ThreadHandle>,
    hooks: Hooks,
    a: Activation<B::Handle, B::ThreadHandle>,
    hooked: Hooked,
) -> bool {
    let signature = signature_value(plan.signature)->Ok_0;
    &&& activation_made(backend, place, plan, signature, now, before, hooks, a, Ok(hooked))
    &&& search_outcome(plan, signature, a.search).1 == Ok::<Site, Failure>(
        Site { target: hooked.target, original: hooked.original },
    )
    &&& a.prepare.last().reply == (Reply::Previous { protection: hooked.protection->Some_0 })
    &&& a.allocate.reply == (Reply::Allocated { name: hooked.allocation, at: hooked.at })
}

/// The steps by which a hook was taken out: its site got its bytes and its access rights
/// back, and the allocation was released last. None of them failed.
pub open spec fn put_back_by<B: MutationBackend>(
    backend: &B,
    id: Seq<char>,
    hooked: Hooked,
    before: World<B::Handle, B::ThreadHandle>,
    steps: Seq<Step<B::Handle, B::ThreadHandle>>,
    after: World<B::Handle, B::ThreadHandle>,
) -> bool {
    let script = restore_script(
        hooked.target,
        hooked.original,
        hooked.protection->Some_0,
    ).push(Op::Free { name: hooked.allocation });
    &&& ran(backend, id, before, script, steps)
    &&& completed(script, steps)
    &&& after == world_after(before, steps)
}

/// A hook that was put in place and taken out again leaves nothing behind. What the site
/// held when it was found is written back, with the access rights that it had, before the
/// allocation is released; neither the hooks nor the session's holdings list any of it;
/// and taking the hook out once more does nothing.
pub proof fn taking_out_undoes_an_activation<B: MutationBackend>(
    backend: &B,
    place: (Seq<char>, Seq<char>),
    plan: HookPlan,
    now: u64,
    before: World<B::Handle, B::ThreadHandle>,
    hooks: Hooks,
    middle: World<B::Handle, B::ThreadHandle>,
    active: Hooks,
    hooked: Hooked,
    again: World<B::Handle, B::ThreadHandle>,
    after: World<B::Handle, B::ThreadHandle>,
    left: Hooks,
    result: Result<bool, Trouble>,
)
    requires
        !hooks.dom().contains(place),
        activates(backend, place, plan, now, before, hooks, middle, active, Ok(hooked)),
        takes_out(backend, place, again, active, after, left, result),
        result is Ok,
    ensures
        result == Ok::<bool, Trouble>(true),
        active == hooks.insert(place, hooked),
        left == hooks,
        exists|a: Activation<B::Handle, B::ThreadHandle>| #[trigger]
            put_in_by(backend, place, plan, now, before, hooks, a, hooked),
        exists|steps: Seq<Step<B::Handle, B::ThreadHandle>>| #[trigger]
            put_back_by(backend, place.0, hooked, again, steps, after),
        !after.owned.of(place.0).allocations.dom().contains(hooked.allocation),
        forall|
            world: World<B::Handle, B::ThreadHandle>,
            end: World<B::Handle, B::ThreadHandle>,
            rest: Hooks,
            once_more: Result<bool, Trouble>,
        | #[trigger]
            takes_out(backend, place, world, left, end, rest, once_more) ==> end == world && rest
                == left && once_more == Ok::<bool, Trouble>(false),
{
    let signature = signature_value(plan.signature)->Ok_0;
    let a = choose|a: Activation<B::Handle, B::ThreadHandle>| #[trigger]
        activation_made(
            backend,
            place,
            plan,
            signature,
            now,
            before,
            hooks,
            a,
            Ok(hooked),
        ) && middle == a.end && active == a.left;
    let site = search_outcome(plan, signature, a.search).1->Ok_0;
    deactivation_restores_the_site(
        backend,
        place,
        plan,
        site,
        now,
        search_outcome(plan, signature, a.search).0,
        hooks,
        a,
        hooked,
    );
    assert(active == hooks.insert(place, hooked));
    assert(active[place] == hooked);
    let (steps, outcome) = choose|
        steps: Seq<Step<B::Handle, B::ThreadHandle>>,
        outcome: Result<(), Trouble>,
    |
        {
            &&& #[trigger] undone(backend, place, again, active, steps, after, left, outcome)
            &&& outcome is Ok
        };
    let script = undo_script(hooked);
    assert(completed(script, steps));
    assert(script =~= restore_script(
        hooked.target,
        hooked.original,
        hooked.protection->Some_0,
    ).push(Op::Free { name: hooked.allocation }));
    assert(put_in_by(backend, place, plan, now, before, hooks, a, hooked));
    assert(put_back_by(backend, place.0, hooked, again, steps, after));
    assert(active.remove(place) =~= hooks);
    assert(steps.last() == steps[4]);
    lemma_freed(
        backend,
        place.0,
        world_at(again, steps, 4),
        steps[4],
        hooked.allocation,
    );
}

/// A hook that is not undone is still owned, as it was; one that is undone is
/// not. The other hooks are as they were.
pub proof fn undoing_touches_one_hook<B: MutationBackend>(
    backend: &B,
    place: (Seq<char>, Seq<char>),
    before: World<B::Handle, B::ThreadHandle>,
    hooks: Hooks,
    steps: Seq<Step<B::Handle, B::ThreadHandle>>,
    after: World<B::Handle, B::ThreadHandle>,
    left: Hooks,
    result: Result<(), Trouble>,
)
    requires
        hooks.dom().contains(place),
        undone(backend, place, before, hooks, steps, after, left, result),
    ensures
        result is Ok ==> left == hooks.remove(place),
        result is Err ==> left == hooks,
        left.remove(place) == hooks.remove(place),
{
    assert(hooks.remove(place).remove(place) =~= hooks.remove(place));
}

/// An allocation outlives what leads into it: undoing a hook releases it, if at
/// all, as its last step, and only where every step before was done.
pub proof fn allocations_outlive_their_hooks<B: MutationBackend>(
    backend: &B,
    place: (Seq<char>, Seq<char>),
    before: World<B::Handle, B::ThreadHandle>,
    hooks: Hooks,
    steps: Seq<Step<B::Handle, B::ThreadHandle>>,
    after: World<B::Handle, B::ThreadHandle>,
    left: Hooks,
    result: Result<(), Trouble>,
    i: int,
)
    requires
        hooks.dom().contains(place),
        undone(backend, place, before, hooks, steps, after, left, result),
        0 <= i < steps.len(),
        steps[i].op is Free,
    ensures
        i == undo_script(hooks[place]).len() - 1,
        steps[i].op == (Op::Free { name: hooks[place].allocation }),
        forall|j: int|
            0 <= j < i ==> (#[trigger] steps[j]).op == undo_script(hooks[place])[j]
                && !(steps[j].reply is Fault),
{
    lemma_undo_frees_last(hooks[place], i);
}

/// A heartbeat moves the lease to thirty seconds after it: until then the hook
/// does not expire, and from then on it does.
pub proof fn heartbeat_renews_the_lease(
    hooks: Hooks,
    place: (Seq<char>, Seq<char>),
    now: u64,
    later: u64,
)
    requires
        hooks.dom().contains(place),
        key_refusal(place.1) is None,
        now + HOOK_LEASE_MS <= u64::MAX,
    ensures
        has_expired(after_heartbeat(hooks, place, now).0, place, later) <==> later >= now
            + HOOK_LEASE_MS,
{
}

/// The places of a session's hooks: each of them, once.
pub open spec fn lists_session(hooks: Hooks, id: Seq<char>) -> bool {
    &&& session_places(hooks, id).no_duplicates()
    &&& forall|place: (Seq<char>, Seq<char>)| #[trigger]
        session_places(hooks, id).contains(place) <==> hooks.dom().contains(place) && place.0 == id
}

impl HookState {
    /// Cleaning up a session gives every hook of it its turn, and no other hook.
    pub proof fn every_hook_has_its_turn(&self, id: Seq<char>)
        requires
            self.wf(),
        ensures
            lists_session(self@, id),
    {
        let keys = in_order(keys_of(self@, id));
        let places = session_places(self@, id);
        if self.sessions@.dom().contains(id) {
            let records = self.sessions@[id];
            records.lemma_keys();
            let known = records.keys();
            assert(keys_of(self@, id) =~= records@.dom());
            assert(known.to_set() =~= keys_of(self@, id));
            assert(ascends(known));
            ascending_lists_agree(known, keys);
        } else {
            assert(keys_of(self@, id) =~= Set::empty());
            lemma_nothing_in_order();
            assert(Seq::<Seq<char>>::empty().to_set() =~= keys_of(self@, id));
        }
        assert(keys.no_duplicates() && keys.to_set() == keys_of(self@, id));
        assert forall|i: int, j: int|
            0 <= i < places.len() && 0 <= j < places.len() && i != j implies places[i]
            != places[j] by {
            assert(keys[i] != keys[j]);
        }
        assert forall|place: (Seq<char>, Seq<char>)| #[trigger]
            places.contains(place) <==> self@.dom().contains(place) && place.0 == id by {
            if places.contains(place) {
                let i = choose|i: int| 0 <= i < places.len() && places[i] == place;
                assert(keys.to_set().contains(keys[i]));
                assert(keys_of(self@, id).contains(keys[i]));
            }
            if self@.dom().contains(place) && place.0 == id {
                assert(keys_of(self@, id).contains(place.1));
                assert(keys.to_set().contains(place.1));
                let i = choose|i: int| 0 <= i < keys.len() && keys[i] == place.1;
                assert(places[i] == place);
            }
        }
    }
}

proof fn lemma_turn_effect<B: MutationBackend>(
    backend: &B,
    place: (Seq<char>, Seq<char>),
    before: HookTurn<B::Handle, B::ThreadHandle>,
    after: HookTurn<B::Handle, B::ThreadHandle>,
)
    requires
        hook_turn_made(backend, place, before, after),
    ensures
        after.hooks == if after.result is Ok {
            before.hooks.remove(place)
        } else {
            before.hooks
        },
{
    reveal(hook_turn_made);
}

proof fn lemma_no_failures<H, T>(
    places: Seq<(Seq<char>, Seq<char>)>,
    turns: Seq<HookTurn<H, T>>,
    n: int,
)
    requires
        0 <= n <= turns.len(),
    ensures
        hook_failures(places, turns, false, n).len() == 0 <==> forall|i: int|
            0 <= i < n ==> (#[trigger] turns[i]).result is Ok,
    decreases n,
{
    if n > 0 {
        lemma_no_failures(places, turns, n - 1);
        assert(turns[n - 1] == turns[n - 1]);
    }
}

proof fn lemma_after_turns<B: MutationBackend>(
    backend: &B,
    places: Seq<(Seq<char>, Seq<char>)>,
    first: HookTurn<B::Handle, B::ThreadHandle>,
    turns: Seq<HookTurn<B::Handle, B::ThreadHandle>>,
    n: int,
)
    requires
        hook_turns_made(backend, places, first, turns),
        places.no_duplicates(),
        forall|i: int| 0 <= i < places.len() ==> first.hooks.dom().contains(#[trigger] places[i]),
        0 <= n <= places.len(),
    ensures
        ({
            let left = before_hook_turn(first, turns, n).hooks;
            &&& forall|place: (Seq<char>, Seq<char>)| #[trigger]
                left.dom().contains(place) ==> first.hooks.dom().contains(place) && left[place]
                    == first.hooks[place]
            &&& forall|place: (Seq<char>, Seq<char>)|
                first.hooks.dom().contains(place) && !places.take(n).contains(place)
                    ==> #[trigger] left.dom().contains(place)
            &&& forall|i: int|
                0 <= i < n ==> (left.dom().contains(#[trigger] places[i]) <==> turns[i].result
                    is Err)
        }),
    decreases n,
{
    if n > 0 {
        lemma_after_turns(backend, places, first, turns, n - 1);
        let before = before_hook_turn(first, turns, n - 1);
        let turn = turns[n - 1];
        let place = places[n - 1];
        assert(hook_turn_made(backend, place, before, turn));
        lemma_turn_effect(backend, place, before, turn);
        assert(places.take(n) =~= places.take(n - 1).push(place));
        lemma_contains_push(places.take(n - 1), place);
        let done = places.take(n - 1);
        assert(!done.contains(place)) by {
            if done.contains(place) {
                let i = choose|i: int| 0 <= i < done.len() && done[i] == place;
                assert(places[i] == places[n - 1]);
            }
        }
        assert(first.hooks.dom().contains(place));
        assert(before.hooks.dom().contains(place));
        assert forall|i: int| 0 <= i < n implies (turn.hooks.dom().contains(#[trigger] places[i])
            <==> turns[i].result is Err) by {
            if i < n - 1 {
                assert(places[i] != places[n - 1]);
            }
        }
    }
}

/// After a cleanup, a session owns exactly those of its hooks whose undoing failed, as
/// they were, and the hooks of the other sessions are as they were. The cleanup succeeds
/// just where no hook of the session is left.
pub proof fn cleanups_leave_what_failed<B: MutationBackend>(
    backend: &B,
    id: Seq<char>,
    before: World<B::Handle, B::ThreadHandle>,
    hooks: Hooks,
    after: World<B::Handle, B::ThreadHandle>,
    left: Hooks,
    result: Result<(), Trouble>,
)
    requires
        lists_session(hooks, id),
        cleanup_session_does(backend, id, before, hooks, after, left, result),
    ensures
        forall|place: (Seq<char>, Seq<char>)| #[trigger]
            left.dom().contains(place) ==> hooks.dom().contains(place) && left[place]
                == hooks[place],
        forall|place: (Seq<char>, Seq<char>)|
            hooks.dom().contains(place) && place.0 != id ==> #[trigger] left.dom().contains(place),
        exists|turns: Seq<HookTurn<B::Handle, B::ThreadHandle>>|
            {
                &&& #[trigger] hook_turns_made(
                    backend,
                    session_places(hooks, id),
                    HookTurn { world: before, hooks, result: Ok(()) },
                    turns,
                )
                &&& forall|i: int|
                    0 <= i < turns.len() ==> (left.dom().contains(
                        #[trigger] session_places(hooks, id)[i],
                    ) <==> turns[i].result is Err)
            },
        result is Ok <==> forall|key: Seq<char>| !(#[trigger] left.dom().contains((id, key))),
        result matches Err(trouble) ==> trouble.fault.code == RpcErrorCode::MemoryWriteFailed,
{
    let places = session_places(hooks, id);
    let first = HookTurn { world: before, hooks, result: Ok::<(), Trouble>(()) };
    let n = places.len() as int;
    let turns = choose|turns: Seq<HookTurn<B::Handle, B::ThreadHandle>>|
        {
            let failures = hook_failures(places, turns, false, n);
            let last = before_hook_turn(first, turns, n);
            &&& #[trigger] hook_turns_made(backend, places, first, turns)
            &&& after == last.world
            &&& left == last.hooks
            &&& result == if failures.len() == 0 {
                Ok(())
            } else {
                let fault = cleanup_failure("session"@, Some(id), failures);
                Err(Trouble { fault, said: fault.message })
            }
        };
    assert forall|i: int| 0 <= i < places.len() implies hooks.dom().contains(
        #[trigger] places[i],
    ) by {
        assert(places.contains(places[i]));
    }
    lemma_after_turns(backend, places, first, turns, n);
    lemma_no_failures(places, turns, n);
    assert(places.take(n) =~= places);
    assert forall|place: (Seq<char>, Seq<char>)|
        hooks.dom().contains(place) && place.0 != id implies #[trigger] left.dom().contains(
        place,
    ) by {
        assert(!places.contains(place));
    }
    if result is Ok {
        assert forall|key: Seq<char>| !(#[trigger] left.dom().contains((id, key))) by {
            if left.dom().contains((id, key)) {
                assert(places.contains((id, key)));
                let i = choose|i: int| 0 <= i < places.len() && places[i] == (id, key);
                assert(turns[i].result is Ok);
            }
        }
    } else {
        let i = choose|i: int| 0 <= i < n && !((#[trigger] turns[i]).result is Ok);
        assert(places.contains(places[i]));
        assert(left.dom().contains(places[i]));
        assert(places[i] == (id, places[i].1));
    }
}

/// The memory of a feature hook is released only while no thread and no call is inside:
/// the step before its release looked, and found nothing.
pub proof fn feature_memory_is_released_while_vacant<B: MutationBackend>(
    backend: &B,
    place: (Seq<char>, Seq<char>),
    before: World<B::Handle, B::ThreadHandle>,
    hooks: Hooks,
    steps: Seq<Step<B::Handle, B::ThreadHandle>>,
    after: World<B::Handle, B::ThreadHandle>,
    left: Hooks,
    result: Result<(), Trouble>,
)
    requires
        hooks[place].feature is Some,
        undone(backend, place, before, hooks, steps, after, left, result),
        steps.len() > 0,
        steps.last().op is Free,
    ensures
        ({
            let extra = hooks[place].feature->Some_0;
            let look = steps[steps.len() - 2];
            &&& steps.len() >= 2
            &&& look.op == (Op::Vacate {
                at: hooks[place].at,
                size: extra.size,
                counter: (hooks[place].at + counter_offset(extra.kind)) as usize,
            })
            &&& !(look.reply is Fault)
        }),
{
    lemma_undo_script(hooks[place]);
    lemma_undo_frees_last(hooks[place], steps.len() - 1);
}

/// A feature hook whose memory was found occupied is still owned after the try to undo it,
/// and its memory is not released.
pub proof fn occupied_feature_memory_is_kept<B: MutationBackend>(
    backend: &B,
    place: (Seq<char>, Seq<char>),
    before: World<B::Handle, B::ThreadHandle>,
    hooks: Hooks,
    steps: Seq<Step<B::Handle, B::ThreadHandle>>,
    after: World<B::Handle, B::ThreadHandle>,
    left: Hooks,
    result: Result<(), Trouble>,
    i: int,
)
    requires
        undone(backend, place, before, hooks, steps, after, left, result),
        0 <= i < steps.len(),
        steps[i].op is Vacate,
        steps[i].reply is Fault,
    ensures
        left == hooks,
        result matches Err(trouble) && trouble.fault == steps[i].reply->fault,
        forall|j: int| 0 <= j < steps.len() ==> !((#[trigger] steps[j]).op is Free),
{
    lemma_undo_script(hooks[place]);
    assert(i == steps.len() - 1);
    assert(steps.last() == steps[i]);
    assert forall|j: int| 0 <= j < steps.len() implies !((#[trigger] steps[j]).op is Free) by {
        if steps[j].op is Free {
            lemma_undo_frees_last(hooks[place], j);
        }
    }
}

/// Whenever a process is looked at, a thread stands in the memory, or a call that started
/// there has not come back.
pub open spec fn never_vacant<B: MutationBackend>(
    backend: &B,
    handle: B::Handle,
    at: usize,
    size: usize,
    counter: usize,
) -> bool {
    forall|stopped: SuspendedProcess, bytes: Vec<u8>|
        {
            &&& #[trigger] call_ensures(
                B::suspend_process_threads,
                (backend, &handle),
                Ok(stopped),
            )
            &&& #[trigger] call_ensures(
                B::read_memory,
                (backend, &handle, counter, 8usize),
                Ok(bytes),
            )
        } ==> stopped.executes(at, size) || !is_zero_counter(bytes@)
}

/// Something always runs in the memory of a feature hook.
pub open spec fn is_occupied<B: MutationBackend>(
    backend: &B,
    handle: B::Handle,
    hooked: Hooked,
) -> bool {
    hooked.feature matches Some(extra) && never_vacant(
        backend,
        handle,
        hooked.at,
        extra.size,
        (hooked.at + counter_offset(extra.kind)) as usize,
    )
}

proof fn lemma_steps_keep_session<B: MutationBackend>(
    backend: &B,
    id: Seq<char>,
    start: World<B::Handle, B::ThreadHandle>,
    hooked: Hooked,
    steps: Seq<Step<B::Handle, B::ThreadHandle>>,
    n: int,
)
    requires
        follows(backend, id, start, undo_script(hooked), steps),
        0 <= n <= steps.len(),
    ensures
        keeps_session(start.sessions, world_at(start, steps, n).sessions, id),
    decreases n,
{
    if n > 0 {
        lemma_steps_keep_session(backend, id, start, hooked, steps, n - 1);
        lemma_undo_ops(hooked, n - 1);
        assert(steps[n - 1].op == undo_script(hooked)[n - 1]);
        lemma_keeps_session(backend, id, world_at(start, steps, n - 1), steps[n - 1]);
    }
}

proof fn lemma_turn_keeps_session<B: MutationBackend>(
    backend: &B,
    place: (Seq<char>, Seq<char>),
    before: HookTurn<B::Handle, B::ThreadHandle>,
    after: HookTurn<B::Handle, B::ThreadHandle>,
)
    requires
        hook_turn_made(backend, place, before, after),
    ensures
        keeps_session(before.world.sessions, after.world.sessions, place.0),
{
    reveal(hook_turn_made);
    let steps = choose|steps: Seq<Step<B::Handle, B::ThreadHandle>>| #[trigger]
        undone(
            backend,
            place,
            before.world,
            before.hooks,
            steps,
            after.world,
            after.hooks,
            after.result,
        );
    lemma_steps_keep_session(
        backend,
        place.0,
        before.world,
        before.hooks[place],
        steps,
        steps.len() as int,
    );
}

proof fn lemma_turns_keep_session<B: MutationBackend>(
    backend: &B,
    id: Seq<char>,
    places: Seq<(Seq<char>, Seq<char>)>,
    first: HookTurn<B::Handle, B::ThreadHandle>,
    turns: Seq<HookTurn<B::Handle, B::ThreadHandle>>,
    n: int,
)
    requires
        hook_turns_made(backend, places, first, turns),
        forall|i: int| 0 <= i < places.len() ==> (#[trigger] places[i]).0 == id,
        0 <= n <= places.len(),
    ensures
        keeps_session(
            first.world.sessions,
            before_hook_turn(first, turns, n).world.sessions,
            id,
        ),
    decreases n,
{
    if n > 0 {
        lemma_turns_keep_session(backend, id, places, first, turns, n - 1);
        let before = before_hook_turn(first, turns, n - 1);
        assert(hook_turn_made(backend, places[n - 1], before, turns[n - 1]));
        lemma_turn_keeps_session(backend, places[n - 1], before, turns[n - 1]);
    }
}

proof fn lemma_occupied_turn_fails<B: MutationBackend>(
    backend: &B,
    place: (Seq<char>, Seq<char>),
    before: HookTurn<B::Handle, B::ThreadHandle>,
    after: HookTurn<B::Handle, B::ThreadHandle>,
)
    requires
        hook_turn_made(backend, place, before, after),
        before.hooks[place].feature is Some,
        before.world.sessions.is_open(place.0) ==> is_occupied(
            backend,
            before.world.sessions.handle(place.0),
            before.hooks[place],
        ),
    ensures
        after.result is Err,
{
    reveal(hook_turn_made);
    let id = place.0;
    let hooked = before.hooks[place];
    let extra = hooked.feature->Some_0;
    let counter = (hooked.at + counter_offset(extra.kind)) as usize;
    let steps = choose|steps: Seq<Step<B::Handle, B::ThreadHandle>>| #[trigger]
        undone(
            backend,
            place,
            before.world,
            before.hooks,
            steps,
            after.world,
            after.hooks,
            after.result,
        );
    if after.result is Ok {
        let n = give_back_script(hooked).len() as int;
        lemma_undo_script(hooked);
        let start = world_at(before.world, steps, n);
        assert(steps[n].op == undo_script(hooked)[n]);
        lemma_steps_keep_session(backend, id, before.world, hooked, steps, n);
        answered_looks_found_nothing(
            backend,
            id,
            start,
            steps[n],
            hooked.at,
            extra.size,
            counter,
        );
        assert(start.sessions.handle(id) == before.world.sessions.handle(id));
        assert(never_vacant(
            backend,
            start.sessions.handle(id),
            hooked.at,
            extra.size,
            counter,
        ));
    }
}

/// The steps of a cleanup of a session, turn by turn.
pub open spec fn cleaned_by<B: MutationBackend>(
    backend: &B,
    id: Seq<char>,
    before: World<B::Handle, B::ThreadHandle>,
    hooks: Hooks,
    turns: Seq<HookTurn<B::Handle, B::ThreadHandle>>,
    steps: Seq<Seq<Step<B::Handle, B::ThreadHandle>>>,
    after: World<B::Handle, B::ThreadHandle>,
    left: Hooks,
) -> bool {
    let places = session_places(hooks, id);
    let first = HookTurn { world: before, hooks, result: Ok(()) };
    &&& turns.len() == places.len()
    &&& steps.len() == places.len()
    &&& forall|i: int|
        0 <= i < places.len() ==> undone(
            backend,
            places[i],
            before_hook_turn(first, turns, i).world,
            before_hook_turn(first, turns, i).hooks,
            #[trigger] steps[i],
            turns[i].world,
            turns[i].hooks,
            turns[i].result,
        )
    &&& after == before_hook_turn(first, turns, places.len() as int).world
    &&& left == before_hook_turn(first, turns, places.len() as int).hooks
}

/// A cleanup of a session succeeds just where none of its steps failed.
pub proof fn cleanups_fail_by_a_step<B: MutationBackend>(
    backend: &B,
    id: Seq<char>,
    before: World<B::Handle, B::ThreadHandle>,
    hooks: Hooks,
    after: World<B::Handle, B::ThreadHandle>,
    left: Hooks,
    result: Result<(), Trouble>,
)
    requires
        cleanup_session_does(backend, id, before, hooks, after, left, result),
    ensures
        exists|
            turns: Seq<HookTurn<B::Handle, B::ThreadHandle>>,
            steps: Seq<Seq<Step<B::Handle, B::ThreadHandle>>>,
        |
            {
                &&& #[trigger] cleaned_by(backend, id, before, hooks, turns, steps, after, left)
                &&& result is Ok <==> forall|i: int|
                    0 <= i < steps.len() ==> !faulted(#[trigger] steps[i])
            },
{
    let places = session_places(hooks, id);
    let first = HookTurn { world: before, hooks, result: Ok::<(), Trouble>(()) };
    let n = places.len() as int;
    let turns = choose|turns: Seq<HookTurn<B::Handle, B::ThreadHandle>>|
        {
            let failures = hook_failures(places, turns, false, n);
            let last = before_hook_turn(first, turns, n);
            &&& #[trigger] hook_turns_made(backend, places, first, turns)
            &&& after == last.world
            &&& left == last.hooks
            &&& result is Ok <==> failures.len() == 0
        };
    lemma_no_failures(places, turns, n);
    let steps = Seq::new(
        places.len(),
        |i: int|
            choose|steps: Seq<Step<B::Handle, B::ThreadHandle>>| #[trigger]
                undone(
                    backend,
                    places[i],
                    before_hook_turn(first, turns, i).world,
                    before_hook_turn(first, turns, i).hooks,
                    steps,
                    turns[i].world,
                    turns[i].hooks,
                    turns[i].result,
                ),
    );
    assert forall|i: int| 0 <= i < places.len() implies undone(
        backend,
        places[i],
        before_hook_turn(first, turns, i).world,
        before_hook_turn(first, turns, i).hooks,
        #[trigger] steps[i],
        turns[i].world,
        turns[i].hooks,
        turns[i].result,
    ) by {
        assert(hook_turn_made(backend, places[i], before_hook_turn(first, turns, i), turns[i]));
        reveal(hook_turn_made);
    }
    assert forall|i: int| 0 <= i < places.len() implies (turns[i].result is Ok <==> !faulted(
        #[trigger] steps[i],
    )) by {
        lemma_undo_script(before_hook_turn(first, turns, i).hooks[places[i]]);
    }
    assert(cleaned_by(backend, id, before, hooks, turns, steps, after, left));
    if forall|i: int| 0 <= i < steps.len() ==> !faulted(#[trigger] steps[i]) {
        assert forall|i: int| 0 <= i < n implies (#[trigger] turns[i]).result is Ok by {
            assert(!faulted(steps[i]));
        }
    }
}

proof fn lemma_occupied_hook_is_kept<B: MutationBackend>(
    busy: &B,
    place: (Seq<char>, Seq<char>),
    before: World<B::Handle, B::ThreadHandle>,
    hooks: Hooks,
    middle: World<B::Handle, B::ThreadHandle>,
    kept: Hooks,
    result: Result<(), Trouble>,
)
    requires
        lists_session(hooks, place.0),
        hooks.dom().contains(place),
        hooks[place].feature is Some,
        before.sessions.is_open(place.0) ==> is_occupied(
            busy,
            before.sessions.handle(place.0),
            hooks[place],
        ),
        cleanup_session_does(busy, place.0, before, hooks, middle, kept, result),
    ensures
        kept.dom().contains(place),
{
    let id = place.0;
    let places = session_places(hooks, id);
    let first = HookTurn { world: before, hooks, result: Ok::<(), Trouble>(()) };
    let n = places.len() as int;
    let turns = choose|turns: Seq<HookTurn<B::Handle, B::ThreadHandle>>|
        {
            let last = before_hook_turn(first, turns, n);
            &&& #[trigger] hook_turns_made(busy, places, first, turns)
            &&& kept == last.hooks
        };
    assert forall|i: int| 0 <= i < places.len() implies hooks.dom().contains(
        #[trigger] places[i],
    ) && places[i].0 == id by {
        assert(places.contains(places[i]));
    }
    assert(places.contains(place));
    let k = choose|i: int| 0 <= i < places.len() && places[i] == place;
    assert(!places.take(k).contains(place)) by {
        if places.take(k).contains(place) {
            let i = choose|i: int| 0 <= i < k && places.take(k)[i] == place;
            assert(places[i] == places[k]);
        }
    }
    lemma_after_turns(busy, places, first, turns, k);
    lemma_turns_keep_session(busy, id, places, first, turns, k);
    let turn = before_hook_turn(first, turns, k);
    assert(turn.hooks.dom().contains(place));
    assert(hook_turn_made(busy, places[k], turn, turns[k]));
    lemma_occupied_turn_fails(busy, place, turn, turns[k]);
    lemma_after_turns(busy, places, first, turns, n);
    assert(kept.dom().contains(places[k]));
}

/// A cleanup of a session while something runs in the memory of one of its feature hooks
/// fails and keeps the hook as it was. A cleanup after that in which no step fails
/// succeeds, and nothing of the session is left. The hooks of other sessions are as they
/// were.
pub proof fn cleanups_wait_for_what_runs<B: MutationBackend>(
    busy: &B,
    calm: &B,
    place: (Seq<char>, Seq<char>),
    before: World<B::Handle, B::ThreadHandle>,
    hooks: Hooks,
    middle: World<B::Handle, B::ThreadHandle>,
    kept: Hooks,
    result: Result<(), Trouble>,
    again: World<B::Handle, B::ThreadHandle>,
    after: World<B::Handle, B::ThreadHandle>,
    left: Hooks,
    done: Result<(), Trouble>,
)
    requires
        lists_session(hooks, place.0),
        lists_session(kept, place.0),
        hooks.dom().contains(place),
        hooks[place].feature is Some,
        before.sessions.is_open(place.0) ==> is_occupied(
            busy,
            before.sessions.handle(place.0),
            hooks[place],
        ),
        cleanup_session_does(busy, place.0, before, hooks, middle, kept, result),
        cleanup_session_does(calm, place.0, again, kept, after, left, done),
    ensures
        result is Err,
        kept.dom().contains(place),
        kept[place] == hooks[place],
        exists|
            turns: Seq<HookTurn<B::Handle, B::ThreadHandle>>,
            steps: Seq<Seq<Step<B::Handle, B::ThreadHandle>>>,
        |
            {
                &&& #[trigger] cleaned_by(calm, place.0, again, kept, turns, steps, after, left)
                &&& done is Ok <==> forall|i: int|
                    0 <= i < steps.len() ==> !faulted(#[trigger] steps[i])
            },
        done is Ok <==> forall|key: Seq<char>| !(#[trigger] left.dom().contains((place.0, key))),
        forall|other: (Seq<char>, Seq<char>)|
            hooks.dom().contains(other) && other.0 != place.0 ==> #[trigger] left.dom().contains(
                other,
            ) && left[other] == hooks[other],
{
    let id = place.0;
    lemma_occupied_hook_is_kept(busy, place, before, hooks, middle, kept, result);
    assert(place == (id, place.1));
    cleanups_leave_what_failed(busy, id, before, hooks, middle, kept, result);
    cleanups_leave_what_failed(calm, id, again, kept, after, left, done);
    cleanups_fail_by_a_step(calm, id, again, kept, after, left, done);
}

/// A feature hook that could not be put in place leaves nothing behind, or is still owned
/// and not complete. The hooks of other keys are as they were.
pub proof fn failed_features_are_undone_or_owned<B: MutationBackend>(
    backend: &B,
    place: (Seq<char>, Seq<char>),
    p: Placement,
    now: u64,
    before: World<B::Handle, B::ThreadHandle>,
    hooks: Hooks,
    after: World<B::Handle, B::ThreadHandle>,
    left: Hooks,
    fault: Failure,
)
    requires
        !hooks.dom().contains(place),
        placing_does(backend, place, p, now, before, hooks, after, left, Err(fault)),
    ensures
        left == hooks || (left.dom().contains(place) && !left[place].complete && left.remove(place)
            == hooks),
{
    let (a, hooked) = choose|
        a: Placing<B::Handle, B::ThreadHandle>,
        hooked: Result<Hooked, Failure>,
    |
        {
            &&& #[trigger] placed(backend, place, p, now, before, hooks, a, hooked)
            &&& after == a.end
            &&& left == a.left
            &&& hooked is Err
        };
    assert forall|owned: Hooked| #[trigger] hooks.insert(place, owned).remove(place) == hooks by {
        assert(hooks.insert(place, owned).remove(place) =~= hooks);
    }
}

/// A feature hook in place owns a change of its target, the last one, and undoing it puts
/// the target back first: the bytes that were found there, then everything else in the
/// order opposite to that in which it was changed.
pub proof fn retiring_a_feature_restores_its_target<B: MutationBackend>(
    backend: &B,
    place: (Seq<char>, Seq<char>),
    p: Placement,
    original: Seq<u8>,
    name: Seq<char>,
    at: usize,
    now: u64,
    hooks: Hooks,
    a: Placing<B::Handle, B::ThreadHandle>,
    hooked: Hooked,
)
    requires
        set_up(backend, place, p, original, name, at, now, hooks, a, Ok(hooked)),
    ensures
        hooked.changes.len() == p.patches.len() + 1,
        hooked.changes.last().address == p.target,
        hooked.changes.last().original == original,
        undo_script(hooked).take(4) == restore_script(
            p.target,
            original,
            hooked.changes.last().previous,
        ),
        undo_script(hooked).last() == (Op::Free { name }),
{
    let list = all_patches(p, original, at);
    lemma_all_opened(backend, place.0, world_after(a.allocate.after, a.write), list, a.made);
    lemma_undo_script(hooked);
    let last = hooked.changes[hooked.changes.len() - 1];
    assert(reverts_at(undo_script(hooked), 0, last));
    assert(undo_script(hooked).take(4) =~= restore_script(p.target, original, last.previous));
}

proof fn lemma_all_opened<B: MutationBackend>(
    backend: &B,
    id: Seq<char>,
    start: World<B::Handle, B::ThreadHandle>,
    list: Seq<Patch>,
    made: Seq<Seq<Step<B::Handle, B::ThreadHandle>>>,
)
    requires
        patches_ran(backend, id, start, list, made),
        patches_made(list, made),
    ensures
        changes_of(list, made).len() == made.len(),
        made.len() > 0 ==> {
            let patch = list[made.len() - 1];
            let change = changes_of(list, made).last();
            &&& change.address == patch.address
            &&& change.original == patch.expected
        },
    decreases made.len(),
{
    if made.len() > 0 {
        let before = made.drop_last();
        let steps = made.last();
        assert forall|i: int| 0 <= i < before.len() implies patch_made(
            list[i],
            #[trigger] before[i],
        ) by {
            assert(before[i] == made[i]);
        }
        lemma_all_opened(backend, id, start, list, before);
        assert(made[made.len() - 1] == steps);
        assert(patch_made(list[before.len() as int], steps));
        let script = patch_script(list[before.len() as int], found_rights(steps));
        assert(script[0] is Protect);
        assert(steps[0].op == script[0]);
        assert(step_made(backend, id, world_of_patches(start, before), steps[0]));
        lemma_protects_tell(backend, id, world_of_patches(start, before), steps[0]);
        if steps.len() == 1 {
            assert(steps.last() == steps[0]);
        }
    }
}

proof fn lemma_protects_tell<B: MutationBackend>(
    backend: &B,
    id: Seq<char>,
    before: World<B::Handle, B::ThreadHandle>,
    step: Step<B::Handle, B::ThreadHandle>,
)
    requires
        step_made(backend, id, before, step),
        step.op is Protect,
    ensures
        step.reply is Previous || step.reply is Fault,
{
    reveal(step_made);
}

}
