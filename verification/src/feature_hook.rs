//! The feature hooks of sessions: which are in place, and what is asked of them.

use vstd::prelude::*;
use vstd::string::*;
use vstd::utf8::{is_ascii_chars, is_ascii_chars_encode_utf8};

use crate::backend::MutationBackend;
use crate::codec::{
    copy_bytes, le_bytes, le_value, lemma_le_bytes_len, push_all, push_i32, push_le, push_u64,
    read_le, wrap32, zeros,
};
use crate::core_hook::{base_place, find_base, on_fixture};
use crate::feature_error::{feature_address, parse_address, FeatureHookApiError};
use crate::feature_template::{
    bytes_of, find_template, gives_at, led, patches, plan_of, read_exactly, template_at, HookPatch,
    Patch, Plan, Template,
};
use crate::hook::{
    self, after_heartbeat, key_refusal, placed_at, placement_of, placing_does, takes_out,
    FeatureSite, HookState, Hooked, Hooks, Trouble, HOOK_LEASE_MS,
};
use crate::mutation::MutationState;
use crate::payload::{
    lay_out, lemma_layout, payload_len, slot_offset, slots, slots_end, PayloadKind,
    MAX_CHAT_WCHARS,
};
use crate::probe::{alive, extends, flushed, lemma_extends, lemma_prefixes, put, Log, Probe};
use crate::process::{ProcessSessionRegistry, Sessions};
use crate::protocol::{
    feature_hooks, CoreHook, FeatureActionResponse, FeatureBuddyAddRequest, FeatureChatSendRequest,
    FeatureHook, FeatureHookDeactivateResponse, FeatureHookExport, FeatureHookExportRequest,
    FeatureHookExportResponse, FeatureHookRequest, FeatureHookResponse, FeatureHookSessionRequest,
    FeatureHooksResponse, FeatureMousePositionRequest, FeatureTeleportRequest,
    HookDeactivateRequest, HookHeartbeatRequest, ProcessKind, ProcessSessionId,
};
use crate::rpc::{failure, Failure, RpcErrorCode};
use crate::steps::World;
use crate::text::{address_text, chars_of, format_address, is_white, join2, join3};

verus! {

/// The name of a feature hook in its key.
pub open spec fn feature_name(hook: FeatureHook) -> Seq<char> {
    match hook {
        FeatureHook::MovementTeleport => "movement_teleport"@,
        FeatureHook::MouselessCursor => "mouseless_cursor"@,
        FeatureHook::Chat => "chat"@,
        FeatureHook::ChatSend => "chat_send"@,
        FeatureHook::DanceGameMoves => "dance_game_moves"@,
    }
}

/// The key of a feature hook.
pub open spec fn feature_key(hook: FeatureHook) -> Seq<char> {
    "wizwalker.feature."@ + feature_name(hook)
}

/// The key of a feature hook.
pub fn hook_key(hook: FeatureHook) -> (key: String)
    ensures
        key@ == feature_key(hook),
{
    let name: &'static str = match hook {
        FeatureHook::MovementTeleport => "movement_teleport",
        FeatureHook::MouselessCursor => "mouseless_cursor",
        FeatureHook::Chat => "chat",
        FeatureHook::ChatSend => "chat_send",
        FeatureHook::DanceGameMoves => "dance_game_moves",
    };
    join2("wizwalker.feature.", name)
}

/// Feature hooks have different keys.
pub proof fn feature_keys_differ(one: FeatureHook, other: FeatureHook)
    requires
        feature_key(one) == feature_key(other),
    ensures
        one == other,
{
    reveal_strlit("wizwalker.feature.");
    reveal_strlit("movement_teleport");
    reveal_strlit("mouseless_cursor");
    reveal_strlit("chat");
    reveal_strlit("chat_send");
    reveal_strlit("dance_game_moves");
    let head = "wizwalker.feature."@;
    assert(feature_key(one).skip(head.len() as int) =~= feature_name(one));
    assert(feature_key(other).skip(head.len() as int) =~= feature_name(other));
    assert(feature_name(one).len() == feature_name(other).len());
    assert(feature_name(one)[0] == feature_name(other)[0]);
}

/// The hook that a place belongs to.
pub open spec fn hook_of(export: FeatureHookExport) -> FeatureHook {
    match export {
        FeatureHookExport::TeleportHelper => FeatureHook::MovementTeleport,
        FeatureHookExport::MousePosition => FeatureHook::MouselessCursor,
        FeatureHookExport::ChatOwner
        | FeatureHookExport::ReceiveSourceGid
        | FeatureHookExport::ReceiveMessageBuffer
        | FeatureHookExport::ReceiveMessageLength
        | FeatureHookExport::ReceiveCounter => FeatureHook::Chat,
        FeatureHookExport::SendTrigger
        | FeatureHookExport::SendStruct
        | FeatureHookExport::BuddyTrigger
        | FeatureHookExport::BuddyObject => FeatureHook::ChatSend,
        FeatureHookExport::DanceGameMoves => FeatureHook::DanceGameMoves,
    }
}

/// The hook that a place belongs to.
pub fn export_hook(export: FeatureHookExport) -> (hook: FeatureHook)
    ensures
        hook == hook_of(export),
{
    match export {
        FeatureHookExport::TeleportHelper => FeatureHook::MovementTeleport,
        FeatureHookExport::MousePosition => FeatureHook::MouselessCursor,
        FeatureHookExport::ChatOwner
        | FeatureHookExport::ReceiveSourceGid
        | FeatureHookExport::ReceiveMessageBuffer
        | FeatureHookExport::ReceiveMessageLength
        | FeatureHookExport::ReceiveCounter => FeatureHook::Chat,
        FeatureHookExport::SendTrigger
        | FeatureHookExport::SendStruct
        | FeatureHookExport::BuddyTrigger
        | FeatureHookExport::BuddyObject => FeatureHook::ChatSend,
        FeatureHookExport::DanceGameMoves => FeatureHook::DanceGameMoves,
    }
}

/// The hook whose code has a payload of the given kind.
pub open spec fn hook_for(kind: PayloadKind) -> FeatureHook {
    match kind {
        PayloadKind::Movement { .. } => FeatureHook::MovementTeleport,
        PayloadKind::Mouse => FeatureHook::MouselessCursor,
        PayloadKind::Chat => FeatureHook::Chat,
        PayloadKind::ChatSend { .. } => FeatureHook::ChatSend,
        PayloadKind::Dance => FeatureHook::DanceGameMoves,
    }
}

fn kind_hook(kind: PayloadKind) -> (hook: FeatureHook)
    ensures
        hook == hook_for(kind),
{
    match kind {
        PayloadKind::Movement { .. } => FeatureHook::MovementTeleport,
        PayloadKind::Mouse => FeatureHook::MouselessCursor,
        PayloadKind::Chat => FeatureHook::Chat,
        PayloadKind::ChatSend { .. } => FeatureHook::ChatSend,
        PayloadKind::Dance => FeatureHook::DanceGameMoves,
    }
}

/// Where a place stands among the slots of its hook.
pub open spec fn slot_of(export: FeatureHookExport) -> int {
    match export {
        FeatureHookExport::TeleportHelper => 0,
        FeatureHookExport::MousePosition => 0,
        FeatureHookExport::ChatOwner => 0,
        FeatureHookExport::ReceiveSourceGid => 1,
        FeatureHookExport::ReceiveMessageBuffer => 2,
        FeatureHookExport::ReceiveMessageLength => 3,
        FeatureHookExport::ReceiveCounter => 4,
        FeatureHookExport::SendTrigger => 0,
        FeatureHookExport::SendStruct => 1,
        FeatureHookExport::BuddyTrigger => 2,
        FeatureHookExport::BuddyObject => 3,
        FeatureHookExport::DanceGameMoves => 0,
    }
}

/// Every place is a slot of the payload of its hook.
pub proof fn places_are_slots(export: FeatureHookExport, kind: PayloadKind)
    requires
        hook_for(kind) == hook_of(export),
    ensures
        0 <= slot_of(export) < slots(kind).len(),
        slots(kind)[slot_of(export)].0 == export,
{
}

/// A feature hook that is in place.
#[verifier::ext_equal]
pub ghost struct Feature {
    pub allocation: usize,
    pub kind: PayloadKind,
    pub patches: Seq<Patch>,
    pub actions: Option<(usize, usize)>,
    pub deadline: u64,
}

/// The feature hooks that are in place, by session and hook.
pub type Features = Map<(Seq<char>, FeatureHook), Feature>;

/// The payload of a feature hook lies inside the address space, is of its hook, and
/// its actions are among its patches.
pub open spec fn feature_fits(hook: FeatureHook, feature: Feature) -> bool {
    &&& hook_for(feature.kind) == hook
    &&& feature.allocation + payload_len(feature.kind) <= usize::MAX
    &&& feature.actions matches Some((first, second)) ==> first < feature.patches.len() && second
        < feature.patches.len()
}

/// The feature hooks that are in place, among all hooks.
pub open spec fn features_in(hooks: Hooks) -> Features {
    Map::new(
        |place: (Seq<char>, FeatureHook)| is_feature(hooks, place.0, place.1),
        |place: (Seq<char>, FeatureHook)|
            {
                let held = hooks[(place.0, feature_key(place.1))];
                let extra = held.feature->Some_0;
                Feature {
                    allocation: held.at,
                    kind: extra.kind,
                    patches: extra.patches,
                    actions: extra.actions,
                    deadline: held.deadline,
                }
            },
    )
}

/// A hook is in place under the key of a feature hook and keeps what belongs to it.
pub open spec fn is_feature(hooks: Hooks, id: Seq<char>, hook: FeatureHook) -> bool {
    let place = (id, feature_key(hook));
    &&& hooks.dom().contains(place)
    &&& hooks[place].complete
    &&& hooks[place].feature matches Some(extra) && hook_for(extra.kind) == hook
}

fn find_feature<'a>(hooks: &'a HookState, session_id: &ProcessSessionId, hook: FeatureHook) -> (found:
    Option<(usize, &'a FeatureSite)>)
    requires
        hooks.wf(),
    ensures
        match found {
            Some((at, site)) => {
                let place = (session_id.0@, hook);
                &&& features_in(hooks@).dom().contains(place)
                &&& features_in(hooks@)[place].allocation == at
                &&& features_in(hooks@)[place].kind == site.kind
                &&& features_in(hooks@)[place].patches == patches(site.patches@)
                &&& features_in(hooks@)[place].actions == site.actions
                &&& feature_fits(hook, features_in(hooks@)[place])
            },
            None => !features_in(hooks@).dom().contains((session_id.0@, hook)),
        },
{
    let key = hook_key(hook);
    match hooks.feature_site(session_id, key.as_str()) {
        None => None,
        Some((at, site)) => if kind_hook(site.kind) == hook {
            Some((at, site))
        } else {
            None
        },
    }
}

/// A feature hook is or is not active.
pub open spec fn says(response: FeatureHookResponse, id: Seq<char>, hook: FeatureHook) -> bool {
    &&& response.session_id.0@ == id
    &&& response.hook == hook
    &&& response.active
}

proof fn lemma_feature_key(hook: FeatureHook)
    ensures
        key_refusal(feature_key(hook)) is None,
{
    reveal_strlit("wizwalker.feature.");
    reveal_strlit("movement_teleport");
    reveal_strlit("mouseless_cursor");
    reveal_strlit("chat");
    reveal_strlit("chat_send");
    reveal_strlit("dance_game_moves");
    let key = feature_key(hook);
    assert(is_ascii_chars(key));
    is_ascii_chars_encode_utf8(key);
    assert(key[0] == 'w');
    assert(!is_white(key[0]));
}

/// A feature hook that could not be put in place and still owns what was made for it.
pub open spec fn unrecovered_feature() -> Failure {
    failure(
        RpcErrorCode::InvalidRequest,
        "a prior feature-hook activation failed and retained recovery ownership; deactivate it before retrying"@,
    )
}

/// What an answer without its value says.
pub open spec fn outcome_of<T>(answer: Result<T, FeatureHookApiError>) -> Result<(), Failure> {
    match answer {
        Ok(_) => Ok(()),
        Err(error) => Err(error@),
    }
}

/// A feature hook is put in place by a template that follows a plan.
pub open spec fn follows_plan<B: MutationBackend>(
    backend: &B,
    place: (Seq<char>, Seq<char>),
    plan: Plan,
    now: u64,
    before: World<B::Handle, B::ThreadHandle>,
    hooks: Hooks,
    after: World<B::Handle, B::ThreadHandle>,
    left: Hooks,
    result: Result<(), Failure>,
) -> bool {
    exists|template: Template|
        {
            &&& #[trigger] template.follows(plan)
            &&& placing_does(
                backend,
                place,
                placement_of(template),
                now,
                before,
                hooks,
                after,
                left,
                result,
            )
        }
}

/// What an activation does. A feature hook that is in place has its lease renewed, and
/// nothing else happens. Another one is looked for and put in place.
pub open spec fn activation_does<B: MutationBackend>(
    backend: &B,
    id: Seq<char>,
    hook: FeatureHook,
    fixture: bool,
    now: u64,
    before: World<B::Handle, B::ThreadHandle>,
    hooks: Hooks,
    after: World<B::Handle, B::ThreadHandle>,
    left: Hooks,
    answer: Result<FeatureHookResponse, FeatureHookApiError>,
) -> bool {
    let place = (id, feature_key(hook));
    &&& answer matches Ok(response) ==> says(response, id, hook)
    &&& if placed_at(hooks, id, feature_key(hook)) is Some {
        &&& after == before
        &&& left == after_heartbeat(hooks, place, now).0
        &&& answer is Ok
    } else if hooks.dom().contains(place) {
        &&& after == before
        &&& left == hooks
        &&& outcome_of(answer) == Err::<(), Failure>(unrecovered_feature())
    } else {
        exists|
            start: World<B::Handle, B::ThreadHandle>,
            log: Log<B::Handle, B::ThreadHandle>,
            middle: Sessions<B::Handle>,
        |
            {
                &&& #[trigger] led(backend, id, before.sessions, start, log, middle)
                &&& plan_of(log, 0, hook, fixture).0 == log.len()
                &&& match plan_of(log, 0, hook, fixture).1 {
                    Err(fault) => {
                        &&& after == World { sessions: middle, ..before }
                        &&& left == hooks
                        &&& outcome_of(answer) == Err::<(), Failure>(fault)
                    },
                    Ok(plan) => follows_plan(
                        backend,
                        place,
                        plan,
                        now,
                        World { sessions: middle, ..before },
                        hooks,
                        after,
                        left,
                        outcome_of(answer),
                    ),
                }
            }
    }
}

/// Puts a feature hook in place. One that is in place has its lease renewed and is left
/// as it is.
pub fn activate<B: MutationBackend>(
    sessions: &mut ProcessSessionRegistry<B::Handle>,
    backend: &B,
    mutations: &mut MutationState<B::ThreadHandle>,
    hooks: &mut HookState,
    request: &FeatureHookRequest,
    now: u64,
) -> (answer: Result<FeatureHookResponse, FeatureHookApiError>)
    requires
        old(sessions).wf(),
        old(mutations).wf(),
        old(hooks).wf(),
        now + HOOK_LEASE_MS <= u64::MAX,
    ensures
        final(sessions).wf(),
        final(mutations).wf(),
        final(hooks).wf(),
        old(sessions)@.leads_to(final(sessions)@),
        activation_does(
            backend,
            request.session_id.0@,
            request.hook,
            on_fixture(old(sessions)@, request.session_id.0@),
            now,
            World { sessions: old(sessions)@, owned: old(mutations)@ },
            old(hooks)@,
            World { sessions: final(sessions)@, owned: final(mutations)@ },
            final(hooks)@,
            answer,
        ),
{
    let ghost id = request.session_id.0@;
    let ghost before = World { sessions: sessions@, owned: mutations@ };
    let key = hook_key(request.hook);
    proof {
        lemma_feature_key(request.hook);
    }
    if hooks.allocation_address(&request.session_id, key.as_str()).is_some() {
        let beat = HookHeartbeatRequest { session_id: request.session_id.clone(), hook_key: key };
        return match hook::heartbeat(hooks, &beat, now) {
            Ok(_) => Ok(
                FeatureHookResponse {
                    session_id: request.session_id.clone(),
                    hook: request.hook,
                    active: true,
                },
            ),
            Err(error) => {
                proof {
                    assert(false);
                }
                Err(FeatureHookApiError::Hook(error))
            },
        };
    }
    if hooks.tracks(&request.session_id, key.as_str()) {
        return Err(
            FeatureHookApiError::request(
                RpcErrorCode::InvalidRequest,
                "a prior feature-hook activation failed and retained recovery ownership; deactivate it before retrying".to_owned(),
            ),
        );
    }
    let fixture = match sessions.process_kind(&request.session_id) {
        Some(ProcessKind::MemoryFixture) => true,
        _ => false,
    };
    let mut probe = Probe::new(sessions, backend, &request.session_id);
    let found = find_template(&mut probe, sessions, request.hook, fixture);
    let ghost middle = sessions@;
    let ghost start = probe.start();
    let ghost log = probe.log();
    proof {
        lemma_same(log);
        assert(led(backend, id, before.sessions, start, log, middle));
        assert(template_at(found, log.len() as int, plan_of(log, 0, request.hook, fixture)));
    }
    let template = match found {
        Ok(template) => template,
        Err(error) => {
            return Err(error);
        },
    };
    let ghost chosen = template;
    let ghost plan = plan_of(log, 0, request.hook, fixture).1->Ok_0;
    let done = hook::activate_feature_template(
        sessions,
        backend,
        mutations,
        hooks,
        &request.session_id,
        key.as_str(),
        template,
        now,
    );
    proof {
        assert(chosen.follows(plan));
    }
    match done {
        Ok(_) => Ok(
            FeatureHookResponse {
                session_id: request.session_id.clone(),
                hook: request.hook,
                active: true,
            },
        ),
        Err(error) => Err(FeatureHookApiError::Hook(error)),
    }
}

proof fn lemma_same<H, T>(log: Log<H, T>)
    ensures
        extends(log, log),
{
    assert(log.take(log.len() as int) =~= log);
}

proof fn lemma_next<H, T>(start: Log<H, T>, before: Log<H, T>, now: Log<H, T>)
    requires
        extends(start, before),
        extends(before, now),
    ensures
        extends(start, now),
        forall|log: Log<H, T>| #[trigger] extends(now, log) ==> extends(before, log),
{
    lemma_extends(start, before, now);
    lemma_prefixes(before, now);
}

/// Where a place of a feature hook is.
pub open spec fn place_at(features: Features, id: Seq<char>, export: FeatureHookExport) -> Option<
    usize,
> {
    let place = (id, hook_of(export));
    if features.dom().contains(place) {
        let feature = features[place];
        Some((feature.allocation + slot_offset(feature.kind, slot_of(export))) as usize)
    } else {
        None
    }
}

/// Where the buffer for messages of the hook for sending is: behind its slots.
pub open spec fn buffer_at(features: Features, id: Seq<char>) -> Option<usize> {
    let place = (id, FeatureHook::ChatSend);
    if features.dom().contains(place) {
        let feature = features[place];
        Some((feature.allocation + slots_end(feature.kind)) as usize)
    } else {
        None
    }
}

/// How far the memory of a place goes, at least.
pub open spec fn room(export: FeatureHookExport) -> int {
    match export {
        FeatureHookExport::TeleportHelper => 21,
        FeatureHookExport::BuddyObject => 0xe8,
        _ => 1,
    }
}

impl HookState {
    /// Where a place of a feature hook is.
    pub fn export_address(&self, session_id: &ProcessSessionId, export: FeatureHookExport) -> (address:
        Option<usize>)
        requires
            self.wf(),
        ensures
            address == place_at(features_in(self@), session_id.0@, export),
            address matches Some(at) ==> at + room(export) <= usize::MAX,
    {
        let hook = export_hook(export);
        match find_feature(self, session_id, hook) {
            None => None,
            Some((at, record)) => {
                proof {
                    places_are_slots(export, record.kind);
                    lemma_layout(record.kind);
                }
                let list = lay_out(record.kind);
                let slot: usize = match export {
                    FeatureHookExport::ReceiveSourceGid | FeatureHookExport::SendStruct => 1,
                    FeatureHookExport::ReceiveMessageBuffer | FeatureHookExport::BuddyTrigger => 2,
                    FeatureHookExport::ReceiveMessageLength | FeatureHookExport::BuddyObject => 3,
                    FeatureHookExport::ReceiveCounter => 4,
                    _ => 0,
                };
                proof {
                    assert(slot == slot_of(export));
                    assert(list@[slot as int].export == export);
                    assert(slot_offset(record.kind, slot as int) + slots(record.kind)[slot as int].1
                        <= slots_end(record.kind));
                }
                Some(at + list[slot].offset)
            },
        }
    }

    fn buffer_address(&self, session_id: &ProcessSessionId) -> (address: Option<usize>)
        requires
            self.wf(),
        ensures
            address == buffer_at(features_in(self@), session_id.0@),
    {
        match find_feature(self, session_id, FeatureHook::ChatSend) {
            None => None,
            Some((at, record)) => {
                proof {
                    lemma_layout(record.kind);
                }
                let list = lay_out(record.kind);
                let last = &list[list.len() - 1];
                proof {
                    let n = slots(record.kind).len() as int;
                    assert(slot_offset(record.kind, n - 1) + slots(record.kind)[n - 1].1
                        == slot_offset(record.kind, n));
                }
                Some(at + last.offset + last.size)
            },
        }
    }
}

/// The name of a feature hook in messages.
pub open spec fn feature_shown(hook: FeatureHook) -> Seq<char> {
    match hook {
        FeatureHook::MovementTeleport => "MovementTeleport"@,
        FeatureHook::MouselessCursor => "MouselessCursor"@,
        FeatureHook::Chat => "Chat"@,
        FeatureHook::ChatSend => "ChatSend"@,
        FeatureHook::DanceGameMoves => "DanceGameMoves"@,
    }
}

/// A feature hook that is not in place.
pub open spec fn not_active(hook: FeatureHook) -> Failure {
    failure(
        RpcErrorCode::InvalidRequest,
        "feature hook "@ + feature_shown(hook) + " is not active"@,
    )
}

fn inactive(hook: FeatureHook) -> (error: FeatureHookApiError)
    ensures
        error@ == not_active(hook),
{
    let name: &'static str = match hook {
        FeatureHook::MovementTeleport => "MovementTeleport",
        FeatureHook::MouselessCursor => "MouselessCursor",
        FeatureHook::Chat => "Chat",
        FeatureHook::ChatSend => "ChatSend",
        FeatureHook::DanceGameMoves => "DanceGameMoves",
    };
    FeatureHookApiError::request(
        RpcErrorCode::InvalidRequest,
        join3("feature hook ", name, " is not active"),
    )
}

/// Where a place of a feature hook is, once the process was asked for.
pub open spec fn export_of<H, T>(
    log: Log<H, T>,
    k: int,
    features: Features,
    id: Seq<char>,
    export: FeatureHookExport,
) -> (int, Result<usize, Failure>) {
    (
        k + 1,
        match alive(log, k) {
            Err(fault) => Err(fault),
            Ok(_) => match place_at(features, id, export) {
                None => Err(not_active(hook_of(export))),
                Some(at) => Ok(at),
            },
        },
    )
}

fn find_export<B: MutationBackend>(
    probe: &mut Probe<'_, B>,
    sessions: &mut ProcessSessionRegistry<B::Handle>,
    hooks: &HookState,
    session_id: &ProcessSessionId,
    export: FeatureHookExport,
) -> (answer: Result<usize, FeatureHookApiError>)
    requires
        old(sessions).wf(),
        old(probe).sound(old(sessions)@),
        hooks.wf(),
    ensures
        final(sessions).wf(),
        final(probe).sound(final(sessions)@),
        old(probe).goes_on(final(probe)),
        forall|log: Log<B::Handle, B::ThreadHandle>| #[trigger]
            extends(final(probe).log(), log) ==> gives_at(
                answer,
                final(probe).log().len() as int,
                export_of(log, old(probe).log().len() as int, features_in(hooks@), session_id.0@, export),
            ),
        answer matches Ok(at) ==> at + room(export) <= usize::MAX,
{
    let ghost start = probe.log();
    proof {
        lemma_same(start);
    }
    let status = probe.status(sessions);
    let ghost a = probe.log();
    proof {
        lemma_next(start, start, a);
    }
    status?;
    match hooks.export_address(session_id, export) {
        Some(at) => Ok(at),
        None => Err(inactive(export_hook(export))),
    }
}

/// An export that was read.
pub open spec fn export_read(
    answer: Result<FeatureHookExportResponse, FeatureHookApiError>,
    id: Seq<char>,
    export: FeatureHookExport,
    outcome: Result<usize, Failure>,
) -> bool {
    match (answer, outcome) {
        (Ok(response), Ok(at)) => {
            &&& response.session_id.0@ == id
            &&& response.export == export
            &&& response.address@ == address_text(at as nat)
        },
        (Err(error), Err(fault)) => error@ == fault,
        _ => false,
    }
}

/// Says where a place of a feature hook is.
pub fn read_export<B: MutationBackend>(
    sessions: &mut ProcessSessionRegistry<B::Handle>,
    backend: &B,
    hooks: &HookState,
    request: &FeatureHookExportRequest,
) -> (answer: Result<FeatureHookExportResponse, FeatureHookApiError>)
    requires
        old(sessions).wf(),
        hooks.wf(),
    ensures
        final(sessions).wf(),
        old(sessions)@.leads_to(final(sessions)@),
        exists|
            start: World<B::Handle, B::ThreadHandle>,
            log: Log<B::Handle, B::ThreadHandle>,
        |
            {
                &&& #[trigger] led(
                    backend,
                    request.session_id.0@,
                    old(sessions)@,
                    start,
                    log,
                    final(sessions)@,
                )
                &&& log.len() == 1
                &&& export_read(
                    answer,
                    request.session_id.0@,
                    request.export,
                    export_of(log, 0, features_in(hooks@), request.session_id.0@, request.export).1,
                )
            },
{
    let mut probe = Probe::new(sessions, backend, &request.session_id);
    let found = find_export(
        &mut probe,
        sessions,
        hooks,
        &request.session_id,
        request.export,
    );
    proof {
        lemma_same(probe.log());
        assert(led(
            backend,
            request.session_id.0@,
            old(sessions)@,
            probe.start(),
            probe.log(),
            sessions@,
        ));
    }
    match found {
        Ok(at) => Ok(
            FeatureHookExportResponse {
                session_id: request.session_id.clone(),
                export: request.export,
                address: format_address(at),
            },
        ),
        Err(error) => Err(error),
    }
}

/// The hooks after the leases of the first feature hooks of a session were renewed, and
/// which of them were. One that is not in place is passed over.
pub open spec fn features_renewed(hooks: Hooks, id: Seq<char>, now: u64, n: int) -> (
    Hooks,
    Seq<FeatureHook>,
)
    decreases n,
{
    if n <= 0 {
        (hooks, Seq::empty())
    } else {
        let (before, list) = features_renewed(hooks, id, now, n - 1);
        let hook = feature_hooks()[n - 1];
        if placed_at(before, id, feature_key(hook)) is Some {
            (after_heartbeat(before, (id, feature_key(hook)), now).0, list.push(hook))
        } else {
            (before, list)
        }
    }
}

/// Answers for feature hooks that are active.
pub open spec fn all_say(
    responses: Seq<FeatureHookResponse>,
    id: Seq<char>,
    hooks: Seq<FeatureHook>,
) -> bool {
    &&& responses.len() == hooks.len()
    &&& forall|i: int| 0 <= i < hooks.len() ==> says(#[trigger] responses[i], id, hooks[i])
}

/// Renews the leases of all feature hooks of a session that are in place. Their keys are
/// known, so no renewal fails.
pub fn heartbeat_all(
    hooks: &mut HookState,
    request: &FeatureHookSessionRequest,
    now: u64,
) -> (answer: Result<FeatureHooksResponse, FeatureHookApiError>)
    requires
        old(hooks).wf(),
        now + HOOK_LEASE_MS <= u64::MAX,
    ensures
        final(hooks).wf(),
        ({
            let (left, list) = features_renewed(old(hooks)@, request.session_id.0@, now, 5);
            &&& final(hooks)@ == left
            &&& answer matches Ok(response) && {
                &&& response.session_id.0@ == request.session_id.0@
                &&& all_say(response.hooks@, request.session_id.0@, list)
            }
        }),
{
    let ghost held = hooks@;
    let ghost id = request.session_id.0@;
    let all = FeatureHook::all();
    let mut responses: Vec<FeatureHookResponse> = Vec::new();
    let mut i: usize = 0;
    while i < all.len()
        invariant
            i <= all@.len(),
            all@ == feature_hooks(),
            id == request.session_id.0@,
            now + HOOK_LEASE_MS <= u64::MAX,
            hooks.wf(),
            hooks@ == features_renewed(held, id, now, i as int).0,
            all_say(responses@, id, features_renewed(held, id, now, i as int).1),
        decreases all@.len() - i,
    {
        let selected = all[i];
        let key = hook_key(selected);
        let ghost before = responses@;
        proof {
            lemma_feature_key(selected);
        }
        if hooks.allocation_address(&request.session_id, key.as_str()).is_some() {
            let beat = HookHeartbeatRequest { session_id: request.session_id.clone(), hook_key: key };
            if let Err(error) = hook::heartbeat(hooks, &beat, now) {
                proof {
                    assert(false);
                }
                return Err(FeatureHookApiError::Hook(error));
            }
            responses.push(
                FeatureHookResponse {
                    session_id: request.session_id.clone(),
                    hook: selected,
                    active: true,
                },
            );
            proof {
                let list = features_renewed(held, id, now, i + 1).1;
                assert forall|j: int| 0 <= j < list.len() implies says(
                    #[trigger] responses@[j],
                    id,
                    list[j],
                ) by {
                    if j < before.len() {
                        assert(says(before[j], id, list[j]));
                    }
                }
            }
        }
        i += 1;
    }
    Ok(FeatureHooksResponse { session_id: request.session_id.clone(), hooks: responses })
}

/// An action that has not been taken up yet.
pub open spec fn still_pending(action: Seq<char>) -> Failure {
    failure(
        RpcErrorCode::InvalidRequest,
        "the previous "@ + action + " action is still pending"@,
    )
}

/// Whether a flag is set, read at a place of the log.
pub open spec fn flag_of<H, T>(log: Log<H, T>, k: int, address: usize) -> (
    int,
    Result<bool, Failure>,
) {
    match bytes_of(log, k, address, 1) {
        (k, Err(fault)) => (k, Err(fault)),
        (k, Ok(bytes)) => (k, Ok(bytes[0] != 0)),
    }
}

fn read_flag<B: MutationBackend>(
    probe: &mut Probe<'_, B>,
    sessions: &mut ProcessSessionRegistry<B::Handle>,
    address: usize,
) -> (answer: Result<bool, FeatureHookApiError>)
    requires
        old(sessions).wf(),
        old(probe).sound(old(sessions)@),
    ensures
        final(sessions).wf(),
        final(probe).sound(final(sessions)@),
        old(probe).goes_on(final(probe)),
        forall|log: Log<B::Handle, B::ThreadHandle>| #[trigger]
            extends(final(probe).log(), log) ==> gives_at(
                answer,
                final(probe).log().len() as int,
                flag_of(log, old(probe).log().len() as int, address),
            ),
        final(probe).log().len() == old(probe).log().len() + 1,
{
    let ghost start = probe.log();
    proof {
        lemma_same(start);
    }
    let bytes = read_exactly(probe, sessions, address, 1);
    let ghost a = probe.log();
    proof {
        lemma_next(start, start, a);
    }
    let bytes = bytes?;
    Ok(bytes[0] != 0)
}

/// An action that was taken up before the next one, read at a place of the log.
pub open spec fn idle_of<H, T>(log: Log<H, T>, k: int, address: usize, action: Seq<char>) -> (
    int,
    Result<(), Failure>,
) {
    match flag_of(log, k, address) {
        (k, Err(fault)) => (k, Err(fault)),
        (k, Ok(true)) => (k, Err(still_pending(action))),
        (k, Ok(false)) => (k, Ok(())),
    }
}

fn ensure_action_idle<B: MutationBackend>(
    probe: &mut Probe<'_, B>,
    sessions: &mut ProcessSessionRegistry<B::Handle>,
    address: usize,
    action: &str,
) -> (answer: Result<(), FeatureHookApiError>)
    requires
        old(sessions).wf(),
        old(probe).sound(old(sessions)@),
    ensures
        final(sessions).wf(),
        final(probe).sound(final(sessions)@),
        old(probe).goes_on(final(probe)),
        forall|log: Log<B::Handle, B::ThreadHandle>| #[trigger]
            extends(final(probe).log(), log) ==> gives_at(
                answer,
                final(probe).log().len() as int,
                idle_of(log, old(probe).log().len() as int, address, action@),
            ),
{
    let ghost start = probe.log();
    proof {
        lemma_same(start);
    }
    let flag = read_flag(probe, sessions, address);
    let ghost a = probe.log();
    proof {
        lemma_next(start, start, a);
    }
    if flag? {
        return Err(
            FeatureHookApiError::request(
                RpcErrorCode::InvalidRequest,
                join3("the previous ", action, " action is still pending"),
            ),
        );
    }
    Ok(())
}

/// A hook under the key of a feature hook without what belongs to one.
pub open spec fn without_exports(name: Seq<char>) -> Failure {
    failure(
        RpcErrorCode::InvalidRequest,
        name + " hook exports are unavailable during deactivation"@,
    )
}

/// Whether the actions of a hook that is in place are taken up.
pub open spec fn quiet_of<H, T>(
    log: Log<H, T>,
    k: int,
    hooks: Hooks,
    id: Seq<char>,
    hook: FeatureHook,
) -> (int, Result<(), Failure>) {
    let features = features_in(hooks);
    if placed_at(hooks, id, feature_key(hook)) is None {
        (k, Ok(()))
    } else {
        match hook {
            FeatureHook::MovementTeleport => match place_at(
                features,
                id,
                FeatureHookExport::TeleportHelper,
            ) {
                None => (k, Err(without_exports("movement"@))),
                Some(helper) => idle_of(log, k, (helper + 12) as usize, "teleport"@),
            },
            FeatureHook::ChatSend => match (
                place_at(features, id, FeatureHookExport::SendTrigger),
                place_at(features, id, FeatureHookExport::BuddyTrigger),
            ) {
                (Some(send), Some(buddy)) => match idle_of(log, k, send, "chat send"@) {
                    (k, Err(fault)) => (k, Err(fault)),
                    (k, Ok(_)) => idle_of(log, k, buddy, "buddy add"@),
                },
                _ => (k, Err(without_exports("chat-send"@))),
            },
            _ => (k, Ok(())),
        }
    }
}

fn unexported(name: &str) -> (error: FeatureHookApiError)
    ensures
        error@ == without_exports(name@),
{
    FeatureHookApiError::request(
        RpcErrorCode::InvalidRequest,
        join2(name, " hook exports are unavailable during deactivation"),
    )
}

fn check_quiet<B: MutationBackend>(
    probe: &mut Probe<'_, B>,
    sessions: &mut ProcessSessionRegistry<B::Handle>,
    hooks: &HookState,
    session_id: &ProcessSessionId,
    hook: FeatureHook,
) -> (answer: Result<(), FeatureHookApiError>)
    requires
        old(sessions).wf(),
        old(probe).sound(old(sessions)@),
        hooks.wf(),
    ensures
        final(sessions).wf(),
        final(probe).sound(final(sessions)@),
        old(probe).goes_on(final(probe)),
        forall|log: Log<B::Handle, B::ThreadHandle>| #[trigger]
            extends(final(probe).log(), log) ==> gives_at(
                answer,
                final(probe).log().len() as int,
                quiet_of(log, old(probe).log().len() as int, hooks@, session_id.0@, hook),
            ),
{
    let ghost start = probe.log();
    proof {
        lemma_same(start);
    }
    let key = hook_key(hook);
    if hooks.allocation_address(session_id, key.as_str()).is_none() {
        return Ok(());
    }
    match hook {
        FeatureHook::MovementTeleport => {
            match hooks.export_address(session_id, FeatureHookExport::TeleportHelper) {
                Some(helper) => ensure_action_idle(probe, sessions, helper + 12, "teleport"),
                None => Err(unexported("movement")),
            }
        },
        FeatureHook::ChatSend => {
            let send = hooks.export_address(session_id, FeatureHookExport::SendTrigger);
            let buddy = hooks.export_address(session_id, FeatureHookExport::BuddyTrigger);
            match (send, buddy) {
                (Some(send), Some(buddy)) => {
                    let first = ensure_action_idle(probe, sessions, send, "chat send");
                    let ghost a = probe.log();
                    proof {
                        lemma_next(start, start, a);
                    }
                    first?;
                    let second = ensure_action_idle(probe, sessions, buddy, "buddy add");
                    let ghost b = probe.log();
                    proof {
                        lemma_next(start, a, b);
                    }
                    second
                },
                _ => Err(unexported("chat-send")),
            }
        },
        _ => Ok(()),
    }
}

/// What a request to take a feature hook out does once its actions are taken up: the hook
/// is undone as every hook is.
pub open spec fn retires<B: MutationBackend>(
    backend: &B,
    id: Seq<char>,
    hook: FeatureHook,
    before: World<B::Handle, B::ThreadHandle>,
    hooks: Hooks,
    after: World<B::Handle, B::ThreadHandle>,
    left: Hooks,
    answer: Result<FeatureHookDeactivateResponse, FeatureHookApiError>,
) -> bool {
    exists|result: Result<bool, Trouble>|
        {
            &&& #[trigger] takes_out(
                backend,
                (id, feature_key(hook)),
                before,
                hooks,
                after,
                left,
                result,
            )
            &&& match (answer, result) {
                (Ok(response), Ok(there)) => {
                    &&& response.session_id.0@ == id
                    &&& response.hook == hook
                    &&& response.deactivated == there
                },
                (Err(error), Err(trouble)) => error@ == trouble.fault,
                _ => false,
            }
        }
}

/// Takes a feature hook out, once its actions are taken up.
pub fn deactivate<B: MutationBackend>(
    sessions: &mut ProcessSessionRegistry<B::Handle>,
    backend: &B,
    mutations: &mut MutationState<B::ThreadHandle>,
    hooks: &mut HookState,
    request: &FeatureHookRequest,
) -> (answer: Result<FeatureHookDeactivateResponse, FeatureHookApiError>)
    requires
        old(sessions).wf(),
        old(mutations).wf(),
        old(hooks).wf(),
    ensures
        final(sessions).wf(),
        final(mutations).wf(),
        final(hooks).wf(),
        old(sessions)@.leads_to(final(sessions)@),
        exists|
            start: World<B::Handle, B::ThreadHandle>,
            log: Log<B::Handle, B::ThreadHandle>,
            middle: Sessions<B::Handle>,
        |
            {
                &&& #[trigger] led(
                    backend,
                    request.session_id.0@,
                    old(sessions)@,
                    start,
                    log,
                    middle,
                )
                &&& match quiet_of(
                    log,
                    0,
                    old(hooks)@,
                    request.session_id.0@,
                    request.hook,
                ) {
                    (k, Err(fault)) => {
                        &&& k == log.len()
                        &&& answer matches Err(error) && error@ == fault
                        &&& final(sessions)@ == middle
                        &&& final(mutations)@ == old(mutations)@
                        &&& final(hooks)@ == old(hooks)@
                    },
                    (k, Ok(_)) => {
                        &&& k == log.len()
                        &&& retires(
                            backend,
                            request.session_id.0@,
                            request.hook,
                            World { sessions: middle, owned: old(mutations)@ },
                            old(hooks)@,
                            World { sessions: final(sessions)@, owned: final(mutations)@ },
                            final(hooks)@,
                            answer,
                        )
                    },
                }
            },
{
    let ghost id = request.session_id.0@;
    let ghost held = hooks@;
    let mut probe = Probe::new(sessions, backend, &request.session_id);
    let verdict = check_quiet(&mut probe, sessions, hooks, &request.session_id, request.hook);
    let ghost middle = sessions@;
    let ghost start = probe.start();
    let ghost log = probe.log();
    proof {
        lemma_same(log);
        assert(led(backend, id, old(sessions)@, start, log, middle));
    }
    if let Err(error) = verdict {
        return Err(error);
    }
    let wanted = HookDeactivateRequest {
        session_id: request.session_id.clone(),
        hook_key: hook_key(request.hook),
    };
    proof {
        lemma_feature_key(request.hook);
    }
    let done = hook::deactivate(sessions, backend, mutations, hooks, &wanted);
    let ghost before = World { sessions: middle, owned: old(mutations)@ };
    let ghost after = World { sessions: sessions@, owned: mutations@ };
    let ghost result = choose|result: Result<bool, Trouble>| #[trigger]
        takes_out(
            backend,
            (id, feature_key(request.hook)),
            before,
            held,
            after,
            hooks@,
            result,
        ) && match (done, result) {
            (Ok(response), Ok(there)) => response.deactivated == there,
            (Err(error), Err(trouble)) => error.trouble() == trouble,
            _ => false,
        };
    proof {
        assert(takes_out(
            backend,
            (id, feature_key(request.hook)),
            before,
            held,
            after,
            hooks@,
            result,
        ));
    }
    match done {
        Err(error) => Err(FeatureHookApiError::Hook(error)),
        Ok(response) => Ok(
            FeatureHookDeactivateResponse {
                session_id: request.session_id.clone(),
                hook: request.hook,
                deactivated: response.deactivated,
            },
        ),
    }
}

/// What is written to move the cursor.
pub open spec fn cursor_bytes(x: i32, y: i32) -> Seq<u8> {
    le_bytes(wrap32(x as int), 4) + le_bytes(wrap32(y as int), 4)
}

/// How moving the cursor ends.
pub open spec fn mouse_of<H, T>(
    log: Log<H, T>,
    k: int,
    features: Features,
    id: Seq<char>,
    x: i32,
    y: i32,
) -> (int, Result<(), Failure>) {
    match export_of(log, k, features, id, FeatureHookExport::MousePosition) {
        (k, Err(fault)) => (k, Err(fault)),
        (k, Ok(at)) => (k + 1, put(log, k, at, cursor_bytes(x, y))),
    }
}

fn move_cursor<B: MutationBackend>(
    probe: &mut Probe<'_, B>,
    sessions: &mut ProcessSessionRegistry<B::Handle>,
    hooks: &HookState,
    session_id: &ProcessSessionId,
    x: i32,
    y: i32,
) -> (answer: Result<(), FeatureHookApiError>)
    requires
        old(sessions).wf(),
        old(probe).sound(old(sessions)@),
        hooks.wf(),
    ensures
        final(sessions).wf(),
        final(probe).sound(final(sessions)@),
        old(probe).goes_on(final(probe)),
        forall|log: Log<B::Handle, B::ThreadHandle>| #[trigger]
            extends(final(probe).log(), log) ==> gives_at(
                answer,
                final(probe).log().len() as int,
                mouse_of(log, old(probe).log().len() as int, features_in(hooks@), session_id.0@, x, y),
            ),
{
    let ghost start = probe.log();
    proof {
        lemma_same(start);
    }
    let at = find_export(
        probe,
        sessions,
        hooks,
        session_id,
        FeatureHookExport::MousePosition,
    );
    let ghost a = probe.log();
    proof {
        lemma_next(start, start, a);
    }
    let at: usize = at?;
    let mut bytes: Vec<u8> = Vec::new();
    push_i32(&mut bytes, x);
    push_i32(&mut bytes, y);
    proof {
        assert(bytes@ =~= cursor_bytes(x, y));
    }
    let done = probe.put(sessions, at, bytes);
    let ghost b = probe.log();
    proof {
        lemma_next(start, a, b);
    }
    done
}

/// An action that was or was not completed.
pub open spec fn acted(
    answer: Result<FeatureActionResponse, FeatureHookApiError>,
    id: Seq<char>,
    outcome: Result<bool, Failure>,
) -> bool {
    match (answer, outcome) {
        (Ok(response), Ok(completed)) => response.session_id.0@ == id && response.completed
            == completed,
        (Err(error), Err(fault)) => error@ == fault,
        _ => false,
    }
}

/// Moves the cursor that the game sees.
pub fn set_mouse_position<B: MutationBackend>(
    sessions: &mut ProcessSessionRegistry<B::Handle>,
    backend: &B,
    hooks: &HookState,
    request: &FeatureMousePositionRequest,
) -> (answer: Result<FeatureActionResponse, FeatureHookApiError>)
    requires
        old(sessions).wf(),
        hooks.wf(),
    ensures
        final(sessions).wf(),
        old(sessions)@.leads_to(final(sessions)@),
        exists|
            start: World<B::Handle, B::ThreadHandle>,
            log: Log<B::Handle, B::ThreadHandle>,
        |
            {
                &&& #[trigger] led(
                    backend,
                    request.session_id.0@,
                    old(sessions)@,
                    start,
                    log,
                    final(sessions)@,
                )
                &&& ({
                    let (k, outcome) = mouse_of(
                        log,
                        0,
                        features_in(hooks@),
                        request.session_id.0@,
                        request.x,
                        request.y,
                    );
                    &&& k == log.len()
                    &&& acted(
                        answer,
                        request.session_id.0@,
                        match outcome {
                            Ok(_) => Ok(true),
                            Err(fault) => Err(fault),
                        },
                    )
                })
            },
{
    let mut probe = Probe::new(sessions, backend, &request.session_id);
    let done = move_cursor(
        &mut probe,
        sessions,
        hooks,
        &request.session_id,
        request.x,
        request.y,
    );
    proof {
        lemma_same(probe.log());
        assert(led(
            backend,
            request.session_id.0@,
            old(sessions)@,
            probe.start(),
            probe.log(),
            sessions@,
        ));
    }
    match done {
        Ok(_) => Ok(
            FeatureActionResponse { session_id: request.session_id.clone(), completed: true },
        ),
        Err(error) => Err(error),
    }
}

/// The sessions after the operation before a place of the log.
pub open spec fn sessions_at<H, T>(log: Log<H, T>, k: int) -> Sessions<H> {
    log[k - 1].after.sessions
}

/// The UTF-16 code units of a character.
pub open spec fn units_of(c: char) -> Seq<u16> {
    let value = c as int;
    if value < 0x1_0000 {
        seq![value as u16]
    } else {
        seq![
            (0xd800 + (value - 0x1_0000) / 0x400) as u16,
            (0xdc00 + (value - 0x1_0000) % 0x400) as u16,
        ]
    }
}

/// The UTF-16 code units of text.
pub open spec fn utf16(text: Seq<char>) -> Seq<u16>
    decreases text.len(),
{
    if text.len() == 0 {
        Seq::empty()
    } else {
        utf16(text.drop_last()) + units_of(text.last())
    }
}

/// Code units as bytes, low byte first.
pub open spec fn unit_bytes(units: Seq<u16>) -> Seq<u8>
    decreases units.len(),
{
    if units.len() == 0 {
        Seq::empty()
    } else {
        unit_bytes(units.drop_last()) + le_bytes(units.last() as nat, 2)
    }
}

fn push_char(units: &mut Vec<u16>, c: char)
    ensures
        final(units)@ == old(units)@ + units_of(c),
{
    let value: u32 = c as u32;
    if value < 0x1_0000 {
        units.push(value as u16);
    } else {
        let rest: u32 = value - 0x1_0000;
        units.push((0xd800 + rest / 0x400) as u16);
        units.push((0xdc00 + rest % 0x400) as u16);
    }
    proof {
        assert(units@ =~= old(units)@ + units_of(c));
    }
}

fn encode_utf16(text: &str) -> (units: Vec<u16>)
    ensures
        units@ == utf16(text@),
        units@.len() >= text@.len(),
{
    let chars = chars_of(text);
    let mut units: Vec<u16> = Vec::new();
    let mut i: usize = 0;
    while i < chars.len()
        invariant
            i <= chars@.len(),
            chars@ == text@,
            units@ == utf16(text@.take(i as int)),
            units@.len() >= i,
        decreases chars@.len() - i,
    {
        proof {
            assert(text@.take(i + 1).drop_last() =~= text@.take(i as int));
            assert(text@.take(i + 1).last() == chars@[i as int]);
        }
        push_char(&mut units, chars[i]);
        i += 1;
    }
    proof {
        assert(text@.take(i as int) =~= text@);
    }
    units
}

fn push_units(out: &mut Vec<u8>, units: &Vec<u16>)
    ensures
        final(out)@ == old(out)@ + unit_bytes(units@),
{
    let ghost before = out@;
    let mut i: usize = 0;
    proof {
        assert(before + unit_bytes(units@.take(0)) =~= before);
    }
    while i < units.len()
        invariant
            i <= units@.len(),
            out@ == before + unit_bytes(units@.take(i as int)),
        decreases units@.len() - i,
    {
        proof {
            assert(units@.take(i + 1).drop_last() =~= units@.take(i as int));
            assert(units@.take(i + 1).last() == units@[i as int]);
        }
        push_le(out, units[i] as u64, 2);
        i += 1;
        proof {
            assert(out@ =~= before + unit_bytes(units@.take(i as int)));
        }
    }
    proof {
        assert(units@.take(i as int) =~= units@);
    }
}

proof fn lemma_last<H, T>(now: Log<H, T>)
    requires
        now.len() > 0,
    ensures
        forall|log: Log<H, T>| #[trigger]
            extends(now, log) ==> log[now.len() - 1] == now[now.len() - 1],
{
    assert forall|log: Log<H, T>| #[trigger] extends(now, log) implies log[now.len() - 1]
        == now[now.len() - 1] by {
        assert(log.take(now.len() as int)[now.len() - 1] == log[now.len() - 1]);
    }
}

/// An action that the game has yet to take up.
#[derive(Debug)]
pub struct PendingAction {
    pub trigger: usize,
    pub structure: Option<usize>,
    pub deadline: u64,
}

/// The longest that a chat or a buddy request may take.
pub const ACTION_TIMEOUT_MS: u64 = 4_000;

/// An action was asked for too late.
pub open spec fn timed_out() -> Failure {
    failure(RpcErrorCode::Timeout, "the feature hook did not complete before its timeout"@)
}

/// Sets the flag of an action. On a fixture, where nothing takes it up, it is taken
/// back at once.
pub open spec fn trigger_of<H, T>(log: Log<H, T>, k: int, id: Seq<char>, trigger: usize) -> (
    int,
    Result<(), Failure>,
) {
    match put(log, k, trigger, seq![1u8]) {
        Err(fault) => (k + 1, Err(fault)),
        Ok(_) => if on_fixture(sessions_at(log, k + 1), id) {
            (k + 2, put(log, k + 1, trigger, seq![0u8]))
        } else {
            (k + 1, Ok(()))
        },
    }
}

fn one_byte(byte: u8) -> (bytes: Vec<u8>)
    ensures
        bytes@ == seq![byte],
{
    let mut bytes: Vec<u8> = Vec::new();
    bytes.push(byte);
    proof {
        assert(bytes@ =~= seq![byte]);
    }
    bytes
}

fn is_fixture<H>(sessions: &ProcessSessionRegistry<H>, session_id: &ProcessSessionId) -> (yes: bool)
    requires
        sessions.wf(),
    ensures
        yes == on_fixture(sessions@, session_id.0@),
{
    match sessions.process_kind(session_id) {
        Some(ProcessKind::MemoryFixture) => true,
        _ => false,
    }
}

fn set_trigger<B: MutationBackend>(
    probe: &mut Probe<'_, B>,
    sessions: &mut ProcessSessionRegistry<B::Handle>,
    session_id: &ProcessSessionId,
    trigger: usize,
) -> (answer: Result<(), FeatureHookApiError>)
    requires
        old(sessions).wf(),
        old(probe).sound(old(sessions)@),
    ensures
        final(sessions).wf(),
        final(probe).sound(final(sessions)@),
        old(probe).goes_on(final(probe)),
        forall|log: Log<B::Handle, B::ThreadHandle>| #[trigger]
            extends(final(probe).log(), log) ==> gives_at(
                answer,
                final(probe).log().len() as int,
                trigger_of(log, old(probe).log().len() as int, session_id.0@, trigger),
            ),
{
    let ghost start = probe.log();
    proof {
        lemma_same(start);
    }
    let set = probe.put(sessions, trigger, one_byte(1));
    let ghost a = probe.log();
    proof {
        lemma_next(start, start, a);
    }
    set?;
    proof {
        lemma_last(a);
    }
    if is_fixture(sessions, session_id) {
        let cleared = probe.put(sessions, trigger, one_byte(0));
        let ghost b = probe.log();
        proof {
            lemma_next(start, a, b);
        }
        cleared
    } else {
        Ok(())
    }
}

/// What keeps a message from being sent.
pub open spec fn message_refusal(message: Seq<char>) -> Option<Failure> {
    if message.len() == 0 {
        Some(failure(RpcErrorCode::InvalidRequest, "chat messages cannot be empty"@))
    } else if message.len() > MAX_CHAT_WCHARS {
        Some(
            failure(
                RpcErrorCode::MemoryLimitExceeded,
                "chat messages cannot exceed 79 characters"@,
            ),
        )
    } else {
        None
    }
}

/// The trigger and the structure for a message, once nothing is pending.
pub open spec fn chat_places_of<H, T>(log: Log<H, T>, k: int, features: Features, id: Seq<char>) -> (
    int,
    Result<(usize, usize), Failure>,
) {
    match export_of(log, k, features, id, FeatureHookExport::SendTrigger) {
        (k, Err(fault)) => (k, Err(fault)),
        (k, Ok(trigger)) => match idle_of(log, k, trigger, "chat send"@) {
            (k, Err(fault)) => (k, Err(fault)),
            (k, Ok(_)) => match export_of(log, k, features, id, FeatureHookExport::SendStruct) {
                (k, Err(fault)) => (k, Err(fault)),
                (k, Ok(structure)) => (k, Ok((trigger, structure))),
            },
        },
    }
}

fn find_chat_places<B: MutationBackend>(
    probe: &mut Probe<'_, B>,
    sessions: &mut ProcessSessionRegistry<B::Handle>,
    hooks: &HookState,
    session_id: &ProcessSessionId,
) -> (answer: Result<(usize, usize), FeatureHookApiError>)
    requires
        old(sessions).wf(),
        old(probe).sound(old(sessions)@),
        hooks.wf(),
    ensures
        final(sessions).wf(),
        final(probe).sound(final(sessions)@),
        old(probe).goes_on(final(probe)),
        forall|log: Log<B::Handle, B::ThreadHandle>| #[trigger]
            extends(final(probe).log(), log) ==> gives_at(
                answer,
                final(probe).log().len() as int,
                chat_places_of(log, old(probe).log().len() as int, features_in(hooks@), session_id.0@),
            ),
{
    let ghost start = probe.log();
    proof {
        lemma_same(start);
    }
    let trigger = find_export(
        probe,
        sessions,
        hooks,
        session_id,
        FeatureHookExport::SendTrigger,
    );
    let ghost a = probe.log();
    proof {
        lemma_next(start, start, a);
    }
    let trigger: usize = trigger?;
    let idle = ensure_action_idle(probe, sessions, trigger, "chat send");
    let ghost b = probe.log();
    proof {
        lemma_next(start, a, b);
    }
    idle?;
    let structure = find_export(
        probe,
        sessions,
        hooks,
        session_id,
        FeatureHookExport::SendStruct,
    );
    let ghost c = probe.log();
    proof {
        lemma_next(start, b, c);
    }
    let structure: usize = structure?;
    Ok((trigger, structure))
}

/// The first bytes of the string in a message: a short one stands there itself.
pub open spec fn string_head(units: Seq<u16>) -> Seq<u8> {
    if units.len() <= 7 {
        unit_bytes(units) + Seq::new((16 - 2 * units.len()) as nat, |i: int| 0u8)
    } else {
        Seq::new(16, |i: int| 0u8)
    }
}

/// The structure for a message: a string of the game, with its length and its
/// capacity, and whom the message is for.
pub open spec fn chat_structure(units: Seq<u16>, target: u64) -> Seq<u8> {
    string_head(units) + le_bytes(units.len(), 8) + le_bytes(
        if units.len() <= 7 {
            7
        } else {
            units.len()
        },
        8,
    ) + le_bytes(target as nat, 8)
}

/// A message as it stands in its buffer: code units and a closing zero.
pub open spec fn message_bytes(units: Seq<u16>) -> Seq<u8> {
    unit_bytes(units) + seq![0u8, 0u8]
}

pub(crate) proof fn lemma_unit_bytes_len(units: Seq<u16>)
    ensures
        unit_bytes(units).len() == 2 * units.len(),
    decreases units.len(),
{
    if units.len() > 0 {
        lemma_unit_bytes_len(units.drop_last());
        lemma_le_bytes_len(units.last() as nat, 2);
    }
}

/// The structure for a message has the size that the game expects.
pub proof fn chat_structures_have_one_size(units: Seq<u16>, target: u64)
    ensures
        chat_structure(units, target).len() == 0x28,
{
    lemma_unit_bytes_len(units);
    lemma_le_bytes_len(units.len(), 8);
    lemma_le_bytes_len(7, 8);
    lemma_le_bytes_len(target as nat, 8);
}

fn build_structure(units: &Vec<u16>, target: u64) -> (bytes: Vec<u8>)
    ensures
        bytes@ == chat_structure(units@, target),
{
    let mut bytes: Vec<u8> = Vec::new();
    let length: usize = units.len();
    if length <= 7 {
        push_units(&mut bytes, units);
        let rest = zeros(16 - 2 * length);
        push_all(&mut bytes, rest.as_slice());
    } else {
        let rest = zeros(16);
        push_all(&mut bytes, rest.as_slice());
    }
    proof {
        assert(bytes@ =~= string_head(units@));
    }
    push_u64(&mut bytes, length as u64);
    let capacity: u64 = if length <= 7 {
        7
    } else {
        length as u64
    };
    push_u64(&mut bytes, capacity);
    push_u64(&mut bytes, target);
    bytes
}

fn build_message(units: &Vec<u16>) -> (bytes: Vec<u8>)
    ensures
        bytes@ == message_bytes(units@),
{
    let mut bytes: Vec<u8> = Vec::new();
    push_units(&mut bytes, units);
    bytes.push(0);
    bytes.push(0);
    proof {
        assert(bytes@ =~= message_bytes(units@));
    }
    bytes
}

/// Writes a message and its structure and sets the trigger.
pub open spec fn message_of<H, T>(
    log: Log<H, T>,
    k: int,
    id: Seq<char>,
    buffer: usize,
    structure: usize,
    trigger: usize,
    units: Seq<u16>,
    target: u64,
) -> (int, Result<(), Failure>) {
    match put(log, k, buffer, message_bytes(units)) {
        Err(fault) => (k + 1, Err(fault)),
        Ok(_) => match put(log, k + 1, structure, chat_structure(units, target)) {
            Err(fault) => (k + 2, Err(fault)),
            Ok(_) => trigger_of(log, k + 2, id, trigger),
        },
    }
}

fn write_message<B: MutationBackend>(
    probe: &mut Probe<'_, B>,
    sessions: &mut ProcessSessionRegistry<B::Handle>,
    session_id: &ProcessSessionId,
    buffer: usize,
    structure: usize,
    trigger: usize,
    units: &Vec<u16>,
    target: u64,
) -> (answer: Result<(), FeatureHookApiError>)
    requires
        old(sessions).wf(),
        old(probe).sound(old(sessions)@),
    ensures
        final(sessions).wf(),
        final(probe).sound(final(sessions)@),
        old(probe).goes_on(final(probe)),
        forall|log: Log<B::Handle, B::ThreadHandle>| #[trigger]
            extends(final(probe).log(), log) ==> gives_at(
                answer,
                final(probe).log().len() as int,
                message_of(
                    log,
                    old(probe).log().len() as int,
                    session_id.0@,
                    buffer,
                    structure,
                    trigger,
                    units@,
                    target,
                ),
            ),
{
    let ghost start = probe.log();
    proof {
        lemma_same(start);
    }
    let text = probe.put(sessions, buffer, build_message(units));
    let ghost a = probe.log();
    proof {
        lemma_next(start, start, a);
    }
    text?;
    let header = probe.put(sessions, structure, build_structure(units, target));
    let ghost b = probe.log();
    proof {
        lemma_next(start, a, b);
    }
    header?;
    let set = set_trigger(probe, sessions, session_id, trigger);
    let ghost c = probe.log();
    proof {
        lemma_next(start, b, c);
    }
    set
}

/// What sending a message does until the game takes it up.
pub open spec fn chat_of<H, T>(
    log: Log<H, T>,
    k: int,
    features: Features,
    id: Seq<char>,
    message: Seq<char>,
    target: u64,
) -> (int, Result<(usize, usize), Failure>) {
    match message_refusal(message) {
        Some(fault) => (k, Err(fault)),
        None => match chat_places_of(log, k, features, id) {
            (k, Err(fault)) => (k, Err(fault)),
            (k, Ok((trigger, structure))) => if utf16(message).len() > MAX_CHAT_WCHARS {
                (
                    k,
                    Err(
                        failure(
                            RpcErrorCode::MemoryLimitExceeded,
                            "chat messages cannot exceed 79 UTF-16 code units"@,
                        ),
                    ),
                )
            } else {
                match buffer_at(features, id) {
                    None => (
                        k,
                        Err(
                            failure(
                                RpcErrorCode::InvalidRequest,
                                "chat-send hook is not active"@,
                            ),
                        ),
                    ),
                    Some(buffer) => match message_of(
                        log,
                        k,
                        id,
                        buffer,
                        structure,
                        trigger,
                        utf16(message),
                        target,
                    ) {
                        (k, Err(fault)) => (k, Err(fault)),
                        (k, Ok(_)) => (k, Ok((trigger, structure))),
                    },
                }
            },
        },
    }
}

fn begin_chat<B: MutationBackend>(
    probe: &mut Probe<'_, B>,
    sessions: &mut ProcessSessionRegistry<B::Handle>,
    hooks: &HookState,
    session_id: &ProcessSessionId,
    message: &str,
    target: u64,
) -> (answer: Result<(usize, usize), FeatureHookApiError>)
    requires
        old(sessions).wf(),
        old(probe).sound(old(sessions)@),
        hooks.wf(),
    ensures
        final(sessions).wf(),
        final(probe).sound(final(sessions)@),
        old(probe).goes_on(final(probe)),
        forall|log: Log<B::Handle, B::ThreadHandle>| #[trigger]
            extends(final(probe).log(), log) ==> gives_at(
                answer,
                final(probe).log().len() as int,
                chat_of(log, old(probe).log().len() as int, features_in(hooks@), session_id.0@, message@, target),
            ),
{
    let ghost start = probe.log();
    proof {
        lemma_same(start);
    }
    let length: usize = chars_of(message).len();
    if length == 0 {
        return Err(
            FeatureHookApiError::request(
                RpcErrorCode::InvalidRequest,
                "chat messages cannot be empty".to_owned(),
            ),
        );
    }
    if length > MAX_CHAT_WCHARS {
        return Err(
            FeatureHookApiError::request(
                RpcErrorCode::MemoryLimitExceeded,
                "chat messages cannot exceed 79 characters".to_owned(),
            ),
        );
    }
    let places = find_chat_places(probe, sessions, hooks, session_id);
    let ghost a = probe.log();
    proof {
        lemma_next(start, start, a);
    }
    let (trigger, structure) = places?;
    let units = encode_utf16(message);
    if units.len() > MAX_CHAT_WCHARS {
        return Err(
            FeatureHookApiError::request(
                RpcErrorCode::MemoryLimitExceeded,
                "chat messages cannot exceed 79 UTF-16 code units".to_owned(),
            ),
        );
    }
    let buffer: usize = match hooks.buffer_address(session_id) {
        Some(buffer) => buffer,
        None => {
            return Err(
                FeatureHookApiError::request(
                    RpcErrorCode::InvalidRequest,
                    "chat-send hook is not active".to_owned(),
                ),
            );
        },
    };
    let written = write_message(
        probe,
        sessions,
        session_id,
        buffer,
        structure,
        trigger,
        &units,
        target,
    );
    let ghost b = probe.log();
    proof {
        lemma_next(start, a, b);
    }
    written?;
    Ok((trigger, structure))
}

/// What adding a buddy does until the game takes it up.
pub open spec fn buddy_of<H, T>(
    log: Log<H, T>,
    k: int,
    features: Features,
    id: Seq<char>,
    target: u64,
) -> (int, Result<usize, Failure>) {
    match export_of(log, k, features, id, FeatureHookExport::BuddyTrigger) {
        (k, Err(fault)) => (k, Err(fault)),
        (k, Ok(trigger)) => match idle_of(log, k, trigger, "buddy add"@) {
            (k, Err(fault)) => (k, Err(fault)),
            (k, Ok(_)) => match export_of(log, k, features, id, FeatureHookExport::BuddyObject) {
                (k, Err(fault)) => (k, Err(fault)),
                (k, Ok(object)) => match put(
                    log,
                    k,
                    (object + 0xe0) as usize,
                    le_bytes(target as nat, 8),
                ) {
                    Err(fault) => (k + 1, Err(fault)),
                    Ok(_) => match trigger_of(log, k + 1, id, trigger) {
                        (k, Err(fault)) => (k, Err(fault)),
                        (k, Ok(_)) => (k, Ok(trigger)),
                    },
                },
            },
        },
    }
}

fn eight_bytes(value: u64) -> (bytes: Vec<u8>)
    ensures
        bytes@ == le_bytes(value as nat, 8),
{
    let mut bytes: Vec<u8> = Vec::new();
    push_u64(&mut bytes, value);
    proof {
        assert(bytes@ =~= le_bytes(value as nat, 8));
    }
    bytes
}

fn begin_buddy<B: MutationBackend>(
    probe: &mut Probe<'_, B>,
    sessions: &mut ProcessSessionRegistry<B::Handle>,
    hooks: &HookState,
    session_id: &ProcessSessionId,
    target: u64,
) -> (answer: Result<usize, FeatureHookApiError>)
    requires
        old(sessions).wf(),
        old(probe).sound(old(sessions)@),
        hooks.wf(),
    ensures
        final(sessions).wf(),
        final(probe).sound(final(sessions)@),
        old(probe).goes_on(final(probe)),
        forall|log: Log<B::Handle, B::ThreadHandle>| #[trigger]
            extends(final(probe).log(), log) ==> gives_at(
                answer,
                final(probe).log().len() as int,
                buddy_of(log, old(probe).log().len() as int, features_in(hooks@), session_id.0@, target),
            ),
{
    let ghost start = probe.log();
    proof {
        lemma_same(start);
    }
    let trigger = find_export(
        probe,
        sessions,
        hooks,
        session_id,
        FeatureHookExport::BuddyTrigger,
    );
    let ghost a = probe.log();
    proof {
        lemma_next(start, start, a);
    }
    let trigger: usize = trigger?;
    let idle = ensure_action_idle(probe, sessions, trigger, "buddy add");
    let ghost b = probe.log();
    proof {
        lemma_next(start, a, b);
    }
    idle?;
    let object = find_export(
        probe,
        sessions,
        hooks,
        session_id,
        FeatureHookExport::BuddyObject,
    );
    let ghost c = probe.log();
    proof {
        lemma_next(start, b, c);
    }
    let object: usize = object?;
    let written = probe.put(sessions, object + 0xe0, eight_bytes(target));
    let ghost d = probe.log();
    proof {
        lemma_next(start, c, d);
    }
    written?;
    let set = set_trigger(probe, sessions, session_id, trigger);
    let ghost e = probe.log();
    proof {
        lemma_next(start, d, e);
    }
    set?;
    Ok(trigger)
}

/// An action that is pending, as it counts.
pub open spec fn pends(
    answer: Result<PendingAction, FeatureHookApiError>,
    deadline: int,
    k: int,
    outcome: (int, Result<(usize, Option<usize>), Failure>),
) -> bool {
    outcome.0 == k && match (answer, outcome.1) {
        (Ok(pending), Ok((trigger, structure))) => {
            &&& pending.trigger == trigger
            &&& pending.structure == structure
            &&& pending.deadline == deadline
        },
        (Err(error), Err(fault)) => error@ == fault,
        _ => false,
    }
}

/// The outcome of sending a message, with what is to be cleared after it.
pub open spec fn chat_outcome(outcome: (int, Result<(usize, usize), Failure>)) -> (
    int,
    Result<(usize, Option<usize>), Failure>,
) {
    (
        outcome.0,
        match outcome.1 {
            Ok((trigger, structure)) => Ok((trigger, Some(structure))),
            Err(fault) => Err(fault),
        },
    )
}

/// The outcome of adding a buddy: nothing is to be cleared after it.
pub open spec fn buddy_outcome(outcome: (int, Result<usize, Failure>)) -> (
    int,
    Result<(usize, Option<usize>), Failure>,
) {
    (
        outcome.0,
        match outcome.1 {
            Ok(trigger) => Ok((trigger, None)),
            Err(fault) => Err(fault),
        },
    )
}

/// Sends a chat message. The action is then pending until the game takes it up: see
/// `poll_action`.
pub fn send_chat<B: MutationBackend>(
    sessions: &mut ProcessSessionRegistry<B::Handle>,
    backend: &B,
    hooks: &HookState,
    request: &FeatureChatSendRequest,
    now: u64,
) -> (answer: Result<PendingAction, FeatureHookApiError>)
    requires
        old(sessions).wf(),
        hooks.wf(),
        now + ACTION_TIMEOUT_MS <= u64::MAX,
    ensures
        final(sessions).wf(),
        old(sessions)@.leads_to(final(sessions)@),
        exists|
            start: World<B::Handle, B::ThreadHandle>,
            log: Log<B::Handle, B::ThreadHandle>,
        |
            {
                &&& #[trigger] led(
                    backend,
                    request.session_id.0@,
                    old(sessions)@,
                    start,
                    log,
                    final(sessions)@,
                )
                &&& pends(
                    answer,
                    now + ACTION_TIMEOUT_MS,
                    log.len() as int,
                    chat_outcome(
                        chat_of(
                            log,
                            0,
                            features_in(hooks@),
                            request.session_id.0@,
                            request.message@,
                            request.target_gid,
                        ),
                    ),
                )
            },
{
    let mut probe = Probe::new(sessions, backend, &request.session_id);
    let done = begin_chat(
        &mut probe,
        sessions,
        hooks,
        &request.session_id,
        request.message.as_str(),
        request.target_gid,
    );
    proof {
        lemma_same(probe.log());
        assert(led(
            backend,
            request.session_id.0@,
            old(sessions)@,
            probe.start(),
            probe.log(),
            sessions@,
        ));
    }
    match done {
        Ok((trigger, structure)) => Ok(
            PendingAction {
                trigger,
                structure: Some(structure),
                deadline: now + ACTION_TIMEOUT_MS,
            },
        ),
        Err(error) => Err(error),
    }
}

/// Asks a player to become a buddy. The action is then pending until the game takes it
/// up: see `poll_action`.
pub fn add_buddy<B: MutationBackend>(
    sessions: &mut ProcessSessionRegistry<B::Handle>,
    backend: &B,
    hooks: &HookState,
    request: &FeatureBuddyAddRequest,
    now: u64,
) -> (answer: Result<PendingAction, FeatureHookApiError>)
    requires
        old(sessions).wf(),
        hooks.wf(),
        now + ACTION_TIMEOUT_MS <= u64::MAX,
    ensures
        final(sessions).wf(),
        old(sessions)@.leads_to(final(sessions)@),
        exists|
            start: World<B::Handle, B::ThreadHandle>,
            log: Log<B::Handle, B::ThreadHandle>,
        |
            {
                &&& #[trigger] led(
                    backend,
                    request.session_id.0@,
                    old(sessions)@,
                    start,
                    log,
                    final(sessions)@,
                )
                &&& pends(
                    answer,
                    now + ACTION_TIMEOUT_MS,
                    log.len() as int,
                    buddy_outcome(
                        buddy_of(
                            log,
                            0,
                            features_in(hooks@),
                            request.session_id.0@,
                            request.target_gid,
                        ),
                    ),
                )
            },
{
    let mut probe = Probe::new(sessions, backend, &request.session_id);
    let done = begin_buddy(
        &mut probe,
        sessions,
        hooks,
        &request.session_id,
        request.target_gid,
    );
    proof {
        lemma_same(probe.log());
        assert(led(
            backend,
            request.session_id.0@,
            old(sessions)@,
            probe.start(),
            probe.log(),
            sessions@,
        ));
    }
    match done {
        Ok(trigger) => Ok(
            PendingAction { trigger, structure: None, deadline: now + ACTION_TIMEOUT_MS },
        ),
        Err(error) => Err(error),
    }
}

/// Where a pending action stands: taken up, still to be waited for, or given up.
pub open spec fn poll_of<H, T>(
    log: Log<H, T>,
    k: int,
    trigger: usize,
    structure: Option<usize>,
    expired: bool,
) -> (int, Result<Option<bool>, Failure>) {
    match flag_of(log, k, trigger) {
        (k, Err(fault)) => (k, Err(fault)),
        (k, Ok(true)) => if expired {
            (k, Err(timed_out()))
        } else {
            (k, Ok(None))
        },
        (k, Ok(false)) => match structure {
            None => (k, Ok(Some(true))),
            Some(at) => match put(log, k, at, Seq::new(0x28, |i: int| 0u8)) {
                Err(fault) => (k + 1, Err(fault)),
                Ok(_) => (k + 1, Ok(Some(true))),
            },
        },
    }
}

fn late() -> (error: FeatureHookApiError)
    ensures
        error@ == timed_out(),
{
    FeatureHookApiError::request(
        RpcErrorCode::Timeout,
        "the feature hook did not complete before its timeout".to_owned(),
    )
}

fn poll<B: MutationBackend>(
    probe: &mut Probe<'_, B>,
    sessions: &mut ProcessSessionRegistry<B::Handle>,
    trigger: usize,
    structure: Option<usize>,
    expired: bool,
) -> (answer: Result<Option<bool>, FeatureHookApiError>)
    requires
        old(sessions).wf(),
        old(probe).sound(old(sessions)@),
    ensures
        final(sessions).wf(),
        final(probe).sound(final(sessions)@),
        old(probe).goes_on(final(probe)),
        forall|log: Log<B::Handle, B::ThreadHandle>| #[trigger]
            extends(final(probe).log(), log) ==> gives_at(
                answer,
                final(probe).log().len() as int,
                poll_of(log, old(probe).log().len() as int, trigger, structure, expired),
            ),
{
    let ghost start = probe.log();
    proof {
        lemma_same(start);
    }
    let flag = read_flag(probe, sessions, trigger);
    let ghost a = probe.log();
    proof {
        lemma_next(start, start, a);
    }
    if flag? {
        if expired {
            return Err(late());
        }
        return Ok(None);
    }
    match structure {
        None => Ok(Some(true)),
        Some(at) => {
            let cleared = probe.put(sessions, at, zeros(0x28));
            let ghost b = probe.log();
            proof {
                lemma_next(start, a, b);
            }
            cleared?;
            Ok(Some(true))
        },
    }
}

/// A pending action that was looked at.
pub open spec fn polled(
    answer: Result<Option<FeatureActionResponse>, FeatureHookApiError>,
    id: Seq<char>,
    k: int,
    outcome: (int, Result<Option<bool>, Failure>),
) -> bool {
    outcome.0 == k && match (answer, outcome.1) {
        (Ok(Some(response)), Ok(Some(completed))) => response.session_id.0@ == id
            && response.completed == completed,
        (Ok(None), Ok(None)) => true,
        (Err(error), Err(fault)) => error@ == fault,
        _ => false,
    }
}

/// Looks whether the game has taken an action up. Where there is no answer yet, it is to
/// be asked again a little later.
pub fn poll_action<B: MutationBackend>(
    sessions: &mut ProcessSessionRegistry<B::Handle>,
    backend: &B,
    request: &FeatureHookSessionRequest,
    pending: &PendingAction,
    now: u64,
) -> (answer: Result<Option<FeatureActionResponse>, FeatureHookApiError>)
    requires
        old(sessions).wf(),
    ensures
        final(sessions).wf(),
        old(sessions)@.leads_to(final(sessions)@),
        exists|
            start: World<B::Handle, B::ThreadHandle>,
            log: Log<B::Handle, B::ThreadHandle>,
        |
            {
                &&& #[trigger] led(
                    backend,
                    request.session_id.0@,
                    old(sessions)@,
                    start,
                    log,
                    final(sessions)@,
                )
                &&& polled(
                    answer,
                    request.session_id.0@,
                    log.len() as int,
                    poll_of(
                        log,
                        0,
                        pending.trigger,
                        pending.structure,
                        now >= pending.deadline,
                    ),
                )
            },
{
    let mut probe = Probe::new(sessions, backend, &request.session_id);
    let done = poll(
        &mut probe,
        sessions,
        pending.trigger,
        pending.structure,
        now >= pending.deadline,
    );
    proof {
        lemma_same(probe.log());
        assert(led(
            backend,
            request.session_id.0@,
            old(sessions)@,
            probe.start(),
            probe.log(),
            sessions@,
        ));
    }
    match done {
        Ok(Some(completed)) => Ok(
            Some(FeatureActionResponse { session_id: request.session_id.clone(), completed }),
        ),
        Ok(None) => Ok(None),
        Err(error) => Err(error),
    }
}

/// What a teleport waits for: that the one before is done, or that this one is.
#[derive(Clone, Copy, Debug, PartialEq, Eq, Structural)]
pub enum TeleportStage {
    InUse,
    Purge,
}

/// A teleport that waits.
#[derive(Debug)]
pub struct TeleportWait {
    pub stage: TeleportStage,
    pub helper: usize,
    pub deadline: u64,
}

/// Where a teleport stands.
#[derive(Debug)]
pub enum TeleportTurn {
    Done(FeatureActionResponse),
    Wait(TeleportWait),
}

/// The same, as it counts.
pub ghost enum Turn {
    Done { completed: bool },
    Wait { stage: TeleportStage, helper: usize, deadline: int },
}

/// A turn that came at a place of the log.
pub open spec fn turn_at(
    answer: Result<TeleportTurn, FeatureHookApiError>,
    id: Seq<char>,
    k: int,
    outcome: (int, Result<Turn, Failure>),
) -> bool {
    outcome.0 == k && match (answer, outcome.1) {
        (Ok(TeleportTurn::Done(response)), Ok(Turn::Done { completed })) => {
            response.session_id.0@ == id && response.completed == completed
        },
        (Ok(TeleportTurn::Wait(wait)), Ok(Turn::Wait { stage, helper, deadline })) => {
            wait.stage == stage && wait.helper == helper && wait.deadline == deadline
        },
        (Err(error), Err(fault)) => error@ == fault,
        _ => false,
    }
}

/// Where a teleport waits, its helper lies inside the address space.
pub open spec fn waits_inside(answer: Result<TeleportTurn, FeatureHookApiError>) -> bool {
    answer matches Ok(TeleportTurn::Wait(wait)) ==> wait.helper + 21 <= usize::MAX
}

/// Whether the bits of a single-precision number are those of a finite one.
pub open spec fn finite(bits: u32) -> bool {
    (bits / 0x80_0000) % 0x100 != 0xff
}

/// Code that is changed: written, and no longer held by a processor.
pub open spec fn code_of<H, T>(log: Log<H, T>, k: int, address: usize, bytes: Seq<u8>) -> (
    int,
    Result<(), Failure>,
) {
    match put(log, k, address, bytes) {
        Err(fault) => (k + 1, Err(fault)),
        Ok(_) => (k + 2, flushed(log, k + 1, address, bytes.len() as usize)),
    }
}

fn write_code<B: MutationBackend>(
    probe: &mut Probe<'_, B>,
    sessions: &mut ProcessSessionRegistry<B::Handle>,
    address: usize,
    bytes: &Vec<u8>,
) -> (answer: Result<(), FeatureHookApiError>)
    requires
        old(sessions).wf(),
        old(probe).sound(old(sessions)@),
    ensures
        final(sessions).wf(),
        final(probe).sound(final(sessions)@),
        old(probe).goes_on(final(probe)),
        forall|log: Log<B::Handle, B::ThreadHandle>| #[trigger]
            extends(final(probe).log(), log) ==> gives_at(
                answer,
                final(probe).log().len() as int,
                code_of(log, old(probe).log().len() as int, address, bytes@),
            ),
{
    let ghost start = probe.log();
    proof {
        lemma_same(start);
    }
    let written = probe.put(sessions, address, copy_bytes(bytes.as_slice()));
    let ghost a = probe.log();
    proof {
        lemma_next(start, start, a);
    }
    written?;
    let flushed = probe.flush(sessions, address, bytes.len());
    let ghost b = probe.log();
    proof {
        lemma_next(start, a, b);
    }
    flushed
}

/// Both action patches are taken back, the second one first. What went wrong with it
/// is said first.
pub open spec fn restored_of<H, T>(
    log: Log<H, T>,
    k: int,
    list: Seq<Patch>,
    first: int,
    second: int,
) -> (int, Result<(), Failure>) {
    let (k, two) = code_of(log, k, list[second].address, list[second].expected);
    let (k, one) = code_of(log, k, list[first].address, list[first].expected);
    (
        k,
        match two {
            Err(fault) => Err(fault),
            Ok(_) => one,
        },
    )
}

fn restore_movement_action_patches<B: MutationBackend>(
    probe: &mut Probe<'_, B>,
    sessions: &mut ProcessSessionRegistry<B::Handle>,
    list: &Vec<HookPatch>,
    first: usize,
    second: usize,
) -> (answer: Result<(), FeatureHookApiError>)
    requires
        old(sessions).wf(),
        old(probe).sound(old(sessions)@),
        first < list@.len(),
        second < list@.len(),
    ensures
        final(sessions).wf(),
        final(probe).sound(final(sessions)@),
        old(probe).goes_on(final(probe)),
        forall|log: Log<B::Handle, B::ThreadHandle>| #[trigger]
            extends(final(probe).log(), log) ==> gives_at(
                answer,
                final(probe).log().len() as int,
                restored_of(
                    log,
                    old(probe).log().len() as int,
                    patches(list@),
                    first as int,
                    second as int,
                ),
            ),
{
    let ghost start = probe.log();
    proof {
        lemma_same(start);
    }
    proof {
        assert(patches(list@)[first as int] == list@[first as int]@);
        assert(patches(list@)[second as int] == list@[second as int]@);
    }
    let two = write_code(
        probe,
        sessions,
        list[second].address,
        &list[second].expected_bytes,
    );
    let ghost a = probe.log();
    proof {
        lemma_next(start, start, a);
    }
    let one = write_code(
        probe,
        sessions,
        list[first].address,
        &list[first].expected_bytes,
    );
    let ghost b = probe.log();
    proof {
        lemma_next(start, a, b);
    }
    two?;
    one
}

/// Both action patches are made. Where one cannot be, what was made is taken back.
pub open spec fn armed_of<H, T>(
    log: Log<H, T>,
    k: int,
    list: Seq<Patch>,
    first: int,
    second: int,
) -> (int, Result<(), Failure>) {
    match code_of(log, k, list[first].address, list[first].replacement) {
        (k, Err(fault)) => (
            code_of(log, k, list[first].address, list[first].expected).0,
            Err(fault),
        ),
        (k, Ok(_)) => match code_of(log, k, list[second].address, list[second].replacement) {
            (k, Err(fault)) => match restored_of(log, k, list, first, second) {
                (k, Ok(_)) => (k, Err(fault)),
                (k, Err(other)) => (k, Err(other)),
            },
            (k, Ok(_)) => (k, Ok(())),
        },
    }
}

fn apply_movement_action_patches<B: MutationBackend>(
    probe: &mut Probe<'_, B>,
    sessions: &mut ProcessSessionRegistry<B::Handle>,
    list: &Vec<HookPatch>,
    first: usize,
    second: usize,
) -> (answer: Result<(), FeatureHookApiError>)
    requires
        old(sessions).wf(),
        old(probe).sound(old(sessions)@),
        first < list@.len(),
        second < list@.len(),
    ensures
        final(sessions).wf(),
        final(probe).sound(final(sessions)@),
        old(probe).goes_on(final(probe)),
        forall|log: Log<B::Handle, B::ThreadHandle>| #[trigger]
            extends(final(probe).log(), log) ==> gives_at(
                answer,
                final(probe).log().len() as int,
                armed_of(log, old(probe).log().len() as int, patches(list@), first as int, second as int),
            ),
{
    let ghost start = probe.log();
    proof {
        lemma_same(start);
    }
    proof {
        assert(patches(list@)[first as int] == list@[first as int]@);
        assert(patches(list@)[second as int] == list@[second as int]@);
    }
    let one = write_code(
        probe,
        sessions,
        list[first].address,
        &list[first].replacement_bytes,
    );
    let ghost a = probe.log();
    proof {
        lemma_next(start, start, a);
    }
    if let Err(error) = one {
        let undone = write_code(probe, sessions, list[first].address, &list[first].expected_bytes);
        let ghost b = probe.log();
        proof {
            lemma_next(start, a, b);
        }
        return Err(error);
    }
    let two = write_code(
        probe,
        sessions,
        list[second].address,
        &list[second].replacement_bytes,
    );
    let ghost c = probe.log();
    proof {
        lemma_next(start, a, c);
    }
    if let Err(error) = two {
        let undone = restore_movement_action_patches(probe, sessions, list, first, second);
        let ghost d = probe.log();
        proof {
            lemma_next(start, c, d);
        }
        undone?;
        return Err(error);
    }
    Ok(())
}

/// How a teleport ends: the action patches are taken back, and what went wrong with
/// that counts for more than the teleport itself.
pub open spec fn finished_of<H, T>(
    log: Log<H, T>,
    k: int,
    list: Seq<Patch>,
    first: int,
    second: int,
    result: Result<bool, Failure>,
) -> (int, Result<Turn, Failure>) {
    match restored_of(log, k, list, first, second) {
        (k, Err(fault)) => (k, Err(fault)),
        (k, Ok(_)) => (
            k,
            match result {
                Ok(completed) => Ok(Turn::Done { completed }),
                Err(fault) => Err(fault),
            },
        ),
    }
}

/// What a result comes to.
pub open spec fn result_of(result: Result<bool, FeatureHookApiError>) -> Result<bool, Failure> {
    match result {
        Ok(completed) => Ok(completed),
        Err(error) => Err(error@),
    }
}

fn finish_teleport<B: MutationBackend>(
    probe: &mut Probe<'_, B>,
    sessions: &mut ProcessSessionRegistry<B::Handle>,
    session_id: &ProcessSessionId,
    list: &Vec<HookPatch>,
    first: usize,
    second: usize,
    result: Result<bool, FeatureHookApiError>,
) -> (answer: Result<TeleportTurn, FeatureHookApiError>)
    requires
        old(sessions).wf(),
        old(probe).sound(old(sessions)@),
        first < list@.len(),
        second < list@.len(),
    ensures
        final(sessions).wf(),
        final(probe).sound(final(sessions)@),
        old(probe).goes_on(final(probe)),
        forall|log: Log<B::Handle, B::ThreadHandle>| #[trigger]
            extends(final(probe).log(), log) ==> turn_at(
                answer,
                session_id.0@,
                final(probe).log().len() as int,
                finished_of(
                    log,
                    old(probe).log().len() as int,
                    patches(list@),
                    first as int,
                    second as int,
                    result_of(result),
                ),
            ),
        waits_inside(answer),
{
    let ghost start = probe.log();
    proof {
        lemma_same(start);
    }
    let undone = restore_movement_action_patches(probe, sessions, list, first, second);
    let ghost a = probe.log();
    proof {
        lemma_next(start, start, a);
    }
    undone?;
    match result {
        Ok(completed) => Ok(
            TeleportTurn::Done(
                FeatureActionResponse { session_id: session_id.clone(), completed },
            ),
        ),
        Err(error) => Err(error),
    }
}

/// What is written for a teleport: the position, a flag, and the object to be moved.
pub open spec fn helper_bytes(position: Seq<u32>, object: usize) -> Seq<u8> {
    le_bytes(position[0] as nat, 4) + le_bytes(position[1] as nat, 4) + le_bytes(
        position[2] as nat,
        4,
    ) + seq![1u8] + le_bytes(object as nat, 8)
}

fn build_helper(position: &[u32; 3], object: usize) -> (bytes: Vec<u8>)
    ensures
        bytes@ == helper_bytes(position@, object),
{
    let mut bytes: Vec<u8> = Vec::new();
    push_le(&mut bytes, position[0] as u64, 4);
    push_le(&mut bytes, position[1] as u64, 4);
    push_le(&mut bytes, position[2] as u64, 4);
    bytes.push(1);
    push_u64(&mut bytes, object as u64);
    proof {
        assert(bytes@ =~= helper_bytes(position@, object));
    }
    bytes
}

/// How a teleport is asked for.
pub ghost struct Asked {
    pub object: Seq<char>,
    pub position: Seq<u32>,
    pub wait: bool,
    pub wait_ms: u32,
    pub purge: bool,
    pub purge_ms: u32,
}

/// How a request asks for a teleport.
pub open spec fn asks(request: FeatureTeleportRequest) -> Asked {
    Asked {
        object: request.object_address@,
        position: request.position@,
        wait: request.wait_on_inuse,
        wait_ms: request.wait_timeout_ms,
        purge: request.purge_after_timeout,
        purge_ms: request.purge_timeout_ms,
    }
}

/// The helper is written. On a fixture its flag is taken back at once; where the
/// request is for a clean end, the flag is waited for.
pub open spec fn fired_of<H, T>(
    log: Log<H, T>,
    k: int,
    list: Seq<Patch>,
    first: int,
    second: int,
    helper: usize,
    fixture: bool,
    asked: Asked,
    object: usize,
    now: u64,
) -> (int, Result<Turn, Failure>) {
    match put(log, k, helper, helper_bytes(asked.position, object)) {
        Err(fault) => finished_of(log, k + 1, list, first, second, Err(fault)),
        Ok(_) => if fixture {
            match put(log, k + 1, (helper + 12) as usize, seq![0u8]) {
                Err(fault) => finished_of(log, k + 2, list, first, second, Err(fault)),
                Ok(_) => finished_of(log, k + 2, list, first, second, Ok(true)),
            }
        } else if !asked.purge {
            (k + 1, Ok(Turn::Done { completed: true }))
        } else {
            (
                k + 1,
                Ok(
                    Turn::Wait {
                        stage: TeleportStage::Purge,
                        helper,
                        deadline: now + asked.purge_ms,
                    },
                ),
            )
        },
    }
}

fn fire_teleport<B: MutationBackend>(
    probe: &mut Probe<'_, B>,
    sessions: &mut ProcessSessionRegistry<B::Handle>,
    request: &FeatureTeleportRequest,
    list: &Vec<HookPatch>,
    first: usize,
    second: usize,
    helper: usize,
    fixture: bool,
    object: usize,
    now: u64,
) -> (answer: Result<TeleportTurn, FeatureHookApiError>)
    requires
        old(sessions).wf(),
        old(probe).sound(old(sessions)@),
        first < list@.len(),
        second < list@.len(),
        helper + 21 <= usize::MAX,
        now + u32::MAX <= u64::MAX,
    ensures
        final(sessions).wf(),
        final(probe).sound(final(sessions)@),
        old(probe).goes_on(final(probe)),
        forall|log: Log<B::Handle, B::ThreadHandle>| #[trigger]
            extends(final(probe).log(), log) ==> turn_at(
                answer,
                request.session_id.0@,
                final(probe).log().len() as int,
                fired_of(
                    log,
                    old(probe).log().len() as int,
                    patches(list@),
                    first as int,
                    second as int,
                    helper,
                    fixture,
                    asks(*request),
                    object,
                    now,
                ),
            ),
        waits_inside(answer),
{
    let ghost start = probe.log();
    proof {
        lemma_same(start);
    }
    let written = probe.put(sessions, helper, build_helper(&request.position, object));
    let ghost a = probe.log();
    proof {
        lemma_next(start, start, a);
    }
    if let Err(error) = written {
        let ended = finish_teleport(
            probe,
            sessions,
            &request.session_id,
            list,
            first,
            second,
            Err(error),
        );
        proof {
            lemma_next(start, a, probe.log());
        }
        return ended;
    }
    if fixture {
        let cleared = probe.put(sessions, helper + 12, one_byte(0));
        let ghost b = probe.log();
        proof {
            lemma_next(start, a, b);
        }
        let result = match cleared {
            Ok(_) => Ok(true),
            Err(error) => Err(error),
        };
        let ended = finish_teleport(
            probe,
            sessions,
            &request.session_id,
            list,
            first,
            second,
            result,
        );
        proof {
            lemma_next(start, b, probe.log());
        }
        return ended;
    }
    if !request.purge_after_timeout {
        return Ok(
            TeleportTurn::Done(
                FeatureActionResponse {
                    session_id: request.session_id.clone(),
                    completed: true,
                },
            ),
        );
    }
    Ok(
        TeleportTurn::Wait(
            TeleportWait {
                stage: TeleportStage::Purge,
                helper,
                deadline: now + request.purge_timeout_ms as u64,
            },
        ),
    )
}

/// The client object that the game uses now, read at a place of the log.
pub open spec fn client_of<H, T>(log: Log<H, T>, k: int, hooks: Hooks, id: Seq<char>) -> (
    int,
    Result<usize, Failure>,
) {
    match base_place(hooks, id, CoreHook::Client) {
        Err(fault) => (k, Err(fault)),
        Ok(place) => match bytes_of(log, k, place, 8) {
            (k, Err(fault)) => (k, Err(fault)),
            (k, Ok(bytes)) => if le_value(bytes) > usize::MAX {
                (
                    k,
                    Err(
                        failure(
                            RpcErrorCode::MemoryInvalidAddress,
                            "feature-hook address exceeded the agent address width"@,
                        ),
                    ),
                )
            } else {
                (k, Ok(le_value(bytes) as usize))
            },
        },
    }
}

fn read_client<B: MutationBackend>(
    probe: &mut Probe<'_, B>,
    sessions: &mut ProcessSessionRegistry<B::Handle>,
    hooks: &HookState,
    session_id: &ProcessSessionId,
) -> (answer: Result<usize, FeatureHookApiError>)
    requires
        old(sessions).wf(),
        old(probe).sound(old(sessions)@),
        hooks.wf(),
    ensures
        final(sessions).wf(),
        final(probe).sound(final(sessions)@),
        old(probe).goes_on(final(probe)),
        forall|log: Log<B::Handle, B::ThreadHandle>| #[trigger]
            extends(final(probe).log(), log) ==> gives_at(
                answer,
                final(probe).log().len() as int,
                client_of(log, old(probe).log().len() as int, hooks@, session_id.0@),
            ),
{
    let ghost start = probe.log();
    proof {
        lemma_same(start);
    }
    let place: usize = match find_base(hooks, session_id, CoreHook::Client) {
        Ok(place) => place,
        Err(error) => {
            return Err(FeatureHookApiError::Hook(error));
        },
    };
    let bytes = read_exactly(probe, sessions, place, 8);
    let ghost a = probe.log();
    proof {
        lemma_next(start, start, a);
    }
    let bytes = bytes?;
    let value: u64 = read_le(bytes.as_slice(), 0, 8);
    proof {
        assert(bytes@.subrange(0, 8) =~= bytes@);
    }
    if value > usize::MAX as u64 {
        return Err(
            FeatureHookApiError::request(
                RpcErrorCode::MemoryInvalidAddress,
                "feature-hook address exceeded the agent address width".to_owned(),
            ),
        );
    }
    Ok(value as usize)
}

/// The object that is to be moved: it must be the one that the game uses now.
pub open spec fn aimed_of<H, T>(
    log: Log<H, T>,
    k: int,
    hooks: Hooks,
    id: Seq<char>,
    asked: Asked,
) -> (int, Result<usize, Failure>) {
    match feature_address(asked.object) {
        Err(fault) => (k, Err(fault)),
        Ok(object) => if !(finite(asked.position[0]) && finite(asked.position[1]) && finite(
            asked.position[2],
        )) {
            (
                k,
                Err(
                    failure(
                        RpcErrorCode::InvalidRequest,
                        "teleport coordinates must be finite numbers"@,
                    ),
                ),
            )
        } else {
            match client_of(log, k, hooks, id) {
                (k, Err(fault)) => (k, Err(fault)),
                (k, Ok(client)) => if client == 0 {
                    (
                        k,
                        Err(
                            failure(
                                RpcErrorCode::InvalidRequest,
                                "teleport is unavailable while the current client object is loading"@,
                            ),
                        ),
                    )
                } else if client != object {
                    (
                        k,
                        Err(
                            failure(
                                RpcErrorCode::InvalidRequest,
                                "the client object changed before teleporting; wait for the zone to finish loading and try again"@,
                            ),
                        ),
                    )
                } else {
                    (k, Ok(object))
                },
            }
        },
    }
}

fn is_finite(bits: u32) -> (yes: bool)
    ensures
        yes == finite(bits),
{
    (bits / 0x80_0000) % 0x100 != 0xff
}

fn aim_teleport<B: MutationBackend>(
    probe: &mut Probe<'_, B>,
    sessions: &mut ProcessSessionRegistry<B::Handle>,
    hooks: &HookState,
    request: &FeatureTeleportRequest,
) -> (answer: Result<usize, FeatureHookApiError>)
    requires
        old(sessions).wf(),
        old(probe).sound(old(sessions)@),
        hooks.wf(),
    ensures
        final(sessions).wf(),
        final(probe).sound(final(sessions)@),
        old(probe).goes_on(final(probe)),
        forall|log: Log<B::Handle, B::ThreadHandle>| #[trigger]
            extends(final(probe).log(), log) ==> gives_at(
                answer,
                final(probe).log().len() as int,
                aimed_of(log, old(probe).log().len() as int, hooks@, request.session_id.0@, asks(*request)),
            ),
{
    let ghost start = probe.log();
    proof {
        lemma_same(start);
    }
    let object: usize = parse_address(request.object_address.as_str())?;
    if !(is_finite(request.position[0]) && is_finite(request.position[1]) && is_finite(
        request.position[2],
    )) {
        return Err(
            FeatureHookApiError::request(
                RpcErrorCode::InvalidRequest,
                "teleport coordinates must be finite numbers".to_owned(),
            ),
        );
    }
    let client = read_client(probe, sessions, hooks, &request.session_id);
    let ghost a = probe.log();
    proof {
        lemma_next(start, start, a);
    }
    let client: usize = client?;
    if client == 0 {
        return Err(
            FeatureHookApiError::request(
                RpcErrorCode::InvalidRequest,
                "teleport is unavailable while the current client object is loading".to_owned(),
            ),
        );
    }
    if client != object {
        return Err(
            FeatureHookApiError::request(
                RpcErrorCode::InvalidRequest,
                "the client object changed before teleporting; wait for the zone to finish loading and try again".to_owned(),
            ),
        );
    }
    Ok(object)
}

/// The action patches of the movement hook of a session.
pub open spec fn actions_of(features: Features, id: Seq<char>) -> Option<(int, int)> {
    let place = (id, FeatureHook::MovementTeleport);
    if features.dom().contains(place) {
        match features[place].actions {
            Some((first, second)) => Some((first as int, second as int)),
            None => None,
        }
    } else {
        None
    }
}

/// A movement hook without its action patches.
pub open spec fn no_actions() -> Failure {
    failure(RpcErrorCode::InvalidRequest, "movement hook action patches are unavailable"@)
}

fn unarmed() -> (error: FeatureHookApiError)
    ensures
        error@ == no_actions(),
{
    FeatureHookApiError::request(
        RpcErrorCode::InvalidRequest,
        "movement hook action patches are unavailable".to_owned(),
    )
}

/// A teleport once nothing else is in use: it is aimed, the patches are made, and the
/// helper is written.
pub open spec fn launched_of<H, T>(
    log: Log<H, T>,
    k: int,
    hooks: Hooks,
    features: Features,
    id: Seq<char>,
    helper: usize,
    asked: Asked,
    now: u64,
) -> (int, Result<Turn, Failure>) {
    let fixture = on_fixture(sessions_at(log, k), id);
    match aimed_of(log, k, hooks, id, asked) {
        (k, Err(fault)) => (k, Err(fault)),
        (k, Ok(object)) => match actions_of(features, id) {
            None => (k, Err(no_actions())),
            Some((first, second)) => {
                let list = features[(id, FeatureHook::MovementTeleport)].patches;
                match armed_of(log, k, list, first, second) {
                    (k, Err(fault)) => (k, Err(fault)),
                    (k, Ok(_)) => fired_of(
                        log,
                        k,
                        list,
                        first,
                        second,
                        helper,
                        fixture,
                        asked,
                        object,
                        now,
                    ),
                }
            },
        },
    }
}

fn launch_teleport<B: MutationBackend>(
    probe: &mut Probe<'_, B>,
    sessions: &mut ProcessSessionRegistry<B::Handle>,
    hooks: &HookState,
    request: &FeatureTeleportRequest,
    helper: usize,
    now: u64,
) -> (answer: Result<TeleportTurn, FeatureHookApiError>)
    requires
        old(sessions).wf(),
        old(probe).sound(old(sessions)@),
        old(probe).log().len() > 0,
        hooks.wf(),
        helper + 21 <= usize::MAX,
        now + u32::MAX <= u64::MAX,
    ensures
        final(sessions).wf(),
        final(probe).sound(final(sessions)@),
        old(probe).goes_on(final(probe)),
        forall|log: Log<B::Handle, B::ThreadHandle>| #[trigger]
            extends(final(probe).log(), log) ==> turn_at(
                answer,
                request.session_id.0@,
                final(probe).log().len() as int,
                launched_of(
                    log,
                    old(probe).log().len() as int,
                    hooks@,
                    features_in(hooks@),
                    request.session_id.0@,
                    helper,
                    asks(*request),
                    now,
                ),
            ),
        waits_inside(answer),
{
    let ghost start = probe.log();
    proof {
        lemma_same(start);
    }
    proof {
        lemma_last(start);
    }
    let fixture = is_fixture(sessions, &request.session_id);
    let object = aim_teleport(probe, sessions, hooks, request);
    let ghost a = probe.log();
    proof {
        lemma_next(start, start, a);
    }
    let object: usize = object?;
    let site = match find_feature(hooks, &request.session_id, FeatureHook::MovementTeleport) {
        Some((_, site)) => site,
        None => {
            return Err(unarmed());
        },
    };
    let (first, second): (usize, usize) = match site.actions {
        Some(pair) => pair,
        None => {
            return Err(unarmed());
        },
    };
    let armed = apply_movement_action_patches(
        probe,
        sessions,
        &site.patches,
        first,
        second,
    );
    let ghost b = probe.log();
    proof {
        lemma_next(start, a, b);
    }
    armed?;
    let ended = fire_teleport(
        probe,
        sessions,
        request,
        &site.patches,
        first,
        second,
        helper,
        fixture,
        object,
        now,
    );
    let ghost c = probe.log();
    proof {
        lemma_next(start, b, c);
    }
    ended
}

/// How a teleport begins: where one is already under way, it is waited for, or the
/// request is refused.
pub open spec fn begun_of<H, T>(
    log: Log<H, T>,
    k: int,
    hooks: Hooks,
    features: Features,
    id: Seq<char>,
    asked: Asked,
    now: u64,
) -> (int, Result<Turn, Failure>) {
    match export_of(log, k, features, id, FeatureHookExport::TeleportHelper) {
        (k, Err(fault)) => (k, Err(fault)),
        (k, Ok(helper)) => match flag_of(log, k, (helper + 12) as usize) {
            (k, Err(fault)) => (k, Err(fault)),
            (k, Ok(true)) => if !asked.wait {
                (
                    k,
                    Err(
                        failure(RpcErrorCode::InvalidRequest, "a teleport is already pending"@),
                    ),
                )
            } else {
                (
                    k,
                    Ok(
                        Turn::Wait {
                            stage: TeleportStage::InUse,
                            helper,
                            deadline: now + asked.wait_ms,
                        },
                    ),
                )
            },
            (k, Ok(false)) => launched_of(log, k, hooks, features, id, helper, asked, now),
        },
    }
}

fn begin_teleport<B: MutationBackend>(
    probe: &mut Probe<'_, B>,
    sessions: &mut ProcessSessionRegistry<B::Handle>,
    hooks: &HookState,
    request: &FeatureTeleportRequest,
    now: u64,
) -> (answer: Result<TeleportTurn, FeatureHookApiError>)
    requires
        old(sessions).wf(),
        old(probe).sound(old(sessions)@),
        hooks.wf(),
        now + u32::MAX <= u64::MAX,
    ensures
        final(sessions).wf(),
        final(probe).sound(final(sessions)@),
        old(probe).goes_on(final(probe)),
        forall|log: Log<B::Handle, B::ThreadHandle>| #[trigger]
            extends(final(probe).log(), log) ==> turn_at(
                answer,
                request.session_id.0@,
                final(probe).log().len() as int,
                begun_of(
                    log,
                    old(probe).log().len() as int,
                    hooks@,
                    features_in(hooks@),
                    request.session_id.0@,
                    asks(*request),
                    now,
                ),
            ),
        waits_inside(answer),
{
    let ghost start = probe.log();
    proof {
        lemma_same(start);
    }
    let helper = find_export(
        probe,
        sessions,
        hooks,
        &request.session_id,
        FeatureHookExport::TeleportHelper,
    );
    let ghost a = probe.log();
    proof {
        lemma_next(start, start, a);
    }
    let helper: usize = helper?;
    let flag = read_flag(probe, sessions, helper + 12);
    let ghost b = probe.log();
    proof {
        lemma_next(start, a, b);
    }
    if flag? {
        if !request.wait_on_inuse {
            return Err(
                FeatureHookApiError::request(
                    RpcErrorCode::InvalidRequest,
                    "a teleport is already pending".to_owned(),
                ),
            );
        }
        return Ok(
            TeleportTurn::Wait(
                TeleportWait {
                    stage: TeleportStage::InUse,
                    helper,
                    deadline: now + request.wait_timeout_ms as u64,
                },
            ),
        );
    }
    let ended = launch_teleport(probe, sessions, hooks, request, helper, now);
    let ghost c = probe.log();
    proof {
        lemma_next(start, b, c);
    }
    ended
}

/// A teleport whose end is waited for.
pub open spec fn purged_of<H, T>(
    log: Log<H, T>,
    k: int,
    features: Features,
    id: Seq<char>,
    helper: usize,
    deadline: u64,
    now: u64,
) -> (int, Result<Turn, Failure>) {
    match actions_of(features, id) {
        None => (k, Err(no_actions())),
        Some((first, second)) => {
            let list = features[(id, FeatureHook::MovementTeleport)].patches;
            match flag_of(log, k, (helper + 12) as usize) {
                (k, Err(fault)) => finished_of(log, k, list, first, second, Err(fault)),
                (k, Ok(false)) => finished_of(log, k, list, first, second, Ok(true)),
                (k, Ok(true)) => if now < deadline {
                    (
                        k,
                        Ok(
                            Turn::Wait {
                                stage: TeleportStage::Purge,
                                helper,
                                deadline: deadline as int,
                            },
                        ),
                    )
                } else {
                    match put(log, k, (helper + 12) as usize, seq![0u8]) {
                        Err(fault) => finished_of(log, k + 1, list, first, second, Err(fault)),
                        Ok(_) => finished_of(log, k + 1, list, first, second, Ok(false)),
                    }
                },
            }
        },
    }
}

fn purge_teleport<B: MutationBackend>(
    probe: &mut Probe<'_, B>,
    sessions: &mut ProcessSessionRegistry<B::Handle>,
    hooks: &HookState,
    session_id: &ProcessSessionId,
    helper: usize,
    deadline: u64,
    now: u64,
) -> (answer: Result<TeleportTurn, FeatureHookApiError>)
    requires
        old(sessions).wf(),
        old(probe).sound(old(sessions)@),
        hooks.wf(),
        helper + 21 <= usize::MAX,
    ensures
        final(sessions).wf(),
        final(probe).sound(final(sessions)@),
        old(probe).goes_on(final(probe)),
        forall|log: Log<B::Handle, B::ThreadHandle>| #[trigger]
            extends(final(probe).log(), log) ==> turn_at(
                answer,
                session_id.0@,
                final(probe).log().len() as int,
                purged_of(
                    log,
                    old(probe).log().len() as int,
                    features_in(hooks@),
                    session_id.0@,
                    helper,
                    deadline,
                    now,
                ),
            ),
        waits_inside(answer),
{
    let ghost start = probe.log();
    proof {
        lemma_same(start);
    }
    let site = match find_feature(hooks, session_id, FeatureHook::MovementTeleport) {
        Some((_, site)) => site,
        None => {
            return Err(unarmed());
        },
    };
    let (first, second): (usize, usize) = match site.actions {
        Some(pair) => pair,
        None => {
            return Err(unarmed());
        },
    };
    let list = &site.patches;
    let flag = read_flag(probe, sessions, helper + 12);
    let ghost a = probe.log();
    proof {
        lemma_next(start, start, a);
    }
    let result = match flag {
        Err(error) => Err(error),
        Ok(false) => Ok(true),
        Ok(true) => {
            if now < deadline {
                return Ok(
                    TeleportTurn::Wait(
                        TeleportWait { stage: TeleportStage::Purge, helper, deadline },
                    ),
                );
            }
            match probe.put(sessions, helper + 12, one_byte(0)) {
                Ok(_) => Ok(false),
                Err(error) => Err(error),
            }
        },
    };
    let ghost b = probe.log();
    proof {
        lemma_same(a);
        lemma_next(start, a, b);
    }
    let ended = finish_teleport(probe, sessions, session_id, list, first, second, result);
    let ghost c = probe.log();
    proof {
        lemma_next(start, b, c);
    }
    ended
}

/// A teleport that waited, looked at again.
pub open spec fn resumed_of<H, T>(
    log: Log<H, T>,
    k: int,
    hooks: Hooks,
    features: Features,
    id: Seq<char>,
    wait: TeleportWait,
    asked: Asked,
    now: u64,
) -> (int, Result<Turn, Failure>) {
    match wait.stage {
        TeleportStage::Purge => purged_of(
            log,
            k,
            features,
            id,
            wait.helper,
            wait.deadline,
            now,
        ),
        TeleportStage::InUse => match flag_of(log, k, (wait.helper + 12) as usize) {
            (k, Err(fault)) => (k, Err(fault)),
            (k, Ok(false)) => launched_of(log, k, hooks, features, id, wait.helper, asked, now),
            (k, Ok(true)) => if now >= wait.deadline {
                (k, Err(timed_out()))
            } else {
                (
                    k,
                    Ok(
                        Turn::Wait {
                            stage: TeleportStage::InUse,
                            helper: wait.helper,
                            deadline: wait.deadline as int,
                        },
                    ),
                )
            },
        },
    }
}

fn continue_teleport<B: MutationBackend>(
    probe: &mut Probe<'_, B>,
    sessions: &mut ProcessSessionRegistry<B::Handle>,
    hooks: &HookState,
    request: &FeatureTeleportRequest,
    wait: &TeleportWait,
    now: u64,
) -> (answer: Result<TeleportTurn, FeatureHookApiError>)
    requires
        old(sessions).wf(),
        old(probe).sound(old(sessions)@),
        hooks.wf(),
        now + u32::MAX <= u64::MAX,
        wait.helper + 21 <= usize::MAX,
    ensures
        final(sessions).wf(),
        final(probe).sound(final(sessions)@),
        old(probe).goes_on(final(probe)),
        forall|log: Log<B::Handle, B::ThreadHandle>| #[trigger]
            extends(final(probe).log(), log) ==> turn_at(
                answer,
                request.session_id.0@,
                final(probe).log().len() as int,
                resumed_of(
                    log,
                    old(probe).log().len() as int,
                    hooks@,
                    features_in(hooks@),
                    request.session_id.0@,
                    *wait,
                    asks(*request),
                    now,
                ),
            ),
        waits_inside(answer),
{
    let ghost start = probe.log();
    proof {
        lemma_same(start);
    }
    match wait.stage {
        TeleportStage::Purge => purge_teleport(
            probe,
            sessions,
            hooks,
            &request.session_id,
            wait.helper,
            wait.deadline,
            now,
        ),
        TeleportStage::InUse => {
            let flag = read_flag(probe, sessions, wait.helper + 12);
            let ghost a = probe.log();
            proof {
                lemma_next(start, start, a);
            }
            if flag? {
                if now >= wait.deadline {
                    return Err(late());
                }
                return Ok(
                    TeleportTurn::Wait(
                        TeleportWait {
                            stage: TeleportStage::InUse,
                            helper: wait.helper,
                            deadline: wait.deadline,
                        },
                    ),
                );
            }
            let ended = launch_teleport(
                probe,
                sessions,
                hooks,
                request,
                wait.helper,
                now,
            );
            proof {
                lemma_next(start, a, probe.log());
            }
            ended
        },
    }
}

/// Moves the player. Where the answer is that the teleport waits, it is to be resumed a
/// little later.
pub fn teleport<B: MutationBackend>(
    sessions: &mut ProcessSessionRegistry<B::Handle>,
    backend: &B,
    hooks: &HookState,
    request: &FeatureTeleportRequest,
    now: u64,
) -> (answer: Result<TeleportTurn, FeatureHookApiError>)
    requires
        old(sessions).wf(),
        hooks.wf(),
        now + u32::MAX <= u64::MAX,
    ensures
        final(sessions).wf(),
        old(sessions)@.leads_to(final(sessions)@),
        waits_inside(answer),
        exists|
            start: World<B::Handle, B::ThreadHandle>,
            log: Log<B::Handle, B::ThreadHandle>,
        |
            {
                &&& #[trigger] led(
                    backend,
                    request.session_id.0@,
                    old(sessions)@,
                    start,
                    log,
                    final(sessions)@,
                )
                &&& turn_at(
                    answer,
                    request.session_id.0@,
                    log.len() as int,
                    begun_of(
                        log,
                        0,
                        hooks@,
                        features_in(hooks@),
                        request.session_id.0@,
                        asks(*request),
                        now,
                    ),
                )
            },
{
    let mut probe = Probe::new(sessions, backend, &request.session_id);
    let done = begin_teleport(&mut probe, sessions, hooks, request, now);
    proof {
        lemma_same(probe.log());
        assert(led(
            backend,
            request.session_id.0@,
            old(sessions)@,
            probe.start(),
            probe.log(),
            sessions@,
        ));
    }
    done
}

/// Resumes a teleport that waits.
pub fn resume_teleport<B: MutationBackend>(
    sessions: &mut ProcessSessionRegistry<B::Handle>,
    backend: &B,
    hooks: &HookState,
    request: &FeatureTeleportRequest,
    wait: &TeleportWait,
    now: u64,
) -> (answer: Result<TeleportTurn, FeatureHookApiError>)
    requires
        old(sessions).wf(),
        hooks.wf(),
        now + u32::MAX <= u64::MAX,
        wait.helper + 21 <= usize::MAX,
    ensures
        final(sessions).wf(),
        old(sessions)@.leads_to(final(sessions)@),
        waits_inside(answer),
        exists|
            start: World<B::Handle, B::ThreadHandle>,
            log: Log<B::Handle, B::ThreadHandle>,
        |
            {
                &&& #[trigger] led(
                    backend,
                    request.session_id.0@,
                    old(sessions)@,
                    start,
                    log,
                    final(sessions)@,
                )
                &&& turn_at(
                    answer,
                    request.session_id.0@,
                    log.len() as int,
                    resumed_of(
                        log,
                        0,
                        hooks@,
                        features_in(hooks@),
                        request.session_id.0@,
                        *wait,
                        asks(*request),
                        now,
                    ),
                )
            },
{
    let mut probe = Probe::new(sessions, backend, &request.session_id);
    let done = continue_teleport(
        &mut probe,
        sessions,
        hooks,
        request,
        wait,
        now,
    );
    proof {
        lemma_same(probe.log());
        assert(led(
            backend,
            request.session_id.0@,
            old(sessions)@,
            probe.start(),
            probe.log(),
            sessions@,
        ));
    }
    done
}

/// A teleport that is refused while it is aimed, as one for an object that the game
/// no longer uses is, ends before any patch is made: one operation was made at most.
pub proof fn refused_teleports_touch_no_patch<H, T>(
    log: Log<H, T>,
    k: int,
    hooks: Hooks,
    features: Features,
    id: Seq<char>,
    helper: usize,
    asked: Asked,
    now: u64,
)
    requires
        aimed_of(log, k, hooks, id, asked).1 is Err,
    ensures
        launched_of(log, k, hooks, features, id, helper, asked, now).0 <= k + 1,
        launched_of(log, k, hooks, features, id, helper, asked, now).1 == Err::<Turn, Failure>(
            aimed_of(log, k, hooks, id, asked).1->Err_0,
        ),
{
}

/// A position that is not made of finite numbers is refused without any operation.
pub proof fn positions_are_finite<H, T>(
    log: Log<H, T>,
    k: int,
    hooks: Hooks,
    features: Features,
    id: Seq<char>,
    helper: usize,
    asked: Asked,
    now: u64,
)
    requires
        !(finite(asked.position[0]) && finite(asked.position[1]) && finite(asked.position[2])),
    ensures
        launched_of(log, k, hooks, features, id, helper, asked, now).0 == k,
        launched_of(log, k, hooks, features, id, helper, asked, now).1 is Err,
{
}

/// After the leases of a session were renewed, every feature hook of it that is in place
/// has the new deadline, and everything else of all hooks is as it was.
pub proof fn leases_are_renewed_together(hooks: Hooks, id: Seq<char>, now: u64)
    ensures
        features_renewed(hooks, id, now, 5).0.dom() == hooks.dom(),
        forall|hook: FeatureHook| #[trigger]
            placed_at(hooks, id, feature_key(hook)) is Some ==> features_renewed(
                hooks,
                id,
                now,
                5,
            ).0[(id, feature_key(hook))] == (Hooked {
                deadline: (now + HOOK_LEASE_MS) as u64,
                ..hooks[(id, feature_key(hook))]
            }),
        forall|place: (Seq<char>, Seq<char>)|
            hooks.dom().contains(place) && !(exists|hook: FeatureHook| place == (
                id,
                #[trigger] feature_key(hook),
            ) && placed_at(hooks, id, feature_key(hook)) is Some)
                ==> #[trigger] features_renewed(hooks, id, now, 5).0[place] == hooks[place],
{
    let all = feature_hooks();
    lemma_feature_key(all[0]);
    lemma_feature_key(all[1]);
    lemma_feature_key(all[2]);
    lemma_feature_key(all[3]);
    lemma_feature_key(all[4]);
    assert forall|one: FeatureHook, other: FeatureHook| one != other implies #[trigger] feature_key(
        one,
    ) != #[trigger] feature_key(other) by {
        if feature_key(one) == feature_key(other) {
            feature_keys_differ(one, other);
        }
    }
    reveal_with_fuel(features_renewed, 6);
    assert(features_renewed(hooks, id, now, 5).0.dom() =~= hooks.dom());
    assert forall|hook: FeatureHook| #[trigger]
        placed_at(hooks, id, feature_key(hook)) is Some implies features_renewed(
        hooks,
        id,
        now,
        5,
    ).0[(id, feature_key(hook))] == (Hooked {
        deadline: (now + HOOK_LEASE_MS) as u64,
        ..hooks[(id, feature_key(hook))]
    }) by {
        let i = match hook {
            FeatureHook::MovementTeleport => 0int,
            FeatureHook::MouselessCursor => 1,
            FeatureHook::Chat => 2,
            FeatureHook::ChatSend => 3,
            FeatureHook::DanceGameMoves => 4,
        };
        assert(all[i] == hook);
    }
}

}
