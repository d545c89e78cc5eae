//! What a feature hook needs to be put in place: where it goes, what it runs and
//! which other bytes it changes.

use vstd::prelude::*;
use vstd::string::*;

use crate::backend::MutationBackend;
use crate::codec::{
    copy_bytes, filled, from_bits, le_value, lemma_pow256, read_le, same_bytes, signed32,
};
use crate::core_hook::odd_length;
use crate::exports::{export_address, follow_export, ExportLookup, Lookup};
use crate::feature_error::{gives, FeatureHookApiError};
use crate::payload::{
    build_payload, counter_offset, lemma_layout, lists_slots, payload, ExportSlot, PayloadKind,
};
use crate::probe::{
    extends, fetched, found, found_all, found_each, lemma_extends, lemma_prefixes, listed, reads_as,
    steps_made, Log, Probe,
};
use crate::process::{ProcessSessionRegistry, Sessions};
use crate::protocol::{FeatureHook, MemoryScanScope, ProcessSessionId};
use crate::rpc::{failure, Failure, RpcErrorCode};
use crate::search::contents;
use crate::signature::{byte_text, push_byte, signature_text, write_signature};
use crate::steps::{world_at, World};
use crate::text::{address_text, dec_text, format_address, format_decimal, join2, join3};

verus! {

/// The module that the feature hooks are for.
pub open spec fn game_module() -> Option<Seq<char>> {
    Some("WizardGraphicalClient.exe"@)
}

fn module_scope() -> (scope: MemoryScanScope)
    ensures
        crate::steps::scope_name(scope) == game_module(),
{
    MemoryScanScope::Module { name: "WizardGraphicalClient.exe".to_owned() }
}

/// Bytes in another process that a feature hook changes besides its own site.
#[derive(Debug)]
pub struct HookPatch {
    pub address: usize,
    pub expected_bytes: Vec<u8>,
    pub replacement_bytes: Vec<u8>,
    pub apply_on_activation: bool,
    pub keep_writable: bool,
}

/// The same, as it counts.
#[verifier::ext_equal]
pub ghost struct Patch {
    pub address: usize,
    pub expected: Seq<u8>,
    pub replacement: Seq<u8>,
    pub applied: bool,
    pub writable: bool,
}

impl View for HookPatch {
    type V = Patch;

    open spec fn view(&self) -> Patch {
        Patch {
            address: self.address,
            expected: self.expected_bytes@,
            replacement: self.replacement_bytes@,
            applied: self.apply_on_activation,
            writable: self.keep_writable,
        }
    }
}

/// Several patches.
pub open spec fn patches(list: Seq<HookPatch>) -> Seq<Patch> {
    list.map_values(|patch: HookPatch| patch@)
}

/// What a feature hook's code is for, as it counts.
#[verifier::ext_equal]
pub ghost enum Kind {
    Movement { first: usize, second: usize, first_original: Seq<u8>, second_original: Seq<u8> },
    Mouse,
    Chat,
    Send { send: usize, buddy: usize, operator_new: usize },
    Dance,
}

/// What a payload is for.
pub open spec fn kind_of(kind: PayloadKind) -> Kind {
    match kind {
        PayloadKind::Movement { first_je, second_je, first_original, second_original } => {
            Kind::Movement {
                first: first_je,
                second: second_je,
                first_original: first_original@,
                second_original: second_original@,
            }
        },
        PayloadKind::Mouse => Kind::Mouse,
        PayloadKind::Chat => Kind::Chat,
        PayloadKind::ChatSend { send, buddy, operator_new } => Kind::Send {
            send,
            buddy,
            operator_new,
        },
        PayloadKind::Dance => Kind::Dance,
    }
}

/// How a feature hook is put in place.
#[verifier::ext_equal]
pub ghost struct Plan {
    pub signature: Seq<char>,
    pub target: usize,
    pub overwrite: usize,
    pub kind: Kind,
    pub patches: Seq<Patch>,
    pub actions: Option<(usize, usize)>,
    pub replay: bool,
}

/// How a feature hook is put in place: over `overwrite_size` bytes at the target,
/// with the payload for its allocation, and with its patches.
#[derive(Debug)]
pub struct Template {
    pub signature: String,
    pub scope: MemoryScanScope,
    pub target_offset: usize,
    pub overwrite_size: usize,
    pub payload: Vec<u8>,
    pub exports: Vec<ExportSlot>,
    pub resolved_target: Option<usize>,
    pub auxiliary_patches: Vec<HookPatch>,
    pub movement_action_patches: Option<(usize, usize)>,
    pub payload_kind: PayloadKind,
    pub replay_original: bool,
    pub quiescence_offset: usize,
}

impl Template {
    /// The template follows a plan: what it says of its payload is what the payload
    /// is.
    pub open spec fn follows(&self, plan: Plan) -> bool {
        &&& self.signature@ == plan.signature
        &&& self.scope == MemoryScanScope::Process
        &&& self.target_offset == 0
        &&& self.overwrite_size == plan.overwrite
        &&& self.resolved_target == Some(plan.target)
        &&& patches(self.auxiliary_patches@) == plan.patches
        &&& self.movement_action_patches == plan.actions
        &&& kind_of(self.payload_kind) == plan.kind
        &&& self.replay_original == plan.replay
        &&& self.payload@ == payload(self.payload_kind, 0)
        &&& lists_slots(self.exports@, self.payload_kind)
        &&& self.quiescence_offset == counter_offset(self.payload_kind)
    }
}

/// An answer that came at a place of the log.
pub open spec fn gives_at<T>(
    answer: Result<T, FeatureHookApiError>,
    k: int,
    outcome: (int, Result<T, Failure>),
) -> bool {
    outcome.0 == k && gives(answer, outcome.1)
}

/// Bytes that came at a place of the log.
pub open spec fn bytes_at(
    answer: Result<Vec<u8>, FeatureHookApiError>,
    k: int,
    outcome: (int, Result<Seq<u8>, Failure>),
) -> bool {
    outcome.0 == k && reads_as(answer, outcome.1)
}

/// Text that came at a place of the log.
pub open spec fn text_at(
    answer: Result<String, FeatureHookApiError>,
    k: int,
    outcome: (int, Result<Seq<char>, Failure>),
) -> bool {
    outcome.0 == k && match (answer, outcome.1) {
        (Ok(text), Ok(expected)) => text@ == expected,
        (Err(error), Err(fault)) => error@ == fault,
        _ => false,
    }
}

/// A patch that came at a place of the log.
pub open spec fn patch_at(
    answer: Result<HookPatch, FeatureHookApiError>,
    k: int,
    outcome: (int, Result<Patch, Failure>),
) -> bool {
    outcome.0 == k && match (answer, outcome.1) {
        (Ok(patch), Ok(expected)) => patch@ == expected,
        (Err(error), Err(fault)) => error@ == fault,
        _ => false,
    }
}

/// A template that came at a place of the log.
pub open spec fn template_at(
    answer: Result<Template, FeatureHookApiError>,
    k: int,
    outcome: (int, Result<Plan, Failure>),
) -> bool {
    outcome.0 == k && match (answer, outcome.1) {
        (Ok(template), Ok(plan)) => template.follows(plan),
        (Err(error), Err(fault)) => error@ == fault,
        _ => false,
    }
}

proof fn lemma_same<H, T>(log: Log<H, T>)
    ensures
        extends(log, log),
{
    assert(log.take(log.len() as int) =~= log);
}

proof fn lemma_next<H, T>(start: Log<H, T>, before: Log<H, T>, now: Log<H, T>)
    requires
        extends(start, before),
        extends(before, now),
    ensures
        extends(start, now),
        forall|log: Log<H, T>| #[trigger] extends(now, log) ==> extends(before, log),
{
    lemma_extends(start, before, now);
    lemma_prefixes(before, now);
}

/// An address that would not fit.
pub open spec fn overflowed() -> Failure {
    failure(
        RpcErrorCode::MemoryInvalidAddress,
        "feature-hook address overflowed the agent address width"@,
    )
}

/// The address some way behind another one.
pub open spec fn behind(address: usize, distance: int) -> Result<usize, Failure> {
    if address + distance <= usize::MAX {
        Ok((address + distance) as usize)
    } else {
        Err(overflowed())
    }
}

pub(crate) fn offset(address: usize, distance: usize) -> (answer: Result<usize, FeatureHookApiError>)
    ensures
        gives(answer, behind(address, distance as int)),
{
    match address.checked_add(distance) {
        Some(there) => Ok(there),
        None => Err(
            FeatureHookApiError::request(
                RpcErrorCode::MemoryInvalidAddress,
                "feature-hook address overflowed the agent address width".to_owned(),
            ),
        ),
    }
}

fn odd_read() -> (error: FeatureHookApiError)
    ensures
        error@ == odd_length(),
{
    FeatureHookApiError::request(
        RpcErrorCode::Internal,
        "an eight-byte hook read returned an unexpected length".to_owned(),
    )
}

/// The one place of a signature, looked for at a place of the log.
pub open spec fn place_of<H, T>(
    log: Log<H, T>,
    k: int,
    signature: Seq<char>,
    scope: Option<Seq<char>>,
) -> (int, Result<usize, Failure>) {
    (k + 1, found(log, k, signature, scope))
}

/// Bytes of a certain length, read at a place of the log.
pub open spec fn bytes_of<H, T>(log: Log<H, T>, k: int, address: usize, size: usize) -> (
    int,
    Result<Seq<u8>, Failure>,
) {
    (
        k + 1,
        match fetched(log, k, address, size) {
            Err(fault) => Err(fault),
            Ok(bytes) => if bytes.len() == size {
                Ok(bytes)
            } else {
                Err(odd_length())
            },
        },
    )
}

/// The signature of the bytes at an address, read at a place of the log.
pub open spec fn signature_of<H, T>(log: Log<H, T>, k: int, target: usize, size: usize) -> (
    int,
    Result<Seq<char>, Failure>,
) {
    (
        k + 1,
        match fetched(log, k, target, size) {
            Err(fault) => Err(fault),
            Ok(bytes) => Ok(signature_text(bytes)),
        },
    )
}

/// A patch over bytes that are read at a place of the log.
pub open spec fn patch_of<H, T>(
    log: Log<H, T>,
    k: int,
    address: usize,
    size: usize,
    replacement: Seq<u8>,
) -> (int, Result<Patch, Failure>) {
    (
        k + 1,
        match fetched(log, k, address, size) {
            Err(fault) => Err(fault),
            Ok(bytes) => Ok(
                Patch { address, expected: bytes, replacement, applied: true, writable: false },
            ),
        },
    )
}

/// A patch that an action makes and takes back: it takes out a six-byte jump.
pub open spec fn action_patch(address: usize, original: Seq<u8>) -> Patch {
    Patch {
        address,
        expected: original,
        replacement: seq![0x90u8, 0x90, 0x90, 0x90, 0x90, 0x90] + original.skip(6),
        applied: false,
        writable: true,
    }
}

/// Finds the one place where a signature occurs.
fn resolve_unique_pattern<B: MutationBackend>(
    probe: &mut Probe<'_, B>,
    sessions: &mut ProcessSessionRegistry<B::Handle>,
    signature: &str,
    scope: &MemoryScanScope,
) -> (answer: Result<usize, FeatureHookApiError>)
    requires
        old(sessions).wf(),
        old(probe).sound(old(sessions)@),
    ensures
        final(sessions).wf(),
        final(probe).sound(final(sessions)@),
        old(probe).goes_on(final(probe)),
        forall|log: Log<B::Handle, B::ThreadHandle>| #[trigger]
            extends(final(probe).log(), log) ==> gives_at(
                answer,
                final(probe).log().len() as int,
                place_of(log, old(probe).log().len() as int, signature@, crate::steps::scope_name(*scope)),
            ),
{
    let ghost start = probe.log();
    proof {
        lemma_same(start);
    }
    probe.find(sessions, signature, scope)
}

pub(crate) fn read_exactly<B: MutationBackend>(
    probe: &mut Probe<'_, B>,
    sessions: &mut ProcessSessionRegistry<B::Handle>,
    address: usize,
    size: usize,
) -> (answer: Result<Vec<u8>, FeatureHookApiError>)
    requires
        old(sessions).wf(),
        old(probe).sound(old(sessions)@),
    ensures
        final(sessions).wf(),
        final(probe).sound(final(sessions)@),
        old(probe).goes_on(final(probe)),
        forall|log: Log<B::Handle, B::ThreadHandle>| #[trigger]
            extends(final(probe).log(), log) ==> bytes_at(
                answer,
                final(probe).log().len() as int,
                bytes_of(log, old(probe).log().len() as int, address, size),
            ),
        answer matches Ok(bytes) ==> bytes@.len() == size,
        final(probe).log().len() == old(probe).log().len() + 1,
{
    let ghost start = probe.log();
    proof {
        lemma_same(start);
    }
    let bytes = probe.fetch(sessions, address, size)?;
    if bytes.len() != size {
        return Err(odd_read());
    }
    Ok(bytes)
}

/// Reads the signature of the bytes at an address.
fn exact_signature<B: MutationBackend>(
    probe: &mut Probe<'_, B>,
    sessions: &mut ProcessSessionRegistry<B::Handle>,
    target: usize,
    size: usize,
) -> (answer: Result<String, FeatureHookApiError>)
    requires
        old(sessions).wf(),
        old(probe).sound(old(sessions)@),
    ensures
        final(sessions).wf(),
        final(probe).sound(final(sessions)@),
        old(probe).goes_on(final(probe)),
        forall|log: Log<B::Handle, B::ThreadHandle>| #[trigger]
            extends(final(probe).log(), log) ==> text_at(
                answer,
                final(probe).log().len() as int,
                signature_of(log, old(probe).log().len() as int, target, size),
            ),
{
    let ghost start = probe.log();
    proof {
        lemma_same(start);
    }
    let bytes = probe.fetch(sessions, target, size)?;
    Ok(write_signature(&bytes))
}

/// Makes a patch over the bytes at an address.
fn patch<B: MutationBackend>(
    probe: &mut Probe<'_, B>,
    sessions: &mut ProcessSessionRegistry<B::Handle>,
    address: usize,
    size: usize,
    replacement_bytes: Vec<u8>,
) -> (answer: Result<HookPatch, FeatureHookApiError>)
    requires
        old(sessions).wf(),
        old(probe).sound(old(sessions)@),
    ensures
        final(sessions).wf(),
        final(probe).sound(final(sessions)@),
        old(probe).goes_on(final(probe)),
        forall|log: Log<B::Handle, B::ThreadHandle>| #[trigger]
            extends(final(probe).log(), log) ==> patch_at(
                answer,
                final(probe).log().len() as int,
                patch_of(log, old(probe).log().len() as int, address, size, replacement_bytes@),
            ),
{
    let ghost start = probe.log();
    proof {
        lemma_same(start);
    }
    let expected_bytes = probe.fetch(sessions, address, size)?;
    Ok(
        HookPatch {
            address,
            expected_bytes,
            replacement_bytes,
            apply_on_activation: true,
            keep_writable: false,
        },
    )
}

fn make_action_patch(address: usize, original: &Vec<u8>) -> (patch: HookPatch)
    requires
        original@.len() == 8,
    ensures
        patch@ == action_patch(address, original@),
{
    let mut replacement_bytes = filled(0x90, 6);
    replacement_bytes.push(original[6]);
    replacement_bytes.push(original[7]);
    let patch = HookPatch {
        address,
        expected_bytes: copy_bytes(original.as_slice()),
        replacement_bytes,
        apply_on_activation: false,
        keep_writable: true,
    };
    proof {
        assert(patch.replacement_bytes@ =~= seq![0x90u8, 0x90, 0x90, 0x90, 0x90, 0x90]
            + original@.skip(6));
    }
    patch
}

fn array8(bytes: &Vec<u8>) -> (array: [u8; 8])
    requires
        bytes@.len() == 8,
    ensures
        array@ == bytes@,
{
    let array = [
        bytes[0],
        bytes[1],
        bytes[2],
        bytes[3],
        bytes[4],
        bytes[5],
        bytes[6],
        bytes[7],
    ];
    proof {
        assert(array@ =~= bytes@);
    }
    array
}

fn make_template(
    signature: String,
    target: usize,
    overwrite_size: usize,
    payload_kind: PayloadKind,
    auxiliary_patches: Vec<HookPatch>,
    movement_action_patches: Option<(usize, usize)>,
    replay_original: bool,
) -> (template: Template)
    ensures
        template.follows(
            Plan {
                signature: signature@,
                target,
                overwrite: overwrite_size,
                kind: kind_of(payload_kind),
                patches: patches(auxiliary_patches@),
                actions: movement_action_patches,
                replay: replay_original,
            },
        ),
{
    proof {
        lemma_layout(payload_kind);
    }
    let (payload, exports, quiescence_offset) = build_payload(payload_kind, 0);
    Template {
        signature,
        scope: MemoryScanScope::Process,
        target_offset: 0,
        overwrite_size,
        payload,
        exports,
        resolved_target: Some(target),
        auxiliary_patches,
        movement_action_patches,
        payload_kind,
        replay_original,
        quiescence_offset,
    }
}

/// The signature of a patch site in a fixture.
pub open spec fn fixture_patch(marker: u8) -> Seq<char> {
    "B8 "@ + byte_text(marker) + " F1 C7 00 90 90 90"@
}

/// The signature of a hook site in a fixture.
pub open spec fn fixture_site(hook: FeatureHook) -> Seq<char> {
    "B8 "@ + byte_text(site_marker(hook)) + " D1 C0 00 90 90 90 90 90 90 90 90 90 90 C3"@
}

/// The marker of a hook site.
pub open spec fn site_marker(hook: FeatureHook) -> u8 {
    match hook {
        FeatureHook::MovementTeleport => 1,
        FeatureHook::MouselessCursor => 2,
        FeatureHook::Chat => 3,
        FeatureHook::ChatSend => 4,
        FeatureHook::DanceGameMoves => 5,
    }
}

fn marked(before: &str, marker: u8, after: &str) -> (text: String)
    ensures
        text@ == before@ + byte_text(marker) + after@,
{
    let mut text = String::new();
    text.append(before);
    push_byte(&mut text, marker);
    text.append(after);
    proof {
        assert(text@ =~= before@ + byte_text(marker) + after@);
    }
    text
}

/// The two jumps that a teleport takes out, read at a place of the log.
#[verifier::opaque]
pub open spec fn originals_of<H, T>(log: Log<H, T>, k: int, first: usize, second: usize) -> (
    int,
    Result<(Seq<u8>, Seq<u8>), Failure>,
) {
    match bytes_of(log, k, first, 8) {
        (k, Err(fault)) => (k, Err(fault)),
        (k, Ok(one)) => match bytes_of(log, k, second, 8) {
            (k, Err(fault)) => (k, Err(fault)),
            (k, Ok(two)) => (k, Ok((one, two))),
        },
    }
}

/// Two runs of bytes that came at a place of the log.
pub open spec fn pair_at(
    answer: Result<(Vec<u8>, Vec<u8>), FeatureHookApiError>,
    k: int,
    outcome: (int, Result<(Seq<u8>, Seq<u8>), Failure>),
) -> bool {
    outcome.0 == k && match (answer, outcome.1) {
        (Ok(pair), Ok(expected)) => pair.0@ == expected.0 && pair.1@ == expected.1,
        (Err(error), Err(fault)) => error@ == fault,
        _ => false,
    }
}

fn read_originals<B: MutationBackend>(
    probe: &mut Probe<'_, B>,
    sessions: &mut ProcessSessionRegistry<B::Handle>,
    first: usize,
    second: usize,
) -> (answer: Result<(Vec<u8>, Vec<u8>), FeatureHookApiError>)
    requires
        old(sessions).wf(),
        old(probe).sound(old(sessions)@),
    ensures
        final(sessions).wf(),
        final(probe).sound(final(sessions)@),
        old(probe).goes_on(final(probe)),
        forall|log: Log<B::Handle, B::ThreadHandle>| #[trigger]
            extends(final(probe).log(), log) ==> pair_at(
                answer,
                final(probe).log().len() as int,
                originals_of(log, old(probe).log().len() as int, first, second),
            ),
        answer matches Ok(pair) ==> pair.0@.len() == 8 && pair.1@.len() == 8,
{
    let ghost start = probe.log();
    proof {
        reveal(originals_of);
        lemma_same(start);
    }
    let one = read_exactly(probe, sessions, first, 8);
    let ghost a = probe.log();
    proof {
        lemma_next(start, start, a);
    }
    let one = one?;
    let two = read_exactly(probe, sessions, second, 8);
    let ghost b = probe.log();
    proof {
        lemma_next(start, a, b);
    }
    Ok((one, two?))
}

/// The places of four patch sites of a fixture.
#[verifier::opaque]
pub open spec fn fixture_places_of<H, T>(log: Log<H, T>, k: int) -> (
    int,
    Result<(usize, usize, usize, usize), Failure>,
) {
    match place_of(log, k, fixture_patch(0x11), None) {
        (k, Err(fault)) => (k, Err(fault)),
        (k, Ok(first)) => match place_of(log, k, fixture_patch(0x12), None) {
            (k, Err(fault)) => (k, Err(fault)),
            (k, Ok(second)) => match place_of(log, k, fixture_patch(0x13), None) {
                (k, Err(fault)) => (k, Err(fault)),
                (k, Ok(third)) => match place_of(log, k, fixture_patch(0x14), None) {
                    (k, Err(fault)) => (k, Err(fault)),
                    (k, Ok(fourth)) => (k, Ok((first, second, third, fourth))),
                },
            },
        },
    }
}

fn resolve_fixture_patch<B: MutationBackend>(
    probe: &mut Probe<'_, B>,
    sessions: &mut ProcessSessionRegistry<B::Handle>,
    marker: u8,
) -> (answer: Result<usize, FeatureHookApiError>)
    requires
        old(sessions).wf(),
        old(probe).sound(old(sessions)@),
    ensures
        final(sessions).wf(),
        final(probe).sound(final(sessions)@),
        old(probe).goes_on(final(probe)),
        forall|log: Log<B::Handle, B::ThreadHandle>| #[trigger]
            extends(final(probe).log(), log) ==> gives_at(
                answer,
                final(probe).log().len() as int,
                place_of(log, old(probe).log().len() as int, fixture_patch(marker), None),
            ),
{
    let ghost start = probe.log();
    proof {
        lemma_same(start);
    }
    let signature = marked("B8 ", marker, " F1 C7 00 90 90 90");
    resolve_unique_pattern(probe, sessions, signature.as_str(), &MemoryScanScope::Process)
}

fn find_fixture_places<B: MutationBackend>(
    probe: &mut Probe<'_, B>,
    sessions: &mut ProcessSessionRegistry<B::Handle>,
) -> (answer: Result<(usize, usize, usize, usize), FeatureHookApiError>)
    requires
        old(sessions).wf(),
        old(probe).sound(old(sessions)@),
    ensures
        final(sessions).wf(),
        final(probe).sound(final(sessions)@),
        old(probe).goes_on(final(probe)),
        forall|log: Log<B::Handle, B::ThreadHandle>| #[trigger]
            extends(final(probe).log(), log) ==> gives_at(
                answer,
                final(probe).log().len() as int,
                fixture_places_of(log, old(probe).log().len() as int),
            ),
{
    let ghost start = probe.log();
    proof {
        reveal(fixture_places_of);
        lemma_same(start);
    }
    let first = resolve_fixture_patch(probe, sessions, 0x11);
    let ghost a = probe.log();
    proof {
        lemma_next(start, start, a);
    }
    let first: usize = first?;
    let second = resolve_fixture_patch(probe, sessions, 0x12);
    let ghost b = probe.log();
    proof {
        lemma_next(start, a, b);
    }
    let second: usize = second?;
    let third = resolve_fixture_patch(probe, sessions, 0x13);
    let ghost c = probe.log();
    proof {
        lemma_next(start, b, c);
    }
    let third: usize = third?;
    let fourth = resolve_fixture_patch(probe, sessions, 0x14);
    let ghost d = probe.log();
    proof {
        lemma_next(start, c, d);
    }
    let fourth: usize = fourth?;
    Ok((first, second, third, fourth))
}

/// What patches a movement hook needs and what its payload is told.
pub open spec fn movement_parts(
    first: usize,
    second: usize,
    originals: (Seq<u8>, Seq<u8>),
) -> Kind {
    Kind::Movement {
        first,
        second,
        first_original: originals.0,
        second_original: originals.1,
    }
}

/// The kind and the patches of a fixture's movement hook.
#[verifier::opaque]
pub open spec fn fixture_movement_of<H, T>(log: Log<H, T>, k: int) -> (
    int,
    Result<(Kind, Seq<Patch>), Failure>,
) {
    let nops = seq![0x90u8, 0x90u8];
    match fixture_places_of(log, k) {
        (k, Err(fault)) => (k, Err(fault)),
        (k, Ok((first, second, third, fourth))) => match originals_of(log, k, first, second) {
            (k, Err(fault)) => (k, Err(fault)),
            (k, Ok(originals)) => match patch_of(log, k, third, 2, nops) {
                (k, Err(fault)) => (k, Err(fault)),
                (k, Ok(one)) => match patch_of(log, k, fourth, 2, nops) {
                    (k, Err(fault)) => (k, Err(fault)),
                    (k, Ok(two)) => (
                        k,
                        Ok(
                            (
                                movement_parts(first, second, originals),
                                seq![
                                    one,
                                    two,
                                    action_patch(first, originals.0),
                                    action_patch(second, originals.1),
                                ],
                            ),
                        ),
                    ),
                },
            },
        },
    }
}

/// A kind and patches that came at a place of the log.
pub open spec fn parts_at(
    answer: Result<(PayloadKind, Vec<HookPatch>), FeatureHookApiError>,
    k: int,
    outcome: (int, Result<(Kind, Seq<Patch>), Failure>),
) -> bool {
    outcome.0 == k && match (answer, outcome.1) {
        (Ok(parts), Ok(expected)) => kind_of(parts.0) == expected.0 && patches(parts.1@)
            == expected.1,
        (Err(error), Err(fault)) => error@ == fault,
        _ => false,
    }
}

fn join_movement(
    first: usize,
    second: usize,
    originals: (Vec<u8>, Vec<u8>),
    one: HookPatch,
    two: HookPatch,
) -> (parts: (PayloadKind, Vec<HookPatch>))
    requires
        originals.0@.len() == 8,
        originals.1@.len() == 8,
    ensures
        kind_of(parts.0) == movement_parts(first, second, (originals.0@, originals.1@)),
        patches(parts.1@) == seq![
            one@,
            two@,
            action_patch(first, originals.0@),
            action_patch(second, originals.1@),
        ],
{
    let kind = PayloadKind::Movement {
        first_je: first,
        second_je: second,
        first_original: array8(&originals.0),
        second_original: array8(&originals.1),
    };
    let forward = make_action_patch(first, &originals.0);
    let backward = make_action_patch(second, &originals.1);
    let list: Vec<HookPatch> = vec![one, two, forward, backward];
    proof {
        assert(patches(list@) =~= seq![one@, two@, forward@, backward@]);
    }
    (kind, list)
}

fn two_nops() -> (bytes: Vec<u8>)
    ensures
        bytes@ == seq![0x90u8, 0x90u8],
{
    let bytes = filled(0x90, 2);
    proof {
        assert(bytes@ =~= seq![0x90u8, 0x90u8]);
    }
    bytes
}

fn fixture_movement<B: MutationBackend>(
    probe: &mut Probe<'_, B>,
    sessions: &mut ProcessSessionRegistry<B::Handle>,
) -> (answer: Result<(PayloadKind, Vec<HookPatch>), FeatureHookApiError>)
    requires
        old(sessions).wf(),
        old(probe).sound(old(sessions)@),
    ensures
        final(sessions).wf(),
        final(probe).sound(final(sessions)@),
        old(probe).goes_on(final(probe)),
        forall|log: Log<B::Handle, B::ThreadHandle>| #[trigger]
            extends(final(probe).log(), log) ==> parts_at(
                answer,
                final(probe).log().len() as int,
                fixture_movement_of(log, old(probe).log().len() as int),
            ),
{
    let ghost start = probe.log();
    proof {
        reveal(fixture_movement_of);
        lemma_same(start);
    }
    let places = find_fixture_places(probe, sessions);
    let ghost a = probe.log();
    proof {
        lemma_next(start, start, a);
    }
    let (first, second, third, fourth) = places?;
    let originals = read_originals(probe, sessions, first, second);
    let ghost b = probe.log();
    proof {
        lemma_next(start, a, b);
    }
    let originals = originals?;
    let one = patch(probe, sessions, third, 2, two_nops());
    let ghost c = probe.log();
    proof {
        lemma_next(start, b, c);
    }
    let one = one?;
    let two = patch(probe, sessions, fourth, 2, two_nops());
    let ghost d = probe.log();
    proof {
        lemma_next(start, c, d);
    }
    let two = two?;
    Ok(join_movement(first, second, originals, one, two))
}

/// The patches of a mouse hook: the cursor is no longer moved, and two flags are
/// set.
#[verifier::opaque]
pub open spec fn mouse_patches_of<H, T>(
    log: Log<H, T>,
    k: int,
    cursor: usize,
    one: usize,
    two: usize,
) -> (int, Result<Seq<Patch>, Failure>) {
    match patch_of(log, k, cursor, 6, seq![0xc3u8, 0x90, 0x90, 0x90, 0x90, 0x90]) {
        (k, Err(fault)) => (k, Err(fault)),
        (k, Ok(first)) => match patch_of(log, k, one, 1, seq![1u8]) {
            (k, Err(fault)) => (k, Err(fault)),
            (k, Ok(second)) => match patch_of(log, k, two, 1, seq![1u8]) {
                (k, Err(fault)) => (k, Err(fault)),
                (k, Ok(third)) => (k, Ok(seq![first, second, third])),
            },
        },
    }
}

/// Patches that came at a place of the log.
pub open spec fn patches_at(
    answer: Result<Vec<HookPatch>, FeatureHookApiError>,
    k: int,
    outcome: (int, Result<Seq<Patch>, Failure>),
) -> bool {
    outcome.0 == k && match (answer, outcome.1) {
        (Ok(list), Ok(expected)) => patches(list@) == expected,
        (Err(error), Err(fault)) => error@ == fault,
        _ => false,
    }
}

fn return_code() -> (bytes: Vec<u8>)
    ensures
        bytes@ == seq![0xc3u8, 0x90, 0x90, 0x90, 0x90, 0x90],
{
    let bytes: Vec<u8> = vec![0xc3u8, 0x90, 0x90, 0x90, 0x90, 0x90];
    proof {
        assert(bytes@ =~= seq![0xc3u8, 0x90, 0x90, 0x90, 0x90, 0x90]);
    }
    bytes
}

fn set_flag() -> (bytes: Vec<u8>)
    ensures
        bytes@ == seq![1u8],
{
    let bytes: Vec<u8> = vec![1u8];
    proof {
        assert(bytes@ =~= seq![1u8]);
    }
    bytes
}

fn list_of(first: HookPatch, second: HookPatch, third: HookPatch) -> (list: Vec<HookPatch>)
    ensures
        patches(list@) == seq![first@, second@, third@],
{
    let list: Vec<HookPatch> = vec![first, second, third];
    proof {
        assert(patches(list@) =~= seq![first@, second@, third@]);
    }
    list
}

fn read_mouse_patches<B: MutationBackend>(
    probe: &mut Probe<'_, B>,
    sessions: &mut ProcessSessionRegistry<B::Handle>,
    cursor: usize,
    one: usize,
    two: usize,
) -> (answer: Result<Vec<HookPatch>, FeatureHookApiError>)
    requires
        old(sessions).wf(),
        old(probe).sound(old(sessions)@),
    ensures
        final(sessions).wf(),
        final(probe).sound(final(sessions)@),
        old(probe).goes_on(final(probe)),
        forall|log: Log<B::Handle, B::ThreadHandle>| #[trigger]
            extends(final(probe).log(), log) ==> patches_at(
                answer,
                final(probe).log().len() as int,
                mouse_patches_of(log, old(probe).log().len() as int, cursor, one, two),
            ),
{
    let ghost start = probe.log();
    proof {
        reveal(mouse_patches_of);
        lemma_same(start);
    }
    let first = patch(probe, sessions, cursor, 6, return_code());
    let ghost a = probe.log();
    proof {
        lemma_next(start, start, a);
    }
    let first = first?;
    let second = patch(probe, sessions, one, 1, set_flag());
    let ghost b = probe.log();
    proof {
        lemma_next(start, a, b);
    }
    let second = second?;
    let third = patch(probe, sessions, two, 1, set_flag());
    let ghost c = probe.log();
    proof {
        lemma_next(start, b, c);
    }
    let third = third?;
    Ok(list_of(first, second, third))
}

/// The patches of a fixture's mouse hook, each found and read before the next one
/// is looked for.
#[verifier::opaque]
pub open spec fn fixture_mouse_of<H, T>(log: Log<H, T>, k: int) -> (
    int,
    Result<Seq<Patch>, Failure>,
) {
    match found_patch_of(log, k, 0x21, 6, seq![0xc3u8, 0x90, 0x90, 0x90, 0x90, 0x90]) {
        (k, Err(fault)) => (k, Err(fault)),
        (k, Ok(first)) => match found_patch_of(log, k, 0x22, 1, seq![1u8]) {
            (k, Err(fault)) => (k, Err(fault)),
            (k, Ok(second)) => match found_patch_of(log, k, 0x23, 1, seq![1u8]) {
                (k, Err(fault)) => (k, Err(fault)),
                (k, Ok(third)) => (k, Ok(seq![first, second, third])),
            },
        },
    }
}

/// A patch at a patch site of a fixture.
pub open spec fn found_patch_of<H, T>(
    log: Log<H, T>,
    k: int,
    marker: u8,
    size: usize,
    replacement: Seq<u8>,
) -> (int, Result<Patch, Failure>) {
    match place_of(log, k, fixture_patch(marker), None) {
        (k, Err(fault)) => (k, Err(fault)),
        (k, Ok(address)) => patch_of(log, k, address, size, replacement),
    }
}

fn found_patch<B: MutationBackend>(
    probe: &mut Probe<'_, B>,
    sessions: &mut ProcessSessionRegistry<B::Handle>,
    marker: u8,
    size: usize,
    replacement: Vec<u8>,
) -> (answer: Result<HookPatch, FeatureHookApiError>)
    requires
        old(sessions).wf(),
        old(probe).sound(old(sessions)@),
    ensures
        final(sessions).wf(),
        final(probe).sound(final(sessions)@),
        old(probe).goes_on(final(probe)),
        forall|log: Log<B::Handle, B::ThreadHandle>| #[trigger]
            extends(final(probe).log(), log) ==> patch_at(
                answer,
                final(probe).log().len() as int,
                found_patch_of(log, old(probe).log().len() as int, marker, size, replacement@),
            ),
{
    let ghost start = probe.log();
    proof {
        lemma_same(start);
    }
    let address = resolve_fixture_patch(probe, sessions, marker);
    let ghost a = probe.log();
    proof {
        lemma_next(start, start, a);
    }
    let address: usize = address?;
    let made = patch(probe, sessions, address, size, replacement);
    let ghost b = probe.log();
    proof {
        lemma_next(start, a, b);
    }
    made
}

fn fixture_mouse<B: MutationBackend>(
    probe: &mut Probe<'_, B>,
    sessions: &mut ProcessSessionRegistry<B::Handle>,
) -> (answer: Result<Vec<HookPatch>, FeatureHookApiError>)
    requires
        old(sessions).wf(),
        old(probe).sound(old(sessions)@),
    ensures
        final(sessions).wf(),
        final(probe).sound(final(sessions)@),
        old(probe).goes_on(final(probe)),
        forall|log: Log<B::Handle, B::ThreadHandle>| #[trigger]
            extends(final(probe).log(), log) ==> patches_at(
                answer,
                final(probe).log().len() as int,
                fixture_mouse_of(log, old(probe).log().len() as int),
            ),
{
    let ghost start = probe.log();
    proof {
        reveal(fixture_mouse_of);
        lemma_same(start);
    }
    let first = found_patch(probe, sessions, 0x21, 6, return_code());
    let ghost a = probe.log();
    proof {
        lemma_next(start, start, a);
    }
    let first = first?;
    let second = found_patch(probe, sessions, 0x22, 1, set_flag());
    let ghost b = probe.log();
    proof {
        lemma_next(start, a, b);
    }
    let second = second?;
    let third = found_patch(probe, sessions, 0x23, 1, set_flag());
    let ghost c = probe.log();
    proof {
        lemma_next(start, b, c);
    }
    let third = third?;
    Ok(list_of(first, second, third))
}

/// The kind and the patches of a fixture's hook.
pub open spec fn fixture_parts_of<H, T>(log: Log<H, T>, k: int, hook: FeatureHook) -> (
    int,
    Result<(Kind, Seq<Patch>), Failure>,
) {
    match hook {
        FeatureHook::MovementTeleport => fixture_movement_of(log, k),
        FeatureHook::MouselessCursor => match fixture_mouse_of(log, k) {
            (k, Err(fault)) => (k, Err(fault)),
            (k, Ok(list)) => (k, Ok((Kind::Mouse, list))),
        },
        FeatureHook::Chat => (k, Ok((Kind::Chat, Seq::empty()))),
        FeatureHook::ChatSend => (
            k,
            Ok((Kind::Send { send: 0, buddy: 0, operator_new: 0 }, Seq::empty())),
        ),
        FeatureHook::DanceGameMoves => (k, Ok((Kind::Dance, Seq::empty()))),
    }
}

fn no_patches() -> (list: Vec<HookPatch>)
    ensures
        patches(list@) == Seq::<Patch>::empty(),
{
    let list: Vec<HookPatch> = Vec::new();
    proof {
        assert(patches(list@) =~= Seq::<Patch>::empty());
    }
    list
}

fn fixture_parts<B: MutationBackend>(
    probe: &mut Probe<'_, B>,
    sessions: &mut ProcessSessionRegistry<B::Handle>,
    hook: FeatureHook,
) -> (answer: Result<(PayloadKind, Vec<HookPatch>), FeatureHookApiError>)
    requires
        old(sessions).wf(),
        old(probe).sound(old(sessions)@),
    ensures
        final(sessions).wf(),
        final(probe).sound(final(sessions)@),
        old(probe).goes_on(final(probe)),
        forall|log: Log<B::Handle, B::ThreadHandle>| #[trigger]
            extends(final(probe).log(), log) ==> parts_at(
                answer,
                final(probe).log().len() as int,
                fixture_parts_of(log, old(probe).log().len() as int, hook),
            ),
{
    let ghost start = probe.log();
    proof {
        lemma_same(start);
    }
    match hook {
        FeatureHook::MovementTeleport => fixture_movement(probe, sessions),
        FeatureHook::MouselessCursor => {
            let list = fixture_mouse(probe, sessions)?;
            Ok((PayloadKind::Mouse, list))
        },
        FeatureHook::Chat => Ok((PayloadKind::Chat, no_patches())),
        FeatureHook::ChatSend => Ok(
            (PayloadKind::ChatSend { send: 0, buddy: 0, operator_new: 0 }, no_patches()),
        ),
        FeatureHook::DanceGameMoves => Ok((PayloadKind::Dance, no_patches())),
    }
}

/// How a feature hook is put in place in a fixture.
pub open spec fn fixture_plan<H, T>(log: Log<H, T>, k: int, hook: FeatureHook) -> (
    int,
    Result<Plan, Failure>,
) {
    match place_of(log, k, fixture_site(hook), None) {
        (k, Err(fault)) => (k, Err(fault)),
        (k, Ok(target)) => match fixture_parts_of(log, k, hook) {
            (k, Err(fault)) => (k, Err(fault)),
            (k, Ok((kind, list))) => match signature_of(log, k, target, 16) {
                (k, Err(fault)) => (k, Err(fault)),
                (k, Ok(signature)) => (
                    k,
                    Ok(
                        Plan {
                            signature,
                            target,
                            overwrite: 16,
                            kind,
                            patches: list,
                            actions: if hook is MovementTeleport {
                                Some((2usize, 3usize))
                            } else {
                                None
                            },
                            replay: !(hook is MouselessCursor),
                        },
                    ),
                ),
            },
        },
    }
}

/// Finds how a feature hook is put in place in a fixture.
fn fixture_template<B: MutationBackend>(
    probe: &mut Probe<'_, B>,
    sessions: &mut ProcessSessionRegistry<B::Handle>,
    hook: FeatureHook,
) -> (answer: Result<Template, FeatureHookApiError>)
    requires
        old(sessions).wf(),
        old(probe).sound(old(sessions)@),
    ensures
        final(sessions).wf(),
        final(probe).sound(final(sessions)@),
        old(probe).goes_on(final(probe)),
        forall|log: Log<B::Handle, B::ThreadHandle>| #[trigger]
            extends(final(probe).log(), log) ==> template_at(
                answer,
                final(probe).log().len() as int,
                fixture_plan(log, old(probe).log().len() as int, hook),
            ),
{
    let ghost start = probe.log();
    proof {
        lemma_same(start);
    }
    let marker: u8 = match hook {
        FeatureHook::MovementTeleport => 1,
        FeatureHook::MouselessCursor => 2,
        FeatureHook::Chat => 3,
        FeatureHook::ChatSend => 4,
        FeatureHook::DanceGameMoves => 5,
    };
    let site = marked("B8 ", marker, " D1 C0 00 90 90 90 90 90 90 90 90 90 90 C3");
    let target = resolve_unique_pattern(
        probe,
        sessions,
        site.as_str(),
        &MemoryScanScope::Process,
    );
    let ghost a = probe.log();
    proof {
        lemma_next(start, start, a);
    }
    let target: usize = target?;
    let parts = fixture_parts(probe, sessions, hook);
    let ghost b = probe.log();
    proof {
        lemma_next(start, a, b);
    }
    let (kind, list) = parts?;
    let signature = exact_signature(probe, sessions, target, 16);
    let ghost c = probe.log();
    proof {
        lemma_next(start, b, c);
    }
    let signature = signature?;
    let actions: Option<(usize, usize)> = match hook {
        FeatureHook::MovementTeleport => Some((2, 3)),
        _ => None,
    };
    let replay = match hook {
        FeatureHook::MouselessCursor => false,
        _ => true,
    };
    Ok(make_template(signature, target, 16, kind, list, actions, replay))
}

/// Bytes that mark a function at some distance behind its start.
#[derive(Debug)]
pub struct Marker {
    pub offset: usize,
    pub expected: Vec<u8>,
}

/// Several markers, as they count.
pub open spec fn markers(list: Seq<Marker>) -> Seq<(usize, Seq<u8>)> {
    list.map_values(|marker: Marker| (marker.offset, marker.expected@))
}

/// Whether the markers from the given one on stand behind a candidate.
pub open spec fn marked_of<H, T>(
    log: Log<H, T>,
    k: int,
    candidate: usize,
    list: Seq<(usize, Seq<u8>)>,
    i: int,
) -> (int, Result<bool, Failure>)
    decreases list.len() - i,
{
    if i >= list.len() {
        (k, Ok(true))
    } else if candidate + list[i].0 > usize::MAX {
        (
            k,
            Err(
                failure(
                    RpcErrorCode::MemoryInvalidAddress,
                    "feature-hook disambiguation address overflowed the agent address width"@,
                ),
            ),
        )
    } else {
        match fetched(log, k, (candidate + list[i].0) as usize, list[i].1.len() as usize) {
            Err(fault) => (k + 1, Err(fault)),
            Ok(bytes) => if bytes != list[i].1 {
                (k + 1, Ok(false))
            } else {
                marked_of(log, k + 1, candidate, list, i + 1)
            },
        }
    }
}

/// The one candidate, from the given one on, that has all the markers.
pub open spec fn chosen_of<H, T>(
    log: Log<H, T>,
    k: int,
    candidates: Seq<usize>,
    list: Seq<(usize, Seq<u8>)>,
    i: int,
    selected: Option<usize>,
) -> (int, Result<Option<usize>, Failure>)
    decreases candidates.len() - i,
{
    if i >= candidates.len() {
        (k, Ok(selected))
    } else {
        match marked_of(log, k, candidates[i], list, 0) {
            (k, Err(fault)) => (k, Err(fault)),
            (k, Ok(false)) => chosen_of(log, k, candidates, list, i + 1, selected),
            (k, Ok(true)) => if selected is Some {
                (
                    k,
                    Err(
                        failure(
                            RpcErrorCode::MemoryAmbiguousMatch,
                            "feature-hook disambiguation matched more than one function"@,
                        ),
                    ),
                )
            } else {
                chosen_of(log, k, candidates, list, i + 1, Some(candidates[i]))
            },
        }
    }
}

fn has_markers<B: MutationBackend>(
    probe: &mut Probe<'_, B>,
    sessions: &mut ProcessSessionRegistry<B::Handle>,
    candidate: usize,
    list: &Vec<Marker>,
    i: usize,
) -> (answer: Result<bool, FeatureHookApiError>)
    requires
        old(sessions).wf(),
        old(probe).sound(old(sessions)@),
        i <= list@.len(),
    ensures
        final(sessions).wf(),
        final(probe).sound(final(sessions)@),
        old(probe).goes_on(final(probe)),
        forall|log: Log<B::Handle, B::ThreadHandle>| #[trigger]
            extends(final(probe).log(), log) ==> gives_at(
                answer,
                final(probe).log().len() as int,
                marked_of(log, old(probe).log().len() as int, candidate, markers(list@), i as int),
            ),
    decreases list@.len() - i,
{
    let ghost start = probe.log();
    proof {
        lemma_same(start);
    }
    if i >= list.len() {
        return Ok(true);
    }
    let marker = &list[i];
    proof {
        assert(markers(list@)[i as int] == (marker.offset, marker.expected@));
    }
    let address: usize = match candidate.checked_add(marker.offset) {
        Some(address) => address,
        None => {
            return Err(
                FeatureHookApiError::request(
                    RpcErrorCode::MemoryInvalidAddress,
                    "feature-hook disambiguation address overflowed the agent address width".to_owned(),
                ),
            );
        },
    };
    let bytes = probe.fetch(sessions, address, marker.expected.len());
    let ghost a = probe.log();
    proof {
        lemma_next(start, start, a);
    }
    let bytes = bytes?;
    if !same_bytes(bytes.as_slice(), marker.expected.as_slice()) {
        return Ok(false);
    }
    let rest = has_markers(probe, sessions, candidate, list, i + 1);
    let ghost b = probe.log();
    proof {
        lemma_next(start, a, b);
    }
    rest
}

fn choose_candidate<B: MutationBackend>(
    probe: &mut Probe<'_, B>,
    sessions: &mut ProcessSessionRegistry<B::Handle>,
    candidates: &Vec<usize>,
    list: &Vec<Marker>,
    i: usize,
    selected: Option<usize>,
) -> (answer: Result<Option<usize>, FeatureHookApiError>)
    requires
        old(sessions).wf(),
        old(probe).sound(old(sessions)@),
        i <= candidates@.len(),
    ensures
        final(sessions).wf(),
        final(probe).sound(final(sessions)@),
        old(probe).goes_on(final(probe)),
        forall|log: Log<B::Handle, B::ThreadHandle>| #[trigger]
            extends(final(probe).log(), log) ==> gives_at(
                answer,
                final(probe).log().len() as int,
                chosen_of(
                    log,
                    old(probe).log().len() as int,
                    candidates@,
                    markers(list@),
                    i as int,
                    selected,
                ),
            ),
    decreases candidates@.len() - i,
{
    let ghost start = probe.log();
    proof {
        lemma_same(start);
    }
    if i >= candidates.len() {
        return Ok(selected);
    }
    let fits = has_markers(probe, sessions, candidates[i], list, 0);
    let ghost a = probe.log();
    proof {
        lemma_next(start, start, a);
    }
    let fits = fits?;
    let chosen = if fits {
        if selected.is_some() {
            return Err(
                FeatureHookApiError::request(
                    RpcErrorCode::MemoryAmbiguousMatch,
                    "feature-hook disambiguation matched more than one function".to_owned(),
                ),
            );
        }
        Some(candidates[i])
    } else {
        selected
    };
    let rest = choose_candidate(probe, sessions, candidates, list, i + 1, chosen);
    let ghost b = probe.log();
    proof {
        lemma_next(start, a, b);
    }
    rest
}

/// The one function with a signature that has all the markers.
#[verifier::opaque]
pub open spec fn disambiguated_of<H, T>(
    log: Log<H, T>,
    k: int,
    signature: Seq<char>,
    list: Seq<(usize, Seq<u8>)>,
) -> (int, Result<usize, Failure>) {
    match found_all(log, k, signature, game_module()) {
        Err(fault) => (k + 1, Err(fault)),
        Ok(candidates) => match chosen_of(log, k + 1, candidates, list, 0, None) {
            (k, Err(fault)) => (k, Err(fault)),
            (k, Ok(None)) => (
                k,
                Err(
                    failure(
                        RpcErrorCode::MemoryRequiredMatchNotFound,
                        "feature-hook function marker was not found"@,
                    ),
                ),
            ),
            (k, Ok(Some(at))) => (k, Ok(at)),
        },
    }
}

fn resolve_disambiguated<B: MutationBackend>(
    probe: &mut Probe<'_, B>,
    sessions: &mut ProcessSessionRegistry<B::Handle>,
    signature: &str,
    list: &Vec<Marker>,
) -> (answer: Result<usize, FeatureHookApiError>)
    requires
        old(sessions).wf(),
        old(probe).sound(old(sessions)@),
    ensures
        final(sessions).wf(),
        final(probe).sound(final(sessions)@),
        old(probe).goes_on(final(probe)),
        forall|log: Log<B::Handle, B::ThreadHandle>| #[trigger]
            extends(final(probe).log(), log) ==> gives_at(
                answer,
                final(probe).log().len() as int,
                disambiguated_of(log, old(probe).log().len() as int, signature@, markers(list@)),
            ),
{
    let ghost start = probe.log();
    proof {
        reveal(disambiguated_of);
        lemma_same(start);
    }
    let candidates = probe.find_all(sessions, signature, &module_scope());
    let ghost a = probe.log();
    proof {
        lemma_next(start, start, a);
    }
    let candidates = candidates?;
    let chosen = choose_candidate(probe, sessions, &candidates, list, 0, None);
    let ghost b = probe.log();
    proof {
        lemma_next(start, a, b);
    }
    match chosen? {
        Some(at) => Ok(at),
        None => Err(
            FeatureHookApiError::request(
                RpcErrorCode::MemoryRequiredMatchNotFound,
                "feature-hook function marker was not found".to_owned(),
            ),
        ),
    }
}

/// What marks the function that shows chat: the type of a message, and the place
/// of the hook.
#[verifier::opaque]
pub open spec fn chat_marks() -> Seq<(usize, Seq<u8>)> {
    seq![
        (0x7eusize, seq![0xc7u8, 0x45, 0xf0, 0x09, 0, 0, 0]),
        (0x379usize, seq![0x48u8, 0x8d, 0x4d, 0xf8, 0x48, 0x3b, 0xc8]),
    ]
}

/// Where the chat hook goes.
#[verifier::opaque]
pub open spec fn chat_target_of<H, T>(log: Log<H, T>, k: int) -> (int, Result<usize, Failure>) {
    match disambiguated_of(
        log,
        k,
        "48 89 5C 24 18 48 89 74 24 20 55 57 41 56 48 8D AC 24 40 FF FF FF 48 81 EC C0 01 00 00 48 8B 05 ?? ?? ?? ?? 48 33 C4 48 89 85 B0 00 00 00 48 8B FA 48 8B F1 45 33 F6"@,
        chat_marks(),
    ) {
        (k, Err(fault)) => (k, Err(fault)),
        (k, Ok(base)) => if base + 0x379 > usize::MAX {
            (
                k,
                Err(
                    failure(
                        RpcErrorCode::MemoryInvalidAddress,
                        "chat hook target overflowed the agent address width"@,
                    ),
                ),
            )
        } else {
            (k, Ok((base + 0x379) as usize))
        },
    }
}

/// What marks the function that sends chat.
#[verifier::opaque]
pub open spec fn send_marks() -> Seq<(usize, Seq<u8>)> {
    seq![(0x33usize, seq![0x48u8, 0x83, 0xc2, 0x20])]
}

/// Where the function that sends chat is.
#[verifier::opaque]
pub open spec fn send_function_of<H, T>(log: Log<H, T>, k: int) -> (int, Result<usize, Failure>) {
    disambiguated_of(
        log,
        k,
        "48 89 5C 24 18 55 56 57 48 8D AC 24 30 FF FF FF 48 81 EC D0 01 00 00 48 8B 05 ?? ?? ?? ?? 48 33 C4 48 89 85 C0 00 00 00 48 8B DA 48 8B F9"@,
        send_marks(),
    )
}

fn chat_markers() -> (list: Vec<Marker>)
    ensures
        markers(list@) == chat_marks(),
{
    let kind: Vec<u8> = vec![0xc7u8, 0x45, 0xf0, 0x09, 0, 0, 0];
    let site: Vec<u8> = vec![0x48u8, 0x8d, 0x4d, 0xf8, 0x48, 0x3b, 0xc8];
    proof {
        assert(kind@ =~= seq![0xc7u8, 0x45, 0xf0, 0x09, 0, 0, 0]);
        assert(site@ =~= seq![0x48u8, 0x8d, 0x4d, 0xf8, 0x48, 0x3b, 0xc8]);
    }
    let list: Vec<Marker> = vec![
        Marker { offset: 0x7e, expected: kind },
        Marker { offset: 0x379, expected: site },
    ];
    proof {
        assert(markers(list@) =~= seq![(0x7eusize, kind@), (0x379usize, site@)]);
        reveal(chat_marks);
    }
    list
}

fn send_markers() -> (list: Vec<Marker>)
    ensures
        markers(list@) == send_marks(),
{
    let bytes: Vec<u8> = vec![0x48u8, 0x83, 0xc2, 0x20];
    proof {
        assert(bytes@ =~= seq![0x48u8, 0x83, 0xc2, 0x20]);
    }
    let list: Vec<Marker> = vec![Marker { offset: 0x33, expected: bytes }];
    proof {
        assert(markers(list@) =~= seq![(0x33usize, bytes@)]);
        reveal(send_marks);
    }
    list
}

/// Finds where the chat hook goes.
fn resolve_chat_target<B: MutationBackend>(
    probe: &mut Probe<'_, B>,
    sessions: &mut ProcessSessionRegistry<B::Handle>,
) -> (answer: Result<usize, FeatureHookApiError>)
    requires
        old(sessions).wf(),
        old(probe).sound(old(sessions)@),
    ensures
        final(sessions).wf(),
        final(probe).sound(final(sessions)@),
        old(probe).goes_on(final(probe)),
        forall|log: Log<B::Handle, B::ThreadHandle>| #[trigger]
            extends(final(probe).log(), log) ==> gives_at(
                answer,
                final(probe).log().len() as int,
                chat_target_of(log, old(probe).log().len() as int),
            ),
{
    let ghost start = probe.log();
    proof {
        reveal(chat_target_of);
        lemma_same(start);
    }
    let base = resolve_disambiguated(
        probe,
        sessions,
        "48 89 5C 24 18 48 89 74 24 20 55 57 41 56 48 8D AC 24 40 FF FF FF 48 81 EC C0 01 00 00 48 8B 05 ?? ?? ?? ?? 48 33 C4 48 89 85 B0 00 00 00 48 8B FA 48 8B F1 45 33 F6",
        &chat_markers(),
    );
    let ghost a = probe.log();
    proof {
        lemma_next(start, start, a);
    }
    let base: usize = base?;
    match base.checked_add(0x379) {
        Some(target) => Ok(target),
        None => Err(
            FeatureHookApiError::request(
                RpcErrorCode::MemoryInvalidAddress,
                "chat hook target overflowed the agent address width".to_owned(),
            ),
        ),
    }
}

/// Finds the function that sends chat.
fn resolve_send_function<B: MutationBackend>(
    probe: &mut Probe<'_, B>,
    sessions: &mut ProcessSessionRegistry<B::Handle>,
) -> (answer: Result<usize, FeatureHookApiError>)
    requires
        old(sessions).wf(),
        old(probe).sound(old(sessions)@),
    ensures
        final(sessions).wf(),
        final(probe).sound(final(sessions)@),
        old(probe).goes_on(final(probe)),
        forall|log: Log<B::Handle, B::ThreadHandle>| #[trigger]
            extends(final(probe).log(), log) ==> gives_at(
                answer,
                final(probe).log().len() as int,
                send_function_of(log, old(probe).log().len() as int),
            ),
{
    let ghost start = probe.log();
    proof {
        reveal(send_function_of);
        lemma_same(start);
    }
    resolve_disambiguated(
        probe,
        sessions,
        "48 89 5C 24 18 55 56 57 48 8D AC 24 30 FF FF FF 48 81 EC D0 01 00 00 48 8B 05 ?? ?? ?? ?? 48 33 C4 48 89 85 C0 00 00 00 48 8B DA 48 8B F9",
        &send_markers(),
    )
}

/// The address that an instruction names relative to what follows it.
pub open spec fn relative_to(next: int, displacement: Seq<u8>, problem: Seq<char>) -> Result<
    usize,
    Failure,
> {
    let there = next + signed32(le_value(displacement));
    if 0 <= there <= usize::MAX {
        Ok(there as usize)
    } else {
        Err(failure(RpcErrorCode::MemoryInvalidAddress, problem))
    }
}

fn add_displacement(next: usize, displacement: &Vec<u8>, at: usize, problem: &str) -> (answer: Result<
    usize,
    FeatureHookApiError,
>)
    requires
        at + 4 <= displacement@.len(),
    ensures
        gives(
            answer,
            relative_to(next as int, displacement@.subrange(at as int, at + 4), problem@),
        ),
{
    proof {
        lemma_pow256();
    }
    let value: i32 = from_bits(read_le(displacement.as_slice(), at, 4) as u32);
    let there: i128 = next as i128 + value as i128;
    if there < 0 || there > usize::MAX as i128 {
        return Err(
            FeatureHookApiError::request(RpcErrorCode::MemoryInvalidAddress, problem.to_owned()),
        );
    }
    Ok(there as usize)
}

/// The function that a relative call calls, read at a place of the log.
#[verifier::opaque]
pub open spec fn relative_call_of<H, T>(log: Log<H, T>, k: int, call: usize) -> (
    int,
    Result<usize, Failure>,
) {
    (
        k + 1,
        match fetched(log, k, call, 5) {
            Err(fault) => Err(fault),
            Ok(instruction) => if instruction.len() == 0 || instruction[0] != 0xe8 {
                Err(
                    failure(
                        RpcErrorCode::MemoryRequiredMatchNotFound,
                        "expected a relative call at "@ + address_text(call as nat),
                    ),
                )
            } else if instruction.len() != 5 {
                Err(odd_length())
            } else if call + 5 > usize::MAX {
                Err(
                    failure(
                        RpcErrorCode::MemoryInvalidAddress,
                        "relative call continuation overflowed the agent address width"@,
                    ),
                )
            } else {
                relative_to(
                    call + 5,
                    instruction.subrange(1, 5),
                    "relative call target exceeded the agent address width"@,
                )
            },
        },
    )
}

/// Finds the function that a relative call calls.
fn resolve_relative_call<B: MutationBackend>(
    probe: &mut Probe<'_, B>,
    sessions: &mut ProcessSessionRegistry<B::Handle>,
    call_address: usize,
) -> (answer: Result<usize, FeatureHookApiError>)
    requires
        old(sessions).wf(),
        old(probe).sound(old(sessions)@),
    ensures
        final(sessions).wf(),
        final(probe).sound(final(sessions)@),
        old(probe).goes_on(final(probe)),
        forall|log: Log<B::Handle, B::ThreadHandle>| #[trigger]
            extends(final(probe).log(), log) ==> gives_at(
                answer,
                final(probe).log().len() as int,
                relative_call_of(log, old(probe).log().len() as int, call_address),
            ),
{
    let ghost start = probe.log();
    proof {
        reveal(relative_call_of);
        lemma_same(start);
    }
    let instruction = probe.fetch(sessions, call_address, 5);
    let ghost a = probe.log();
    proof {
        lemma_next(start, start, a);
    }
    let instruction = instruction?;
    if instruction.len() == 0 || instruction[0] != 0xe8 {
        let place = format_address(call_address);
        return Err(
            FeatureHookApiError::request(
                RpcErrorCode::MemoryRequiredMatchNotFound,
                join2("expected a relative call at ", place.as_str()),
            ),
        );
    }
    if instruction.len() != 5 {
        return Err(odd_read());
    }
    match call_address.checked_add(5) {
        None => Err(
            FeatureHookApiError::request(
                RpcErrorCode::MemoryInvalidAddress,
                "relative call continuation overflowed the agent address width".to_owned(),
            ),
        ),
        Some(next) => add_displacement(
            next,
            &instruction,
            1,
            "relative call target exceeded the agent address width",
        ),
    }
}

/// The letters that the function for buddy requests names.
pub open spec fn buddy_message() -> Seq<u8> {
    seq![
        77u8, 83, 71, 95, 66, 85, 68, 68, 89, 82, 69, 81, 85, 69, 83, 84, 65, 68, 68,
    ]
}

fn buddy_letters() -> (bytes: Vec<u8>)
    ensures
        bytes@ == buddy_message(),
{
    let bytes: Vec<u8> = vec![
        77u8, 83, 71, 95, 66, 85, 68, 68, 89, 82, 69, 81, 85, 69, 83, 84, 65, 68, 68,
    ];
    proof {
        assert(bytes@ =~= buddy_message());
    }
    bytes
}

/// Whether a candidate loads the letters of a buddy request.
#[verifier::opaque]
pub open spec fn names_buddy_of<H, T>(log: Log<H, T>, k: int, candidate: usize) -> (
    int,
    Result<bool, Failure>,
) {
    if candidate + 0x77 > usize::MAX {
        (k, Err(overflowed()))
    } else {
        match fetched(log, k, (candidate + 0x70) as usize, 3) {
            Err(fault) => (k + 1, Err(fault)),
            Ok(code) => if code != seq![0x0fu8, 0x10, 0x05] {
                (k + 1, Ok(false))
            } else {
                match bytes_of(log, k + 1, (candidate + 0x73) as usize, 4) {
                    (k, Err(fault)) => (k, Err(fault)),
                    (k, Ok(displacement)) => match relative_to(
                        candidate + 0x77,
                        displacement,
                        "buddy function string address exceeded the agent address width"@,
                    ) {
                        Err(fault) => (k, Err(fault)),
                        Ok(text) => match fetched(log, k, text, 19) {
                            Err(fault) => (k + 1, Err(fault)),
                            Ok(letters) => (k + 1, Ok(letters == buddy_message())),
                        },
                    },
                }
            },
        }
    }
}

/// The one candidate, from the given one on, that loads the letters of a buddy
/// request.
pub open spec fn buddy_chosen_of<H, T>(
    log: Log<H, T>,
    k: int,
    candidates: Seq<usize>,
    i: int,
    selected: Option<usize>,
) -> (int, Result<Option<usize>, Failure>)
    decreases candidates.len() - i,
{
    if i >= candidates.len() {
        (k, Ok(selected))
    } else {
        match names_buddy_of(log, k, candidates[i]) {
            (k, Err(fault)) => (k, Err(fault)),
            (k, Ok(false)) => buddy_chosen_of(log, k, candidates, i + 1, selected),
            (k, Ok(true)) => if selected is Some {
                (
                    k,
                    Err(
                        failure(
                            RpcErrorCode::MemoryAmbiguousMatch,
                            "more than one buddy-add function passed string verification"@,
                        ),
                    ),
                )
            } else {
                buddy_chosen_of(log, k, candidates, i + 1, Some(candidates[i]))
            },
        }
    }
}

/// Where the function that adds a buddy is.
#[verifier::opaque]
pub open spec fn buddy_function_of<H, T>(log: Log<H, T>, k: int) -> (int, Result<usize, Failure>) {
    match found_all(
        log,
        k,
        "48 81 EC A0 00 00 00 48 8B 05 ?? ?? ?? ?? 48 33 C4 48 89 84 24 90 00 00 00 48 8B D9 48 89 54 24 20 BA 10 00 00 00 48 8D 4C 24 30"@,
        game_module(),
    ) {
        Err(fault) => (k + 1, Err(fault)),
        Ok(candidates) => match buddy_chosen_of(log, k + 1, candidates, 0, None) {
            (k, Err(fault)) => (k, Err(fault)),
            (k, Ok(None)) => (
                k,
                Err(
                    failure(
                        RpcErrorCode::MemoryRequiredMatchNotFound,
                        "buddy-add function could not be verified against MSG_BUDDYREQUESTADD"@,
                    ),
                ),
            ),
            (k, Ok(Some(at))) => if at < 2 {
                (
                    k,
                    Err(
                        failure(
                            RpcErrorCode::MemoryInvalidAddress,
                            "buddy hook function address underflowed"@,
                        ),
                    ),
                )
            } else {
                (k, Ok((at - 2) as usize))
            },
        },
    }
}

fn load_code() -> (bytes: Vec<u8>)
    ensures
        bytes@ == seq![0x0fu8, 0x10, 0x05],
{
    let bytes: Vec<u8> = vec![0x0fu8, 0x10, 0x05];
    proof {
        assert(bytes@ =~= seq![0x0fu8, 0x10, 0x05]);
    }
    bytes
}

fn names_buddy<B: MutationBackend>(
    probe: &mut Probe<'_, B>,
    sessions: &mut ProcessSessionRegistry<B::Handle>,
    candidate: usize,
) -> (answer: Result<bool, FeatureHookApiError>)
    requires
        old(sessions).wf(),
        old(probe).sound(old(sessions)@),
    ensures
        final(sessions).wf(),
        final(probe).sound(final(sessions)@),
        old(probe).goes_on(final(probe)),
        forall|log: Log<B::Handle, B::ThreadHandle>| #[trigger]
            extends(final(probe).log(), log) ==> gives_at(
                answer,
                final(probe).log().len() as int,
                names_buddy_of(log, old(probe).log().len() as int, candidate),
            ),
{
    let ghost start = probe.log();
    proof {
        reveal(names_buddy_of);
        lemma_same(start);
    }
    let next: usize = offset(candidate, 0x77)?;
    let code = probe.fetch(sessions, candidate + 0x70, 3);
    let ghost a = probe.log();
    proof {
        lemma_next(start, start, a);
    }
    let code = code?;
    if !same_bytes(code.as_slice(), load_code().as_slice()) {
        return Ok(false);
    }
    let displacement = read_exactly(probe, sessions, candidate + 0x73, 4);
    let ghost b = probe.log();
    proof {
        lemma_next(start, a, b);
    }
    let displacement = displacement?;
    proof {
        assert(displacement@.subrange(0, 4) =~= displacement@);
    }
    let text: usize = add_displacement(
        next,
        &displacement,
        0,
        "buddy function string address exceeded the agent address width",
    )?;
    let letters = probe.fetch(sessions, text, 19);
    let ghost c = probe.log();
    proof {
        lemma_next(start, b, c);
    }
    let letters = letters?;
    Ok(same_bytes(letters.as_slice(), buddy_letters().as_slice()))
}

fn choose_buddy<B: MutationBackend>(
    probe: &mut Probe<'_, B>,
    sessions: &mut ProcessSessionRegistry<B::Handle>,
    candidates: &Vec<usize>,
    i: usize,
    selected: Option<usize>,
) -> (answer: Result<Option<usize>, FeatureHookApiError>)
    requires
        old(sessions).wf(),
        old(probe).sound(old(sessions)@),
        i <= candidates@.len(),
    ensures
        final(sessions).wf(),
        final(probe).sound(final(sessions)@),
        old(probe).goes_on(final(probe)),
        forall|log: Log<B::Handle, B::ThreadHandle>| #[trigger]
            extends(final(probe).log(), log) ==> gives_at(
                answer,
                final(probe).log().len() as int,
                buddy_chosen_of(log, old(probe).log().len() as int, candidates@, i as int, selected),
            ),
    decreases candidates@.len() - i,
{
    let ghost start = probe.log();
    proof {
        lemma_same(start);
    }
    if i >= candidates.len() {
        return Ok(selected);
    }
    let fits = names_buddy(probe, sessions, candidates[i]);
    let ghost a = probe.log();
    proof {
        lemma_next(start, start, a);
    }
    let fits = fits?;
    let chosen = if fits {
        if selected.is_some() {
            return Err(
                FeatureHookApiError::request(
                    RpcErrorCode::MemoryAmbiguousMatch,
                    "more than one buddy-add function passed string verification".to_owned(),
                ),
            );
        }
        Some(candidates[i])
    } else {
        selected
    };
    let rest = choose_buddy(probe, sessions, candidates, i + 1, chosen);
    let ghost b = probe.log();
    proof {
        lemma_next(start, a, b);
    }
    rest
}

/// Finds the function that adds a buddy.
fn resolve_buddy_function<B: MutationBackend>(
    probe: &mut Probe<'_, B>,
    sessions: &mut ProcessSessionRegistry<B::Handle>,
) -> (answer: Result<usize, FeatureHookApiError>)
    requires
        old(sessions).wf(),
        old(probe).sound(old(sessions)@),
    ensures
        final(sessions).wf(),
        final(probe).sound(final(sessions)@),
        old(probe).goes_on(final(probe)),
        forall|log: Log<B::Handle, B::ThreadHandle>| #[trigger]
            extends(final(probe).log(), log) ==> gives_at(
                answer,
                final(probe).log().len() as int,
                buddy_function_of(log, old(probe).log().len() as int),
            ),
{
    let ghost start = probe.log();
    proof {
        reveal(buddy_function_of);
        lemma_same(start);
    }
    let candidates = probe.find_all(
        sessions,
        "48 81 EC A0 00 00 00 48 8B 05 ?? ?? ?? ?? 48 33 C4 48 89 84 24 90 00 00 00 48 8B D9 48 89 54 24 20 BA 10 00 00 00 48 8D 4C 24 30",
        &module_scope(),
    );
    let ghost a = probe.log();
    proof {
        lemma_next(start, start, a);
    }
    let candidates = candidates?;
    let chosen = choose_buddy(probe, sessions, &candidates, 0, None);
    let ghost b = probe.log();
    proof {
        lemma_next(start, a, b);
    }
    let base: usize = match chosen? {
        Some(base) => base,
        None => {
            return Err(
                FeatureHookApiError::request(
                    RpcErrorCode::MemoryRequiredMatchNotFound,
                    "buddy-add function could not be verified against MSG_BUDDYREQUESTADD".to_owned(),
                ),
            );
        },
    };
    match base.checked_sub(2) {
        Some(at) => Ok(at),
        None => Err(
            FeatureHookApiError::request(
                RpcErrorCode::MemoryInvalidAddress,
                "buddy hook function address underflowed".to_owned(),
            ),
        ),
    }
}

/// The place that was found for one of several signatures.
pub open spec fn site(found: Seq<Option<usize>>, i: int) -> Result<usize, Failure> {
    if i < found.len() && found[i] is Some {
        Ok(found[i]->Some_0)
    } else {
        Err(
            failure(
                RpcErrorCode::MemoryRequiredMatchNotFound,
                "required feature-hook signature at index "@ + dec_text(i as nat)
                    + " was not found"@,
            ),
        )
    }
}

fn take_site(found: &Vec<Option<usize>>, i: usize) -> (answer: Result<usize, FeatureHookApiError>)
    ensures
        gives(answer, site(found@, i as int)),
{
    if i < found.len() {
        if let Some(address) = found[i] {
            return Ok(address);
        }
    }
    let index = format_decimal(i as u64);
    Err(
        FeatureHookApiError::request(
            RpcErrorCode::MemoryRequiredMatchNotFound,
            join3(
                "required feature-hook signature at index ",
                index.as_str(),
                " was not found",
            ),
        ),
    )
}

/// The signatures of a movement hook's sites.
#[verifier::opaque]
pub open spec fn movement_signatures() -> Seq<Seq<char>> {
    seq![
        "48 89 5C 24 08 57 48 83 EC 20 48 8B 99 B8 01 00 00 48 85 DB 74 2F"@,
        "8B 5F 70 F3"@,
        "74 24 F3 0F 10 44 24 58 F3 0F 11 44 24 78 48 8B 06"@,
    ]
}

/// Where a movement hook goes, where the movement state is told apart, and where
/// collisions are.
#[verifier::opaque]
pub open spec fn movement_sites_of<H, T>(log: Log<H, T>, k: int) -> (
    int,
    Result<(usize, usize, usize), Failure>,
) {
    (
        k + 1,
        match found_each(log, k, movement_signatures(), game_module()) {
            Err(fault) => Err(fault),
            Ok(list) => match (site(list, 0), site(list, 1), site(list, 2)) {
                (Ok(target), Ok(state), Ok(collision)) => Ok((target, state, collision)),
                (Err(fault), _, _) => Err(fault),
                (_, Err(fault), _) => Err(fault),
                (_, _, Err(fault)) => Err(fault),
            },
        },
    )
}

fn find_movement_sites<B: MutationBackend>(
    probe: &mut Probe<'_, B>,
    sessions: &mut ProcessSessionRegistry<B::Handle>,
) -> (answer: Result<(usize, usize, usize), FeatureHookApiError>)
    requires
        old(sessions).wf(),
        old(probe).sound(old(sessions)@),
    ensures
        final(sessions).wf(),
        final(probe).sound(final(sessions)@),
        old(probe).goes_on(final(probe)),
        forall|log: Log<B::Handle, B::ThreadHandle>| #[trigger]
            extends(final(probe).log(), log) ==> gives_at(
                answer,
                final(probe).log().len() as int,
                movement_sites_of(log, old(probe).log().len() as int),
            ),
{
    let ghost start = probe.log();
    proof {
        reveal(movement_sites_of);
        lemma_same(start);
    }
    let wanted: [&str; 3] = [
        "48 89 5C 24 08 57 48 83 EC 20 48 8B 99 B8 01 00 00 48 85 DB 74 2F",
        "8B 5F 70 F3",
        "74 24 F3 0F 10 44 24 58 F3 0F 11 44 24 78 48 8B 06",
    ];
    proof {
        reveal(movement_signatures);
        assert(contents(wanted@) =~= movement_signatures());
    }
    let list = probe.find_each(sessions, &wanted, &module_scope());
    let ghost a = probe.log();
    proof {
        lemma_next(start, start, a);
    }
    let list = list?;
    let target: usize = take_site(&list, 0)?;
    let state: usize = take_site(&list, 1)?;
    let collision: usize = take_site(&list, 2)?;
    Ok((target, state, collision))
}

/// How the movement hook is put in place.
pub open spec fn movement_plan<H, T>(log: Log<H, T>, k: int) -> (int, Result<Plan, Failure>) {
    match movement_sites_of(log, k) {
        (k, Err(fault)) => (k, Err(fault)),
        (k, Ok((target, state, collision))) => if state + 24 > usize::MAX {
            (k, Err(overflowed()))
        } else {
            let first = (state + 15) as usize;
            let second = (state + 24) as usize;
            match originals_of(log, k, first, second) {
                (k, Err(fault)) => (k, Err(fault)),
                (k, Ok(originals)) => match patch_of(log, k, collision, 2, seq![0x90u8, 0x90u8]) {
                    (k, Err(fault)) => (k, Err(fault)),
                    (k, Ok(one)) => match signature_of(log, k, target, 32) {
                        (k, Err(fault)) => (k, Err(fault)),
                        (k, Ok(signature)) => (
                            k,
                            Ok(
                                Plan {
                                    signature,
                                    target,
                                    overwrite: 6,
                                    kind: movement_parts(first, second, originals),
                                    patches: seq![
                                        one,
                                        action_patch(first, originals.0),
                                        action_patch(second, originals.1),
                                    ],
                                    actions: Some((1usize, 2usize)),
                                    replay: true,
                                },
                            ),
                        ),
                    },
                },
            }
        },
    }
}

fn movement_pieces(first: usize, second: usize, originals: (Vec<u8>, Vec<u8>), one: HookPatch) -> (parts: (
    PayloadKind,
    Vec<HookPatch>,
))
    requires
        originals.0@.len() == 8,
        originals.1@.len() == 8,
    ensures
        kind_of(parts.0) == movement_parts(first, second, (originals.0@, originals.1@)),
        patches(parts.1@) == seq![
            one@,
            action_patch(first, originals.0@),
            action_patch(second, originals.1@),
        ],
{
    let kind = PayloadKind::Movement {
        first_je: first,
        second_je: second,
        first_original: array8(&originals.0),
        second_original: array8(&originals.1),
    };
    let forward = make_action_patch(first, &originals.0);
    let backward = make_action_patch(second, &originals.1);
    (kind, list_of(one, forward, backward))
}

/// Finds how the movement hook is put in place.
fn movement_template<B: MutationBackend>(
    probe: &mut Probe<'_, B>,
    sessions: &mut ProcessSessionRegistry<B::Handle>,
) -> (answer: Result<Template, FeatureHookApiError>)
    requires
        old(sessions).wf(),
        old(probe).sound(old(sessions)@),
    ensures
        final(sessions).wf(),
        final(probe).sound(final(sessions)@),
        old(probe).goes_on(final(probe)),
        forall|log: Log<B::Handle, B::ThreadHandle>| #[trigger]
            extends(final(probe).log(), log) ==> template_at(
                answer,
                final(probe).log().len() as int,
                movement_plan(log, old(probe).log().len() as int),
            ),
{
    let ghost start = probe.log();
    proof {
        lemma_same(start);
    }
    let sites = find_movement_sites(probe, sessions);
    let ghost a = probe.log();
    proof {
        lemma_next(start, start, a);
    }
    let (target, state, collision) = sites?;
    let second: usize = offset(state, 24)?;
    let first: usize = state + 15;
    let originals = read_originals(probe, sessions, first, second);
    let ghost b = probe.log();
    proof {
        lemma_next(start, a, b);
    }
    let originals = originals?;
    let one = patch(probe, sessions, collision, 2, two_nops());
    let ghost c = probe.log();
    proof {
        lemma_next(start, b, c);
    }
    let one = one?;
    let signature = exact_signature(probe, sessions, target, 32);
    let ghost d = probe.log();
    proof {
        lemma_next(start, c, d);
    }
    let signature = signature?;
    let (kind, list) = movement_pieces(first, second, originals, one);
    Ok(make_template(signature, target, 6, kind, list, Some((1, 2)), true))
}

/// An export of a module of the target, resolved at a place of the log.
#[verifier::opaque]
pub open spec fn remote_export_of<H, T>(
    log: Log<H, T>,
    k: int,
    module: Seq<char>,
    symbol: Seq<char>,
    depth: int,
) -> (int, Result<usize, Failure>) {
    match listed(log, k) {
        Err(fault) => (k + 1, Err(fault)),
        Ok(modules) => export_address(
            log,
            k + 1,
            modules,
            module,
            Lookup::Named { name: symbol },
            depth,
        ),
    }
}

/// Finds an export of a module of the target.
fn resolve_remote_export<B: MutationBackend>(
    probe: &mut Probe<'_, B>,
    sessions: &mut ProcessSessionRegistry<B::Handle>,
    module: &str,
    symbol: &str,
    depth: usize,
) -> (answer: Result<usize, FeatureHookApiError>)
    requires
        old(sessions).wf(),
        old(probe).sound(old(sessions)@),
    ensures
        final(sessions).wf(),
        final(probe).sound(final(sessions)@),
        old(probe).goes_on(final(probe)),
        forall|log: Log<B::Handle, B::ThreadHandle>| #[trigger]
            extends(final(probe).log(), log) ==> gives_at(
                answer,
                final(probe).log().len() as int,
                remote_export_of(log, old(probe).log().len() as int, module@, symbol@, depth as int),
            ),
{
    let ghost start = probe.log();
    proof {
        reveal(remote_export_of);
        lemma_same(start);
    }
    let modules = probe.modules(sessions);
    let ghost a = probe.log();
    proof {
        lemma_next(start, start, a);
    }
    let modules = modules?;
    let address = follow_export(
        probe,
        sessions,
        &modules,
        module,
        ExportLookup::Name(symbol.to_owned()),
        depth,
    );
    let ghost b = probe.log();
    proof {
        lemma_next(start, a, b);
    }
    address
}

/// The places of a mouse hook: the two functions for the cursor and the two flags.
#[verifier::opaque]
pub open spec fn mouse_places_of<H, T>(log: Log<H, T>, k: int) -> (
    int,
    Result<(usize, usize, usize, usize), Failure>,
) {
    match remote_export_of(log, k, "user32.dll"@, "GetCursorPos"@, 0) {
        (k, Err(fault)) => (k, Err(fault)),
        (k, Ok(get)) => match remote_export_of(log, k, "user32.dll"@, "SetCursorPos"@, 0) {
            (k, Err(fault)) => (k, Err(fault)),
            (k, Ok(set)) => match place_of(log, k, "00 FF 50 18 66 C7"@, game_module()) {
                (k, Err(fault)) => (k, Err(fault)),
                (k, Ok(one)) => match place_of(
                    log,
                    k,
                    "C6 86 ?? ?? ?? 00 00 33 FF 89"@,
                    game_module(),
                ) {
                    (k, Err(fault)) => (k, Err(fault)),
                    (k, Ok(two)) => match behind(two, 6) {
                        Err(fault) => (k, Err(fault)),
                        Ok(two) => (k, Ok((get, set, one, two))),
                    },
                },
            },
        },
    }
}

fn find_mouse_places<B: MutationBackend>(
    probe: &mut Probe<'_, B>,
    sessions: &mut ProcessSessionRegistry<B::Handle>,
) -> (answer: Result<(usize, usize, usize, usize), FeatureHookApiError>)
    requires
        old(sessions).wf(),
        old(probe).sound(old(sessions)@),
    ensures
        final(sessions).wf(),
        final(probe).sound(final(sessions)@),
        old(probe).goes_on(final(probe)),
        forall|log: Log<B::Handle, B::ThreadHandle>| #[trigger]
            extends(final(probe).log(), log) ==> gives_at(
                answer,
                final(probe).log().len() as int,
                mouse_places_of(log, old(probe).log().len() as int),
            ),
{
    let ghost start = probe.log();
    proof {
        reveal(mouse_places_of);
        lemma_same(start);
    }
    let get = resolve_remote_export(probe, sessions, "user32.dll", "GetCursorPos", 0);
    let ghost a = probe.log();
    proof {
        lemma_next(start, start, a);
    }
    let get: usize = get?;
    let set = resolve_remote_export(probe, sessions, "user32.dll", "SetCursorPos", 0);
    let ghost b = probe.log();
    proof {
        lemma_next(start, a, b);
    }
    let set: usize = set?;
    let one = resolve_unique_pattern(probe, sessions, "00 FF 50 18 66 C7", &module_scope());
    let ghost c = probe.log();
    proof {
        lemma_next(start, b, c);
    }
    let one: usize = one?;
    let two = resolve_unique_pattern(
        probe,
        sessions,
        "C6 86 ?? ?? ?? 00 00 33 FF 89",
        &module_scope(),
    );
    let ghost d = probe.log();
    proof {
        lemma_next(start, c, d);
    }
    let two: usize = offset(two?, 6)?;
    Ok((get, set, one, two))
}

/// How the mouse hook is put in place.
pub open spec fn mouse_plan<H, T>(log: Log<H, T>, k: int) -> (int, Result<Plan, Failure>) {
    match mouse_places_of(log, k) {
        (k, Err(fault)) => (k, Err(fault)),
        (k, Ok((get, set, one, two))) => match signature_of(log, k, get, 16) {
            (k, Err(fault)) => (k, Err(fault)),
            (k, Ok(signature)) => match mouse_patches_of(log, k, set, one, two) {
                (k, Err(fault)) => (k, Err(fault)),
                (k, Ok(list)) => (
                    k,
                    Ok(
                        Plan {
                            signature,
                            target: get,
                            overwrite: 5,
                            kind: Kind::Mouse,
                            patches: list,
                            actions: None,
                            replay: false,
                        },
                    ),
                ),
            },
        },
    }
}

/// Finds how the mouse hook is put in place.
fn mouse_template<B: MutationBackend>(
    probe: &mut Probe<'_, B>,
    sessions: &mut ProcessSessionRegistry<B::Handle>,
) -> (answer: Result<Template, FeatureHookApiError>)
    requires
        old(sessions).wf(),
        old(probe).sound(old(sessions)@),
    ensures
        final(sessions).wf(),
        final(probe).sound(final(sessions)@),
        old(probe).goes_on(final(probe)),
        forall|log: Log<B::Handle, B::ThreadHandle>| #[trigger]
            extends(final(probe).log(), log) ==> template_at(
                answer,
                final(probe).log().len() as int,
                mouse_plan(log, old(probe).log().len() as int),
            ),
{
    let ghost start = probe.log();
    proof {
        lemma_same(start);
    }
    let places = find_mouse_places(probe, sessions);
    let ghost a = probe.log();
    proof {
        lemma_next(start, start, a);
    }
    let (get, set, one, two) = places?;
    let signature = exact_signature(probe, sessions, get, 16);
    let ghost b = probe.log();
    proof {
        lemma_next(start, a, b);
    }
    let signature = signature?;
    let list = read_mouse_patches(probe, sessions, set, one, two);
    let ghost c = probe.log();
    proof {
        lemma_next(start, b, c);
    }
    let list = list?;
    Ok(make_template(signature, get, 5, PayloadKind::Mouse, list, None, false))
}

/// How a hook without patches is put in place at a known target.
pub open spec fn resolved_plan<H, T>(
    log: Log<H, T>,
    k: int,
    target: usize,
    length: usize,
    overwrite: usize,
    kind: Kind,
) -> (int, Result<Plan, Failure>) {
    match signature_of(log, k, target, length) {
        (k, Err(fault)) => (k, Err(fault)),
        (k, Ok(signature)) => (
            k,
            Ok(
                Plan {
                    signature,
                    target,
                    overwrite,
                    kind,
                    patches: Seq::empty(),
                    actions: None,
                    replay: true,
                },
            ),
        ),
    }
}

fn resolved_template<B: MutationBackend>(
    probe: &mut Probe<'_, B>,
    sessions: &mut ProcessSessionRegistry<B::Handle>,
    target: usize,
    length: usize,
    overwrite_size: usize,
    kind: PayloadKind,
) -> (answer: Result<Template, FeatureHookApiError>)
    requires
        old(sessions).wf(),
        old(probe).sound(old(sessions)@),
    ensures
        final(sessions).wf(),
        final(probe).sound(final(sessions)@),
        old(probe).goes_on(final(probe)),
        forall|log: Log<B::Handle, B::ThreadHandle>| #[trigger]
            extends(final(probe).log(), log) ==> template_at(
                answer,
                final(probe).log().len() as int,
                resolved_plan(
                    log,
                    old(probe).log().len() as int,
                    target,
                    length,
                    overwrite_size,
                    kind_of(kind),
                ),
            ),
{
    let ghost start = probe.log();
    proof {
        lemma_same(start);
    }
    let signature = exact_signature(probe, sessions, target, length);
    let ghost a = probe.log();
    proof {
        lemma_next(start, start, a);
    }
    let signature = signature?;
    Ok(make_template(signature, target, overwrite_size, kind, no_patches(), None, true))
}

/// The functions that the hook for sending calls, and where it goes.
#[verifier::opaque]
pub open spec fn send_places_of<H, T>(log: Log<H, T>, k: int) -> (
    int,
    Result<(usize, usize, usize, usize), Failure>,
) {
    match send_function_of(log, k) {
        (k, Err(fault)) => (k, Err(fault)),
        (k, Ok(send)) => match buddy_function_of(log, k) {
            (k, Err(fault)) => (k, Err(fault)),
            (k, Ok(buddy)) => match behind(send, 0xf4) {
                Err(fault) => (k, Err(fault)),
                Ok(call) => match relative_call_of(log, k, call) {
                    (k, Err(fault)) => (k, Err(fault)),
                    (k, Ok(operator_new)) => match place_of(
                        log,
                        k,
                        "38 9F ?? ?? ?? ?? 74 ?? E8 ?? ?? ?? ?? 83 F8 64 0F 8F"@,
                        game_module(),
                    ) {
                        (k, Err(fault)) => (k, Err(fault)),
                        (k, Ok(target)) => (k, Ok((send, buddy, operator_new, target))),
                    },
                },
            },
        },
    }
}

fn find_send_places<B: MutationBackend>(
    probe: &mut Probe<'_, B>,
    sessions: &mut ProcessSessionRegistry<B::Handle>,
) -> (answer: Result<(usize, usize, usize, usize), FeatureHookApiError>)
    requires
        old(sessions).wf(),
        old(probe).sound(old(sessions)@),
    ensures
        final(sessions).wf(),
        final(probe).sound(final(sessions)@),
        old(probe).goes_on(final(probe)),
        forall|log: Log<B::Handle, B::ThreadHandle>| #[trigger]
            extends(final(probe).log(), log) ==> gives_at(
                answer,
                final(probe).log().len() as int,
                send_places_of(log, old(probe).log().len() as int),
            ),
{
    let ghost start = probe.log();
    proof {
        reveal(send_places_of);
        lemma_same(start);
    }
    let send = resolve_send_function(probe, sessions);
    let ghost a = probe.log();
    proof {
        lemma_next(start, start, a);
    }
    let send: usize = send?;
    let buddy = resolve_buddy_function(probe, sessions);
    let ghost b = probe.log();
    proof {
        lemma_next(start, a, b);
    }
    let buddy: usize = buddy?;
    let call: usize = offset(send, 0xf4)?;
    let operator_new = resolve_relative_call(probe, sessions, call);
    let ghost c = probe.log();
    proof {
        lemma_next(start, b, c);
    }
    let operator_new: usize = operator_new?;
    let target = resolve_unique_pattern(
        probe,
        sessions,
        "38 9F ?? ?? ?? ?? 74 ?? E8 ?? ?? ?? ?? 83 F8 64 0F 8F",
        &module_scope(),
    );
    let ghost d = probe.log();
    proof {
        lemma_next(start, c, d);
    }
    let target: usize = target?;
    Ok((send, buddy, operator_new, target))
}

/// How a feature hook is put in place.
pub open spec fn plan_of<H, T>(log: Log<H, T>, k: int, hook: FeatureHook, fixture: bool) -> (
    int,
    Result<Plan, Failure>,
) {
    if fixture {
        fixture_plan(log, k, hook)
    } else {
        match hook {
            FeatureHook::MovementTeleport => movement_plan(log, k),
            FeatureHook::MouselessCursor => mouse_plan(log, k),
            FeatureHook::Chat => match chat_target_of(log, k) {
                (k, Err(fault)) => (k, Err(fault)),
                (k, Ok(target)) => resolved_plan(log, k, target, 32, 7, Kind::Chat),
            },
            FeatureHook::ChatSend => match send_places_of(log, k) {
                (k, Err(fault)) => (k, Err(fault)),
                (k, Ok((send, buddy, operator_new, target))) => resolved_plan(
                    log,
                    k,
                    target,
                    18,
                    6,
                    Kind::Send { send, buddy, operator_new },
                ),
            },
            FeatureHook::DanceGameMoves => match place_of(
                log,
                k,
                "48 8B F8 48 39 70 10"@,
                game_module(),
            ) {
                (k, Err(fault)) => (k, Err(fault)),
                (k, Ok(target)) => resolved_plan(log, k, target, 32, 7, Kind::Dance),
            },
        }
    }
}

fn chat_template<B: MutationBackend>(
    probe: &mut Probe<'_, B>,
    sessions: &mut ProcessSessionRegistry<B::Handle>,
) -> (answer: Result<Template, FeatureHookApiError>)
    requires
        old(sessions).wf(),
        old(probe).sound(old(sessions)@),
    ensures
        final(sessions).wf(),
        final(probe).sound(final(sessions)@),
        old(probe).goes_on(final(probe)),
        forall|log: Log<B::Handle, B::ThreadHandle>| #[trigger]
            extends(final(probe).log(), log) ==> template_at(
                answer,
                final(probe).log().len() as int,
                plan_of(log, old(probe).log().len() as int, FeatureHook::Chat, false),
            ),
{
    let ghost start = probe.log();
    proof {
        lemma_same(start);
    }
    let target = resolve_chat_target(probe, sessions);
    let ghost a = probe.log();
    proof {
        lemma_next(start, start, a);
    }
    let target: usize = target?;
    let made = resolved_template(probe, sessions, target, 32, 7, PayloadKind::Chat);
    let ghost b = probe.log();
    proof {
        lemma_next(start, a, b);
    }
    made
}

fn send_template<B: MutationBackend>(
    probe: &mut Probe<'_, B>,
    sessions: &mut ProcessSessionRegistry<B::Handle>,
) -> (answer: Result<Template, FeatureHookApiError>)
    requires
        old(sessions).wf(),
        old(probe).sound(old(sessions)@),
    ensures
        final(sessions).wf(),
        final(probe).sound(final(sessions)@),
        old(probe).goes_on(final(probe)),
        forall|log: Log<B::Handle, B::ThreadHandle>| #[trigger]
            extends(final(probe).log(), log) ==> template_at(
                answer,
                final(probe).log().len() as int,
                plan_of(log, old(probe).log().len() as int, FeatureHook::ChatSend, false),
            ),
{
    let ghost start = probe.log();
    proof {
        lemma_same(start);
    }
    let places = find_send_places(probe, sessions);
    let ghost a = probe.log();
    proof {
        lemma_next(start, start, a);
    }
    let (send, buddy, operator_new, target) = places?;
    let kind = PayloadKind::ChatSend { send, buddy, operator_new };
    let made = resolved_template(probe, sessions, target, 18, 6, kind);
    let ghost b = probe.log();
    proof {
        lemma_next(start, a, b);
    }
    made
}

fn dance_template<B: MutationBackend>(
    probe: &mut Probe<'_, B>,
    sessions: &mut ProcessSessionRegistry<B::Handle>,
) -> (answer: Result<Template, FeatureHookApiError>)
    requires
        old(sessions).wf(),
        old(probe).sound(old(sessions)@),
    ensures
        final(sessions).wf(),
        final(probe).sound(final(sessions)@),
        old(probe).goes_on(final(probe)),
        forall|log: Log<B::Handle, B::ThreadHandle>| #[trigger]
            extends(final(probe).log(), log) ==> template_at(
                answer,
                final(probe).log().len() as int,
                plan_of(log, old(probe).log().len() as int, FeatureHook::DanceGameMoves, false),
            ),
{
    let ghost start = probe.log();
    proof {
        lemma_same(start);
    }
    let target = resolve_unique_pattern(probe, sessions, "48 8B F8 48 39 70 10", &module_scope());
    let ghost a = probe.log();
    proof {
        lemma_next(start, start, a);
    }
    let target: usize = target?;
    let made = resolved_template(probe, sessions, target, 32, 7, PayloadKind::Dance);
    let ghost b = probe.log();
    proof {
        lemma_next(start, a, b);
    }
    made
}

pub(crate) fn find_template<B: MutationBackend>(
    probe: &mut Probe<'_, B>,
    sessions: &mut ProcessSessionRegistry<B::Handle>,
    hook: FeatureHook,
    fixture: bool,
) -> (answer: Result<Template, FeatureHookApiError>)
    requires
        old(sessions).wf(),
        old(probe).sound(old(sessions)@),
    ensures
        final(sessions).wf(),
        final(probe).sound(final(sessions)@),
        old(probe).goes_on(final(probe)),
        forall|log: Log<B::Handle, B::ThreadHandle>| #[trigger]
            extends(final(probe).log(), log) ==> template_at(
                answer,
                final(probe).log().len() as int,
                plan_of(log, old(probe).log().len() as int, hook, fixture),
            ),
{
    let ghost start = probe.log();
    proof {
        lemma_same(start);
    }
    if fixture {
        return fixture_template(probe, sessions, hook);
    }
    match hook {
        FeatureHook::MovementTeleport => movement_template(probe, sessions),
        FeatureHook::MouselessCursor => mouse_template(probe, sessions),
        FeatureHook::Chat => chat_template(probe, sessions),
        FeatureHook::ChatSend => send_template(probe, sessions),
        FeatureHook::DanceGameMoves => dance_template(probe, sessions),
    }
}

/// Operations were made one after the other and led from one state of the sessions
/// to another.
pub open spec fn led<B: MutationBackend>(
    backend: &B,
    id: Seq<char>,
    before: Sessions<B::Handle>,
    start: World<B::Handle, B::ThreadHandle>,
    log: Log<B::Handle, B::ThreadHandle>,
    after: Sessions<B::Handle>,
) -> bool {
    &&& start.sessions == before
    &&& steps_made(backend, id, start, log)
    &&& world_at(start, log, log.len() as int) == (World { sessions: after, owned: start.owned })
}

/// Finds how a feature hook is put in place in the process of a session.
pub fn template_for_target<B: MutationBackend>(
    sessions: &mut ProcessSessionRegistry<B::Handle>,
    backend: &B,
    session_id: &ProcessSessionId,
    hook: FeatureHook,
    fixture: bool,
) -> (answer: Result<Template, FeatureHookApiError>)
    requires
        old(sessions).wf(),
    ensures
        final(sessions).wf(),
        old(sessions)@.leads_to(final(sessions)@),
        exists|
            start: World<B::Handle, B::ThreadHandle>,
            log: Log<B::Handle, B::ThreadHandle>,
        |
            {
                &&& #[trigger] led(
                    backend,
                    session_id.0@,
                    old(sessions)@,
                    start,
                    log,
                    final(sessions)@,
                )
                &&& template_at(answer, log.len() as int, plan_of(log, 0, hook, fixture))
            },
{
    let mut probe = Probe::new(sessions, backend, session_id);
    let answer = find_template(&mut probe, sessions, hook, fixture);
    proof {
        lemma_same(probe.log());
        assert(led(
            backend,
            session_id.0@,
            old(sessions)@,
            probe.start(),
            probe.log(),
            sessions@,
        ));
    }
    answer
}

/// Picks the one candidate that has all the markers, if there is one.
pub fn select_disambiguated_candidate<B: MutationBackend>(
    sessions: &mut ProcessSessionRegistry<B::Handle>,
    backend: &B,
    session_id: &ProcessSessionId,
    candidates: &Vec<usize>,
    list: &Vec<Marker>,
) -> (answer: Result<Option<usize>, FeatureHookApiError>)
    requires
        old(sessions).wf(),
    ensures
        final(sessions).wf(),
        old(sessions)@.leads_to(final(sessions)@),
        exists|
            start: World<B::Handle, B::ThreadHandle>,
            log: Log<B::Handle, B::ThreadHandle>,
        |
            {
                &&& #[trigger] led(
                    backend,
                    session_id.0@,
                    old(sessions)@,
                    start,
                    log,
                    final(sessions)@,
                )
                &&& gives_at(
                    answer,
                    log.len() as int,
                    chosen_of(log, 0, candidates@, markers(list@), 0, None),
                )
            },
{
    let mut probe = Probe::new(sessions, backend, session_id);
    let answer = choose_candidate(&mut probe, sessions, candidates, list, 0, None);
    proof {
        lemma_same(probe.log());
        assert(led(
            backend,
            session_id.0@,
            old(sessions)@,
            probe.start(),
            probe.log(),
            sessions@,
        ));
    }
    answer
}

}
