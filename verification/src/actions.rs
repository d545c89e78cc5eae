//! What the actions of the feature hooks write is what the code of the hooks reads.

use vstd::prelude::*;

use crate::codec::{
    le_bytes, lemma_le_bytes_len, lemma_le_value_bound, lemma_pow256, read_value_writes_back,
    signed32, wrap32,
};
use crate::core_hook::{base_place, on_fixture};
use crate::effects::gives;
use crate::exports::was_read;
use crate::feature_error::feature_address;
use crate::feature_hook::{
    actions_of, aimed_of, armed_of, asks, buddy_of, buffer_at, chat_structure, cursor_bytes, finite,
    fired_of, flag_of, helper_bytes, hook_for, hook_of, launched_of, lemma_unit_bytes_len,
    message_bytes, message_of, mouse_of, place_at, places_are_slots, poll_of, purged_of,
    sessions_at, slot_of, string_head, unit_bytes, units_of, utf16, Asked, Features, TeleportStage,
    Turn,
};
use crate::feature_template::Patch;
use crate::hook::Hooks;
use crate::machine::number;
use crate::payload::{
    lemma_layout, lists_slots, payload_len, slot_offset, slots_end, slots_len, ExportSlot,
};
use crate::probe::Log;
use crate::protocol::{CoreHook, FeatureHook, FeatureHookExport, FeatureTeleportRequest};
use crate::rpc::Failure;
use crate::steps::{Op, Reply};
use crate::text::address_text;

verus! {

/// A write that was made and answered.
pub open spec fn wrote<H, T>(log: Log<H, T>, k: int, address: int, bytes: Seq<u8>) -> bool {
    &&& 0 <= address
    &&& log[k].op == (Op::Write { address: address_text(address as nat), bytes })
    &&& log[k].reply is Done
}

/// An action finds a place of a feature hook where the payload of the hook has it.
pub proof fn actions_and_code_agree_on_places(
    features: Features,
    id: Seq<char>,
    export: FeatureHookExport,
    exports: Seq<ExportSlot>,
)
    requires
        features.dom().contains((id, hook_of(export))),
        ({
            let feature = features[(id, hook_of(export))];
            &&& hook_for(feature.kind) == hook_of(export)
            &&& feature.allocation + payload_len(feature.kind) <= usize::MAX
            &&& lists_slots(exports, feature.kind)
        }),
    ensures
        place_at(features, id, export) matches Some(at) && gives(
            exports,
            export,
            features[(id, hook_of(export))].allocation,
            at as int,
        ),
{
    let feature = features[(id, hook_of(export))];
    places_are_slots(export, feature.kind);
    lemma_layout(feature.kind);
    let i = slot_of(export);
    assert(exports[i].export == export);
}

/// The buffer for messages is behind the object for friend requests.
pub proof fn messages_stand_behind_the_exports(
    features: Features,
    id: Seq<char>,
    exports: Seq<ExportSlot>,
    object: int,
)
    requires
        features.dom().contains((id, FeatureHook::ChatSend)),
        ({
            let feature = features[(id, FeatureHook::ChatSend)];
            &&& feature.kind is ChatSend
            &&& feature.allocation + payload_len(feature.kind) <= usize::MAX
            &&& lists_slots(exports, feature.kind)
            &&& gives(exports, FeatureHookExport::BuddyObject, feature.allocation, object)
        }),
    ensures
        buffer_at(features, id) matches Some(at) && at == object + 0xe8,
{
    let kind = features[(id, FeatureHook::ChatSend)].kind;
    lemma_layout(kind);
    reveal_with_fuel(slots_len, 7);
    assert(slots_end(kind) == slot_offset(kind, 3) + 0xe8);
}

/// A helper for a teleport: the three coordinates, a flag, and the object to be moved.
pub open spec fn is_helper(bytes: Seq<u8>, position: Seq<u32>, object: usize) -> bool {
    &&& bytes.len() == 21
    &&& number(bytes, 0, 4) == position[0]
    &&& number(bytes, 4, 4) == position[1]
    &&& number(bytes, 8, 4) == position[2]
    &&& bytes[12] == 1
    &&& number(bytes, 13, 8) == object
}

proof fn lemma_number(bytes: Seq<u8>, i: int, size: nat, value: nat)
    requires
        0 <= i,
        i + size <= bytes.len(),
        number(bytes, i, size as int) == value,
    ensures
        bytes.subrange(i, i + size) == le_bytes(value, size),
{
    read_value_writes_back(bytes.subrange(i, i + size));
}

proof fn lemma_helper(bytes: Seq<u8>, position: Seq<u32>, object: usize)
    requires
        is_helper(bytes, position, object),
    ensures
        bytes == helper_bytes(position, object),
{
    lemma_number(bytes, 0, 4, position[0] as nat);
    lemma_number(bytes, 4, 4, position[1] as nat);
    lemma_number(bytes, 8, 4, position[2] as nat);
    lemma_number(bytes, 13, 8, object as nat);
    lemma_le_bytes_len(position[0] as nat, 4);
    lemma_le_bytes_len(position[1] as nat, 4);
    lemma_le_bytes_len(position[2] as nat, 4);
    lemma_le_bytes_len(object as nat, 8);
    assert(bytes =~= bytes.subrange(0, 4) + bytes.subrange(4, 8) + bytes.subrange(8, 12)
        + seq![1u8] + bytes.subrange(13, 21));
}

/// A teleport that is asked for writes the coordinates and the object into the helper of
/// the hook, with its flag set. Where its end is waited for, it is for that flag; else it
/// is done.
pub proof fn teleports_write_what_was_asked_for<H, T>(
    log: Log<H, T>,
    k: int,
    list: Seq<Patch>,
    first: int,
    second: int,
    helper: usize,
    asked: Asked,
    object: usize,
    now: u64,
    bytes: Seq<u8>,
)
    requires
        is_helper(bytes, asked.position, object),
        wrote(log, k, helper as int, bytes),
    ensures
        fired_of(log, k, list, first, second, helper, false, asked, object, now) == (
            k + 1,
            Ok::<Turn, Failure>(
                if asked.purge {
                    Turn::Wait {
                        stage: TeleportStage::Purge,
                        helper,
                        deadline: now + asked.purge_ms,
                    }
                } else {
                    Turn::Done { completed: true }
                },
            ),
        ),
{
    lemma_helper(bytes, asked.position, object);
}

/// Code that was written and made visible.
pub open spec fn changed_code<H, T>(log: Log<H, T>, k: int, address: int, bytes: Seq<u8>) -> bool {
    &&& wrote(log, k, address, bytes)
    &&& log[k + 1].op == (Op::Flush {
        address: address_text(address as nat),
        size: bytes.len() as usize,
    })
    &&& log[k + 1].reply is Done
}

/// A teleport of the object that the game uses now takes both jumps out, and then asks for
/// it with the position of the request.
pub proof fn teleports_take_out_both_jumps_first<H, T>(
    log: Log<H, T>,
    k: int,
    hooks: Hooks,
    features: Features,
    id: Seq<char>,
    helper: usize,
    request: FeatureTeleportRequest,
    now: u64,
    place: usize,
    object: usize,
    client: Seq<u8>,
    bytes: Seq<u8>,
    first: int,
    second: int,
)
    requires
        feature_address(request.object_address@) == Ok::<usize, Failure>(object),
        object != 0,
        forall|i: int|
            0 <= i < 3 ==> #[trigger] request.position@[i] % 0x8000_0000 < 0x7f80_0000,
        base_place(hooks, id, CoreHook::Client) == Ok::<usize, Failure>(place),
        was_read(log, k, place as int, client),
        client.len() == 8,
        number(client, 0, 8) == object,
        !on_fixture(sessions_at(log, k), id),
        actions_of(features, id) == Some((first, second)),
        ({
            let list = features[(id, FeatureHook::MovementTeleport)].patches;
            &&& changed_code(log, k + 1, list[first].address as int, list[first].replacement)
            &&& changed_code(log, k + 3, list[second].address as int, list[second].replacement)
        }),
        is_helper(bytes, request.position@, object),
        wrote(log, k + 5, helper as int, bytes),
    ensures
        launched_of(log, k, hooks, features, id, helper, asks(request), now) == (
            k + 6,
            Ok::<Turn, Failure>(
                if request.purge_after_timeout {
                    Turn::Wait {
                        stage: TeleportStage::Purge,
                        helper,
                        deadline: now + request.purge_timeout_ms,
                    }
                } else {
                    Turn::Done { completed: true }
                },
            ),
        ),
{
    let asked = asks(request);
    let list = features[(id, FeatureHook::MovementTeleport)].patches;
    infinite_numbers_have_the_largest_exponent(request.position@[0]);
    infinite_numbers_have_the_largest_exponent(request.position@[1]);
    infinite_numbers_have_the_largest_exponent(request.position@[2]);
    assert(client.subrange(0, 8) =~= client);
    assert(aimed_of(log, k, hooks, id, asked) == (k + 1, Ok::<usize, Failure>(object)));
    assert(armed_of(log, k + 1, list, first, second) == (k + 5, Ok::<(), Failure>(())));
    teleports_write_what_was_asked_for(
        log,
        k + 5,
        list,
        first,
        second,
        helper,
        asked,
        object,
        now,
        bytes,
    );
}

/// Both jumps are put back, the second one first.
pub open spec fn put_back<H, T>(log: Log<H, T>, k: int, one: Patch, two: Patch) -> bool {
    &&& changed_code(log, k, two.address as int, two.expected)
    &&& changed_code(log, k + 2, one.address as int, one.expected)
}

/// A teleport whose end is waited for ends when its flag is clear, and is given up at its
/// deadline, with its flag cleared. Either way both jumps are put back. Until the one or
/// the other it waits on.
pub proof fn teleports_put_both_jumps_back<H, T>(
    log: Log<H, T>,
    k: int,
    features: Features,
    id: Seq<char>,
    helper: usize,
    deadline: u64,
    now: u64,
    first: int,
    second: int,
    flag: u8,
)
    requires
        helper + 21 <= usize::MAX,
        actions_of(features, id) == Some((first, second)),
        was_read(log, k, helper + 12, seq![flag]),
    ensures
        ({
            let list = features[(id, FeatureHook::MovementTeleport)].patches;
            let outcome = purged_of(log, k, features, id, helper, deadline, now);
            &&& flag == 0 && put_back(log, k + 1, list[first], list[second]) ==> outcome == (
                k + 5,
                Ok::<Turn, Failure>(Turn::Done { completed: true }),
            )
            &&& flag != 0 && now < deadline ==> outcome == (
                k + 1,
                Ok::<Turn, Failure>(
                    Turn::Wait {
                        stage: TeleportStage::Purge,
                        helper,
                        deadline: deadline as int,
                    },
                ),
            )
            &&& flag != 0 && now >= deadline && wrote(log, k + 1, helper + 12, seq![0u8])
                && put_back(log, k + 2, list[first], list[second]) ==> outcome == (
                k + 6,
                Ok::<Turn, Failure>(Turn::Done { completed: false }),
            )
        }),
{
    assert(seq![flag][0] == flag);
    assert(flag_of(log, k, (helper + 12) as usize) == (k + 1, Ok::<bool, Failure>(flag != 0)));
}

/// An action is done when its trigger is clear. What was prepared for it is cleared then.
pub proof fn actions_end_with_their_trigger<H, T>(
    log: Log<H, T>,
    k: int,
    trigger: usize,
    structure: Option<usize>,
    expired: bool,
    flag: u8,
    zeros: Seq<u8>,
)
    requires
        was_read(log, k, trigger as int, seq![flag]),
        zeros.len() == 0x28,
        forall|i: int| 0 <= i < 0x28 ==> #[trigger] zeros[i] == 0,
    ensures
        flag != 0 && !expired ==> poll_of(log, k, trigger, structure, expired) == (
            k + 1,
            Ok::<Option<bool>, Failure>(None),
        ),
        flag != 0 && expired ==> poll_of(log, k, trigger, structure, expired).1 is Err,
        flag == 0 && structure is None ==> poll_of(log, k, trigger, structure, expired) == (
            k + 1,
            Ok::<Option<bool>, Failure>(Some(true)),
        ),
        structure matches Some(at) && flag == 0 && wrote(log, k + 1, at as int, zeros) ==> poll_of(
            log,
            k,
            trigger,
            structure,
            expired,
        ) == (k + 2, Ok::<Option<bool>, Failure>(Some(true))),
{
    assert(seq![flag][0] == flag);
    assert(zeros =~= Seq::new(0x28, |i: int| 0u8));
}

/// The bits of a number that is not finite have an exponent of all ones.
pub proof fn infinite_numbers_have_the_largest_exponent(bits: u32)
    ensures
        !finite(bits) <==> bits % 0x8000_0000 >= 0x7f80_0000,
{
}

/// A cursor position: two signed coordinates.
pub open spec fn is_cursor(bytes: Seq<u8>, x: i32, y: i32) -> bool {
    &&& bytes.len() == 8
    &&& signed32(number(bytes, 0, 4)) == x
    &&& signed32(number(bytes, 4, 4)) == y
}

/// Moving the cursor writes both coordinates where the mouse hook looks for them.
pub proof fn cursors_are_written_with_both_coordinates<H, T>(
    log: Log<H, T>,
    k: int,
    features: Features,
    id: Seq<char>,
    x: i32,
    y: i32,
    at: usize,
    bytes: Seq<u8>,
)
    requires
        is_cursor(bytes, x, y),
        place_at(features, id, FeatureHookExport::MousePosition) == Some(at),
        log[k].op is Status,
        log[k].reply is Done,
        wrote(log, k + 1, at as int, bytes),
    ensures
        mouse_of(log, k, features, id, x, y) == (k + 2, Ok::<(), Failure>(())),
{
    lemma_pow256();
    lemma_le_value_bound(bytes.subrange(0, 4));
    lemma_le_value_bound(bytes.subrange(4, 8));
    lemma_number(bytes, 0, 4, number(bytes, 0, 4));
    lemma_number(bytes, 4, 4, number(bytes, 4, 4));
    assert(number(bytes, 0, 4) == wrap32(x as int));
    assert(number(bytes, 4, 4) == wrap32(y as int));
    lemma_le_bytes_len(wrap32(x as int), 4);
    lemma_le_bytes_len(wrap32(y as int), 4);
    assert(bytes =~= cursor_bytes(x, y)) by {
        assert(bytes =~= bytes.subrange(0, 4) + bytes.subrange(4, 8));
    }
}

/// Bytes that hold code units from a place on, the low byte of each first.
pub open spec fn holds_units(bytes: Seq<u8>, units: Seq<u16>) -> bool {
    forall|i: int|
        0 <= i < units.len() ==> #[trigger] units[i] == bytes[2 * i] + 0x100 * bytes[2 * i + 1]
}

/// A message in its buffer: its code units and a closing zero.
pub open spec fn is_message(bytes: Seq<u8>, units: Seq<u16>) -> bool {
    &&& bytes.len() == 2 * units.len() + 2
    &&& holds_units(bytes, units)
    &&& bytes[2 * units.len() as int] == 0
    &&& bytes[2 * units.len() as int + 1] == 0
}

/// A prepared message: a short text, or room for where a long one is; how long the text is
/// and how much room there is for it; and whom it is for.
pub open spec fn is_structure(bytes: Seq<u8>, units: Seq<u16>, target: u64) -> bool {
    &&& bytes.len() == 0x28
    &&& number(bytes, 0x10, 8) == units.len()
    &&& number(bytes, 0x20, 8) == target
    &&& if units.len() <= 7 {
        &&& holds_units(bytes, units)
        &&& forall|i: int| 2 * units.len() <= i < 16 ==> #[trigger] bytes[i] == 0
        &&& number(bytes, 0x18, 8) == 7
    } else {
        &&& forall|i: int| 0 <= i < 16 ==> #[trigger] bytes[i] == 0
        &&& number(bytes, 0x18, 8) == units.len()
    }
}

proof fn lemma_unit(unit: u16)
    ensures
        le_bytes(unit as nat, 2) == seq![(unit % 0x100) as u8, (unit / 0x100) as u8],
{
    reveal_with_fuel(le_bytes, 3);
    assert(le_bytes(unit as nat, 2) =~= seq![(unit % 0x100) as u8, (unit / 0x100) as u8]);
}

proof fn lemma_units(bytes: Seq<u8>, units: Seq<u16>)
    requires
        holds_units(bytes, units),
        bytes.len() >= 2 * units.len(),
    ensures
        bytes.take(2 * units.len() as int) == unit_bytes(units),
    decreases units.len(),
{
    lemma_unit_bytes_len(units);
    if units.len() > 0 {
        let less = units.drop_last();
        let n = less.len() as int;
        assert forall|i: int| 0 <= i < less.len() implies #[trigger] less[i] == bytes[2 * i] + 0x100
            * bytes[2 * i + 1] by {
            assert(units[i] == bytes[2 * i] + 0x100 * bytes[2 * i + 1]);
        }
        lemma_units(bytes, less);
        lemma_unit(units.last());
        assert(units[n] == bytes[2 * n] + 0x100 * bytes[2 * n + 1]);
        assert(bytes.take(2 * units.len() as int) =~= bytes.take(2 * n) + le_bytes(
            units.last() as nat,
            2,
        ));
    } else {
        assert(bytes.take(0) =~= unit_bytes(units));
    }
}

proof fn lemma_structure(bytes: Seq<u8>, units: Seq<u16>, target: u64)
    requires
        is_structure(bytes, units, target),
    ensures
        bytes == chat_structure(units, target),
{
    lemma_number(bytes, 0x10, 8, units.len());
    lemma_number(bytes, 0x18, 8, number(bytes, 0x18, 8));
    lemma_number(bytes, 0x20, 8, target as nat);
    lemma_unit_bytes_len(units);
    let head = bytes.take(16);
    if units.len() <= 7 {
        lemma_units(bytes, units);
        let n = 2 * units.len() as int;
        assert(head =~= string_head(units)) by {
            assert forall|i: int| 0 <= i < 16 implies head[i] == string_head(units)[i] by {
                if i < n {
                    assert(head[i] == bytes.take(n)[i]);
                }
            }
        }
    } else {
        assert(head =~= string_head(units));
    }
    assert(bytes =~= head + bytes.subrange(0x10, 0x18) + bytes.subrange(0x18, 0x20)
        + bytes.subrange(0x20, 0x28));
}

/// Sending a message writes its text with its end into the buffer, prepares the message
/// for whom it is for, and then sets the trigger.
pub proof fn messages_are_prepared_before_they_are_asked_for<H, T>(
    log: Log<H, T>,
    k: int,
    id: Seq<char>,
    buffer: usize,
    structure: usize,
    trigger: usize,
    units: Seq<u16>,
    target: u64,
    text: Seq<u8>,
    message: Seq<u8>,
)
    requires
        is_message(text, units),
        is_structure(message, units, target),
        wrote(log, k, buffer as int, text),
        wrote(log, k + 1, structure as int, message),
        wrote(log, k + 2, trigger as int, seq![1u8]),
        !on_fixture(log[k + 2].after.sessions, id),
    ensures
        message_of(log, k, id, buffer, structure, trigger, units, target) == (
            k + 3,
            Ok::<(), Failure>(()),
        ),
{
    lemma_structure(message, units, target);
    lemma_units(text, units);
    lemma_unit_bytes_len(units);
    let n = 2 * units.len() as int;
    assert(text =~= message_bytes(units)) by {
        assert forall|i: int| 0 <= i < text.len() implies text[i] == message_bytes(units)[i] by {
            if i < n {
                assert(text[i] == text.take(n)[i]);
            }
        }
    }
}

/// A friend request puts whom it is for where the code looks for it, and then sets the
/// trigger.
pub proof fn friend_requests_name_whom_they_are_for<H, T>(
    log: Log<H, T>,
    k: int,
    features: Features,
    id: Seq<char>,
    target: u64,
    trigger: usize,
    object: usize,
    bytes: Seq<u8>,
)
    requires
        object + 0xe8 <= usize::MAX,
        place_at(features, id, FeatureHookExport::BuddyTrigger) == Some(trigger),
        place_at(features, id, FeatureHookExport::BuddyObject) == Some(object),
        bytes.len() == 8,
        number(bytes, 0, 8) == target,
        log[k].op is Status,
        log[k].reply is Done,
        log[k + 1].op == (Op::Read { address: address_text(trigger as nat), size: 1 }),
        log[k + 1].reply == (Reply::Bytes { bytes: seq![0u8] }),
        log[k + 2].op is Status,
        log[k + 2].reply is Done,
        wrote(log, k + 3, object + 0xe0, bytes),
        wrote(log, k + 4, trigger as int, seq![1u8]),
        !on_fixture(log[k + 4].after.sessions, id),
    ensures
        buddy_of(log, k, features, id, target) == (k + 5, Ok::<usize, Failure>(trigger)),
{
    lemma_number(bytes, 0, 8, target as nat);
    assert(bytes.subrange(0, 8) =~= bytes);
}

/// Text becomes code units character by character.
pub proof fn text_is_encoded_in_order(one: Seq<char>, other: Seq<char>)
    ensures
        utf16(one + other) == utf16(one) + utf16(other),
    decreases other.len(),
{
    if other.len() == 0 {
        assert(one + other =~= one);
        assert(utf16(one) + utf16(other) =~= utf16(one));
    } else {
        text_is_encoded_in_order(one, other.drop_last());
        assert((one + other).drop_last() =~= one + other.drop_last());
        assert(utf16(one + other) =~= utf16(one) + utf16(other));
    }
}

/// A character is its own code unit, or two that give it back: ten bits of what it is
/// beyond the characters of one unit from each, the high ones first.
pub proof fn characters_are_encoded_as_code_units(c: char)
    ensures
        ({
            let units = units_of(c);
            if c as int <= 0xffff {
                units.len() == 1 && units[0] == c as int
            } else {
                &&& units.len() == 2
                &&& 0xd800 <= units[0] < 0xdc00
                &&& 0xdc00 <= units[1] < 0xe000
                &&& c as int == 0x1_0000 + (units[0] - 0xd800) * 0x400 + (units[1] - 0xdc00)
            }
        }),
{
}

}
