//! Where the feature hooks go in the code of the game, and what they take from there.

use vstd::prelude::*;

use crate::codec::signed32;
use crate::exports::was_read;
use crate::feature_template::{
    action_patch, buddy_chosen_of, buddy_function_of, buddy_message, chat_marks, chat_target_of,
    chosen_of, disambiguated_of, marked_of, mouse_patches_of, mouse_places_of, movement_signatures,
    movement_sites_of, names_buddy_of, originals_of, plan_of, relative_call_of, remote_export_of,
    send_function_of, send_marks, send_places_of, Kind, Patch, Plan,
};
use crate::machine::number;
use crate::probe::Log;
use crate::protocol::FeatureHook;
use crate::rpc::Failure;
use crate::signature::signature_text;
use crate::steps::{Op, Reply};

verus! {

/// A search of the game that found one place.
pub open spec fn was_found<H, T>(log: Log<H, T>, k: int, signature: Seq<char>, at: usize) -> bool {
    &&& log[k].op == (Op::Scan { signature, scope: Some("WizardGraphicalClient.exe"@) })
    &&& log[k].reply == (Reply::Found { at })
}

/// A search of the game for every place that found just one.
pub open spec fn was_found_once<H, T>(
    log: Log<H, T>,
    k: int,
    signature: Seq<char>,
    at: usize,
) -> bool {
    &&& log[k].op == (Op::ScanMany { signature, scope: Some("WizardGraphicalClient.exe"@) })
    &&& log[k].reply == (Reply::Places { places: seq![at] })
}

/// The hook for dance moves goes where its signature is.
pub proof fn dance_hooks_go_to_their_signature<H, T>(
    log: Log<H, T>,
    k: int,
    target: usize,
    bytes: Seq<u8>,
)
    requires
        was_found(log, k, "48 8B F8 48 39 70 10"@, target),
        was_read(log, k + 1, target as int, bytes),
        bytes.len() == 32,
    ensures
        plan_of(log, k, FeatureHook::DanceGameMoves, false) == (
            k + 2,
            Ok::<Plan, Failure>(
                Plan {
                    signature: signature_text(bytes),
                    target,
                    overwrite: 7,
                    kind: Kind::Dance,
                    patches: Seq::empty(),
                    actions: None,
                    replay: true,
                },
            ),
        ),
{
}

proof fn lemma_marked<H, T>(
    log: Log<H, T>,
    k: int,
    signature: Seq<char>,
    at: usize,
    list: Seq<(usize, Seq<u8>)>,
)
    requires
        was_found_once(log, k, signature, at),
        marked_of(log, k + 1, at, list, 0) == (k + 1 + list.len(), Ok::<bool, Failure>(true)),
    ensures
        disambiguated_of(log, k, signature, list) == (
            k + 1 + list.len(),
            Ok::<usize, Failure>(at),
        ),
{
    reveal(disambiguated_of);
    reveal_with_fuel(chosen_of, 2);
    assert(seq![at][0] == at);
}

/// The hook for chat goes into the function that takes messages: behind its start by as
/// much as the second of the marks that tell the function.
pub proof fn chat_hooks_go_to_the_second_mark<H, T>(
    log: Log<H, T>,
    k: int,
    base: usize,
    kind: Seq<u8>,
    place: Seq<u8>,
    bytes: Seq<u8>,
)
    requires
        base + 0x380 <= usize::MAX,
        was_found_once(
            log,
            k,
            "48 89 5C 24 18 48 89 74 24 20 55 57 41 56 48 8D AC 24 40 FF FF FF 48 81 EC C0 01 00 00 48 8B 05 ?? ?? ?? ?? 48 33 C4 48 89 85 B0 00 00 00 48 8B FA 48 8B F1 45 33 F6"@,
            base,
        ),
        kind == seq![0xc7u8, 0x45, 0xf0, 0x09, 0, 0, 0],
        place == seq![0x48u8, 0x8d, 0x4d, 0xf8, 0x48, 0x3b, 0xc8],
        was_read(log, k + 1, base + 0x7e, kind),
        was_read(log, k + 2, base + 0x379, place),
        was_read(log, k + 3, base + 0x379, bytes),
        bytes.len() == 32,
    ensures
        plan_of(log, k, FeatureHook::Chat, false) == (
            k + 4,
            Ok::<Plan, Failure>(
                Plan {
                    signature: signature_text(bytes),
                    target: (base + 0x379) as usize,
                    overwrite: 7,
                    kind: Kind::Chat,
                    patches: Seq::empty(),
                    actions: None,
                    replay: true,
                },
            ),
        ),
{
    reveal(chat_marks);
    reveal(chat_target_of);
    reveal_with_fuel(marked_of, 3);
    let list = chat_marks();
    assert(list.len() == 2);
    assert(list[0].1 =~= kind);
    assert(list[1].1 =~= place);
    lemma_marked(
        log,
        k,
        "48 89 5C 24 18 48 89 74 24 20 55 57 41 56 48 8D AC 24 40 FF FF FF 48 81 EC C0 01 00 00 48 8B 05 ?? ?? ?? ?? 48 33 C4 48 89 85 B0 00 00 00 48 8B FA 48 8B F1 45 33 F6"@,
        base,
        list,
    );
}

/// What a teleport takes out: six bytes that do nothing stand for a jump, and what is
/// behind it stays.
pub proof fn teleports_take_out_a_jump(address: usize, original: Seq<u8>)
    requires
        original.len() == 8,
    ensures
        ({
            let patch = action_patch(address, original);
            &&& patch.address == address
            &&& patch.expected == original
            &&& patch.replacement.len() == 8
            &&& forall|i: int| 0 <= i < 6 ==> #[trigger] patch.replacement[i] == 0x90
            &&& patch.replacement[6] == original[6]
            &&& patch.replacement[7] == original[7]
            &&& !patch.applied
            &&& patch.writable
        }),
{
}

/// The hook for movement goes to the first of its signatures. The jumps that a teleport
/// takes out are behind the second, and the jump over a collision is the third. Only that
/// is taken out at once.
pub proof fn movement_hooks_go_to_their_signatures<H, T>(
    log: Log<H, T>,
    k: int,
    target: usize,
    state: usize,
    collision: usize,
    first: Seq<u8>,
    second: Seq<u8>,
    jump: Seq<u8>,
    bytes: Seq<u8>,
)
    requires
        log[k].op == (Op::ScanEach {
            signatures: seq![
                "48 89 5C 24 08 57 48 83 EC 20 48 8B 99 B8 01 00 00 48 85 DB 74 2F"@,
                "8B 5F 70 F3"@,
                "74 24 F3 0F 10 44 24 58 F3 0F 11 44 24 78 48 8B 06"@,
            ],
            scope: Some("WizardGraphicalClient.exe"@),
        }),
        log[k].reply == (Reply::Each { found: seq![Some(target), Some(state), Some(collision)] }),
        state + 24 <= usize::MAX,
        first.len() == 8,
        second.len() == 8,
        jump.len() == 2,
        bytes.len() == 32,
        was_read(log, k + 1, state + 15, first),
        was_read(log, k + 2, state + 24, second),
        was_read(log, k + 3, collision as int, jump),
        was_read(log, k + 4, target as int, bytes),
    ensures
        plan_of(log, k, FeatureHook::MovementTeleport, false) == (
            k + 5,
            Ok::<Plan, Failure>(
                Plan {
                    signature: signature_text(bytes),
                    target,
                    overwrite: 6,
                    kind: Kind::Movement {
                        first: (state + 15) as usize,
                        second: (state + 24) as usize,
                        first_original: first,
                        second_original: second,
                    },
                    patches: seq![
                        Patch {
                            address: collision,
                            expected: jump,
                            replacement: seq![0x90u8, 0x90],
                            applied: true,
                            writable: false,
                        },
                        action_patch((state + 15) as usize, first),
                        action_patch((state + 24) as usize, second),
                    ],
                    actions: Some((1usize, 2usize)),
                    replay: true,
                },
            ),
        ),
{
    reveal(movement_signatures);
    reveal(movement_sites_of);
    reveal(originals_of);
}

/// The hook for the cursor goes to the function that tells where the cursor is. The
/// function that moves it returns at once, and two flags are set.
pub proof fn cursor_hooks_go_to_the_functions_of_the_system<H, T>(
    log: Log<H, T>,
    k: int,
    second: int,
    third: int,
    get: usize,
    set: usize,
    one: usize,
    two: usize,
    bytes: Seq<u8>,
    cursor: Seq<u8>,
    flag: Seq<u8>,
    other: Seq<u8>,
)
    requires
        remote_export_of(log, k, "user32.dll"@, "GetCursorPos"@, 0) == (
            second,
            Ok::<usize, Failure>(get),
        ),
        remote_export_of(log, second, "user32.dll"@, "SetCursorPos"@, 0) == (
            third,
            Ok::<usize, Failure>(set),
        ),
        was_found(log, third, "00 FF 50 18 66 C7"@, one),
        was_found(log, third + 1, "C6 86 ?? ?? ?? 00 00 33 FF 89"@, two),
        two + 6 <= usize::MAX,
        bytes.len() == 16,
        cursor.len() == 6,
        flag.len() == 1,
        other.len() == 1,
        was_read(log, third + 2, get as int, bytes),
        was_read(log, third + 3, set as int, cursor),
        was_read(log, third + 4, one as int, flag),
        was_read(log, third + 5, two + 6, other),
    ensures
        plan_of(log, k, FeatureHook::MouselessCursor, false) == (
            third + 6,
            Ok::<Plan, Failure>(
                Plan {
                    signature: signature_text(bytes),
                    target: get,
                    overwrite: 5,
                    kind: Kind::Mouse,
                    patches: seq![
                        Patch {
                            address: set,
                            expected: cursor,
                            replacement: seq![0xc3u8, 0x90, 0x90, 0x90, 0x90, 0x90],
                            applied: true,
                            writable: false,
                        },
                        Patch {
                            address: one,
                            expected: flag,
                            replacement: seq![1u8],
                            applied: true,
                            writable: false,
                        },
                        Patch {
                            address: (two + 6) as usize,
                            expected: other,
                            replacement: seq![1u8],
                            applied: true,
                            writable: false,
                        },
                    ],
                    actions: None,
                    replay: false,
                },
            ),
        ),
{
    reveal(mouse_places_of);
    reveal(mouse_patches_of);
}

/// A relative call calls what is as far behind it as it says.
pub proof fn relative_calls_say_how_far<H, T>(
    log: Log<H, T>,
    k: int,
    call: usize,
    instruction: Seq<u8>,
)
    requires
        instruction.len() == 5,
        instruction[0] == 0xe8,
        call + 5 <= usize::MAX,
        was_read(log, k, call as int, instruction),
        0 <= call + 5 + signed32(number(instruction, 1, 4)) <= usize::MAX,
    ensures
        relative_call_of(log, k, call) == (
            k + 1,
            Ok::<usize, Failure>((call + 5 + signed32(number(instruction, 1, 4))) as usize),
        ),
{
    reveal(relative_call_of);
}

/// The function for friend requests starts two bytes before its signature, and is told by
/// the text that it loads.
pub proof fn friend_requests_are_told_by_their_text<H, T>(
    log: Log<H, T>,
    k: int,
    at: usize,
    load: Seq<u8>,
    displacement: Seq<u8>,
    letters: Seq<u8>,
)
    requires
        was_found_once(
            log,
            k,
            "48 81 EC A0 00 00 00 48 8B 05 ?? ?? ?? ?? 48 33 C4 48 89 84 24 90 00 00 00 48 8B D9 48 89 54 24 20 BA 10 00 00 00 48 8D 4C 24 30"@,
            at,
        ),
        2 <= at,
        at + 0x77 <= usize::MAX,
        load == seq![0x0fu8, 0x10, 0x05],
        displacement.len() == 4,
        letters.len() == 19,
        forall|i: int| 0 <= i < 19 ==> #[trigger] letters[i] as int
            == "MSG_BUDDYREQUESTADD"@[i] as int,
        was_read(log, k + 1, at + 0x70, load),
        was_read(log, k + 2, at + 0x73, displacement),
        was_read(log, k + 3, at + 0x77 + signed32(number(displacement, 0, 4)), letters),
    ensures
        buddy_function_of(log, k) == (k + 4, Ok::<usize, Failure>((at - 2) as usize)),
{
    reveal_strlit("MSG_BUDDYREQUESTADD");
    assert(displacement.subrange(0, 4) =~= displacement);
    assert(letters =~= buddy_message());
    reveal(names_buddy_of);
    assert(names_buddy_of(log, k + 1, at) == (k + 4, Ok::<bool, Failure>(true)));
    reveal(buddy_function_of);
    reveal_with_fuel(buddy_chosen_of, 2);
    assert(seq![at][0] == at);
}

/// The hook for sending goes to its signature. It calls the function that sends, the one
/// for friend requests, and the one for memory that the function that sends calls.
pub proof fn sending_hooks_call_the_functions_of_the_game<H, T>(
    log: Log<H, T>,
    k: int,
    next: int,
    send: usize,
    buddy: usize,
    target: usize,
    mark: Seq<u8>,
    call: Seq<u8>,
    bytes: Seq<u8>,
)
    requires
        was_found_once(
            log,
            k,
            "48 89 5C 24 18 55 56 57 48 8D AC 24 30 FF FF FF 48 81 EC D0 01 00 00 48 8B 05 ?? ?? ?? ?? 48 33 C4 48 89 85 C0 00 00 00 48 8B DA 48 8B F9"@,
            send,
        ),
        mark == seq![0x48u8, 0x83, 0xc2, 0x20],
        was_read(log, k + 1, send + 0x33, mark),
        buddy_function_of(log, k + 2) == (next, Ok::<usize, Failure>(buddy)),
        send + 0xf9 <= usize::MAX,
        call.len() == 5,
        call[0] == 0xe8,
        was_read(log, next, send + 0xf4, call),
        0 <= send + 0xf9 + signed32(number(call, 1, 4)) <= usize::MAX,
        was_found(
            log,
            next + 1,
            "38 9F ?? ?? ?? ?? 74 ?? E8 ?? ?? ?? ?? 83 F8 64 0F 8F"@,
            target,
        ),
        was_read(log, next + 2, target as int, bytes),
        bytes.len() == 18,
    ensures
        plan_of(log, k, FeatureHook::ChatSend, false) == (
            next + 3,
            Ok::<Plan, Failure>(
                Plan {
                    signature: signature_text(bytes),
                    target,
                    overwrite: 6,
                    kind: Kind::Send {
                        send,
                        buddy,
                        operator_new: (send + 0xf9 + signed32(number(call, 1, 4))) as usize,
                    },
                    patches: Seq::empty(),
                    actions: None,
                    replay: true,
                },
            ),
        ),
{
    reveal(send_marks);
    reveal(send_function_of);
    reveal(send_places_of);
    reveal_with_fuel(marked_of, 2);
    let list = send_marks();
    assert(list.len() == 1);
    assert(list[0].1 =~= mark);
    lemma_marked(
        log,
        k,
        "48 89 5C 24 18 55 56 57 48 8D AC 24 30 FF FF FF 48 81 EC D0 01 00 00 48 8B 05 ?? ?? ?? ?? 48 33 C4 48 89 85 C0 00 00 00 48 8B DA 48 8B F9"@,
        send,
        list,
    );
    relative_calls_say_how_far(log, next, (send + 0xf4) as usize, call);
}

}
