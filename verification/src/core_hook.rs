//! The built-in hooks that give access to the state of the game.

use vstd::prelude::*;
use vstd::string::*;
use vstd::utf8::{is_ascii_chars, is_ascii_chars_encode_utf8};

use crate::backend::MutationBackend;
use crate::codec::{le_value, lemma_pow256, push_all, read_le, zeros};
use crate::hook::{
    self, activates, after_heartbeat, key_refusal, placed_at, takes_out, HookApiError, HookPlan,
    HookState, Hooked, Hooks, Trouble, HOOK_LEASE_MS,
};
use crate::machine::{
    address, decode, held, is_zero, lemma_branch, lemma_four, lemma_held_bound, lemma_is_based,
    lemma_is_reg, lemma_is_relative, lemma_next, lemma_plain, lemma_pop, lemma_push, lemma_stays,
    lemma_stored, lemma_wide, perform, reaches, wrapped, Cpu, Inst, Memory, Operand, Place,
};
use crate::mutation::MutationState;
use crate::process::{ProcessSessionRegistry, Sessions};
use crate::protocol::{
    core_hooks, CoreHook, CoreHookBaseResponse, CoreHookDeactivateResponse, CoreHookRequest,
    CoreHookResponse, CoreHookSessionRequest, CoreHooksResponse, HookActivateRequest,
    HookDeactivateRequest, HookHeartbeatRequest, MemoryScanScope, ProcessKind, ProcessSessionId,
    WIZARD101_EXECUTABLE,
};
use crate::rpc::{failure, Failure, RpcErrorCode};
use crate::steps::{step_made, step_read, Op, Reply, Step, World};
use crate::text::{
    address_text, dec_text, format_address, format_decimal, format_hex, is_white, join2, join3,
    join4, join_all, joined, texts,
};

verus! {

/// What a core hook looks for and what it runs there.
pub struct Template {
    pub signature: &'static str,
    pub target_offset: usize,
    pub overwrite_size: usize,
    pub payload: Vec<u8>,
    pub export_offset: usize,
}

/// The instruction that loads the captured address. The player hook has its own
/// payload.
pub open spec fn capture_code(hook: CoreHook) -> Seq<u8> {
    match hook {
        CoreHook::Client => seq![0x48u8, 0x89, 0xf8],
        CoreHook::Player => Seq::empty(),
        CoreHook::Quest => seq![0x49u8, 0x8d, 0x87, 0xfc, 0x0c, 0x00, 0x00],
        CoreHook::PlayerStat => seq![0x48u8, 0x89, 0xc8],
        CoreHook::RootWindow => seq![0x49u8, 0x8b, 0x85, 0xd8, 0x00, 0x00, 0x00],
        CoreHook::RenderContext => seq![0x48u8, 0x89, 0xd8],
    }
}

/// Code that runs a capture and stores its result in the slot behind the code.
pub open spec fn capturing(capture: Seq<u8>) -> Seq<u8> {
    seq![0x50u8] + capture + seq![0x48u8, 0x89, 0x05, 0x03, 0x00, 0x00, 0x00] + seq![0x58u8]
        + seq![0xebu8, 0x08]
}

/// Code that stores the current player's address in the slot behind the code.
pub open spec fn capturing_player() -> Seq<u8> {
    seq![
        0x51u8, 0x8b, 0x88, 0x74, 0x04, 0x00, 0x00, 0x83, 0xf9, 0x08, 0x59, 0x75, 0x07, 0x48, 0x89,
        0x05, 0x02, 0x00, 0x00, 0x00, 0xeb, 0x08,
    ]
}

/// The code of a core hook, up to its slot.
pub open spec fn core_code(hook: CoreHook) -> Seq<u8> {
    if hook == CoreHook::Player {
        capturing_player()
    } else {
        capturing(capture_code(hook))
    }
}

/// Eight zero bytes.
pub open spec fn empty_slot() -> Seq<u8> {
    Seq::new(8, |i: int| 0u8)
}

/// The payload of a core hook: its code and an empty slot.
pub open spec fn core_payload(hook: CoreHook) -> Seq<u8> {
    core_code(hook) + empty_slot()
}

/// Where a core hook's slot is in its payload.
pub open spec fn slot_offset(hook: CoreHook) -> nat {
    core_code(hook).len()
}

/// The signature of a core hook's site.
pub open spec fn core_signature(hook: CoreHook, fixture: bool) -> Seq<char> {
    if fixture {
        match hook {
            CoreHook::Client => "B8 01 D0 C0 00 90 90 90 90 90 90 90 90 90 90 C3"@,
            CoreHook::Player => "B8 02 D0 C0 00 90 90 90 90 90 90 90 90 90 90 C3"@,
            CoreHook::Quest => "B8 03 D0 C0 00 90 90 90 90 90 90 90 90 90 90 C3"@,
            CoreHook::PlayerStat => "B8 04 D0 C0 00 90 90 90 90 90 90 90 90 90 90 C3"@,
            CoreHook::RootWindow => "B8 05 D0 C0 00 90 90 90 90 90 90 90 90 90 90 C3"@,
            CoreHook::RenderContext => "B8 06 D0 C0 00 90 90 90 90 90 90 90 90 90 90 C3"@,
        }
    } else {
        match hook {
            CoreHook::Client =>
                "18 48 ?? ?? ?? ?? ?? ?? 48 8B 7C 24 ?? 48 85 FF 74 29 8B C6 F0 0F C1 47 08 83 F8 01 75 1D 48 8B 07 48 8B CF FF 50 08 F0 0F C1 77 0C"@,
            CoreHook::Player =>
                "F2 0F 10 40 58 F2 ?? ?? ?? ?? ?? ?? ?? ?? ?? ?? ?? ?? ?? ?? ?? ?? ?? ?? ?? ?? ?? ?? ?? ?? ?? ??"@,
            CoreHook::Quest =>
                "F3 41 0F 10 ?? FC 0C 00 00 F3 0F 11 ?? ?? ?? ?? ?? ?? ?? ?? ?? ?? ?? ??"@,
            CoreHook::PlayerStat => "2B D8 B8 ?? ?? ?? ?? 0F 49 C3 48 83 C4 20 5B C3"@,
            CoreHook::RootWindow =>
                "49 8B 8D D8 00 00 00 48 8B 01 ?? ?? ?? ?? ?? ?? ?? FF 50 70 84 ?? ?? ?? ?? ?? ?? ?? ?? ?? ?? ??"@,
            CoreHook::RenderContext =>
                "F3 44 0F 10 8B 98 00 00 00 ?? ?? ?? ?? ?? ?? ?? ?? ?? F3 41 0F 10 28 F3 0F 10 56 04 48 63 C1 ??"@,
        }
    }
}

/// Where a core hook's target is from the start of its signature.
pub open spec fn core_offset(hook: CoreHook, fixture: bool) -> usize {
    if !fixture && hook == CoreHook::Client {
        1
    } else {
        0
    }
}

/// How many bytes a core hook overwrites; zero where its site decides.
pub open spec fn core_size(hook: CoreHook, fixture: bool) -> usize {
    if fixture {
        16
    } else {
        match hook {
            CoreHook::Client => 15,
            CoreHook::PlayerStat => 14,
            _ => 0,
        }
    }
}

/// A template as it should be.
pub open spec fn is_template(template: Template, hook: CoreHook, fixture: bool) -> bool {
    &&& template.signature@ == core_signature(hook, fixture)
    &&& template.target_offset == core_offset(hook, fixture)
    &&& template.overwrite_size == core_size(hook, fixture)
    &&& template.payload@ == core_payload(hook)
    &&& template.export_offset == slot_offset(hook)
}

/// The code of a capturing hook stores into its own slot: the store addresses
/// the byte right behind the code, which is where the slot is, and the code
/// skips the slot.
pub proof fn captures_land_in_the_slot(hook: CoreHook)
    ensures
        ({
            let code = core_payload(hook);
            let slot = slot_offset(hook) as int;
            let store = if hook == CoreHook::Player {
                slot - 9
            } else {
                slot - 10
            };
            &&& code.len() == slot + 8
            &&& code.subrange(store, store + 3) == seq![0x48u8, 0x89, 0x05]
            &&& store + 7 + le_value(code.subrange(store + 3, store + 7)) == slot
            &&& code.subrange(slot - 2, slot) == seq![0xebu8, 0x08]
            &&& code.subrange(slot, slot + 8) == empty_slot()
        }),
{
    let code = core_payload(hook);
    let slot = slot_offset(hook) as int;
    let store = if hook == CoreHook::Player {
        slot - 9
    } else {
        slot - 10
    };
    let reach = if hook == CoreHook::Player {
        2u8
    } else {
        3u8
    };
    assert(code.subrange(store, store + 3) =~= seq![0x48u8, 0x89, 0x05]);
    let field = code.subrange(store + 3, store + 7);
    assert(field =~= seq![reach, 0u8, 0, 0]);
    assert(field.len() == 4);
    lemma_small_value(reach);
    assert(code.subrange(slot - 2, slot) =~= seq![0xebu8, 0x08]);
    assert(code.subrange(slot, slot + 8) =~= empty_slot());
}

proof fn lemma_small_value(first: u8)
    ensures
        le_value(seq![first, 0u8, 0, 0]) == first,
{
    reveal_with_fuel(le_value, 5);
    let field = seq![first, 0u8, 0, 0];
    assert(field.skip(1) =~= seq![0u8, 0, 0]);
    assert(field.skip(1).skip(1) =~= seq![0u8, 0]);
    assert(field.skip(1).skip(1).skip(1) =~= seq![0u8]);
    assert(field.skip(1).skip(1).skip(1).skip(1) =~= Seq::<u8>::empty());
}

/// What a core hook stores when its code is run: the object that the code at its site holds
/// in a register, or that a register leads to. The player hook stores only an object that
/// says it is the player.
pub open spec fn captured(hook: CoreHook, cpu: Cpu) -> Option<nat> {
    match hook {
        CoreHook::Client => Some(cpu.regs[7]),
        CoreHook::Player => if held(
            cpu.memory,
            wrapped(cpu.regs[0] + 0x474int),
            4,
        ) == 8 {
            Some(cpu.regs[0])
        } else {
            None
        },
        CoreHook::Quest => Some(
            wrapped(cpu.regs[15] + 0xcfcint) as nat,
        ),
        CoreHook::PlayerStat => Some(cpu.regs[1]),
        CoreHook::RootWindow => Some(
            held(cpu.memory, wrapped(cpu.regs[13] + 0xd8int), 8),
        ),
        CoreHook::RenderContext => Some(cpu.regs[3]),
    }
}

/// The memory after a core hook's code has run: its slot holds what it stored, and nothing
/// else has changed.
pub open spec fn kept_at(before: Memory, after: Memory, slot: int, stored: Option<nat>) -> bool {
    &&& stored matches Some(value) ==> held(after, slot, 8) == value
    &&& forall|a: int|
        !(stored is Some && slot <= a < slot + 8) ==> #[trigger] after(a) == before(a)
}

/// Running the payload of a core hook stores what the hook is for in its slot, and leads
/// behind the payload with every register, the stack and the rest of memory as they were.
pub proof fn core_hooks_store_what_they_are_for(
    template: Template,
    hook: CoreHook,
    fixture: bool,
    base: int,
    cpu: Cpu,
)
    requires
        is_template(template, hook, fixture),
        cpu.sound(),
        cpu.ip == base,
        0 <= base,
        base + template.payload@.len() <= 0x1_0000_0000_0000_0000,
    ensures
        exists|end: Cpu|
            {
                &&& #[trigger] reaches(template.payload@, base, cpu, end)
                &&& end.ip == base + template.payload@.len()
                &&& end.regs == cpu.regs
                &&& end.vectors == cpu.vectors
                &&& end.stack == cpu.stack
                &&& kept_at(
                    cpu.memory,
                    end.memory,
                    base + template.export_offset,
                    captured(hook, cpu),
                )
            },
{
    let end = if hook == CoreHook::Player {
        lemma_player_runs(base, cpu)
    } else {
        lemma_capture_runs(hook, base, cpu)
    };
}

proof fn lemma_player_runs(base: int, cpu: Cpu) -> (end: Cpu)
    requires
        cpu.sound(),
        cpu.ip == base,
        0 <= base,
        base + core_payload(CoreHook::Player).len() <= 0x1_0000_0000_0000_0000,
    ensures
        reaches(core_payload(CoreHook::Player), base, cpu, end),
        end.ip == base + core_payload(CoreHook::Player).len(),
        end.regs == cpu.regs,
        end.vectors == cpu.vectors,
        end.stack == cpu.stack,
        kept_at(
            cpu.memory,
            end.memory,
            base + slot_offset(CoreHook::Player),
            captured(CoreHook::Player, cpu),
        ),
{
    let code = core_payload(CoreHook::Player);
    let place = Place::Based { base: 0, reach: 0x474 };
    let count = Operand::Reg { n: 1 };
    let slot = Operand::Mem { place: Place::Relative { reach: 2 } };
    let first = Operand::Reg { n: 0 };
    lemma_pow256();
    lemma_stays(code, base, cpu);
    lemma_push(code, 0, 1);
    let a = lemma_next(code, base, cpu, cpu, Inst::Push { n: 1 }, 1);
    lemma_four(code, 3);
    lemma_is_based(code, 2, 0, 0);
    lemma_plain(code, 1, Operand::Mem { place }, 5);
    let b = lemma_next(
        code,
        base,
        cpu,
        a,
        Inst::Move { to: count, from: Operand::Mem { place }, size: 4 },
        6,
    );
    lemma_held_bound(cpu.memory, address(cpu, place), 4);
    lemma_is_reg(code, 8, 0, 0);
    lemma_plain(code, 7, count, 1);
    let c = lemma_next(
        code,
        base,
        cpu,
        b,
        Inst::Compare { left: count, right: Operand::Imm { value: 8 }, size: 4 },
        3,
    );
    assert(is_zero(c) <==> held(cpu.memory, address(cpu, place), 4) == 8);
    lemma_pop(code, 10, 1);
    let d = lemma_next(code, base, cpu, c, Inst::Pop { n: 1 }, 1);
    assert(d.regs =~= cpu.regs);
    assert(d.stack =~= cpu.stack);
    lemma_branch(code, 11);
    let e = lemma_next(code, base, cpu, d, Inst::Branch { condition: 5, reach: 7 }, 2);
    let f = if is_zero(c) {
        lemma_four(code, 16);
        lemma_is_relative(code, 15, 0, 0);
        lemma_wide(code, 13, slot, 5);
        lemma_stored(cpu.memory, base + 22, cpu.regs[0], 8);
        lemma_next(code, base, cpu, e, Inst::Move { to: slot, from: first, size: 8 }, 7)
    } else {
        e
    };
    lemma_branch(code, 20);
    lemma_next(code, base, cpu, f, Inst::Jump { reach: 8 }, 2)
}

proof fn lemma_capture_runs(hook: CoreHook, base: int, cpu: Cpu) -> (end: Cpu)
    requires
        hook != CoreHook::Player,
        cpu.sound(),
        cpu.ip == base,
        0 <= base,
        base + core_payload(hook).len() <= 0x1_0000_0000_0000_0000,
    ensures
        reaches(core_payload(hook), base, cpu, end),
        end.ip == base + core_payload(hook).len(),
        end.regs == cpu.regs,
        end.vectors == cpu.vectors,
        end.stack == cpu.stack,
        kept_at(cpu.memory, end.memory, base + slot_offset(hook), captured(hook, cpu)),
{
    let code = core_payload(hook);
    let n = capture_code(hook).len() as int;
    let first = Operand::Reg { n: 0 };
    let slot = Operand::Mem { place: Place::Relative { reach: 3 } };
    let value = captured(hook, cpu)->Some_0;
    lemma_capture_frame(hook);
    lemma_pow256();
    lemma_stays(code, base, cpu);
    lemma_push(code, 0, 0);
    let a = lemma_next(code, base, cpu, cpu, Inst::Push { n: 0 }, 1);
    let capture = lemma_capture_decodes(hook);
    lemma_capture_performs(hook, cpu, Cpu { ip: a.ip + n, ..a }, capture);
    let b = lemma_next(code, base, cpu, a, capture, n);
    lemma_four(code, n + 4);
    lemma_is_relative(code, n + 3, 0, 0);
    lemma_wide(code, n + 1, slot, 5);
    lemma_stored(cpu.memory, base + n + 11, value, 8);
    let c = lemma_next(code, base, cpu, b, Inst::Move { to: slot, from: first, size: 8 }, 7);
    lemma_pop(code, n + 8, 0);
    let d = lemma_next(code, base, cpu, c, Inst::Pop { n: 0 }, 1);
    assert(d.regs =~= cpu.regs);
    assert(d.stack =~= cpu.stack);
    lemma_branch(code, n + 9);
    lemma_next(code, base, cpu, d, Inst::Jump { reach: 8 }, 2)
}

proof fn lemma_capture_frame(hook: CoreHook)
    requires
        hook != CoreHook::Player,
    ensures
        ({
            let code = core_payload(hook);
            let n = capture_code(hook).len() as int;
            &&& n == 3 || n == 7
            &&& slot_offset(hook) == n + 11
            &&& code.len() == n + 19
            &&& code[0] == 0x50
            &&& code[n + 1] == 0x48
            &&& code[n + 2] == 0x89
            &&& code[n + 3] == 0x05
            &&& code[n + 4] == 3
            &&& code[n + 5] == 0
            &&& code[n + 6] == 0
            &&& code[n + 7] == 0
            &&& code[n + 8] == 0x58
            &&& code[n + 9] == 0xeb
            &&& code[n + 10] == 8
        }),
{
}

proof fn lemma_capture_performs(hook: CoreHook, cpu: Cpu, a: Cpu, capture: Inst)
    requires
        hook != CoreHook::Player,
        cpu.sound(),
        a.regs == cpu.regs,
        a.memory == cpu.memory,
        decode(core_payload(hook), 1) == Some((capture, capture_code(hook).len() as int)),
    ensures
        captured(hook, cpu)->Some_0 < 0x1_0000_0000_0000_0000,
        perform(capture, a) == Some(
            Cpu { regs: cpu.regs.update(0, captured(hook, cpu)->Some_0), ..a },
        ),
{
    lemma_pow256();
    lemma_held_bound(cpu.memory, wrapped(cpu.regs[13] + 0xd8int), 8);
    let decoded = lemma_capture_decodes(hook);
}

proof fn lemma_capture_decodes(hook: CoreHook) -> (capture: Inst)
    requires
        hook != CoreHook::Player,
    ensures
        decode(core_payload(hook), 1) == Some((capture, capture_code(hook).len() as int)),
        capture == match hook {
            CoreHook::Client => Inst::Move {
                to: Operand::Reg { n: 0 },
                from: Operand::Reg { n: 7 },
                size: 8,
            },
            CoreHook::Quest => Inst::Address {
                n: 0,
                place: Place::Based { base: 15, reach: 0xcfc },
            },
            CoreHook::PlayerStat => Inst::Move {
                to: Operand::Reg { n: 0 },
                from: Operand::Reg { n: 1 },
                size: 8,
            },
            CoreHook::RootWindow => Inst::Move {
                to: Operand::Reg { n: 0 },
                from: Operand::Mem { place: Place::Based { base: 13, reach: 0xd8 } },
                size: 8,
            },
            _ => Inst::Move { to: Operand::Reg { n: 0 }, from: Operand::Reg { n: 3 }, size: 8 },
        },
{
    let code = core_payload(hook);
    let part = capture_code(hook);
    assert(forall|i: int| 0 <= i < part.len() ==> code[i + 1] == #[trigger] part[i]);
    assert(code[1] == part[0] && code[2] == part[1] && code[3] == part[2]);
    match hook {
        CoreHook::Quest => {
            assert(code[4] == part[3] && code[5] == part[4] && code[6] == part[5] && code[7]
                == part[6]);
            let place = Place::Based { base: 15, reach: 0xcfc };
            lemma_four(code, 4);
            lemma_is_based(code, 3, 0, 1);
            lemma_wide(code, 1, Operand::Mem { place }, 5);
            Inst::Address { n: 0, place }
        },
        CoreHook::RootWindow => {
            assert(code[4] == part[3] && code[5] == part[4] && code[6] == part[5] && code[7]
                == part[6]);
            let place = Place::Based { base: 13, reach: 0xd8 };
            lemma_four(code, 4);
            lemma_is_based(code, 3, 0, 1);
            lemma_wide(code, 1, Operand::Mem { place }, 5);
            Inst::Move { to: Operand::Reg { n: 0 }, from: Operand::Mem { place }, size: 8 }
        },
        _ => {
            let first = Operand::Reg { n: 0 };
            lemma_is_reg(code, 3, 0, 0);
            lemma_wide(code, 1, first, 1);
            Inst::Move {
                to: first,
                from: Operand::Reg { n: (part[2] / 8 % 8) as int },
                size: 8,
            }
        },
    }
}

/// Builds the payload that runs a capture.
pub fn capture_payload(capture: &[u8]) -> (built: (Vec<u8>, usize))
    ensures
        built.0@ == capturing(capture@) + empty_slot(),
        built.1 == capturing(capture@).len(),
{
    let mut payload: Vec<u8> = Vec::new();
    payload.push(0x50);
    push_all(&mut payload, capture);
    let store: Vec<u8> = vec![0x48, 0x89, 0x05, 0x03, 0x00, 0x00, 0x00];
    push_all(&mut payload, store.as_slice());
    payload.push(0x58);
    let skip: Vec<u8> = vec![0xeb, 0x08];
    push_all(&mut payload, skip.as_slice());
    proof {
        assert(payload@ =~= capturing(capture@));
    }
    let export_offset: usize = payload.len();
    let slot = zeros(8);
    push_all(&mut payload, slot.as_slice());
    (payload, export_offset)
}

/// Builds the payload of the player hook.
pub fn player_payload() -> (built: (Vec<u8>, usize))
    ensures
        built.0@ == capturing_player() + empty_slot(),
        built.1 == capturing_player().len(),
{
    let mut payload: Vec<u8> = vec![
        0x51, 0x8b, 0x88, 0x74, 0x04, 0x00, 0x00, 0x83, 0xf9, 0x08, 0x59, 0x75, 0x07, 0x48, 0x89,
        0x05, 0x02, 0x00, 0x00, 0x00, 0xeb, 0x08,
    ];
    proof {
        assert(payload@ =~= capturing_player());
    }
    let export_offset: usize = payload.len();
    let slot = zeros(8);
    push_all(&mut payload, slot.as_slice());
    (payload, export_offset)
}

/// The template of a core hook in the game.
pub fn template(hook: CoreHook) -> (built: Template)
    ensures
        is_template(built, hook, false),
{
    let (signature, target_offset, overwrite_size, capture): (&'static str, usize, usize, Vec<u8>) =
        match hook {
        CoreHook::Client => (
            "18 48 ?? ?? ?? ?? ?? ?? 48 8B 7C 24 ?? 48 85 FF 74 29 8B C6 F0 0F C1 47 08 83 F8 01 75 1D 48 8B 07 48 8B CF FF 50 08 F0 0F C1 77 0C",
            1,
            15,
            vec![0x48, 0x89, 0xf8],
        ),
        CoreHook::Player => (
            "F2 0F 10 40 58 F2 ?? ?? ?? ?? ?? ?? ?? ?? ?? ?? ?? ?? ?? ?? ?? ?? ?? ?? ?? ?? ?? ?? ?? ?? ?? ??",
            0,
            0,
            Vec::new(),
        ),
        CoreHook::Quest => (
            "F3 41 0F 10 ?? FC 0C 00 00 F3 0F 11 ?? ?? ?? ?? ?? ?? ?? ?? ?? ?? ?? ??",
            0,
            0,
            vec![0x49, 0x8d, 0x87, 0xfc, 0x0c, 0x00, 0x00],
        ),
        CoreHook::PlayerStat => (
            "2B D8 B8 ?? ?? ?? ?? 0F 49 C3 48 83 C4 20 5B C3",
            0,
            14,
            vec![0x48, 0x89, 0xc8],
        ),
        CoreHook::RootWindow => (
            "49 8B 8D D8 00 00 00 48 8B 01 ?? ?? ?? ?? ?? ?? ?? FF 50 70 84 ?? ?? ?? ?? ?? ?? ?? ?? ?? ?? ??",
            0,
            0,
            vec![0x49, 0x8b, 0x85, 0xd8, 0x00, 0x00, 0x00],
        ),
        CoreHook::RenderContext => (
            "F3 44 0F 10 8B 98 00 00 00 ?? ?? ?? ?? ?? ?? ?? ?? ?? F3 41 0F 10 28 F3 0F 10 56 04 48 63 C1 ??",
            0,
            0,
            vec![0x48, 0x89, 0xd8],
        ),
    };
    let (payload, export_offset): (Vec<u8>, usize) = if hook == CoreHook::Player {
        player_payload()
    } else {
        proof {
            assert(capture@ =~= capture_code(hook));
        }
        capture_payload(capture.as_slice())
    };
    Template { signature, target_offset, overwrite_size, payload, export_offset }
}

/// The template of a core hook in the game or in the controlled fixture.
pub fn template_for_target(hook: CoreHook, controlled_fixture: bool) -> (built: Template)
    ensures
        is_template(built, hook, controlled_fixture),
{
    let built = template(hook);
    if !controlled_fixture {
        return built;
    }
    let signature: &'static str = match hook {
        CoreHook::Client => "B8 01 D0 C0 00 90 90 90 90 90 90 90 90 90 90 C3",
        CoreHook::Player => "B8 02 D0 C0 00 90 90 90 90 90 90 90 90 90 90 C3",
        CoreHook::Quest => "B8 03 D0 C0 00 90 90 90 90 90 90 90 90 90 90 C3",
        CoreHook::PlayerStat => "B8 04 D0 C0 00 90 90 90 90 90 90 90 90 90 90 C3",
        CoreHook::RootWindow => "B8 05 D0 C0 00 90 90 90 90 90 90 90 90 90 90 C3",
        CoreHook::RenderContext => "B8 06 D0 C0 00 90 90 90 90 90 90 90 90 90 90 C3",
    };
    Template {
        signature,
        target_offset: 0,
        overwrite_size: 16,
        payload: built.payload,
        export_offset: built.export_offset,
    }
}

/// The name of a core hook in its key.
pub open spec fn core_name(hook: CoreHook) -> Seq<char> {
    match hook {
        CoreHook::Client => "client"@,
        CoreHook::Player => "player"@,
        CoreHook::Quest => "quest"@,
        CoreHook::PlayerStat => "player_stat"@,
        CoreHook::RootWindow => "root_window"@,
        CoreHook::RenderContext => "render_context"@,
    }
}

/// The key of a core hook.
pub open spec fn core_key(hook: CoreHook) -> Seq<char> {
    "wizwalker.core."@ + core_name(hook)
}

proof fn lemma_core_key(hook: CoreHook)
    ensures
        key_refusal(core_key(hook)) is None,
{
    reveal_strlit("wizwalker.core.");
    reveal_strlit("client");
    reveal_strlit("player");
    reveal_strlit("quest");
    reveal_strlit("player_stat");
    reveal_strlit("root_window");
    reveal_strlit("render_context");
    let key = core_key(hook);
    assert(is_ascii_chars(key));
    is_ascii_chars_encode_utf8(key);
    assert(key[0] == 'w');
    assert(!is_white(key[0]));
}

/// No two core hooks share a key.
pub proof fn core_keys_differ(a: CoreHook, b: CoreHook)
    requires
        a != b,
    ensures
        core_key(a) != core_key(b),
{
    reveal_strlit("wizwalker.core.");
    reveal_strlit("client");
    reveal_strlit("player");
    reveal_strlit("quest");
    reveal_strlit("player_stat");
    reveal_strlit("root_window");
    reveal_strlit("render_context");
    if core_key(a) == core_key(b) {
        assert(core_key(a).skip(15) =~= core_name(a));
        assert(core_key(b).skip(15) =~= core_name(b));
        assert(core_name(a)[0] == core_name(b)[0]);
        assert(core_name(a).len() == core_name(b).len());
    }
}

/// The key of a core hook.
pub fn hook_key(hook: CoreHook) -> (key: String)
    ensures
        key@ == core_key(hook),
        key_refusal(key@) is None,
{
    proof {
        lemma_core_key(hook);
    }
    let name: &'static str = match hook {
        CoreHook::Client => "client",
        CoreHook::Player => "player",
        CoreHook::Quest => "quest",
        CoreHook::PlayerStat => "player_stat",
        CoreHook::RootWindow => "root_window",
        CoreHook::RenderContext => "render_context",
    };
    join2("wizwalker.core.", name)
}

/// A core hook as it is named in messages.
pub open spec fn hook_name(hook: CoreHook) -> Seq<char> {
    match hook {
        CoreHook::Client => "Client"@,
        CoreHook::Player => "Player"@,
        CoreHook::Quest => "Quest"@,
        CoreHook::PlayerStat => "PlayerStat"@,
        CoreHook::RootWindow => "RootWindow"@,
        CoreHook::RenderContext => "RenderContext"@,
    }
}

fn shown(hook: CoreHook) -> (name: &'static str)
    ensures
        name@ == hook_name(hook),
{
    match hook {
        CoreHook::Client => "Client",
        CoreHook::Player => "Player",
        CoreHook::Quest => "Quest",
        CoreHook::PlayerStat => "PlayerStat",
        CoreHook::RootWindow => "RootWindow",
        CoreHook::RenderContext => "RenderContext",
    }
}

/// A session on the controlled fixture.
pub open spec fn on_fixture<H>(sessions: Sessions<H>, id: Seq<char>) -> bool {
    sessions.sessions.dom().contains(id) && sessions.sessions[id].process.kind
        == ProcessKind::MemoryFixture
}

/// The plan of a core hook.
pub open spec fn core_plan(hook: CoreHook, fixture: bool) -> HookPlan {
    HookPlan {
        signature: core_signature(hook, fixture),
        scope: if fixture {
            None
        } else {
            Some(WIZARD101_EXECUTABLE@)
        },
        payload: core_payload(hook),
        target_offset: core_offset(hook, fixture),
        overwrite_size: Some(core_size(hook, fixture)),
    }
}

/// What activating a core hook does.
pub open spec fn core_activates<B: MutationBackend>(
    backend: &B,
    id: Seq<char>,
    hook: CoreHook,
    now: u64,
    before: World<B::Handle, B::ThreadHandle>,
    hooks: Hooks,
    after: World<B::Handle, B::ThreadHandle>,
    left: Hooks,
    result: Result<Hooked, Failure>,
) -> bool {
    activates(
        backend,
        (id, core_key(hook)),
        core_plan(hook, on_fixture(before.sessions, id)),
        now,
        before,
        hooks,
        after,
        left,
        result,
    )
}

/// Activates a core hook.
pub fn activate<B: MutationBackend>(
    sessions: &mut ProcessSessionRegistry<B::Handle>,
    backend: &B,
    mutations: &mut MutationState<B::ThreadHandle>,
    hooks: &mut HookState,
    request: &CoreHookRequest,
    now: u64,
) -> (answer: Result<CoreHookResponse, HookApiError>)
    requires
        old(sessions).wf(),
        old(mutations).wf(),
        old(hooks).wf(),
        now + HOOK_LEASE_MS <= u64::MAX,
    ensures
        final(sessions).wf(),
        final(mutations).wf(),
        final(hooks).wf(),
        old(sessions)@.leads_to(final(sessions)@),
        exists|result: Result<Hooked, Failure>|
            {
                &&& #[trigger] core_activates(
                    backend,
                    request.session_id.0@,
                    request.hook,
                    now,
                    World { sessions: old(sessions)@, owned: old(mutations)@ },
                    old(hooks)@,
                    World { sessions: final(sessions)@, owned: final(mutations)@ },
                    final(hooks)@,
                    result,
                )
                &&& match (answer, result) {
                    (Ok(response), Ok(_)) => {
                        &&& response.session_id.0@ == request.session_id.0@
                        &&& response.hook == request.hook
                        &&& response.active
                    },
                    (Err(error), Err(fault)) => error@ == fault,
                    _ => false,
                }
            },
{
    let ghost before = World { sessions: sessions@, owned: mutations@ };
    let ghost held = hooks@;
    let ghost id = request.session_id.0@;
    let fixture = match sessions.process_kind(&request.session_id) {
        Some(kind) => kind == ProcessKind::MemoryFixture,
        None => false,
    };
    let template = template_for_target(request.hook, fixture);
    let scope = if fixture {
        MemoryScanScope::Process
    } else {
        MemoryScanScope::Module { name: WIZARD101_EXECUTABLE.to_owned() }
    };
    let wanted = HookActivateRequest {
        session_id: request.session_id.clone(),
        hook_key: hook_key(request.hook),
        signature: template.signature.to_owned(),
        scope,
        payload: template.payload,
    };
    let ghost plan = core_plan(request.hook, fixture);
    let answer = hook::activate_template(
        sessions,
        backend,
        mutations,
        hooks,
        &wanted,
        template.target_offset,
        Some(template.overwrite_size),
        now,
    );
    proof {
        let after = World { sessions: sessions@, owned: mutations@ };
        assert(hook::requested(
            wanted,
            template.target_offset,
            Some(template.overwrite_size),
        ) == plan);
        let result = choose|result: Result<Hooked, Failure>|
            {
                &&& #[trigger] activates(
                    backend,
                    (id, core_key(request.hook)),
                    plan,
                    now,
                    before,
                    held,
                    after,
                    hooks@,
                    result,
                )
                &&& match (answer, result) {
                    (Ok(response), Ok(hooked)) => hook::shows_hook(
                        response,
                        (id, core_key(request.hook)),
                        hooked,
                    ),
                    (Err(error), Err(fault)) => error@ == fault,
                    _ => false,
                }
            };
        assert(core_activates(
            backend,
            id,
            request.hook,
            now,
            before,
            held,
            after,
            hooks@,
            result,
        ));
    }
    match answer {
        Err(error) => Err(error),
        Ok(_) => Ok(
            CoreHookResponse {
                session_id: request.session_id.clone(),
                hook: request.hook,
                active: true,
            },
        ),
    }
}

/// Takes a core hook out.
pub fn deactivate<B: MutationBackend>(
    sessions: &mut ProcessSessionRegistry<B::Handle>,
    backend: &B,
    mutations: &mut MutationState<B::ThreadHandle>,
    hooks: &mut HookState,
    request: &CoreHookRequest,
) -> (answer: Result<CoreHookDeactivateResponse, HookApiError>)
    requires
        old(sessions).wf(),
        old(mutations).wf(),
        old(hooks).wf(),
    ensures
        final(sessions).wf(),
        final(mutations).wf(),
        final(hooks).wf(),
        old(sessions)@.leads_to(final(sessions)@),
        exists|result: Result<bool, Trouble>|
            {
                &&& #[trigger] takes_out(
                    backend,
                    (request.session_id.0@, core_key(request.hook)),
                    World { sessions: old(sessions)@, owned: old(mutations)@ },
                    old(hooks)@,
                    World { sessions: final(sessions)@, owned: final(mutations)@ },
                    final(hooks)@,
                    result,
                )
                &&& match (answer, result) {
                    (Ok(response), Ok(there)) => {
                        &&& response.session_id.0@ == request.session_id.0@
                        &&& response.hook == request.hook
                        &&& response.deactivated == there
                    },
                    (Err(error), Err(trouble)) => error.trouble() == trouble && error is Mutation,
                    _ => false,
                }
            },
{
    let wanted = HookDeactivateRequest {
        session_id: request.session_id.clone(),
        hook_key: hook_key(request.hook),
    };
    match hook::deactivate(sessions, backend, mutations, hooks, &wanted) {
        Err(error) => Err(error),
        Ok(response) => Ok(
            CoreHookDeactivateResponse {
                session_id: request.session_id.clone(),
                hook: request.hook,
                deactivated: response.deactivated,
            },
        ),
    }
}

/// A core hook that is not in place.
pub open spec fn core_not_active(hook: CoreHook) -> Failure {
    failure(RpcErrorCode::InvalidRequest, "core hook "@ + hook_name(hook) + " is not active"@)
}

/// Where a core hook keeps the address that it captures.
pub open spec fn base_place(hooks: Hooks, id: Seq<char>, hook: CoreHook) -> Result<usize, Failure> {
    match placed_at(hooks, id, core_key(hook)) {
        None => Err(core_not_active(hook)),
        Some(at) => if at + slot_offset(hook) > usize::MAX {
            Err(
                failure(
                    RpcErrorCode::MemoryInvalidAddress,
                    "core-hook export address overflowed the agent address width"@,
                ),
            )
        } else {
            Ok((at + slot_offset(hook)) as usize)
        },
    }
}

/// Finds where a core hook keeps the address that it captures.
pub(crate) fn find_base(hooks: &HookState, session_id: &ProcessSessionId, hook: CoreHook) -> (place: Result<
    usize,
    HookApiError,
>)
    requires
        hooks.wf(),
    ensures
        match base_place(hooks@, session_id.0@, hook) {
            Ok(at) => place == Ok::<usize, HookApiError>(at),
            Err(fault) => place matches Err(error) && error@ == fault,
        },
{
    let template = template(hook);
    let key = hook_key(hook);
    match hooks.allocation_address(session_id, key.as_str()) {
        Some(at) => match at.checked_add(template.export_offset) {
            Some(address) => Ok(address),
            None => Err(
                HookApiError::request(
                    RpcErrorCode::MemoryInvalidAddress,
                    "core-hook export address overflowed the agent address width".to_owned(),
                ),
            ),
        },
        None => Err(
            HookApiError::request(
                RpcErrorCode::InvalidRequest,
                join3("core hook ", shown(hook), " is not active"),
            ),
        ),
    }
}

/// What reading a captured address does.
pub open spec fn reads_base<B: MutationBackend>(
    backend: &B,
    id: Seq<char>,
    hook: CoreHook,
    hooks: Hooks,
    before: Sessions<B::Handle>,
    step: Step<B::Handle, B::ThreadHandle>,
    after: Sessions<B::Handle>,
    answer: Result<CoreHookBaseResponse, HookApiError>,
) -> bool {
    match base_place(hooks, id, hook) {
        Err(fault) => after == before && hook::decides(answer, Some(fault)),
        Ok(place) => {
            &&& step_made(
                backend,
                id,
                World { sessions: before, owned: step.after.owned },
                step,
            )
            &&& step.op == (Op::Read {
                address: address_text(place as nat),
                size: 8,
            })
            &&& after == step.after.sessions
            &&& match step.reply {
                Reply::Fault { fault, said } => hook::decides(answer, Some(fault)),
                Reply::Bytes { bytes } => if bytes.len() == 8 {
                    answer matches Ok(response) && {
                        &&& response.session_id.0@ == id
                        &&& response.hook == hook
                        &&& response.base_address@ == address_text(le_value(bytes))
                    }
                } else {
                    hook::decides(answer, Some(odd_length()))
                },
                _ => false,
            }
        },
    }
}

/// A read of eight bytes that gave another number of bytes.
pub open spec fn odd_length() -> Failure {
    failure(
        RpcErrorCode::Internal,
        "an eight-byte hook read returned an unexpected length"@,
    )
}

/// Reads the address that a core hook captured.
pub fn read_base<B: MutationBackend>(
    sessions: &mut ProcessSessionRegistry<B::Handle>,
    backend: &B,
    hooks: &HookState,
    request: &CoreHookRequest,
) -> (answer: Result<CoreHookBaseResponse, HookApiError>)
    requires
        old(sessions).wf(),
        hooks.wf(),
    ensures
        final(sessions).wf(),
        old(sessions)@.leads_to(final(sessions)@),
        exists|step: Step<B::Handle, B::ThreadHandle>| #[trigger]
            reads_base(
                backend,
                request.session_id.0@,
                request.hook,
                hooks@,
                old(sessions)@,
                step,
                final(sessions)@,
                answer,
            ),
{
    let (answer, Ghost(step)) = base_of(sessions, backend, hooks, request);
    assert(reads_base(
        backend,
        request.session_id.0@,
        request.hook,
        hooks@,
        old(sessions)@,
        step,
        sessions@,
        answer,
    ));
    answer
}

fn base_of<B: MutationBackend>(
    sessions: &mut ProcessSessionRegistry<B::Handle>,
    backend: &B,
    hooks: &HookState,
    request: &CoreHookRequest,
) -> (read: (
    Result<CoreHookBaseResponse, HookApiError>,
    Ghost<Step<B::Handle, B::ThreadHandle>>,
))
    requires
        old(sessions).wf(),
        hooks.wf(),
    ensures
        final(sessions).wf(),
        old(sessions)@.leads_to(final(sessions)@),
        reads_base(
            backend,
            request.session_id.0@,
            request.hook,
            hooks@,
            old(sessions)@,
            read.1@,
            final(sessions)@,
            read.0,
        ),
{
    let address: usize = match find_base(hooks, &request.session_id, request.hook) {
        Ok(address) => address,
        Err(error) => {
            return (Err(error), Ghost(arbitrary()));
        },
    };
    let text = format_address(address);
    let (answer, Ghost(step)) = step_read(
        sessions,
        backend,
        &request.session_id,
        text.as_str(),
        8,
        Ghost(arbitrary()),
    );
    let bytes = match answer {
        Ok(bytes) => bytes,
        Err(error) => {
            return (Err(HookApiError::Memory(error)), Ghost(step));
        },
    };
    if bytes.len() != 8 {
        return (
            Err(
                HookApiError::request(
                    RpcErrorCode::Internal,
                    "an eight-byte hook read returned an unexpected length".to_owned(),
                ),
            ),
            Ghost(step),
        );
    }
    let value: u64 = read_le(bytes.as_slice(), 0, 8);
    proof {
        assert(bytes@.subrange(0, 8) =~= bytes@);
    }
    let shown = format_hex(value);
    (
        Ok(
            CoreHookBaseResponse {
                session_id: request.session_id.clone(),
                hook: request.hook,
                base_address: shown,
            },
        ),
        Ghost(step),
    )
}

/// The hooks after the leases of the first core hooks were renewed, and which of
/// them were. One that is not in place is passed over.
pub open spec fn core_renewed(hooks: Hooks, id: Seq<char>, now: u64, n: int) -> (
    Hooks,
    Seq<CoreHook>,
)
    decreases n,
{
    if n <= 0 {
        (hooks, Seq::empty())
    } else {
        let (before, renewed) = core_renewed(hooks, id, now, n - 1);
        let selected = core_hooks()[n - 1];
        if placed_at(before, id, core_key(selected)) is None {
            (before, renewed)
        } else {
            (
                after_heartbeat(before, (id, core_key(selected)), now).0,
                renewed.push(selected),
            )
        }
    }
}

/// Answers for core hooks that all stand alike.
pub open spec fn stand(
    responses: Seq<CoreHookResponse>,
    id: Seq<char>,
    hooks: Seq<CoreHook>,
    active: bool,
) -> bool {
    &&& responses.len() == hooks.len()
    &&& forall|i: int|
        0 <= i < responses.len() ==> {
            &&& (#[trigger] responses[i]).session_id.0@ == id
            &&& responses[i].hook == hooks[i]
            &&& responses[i].active == active
        }
}

/// Renews the leases of the core hooks that are in place.
pub fn heartbeat_all(
    hooks: &mut HookState,
    request: &CoreHookSessionRequest,
    now: u64,
) -> (answer: Result<CoreHooksResponse, HookApiError>)
    requires
        old(hooks).wf(),
        now + HOOK_LEASE_MS <= u64::MAX,
    ensures
        final(hooks).wf(),
        ({
            let (left, renewed) = core_renewed(old(hooks)@, request.session_id.0@, now, 6);
            &&& final(hooks)@ == left
            &&& answer matches Ok(response) && {
                &&& response.session_id.0@ == request.session_id.0@
                &&& stand(response.hooks@, request.session_id.0@, renewed, true)
            }
        }),
{
    let ghost held = hooks@;
    let ghost id = request.session_id.0@;
    let all = CoreHook::all();
    let mut responses: Vec<CoreHookResponse> = Vec::new();
    let mut i: usize = 0;
    while i < all.len()
        invariant
            i <= all@.len(),
            all@ == core_hooks(),
            id == request.session_id.0@,
            now + HOOK_LEASE_MS <= u64::MAX,
            hooks.wf(),
            hooks@ == core_renewed(held, id, now, i as int).0,
            stand(responses@, id, core_renewed(held, id, now, i as int).1, true),
        decreases all@.len() - i,
    {
        let selected = all[i];
        let key = hook_key(selected);
        let ghost before = responses@;
        if hooks.allocation_address(&request.session_id, key.as_str()).is_some() {
            let wanted = HookHeartbeatRequest {
                session_id: request.session_id.clone(),
                hook_key: key,
            };
            match hook::heartbeat(hooks, &wanted, now) {
                Ok(_) => {},
                Err(error) => {
                    proof {
                        assert(false);
                    }
                    return Err(error);
                },
            }
            responses.push(
                CoreHookResponse {
                    session_id: request.session_id.clone(),
                    hook: selected,
                    active: true,
                },
            );
            proof {
                let renewed = core_renewed(held, id, now, i + 1).1;
                assert forall|j: int| 0 <= j < responses@.len() implies {
                    &&& (#[trigger] responses@[j]).session_id.0@ == id
                    &&& responses@[j].hook == renewed[j]
                    &&& responses@[j].active
                } by {
                    if j < before.len() {
                        assert(responses@[j] == before[j]);
                    }
                }
            }
        }
        i += 1;
    }
    Ok(CoreHooksResponse { session_id: request.session_id.clone(), hooks: responses })
}

/// Where an activation left things.
pub ghost struct CoreTurn<H, T, R> {
    pub world: World<H, T>,
    pub hooks: Hooks,
    pub result: R,
}

/// An activation's turn.
pub type Rise<H, T> = CoreTurn<H, T, Result<Hooked, Failure>>;

/// A removal's turn.
pub type Fall<H, T> = CoreTurn<H, T, Result<bool, Trouble>>;

/// Where things stood before a turn.
pub open spec fn before_core_turn<H, T, R>(
    start: (World<H, T>, Hooks),
    turns: Seq<CoreTurn<H, T, R>>,
    i: int,
) -> (World<H, T>, Hooks) {
    if i == 0 {
        start
    } else {
        (turns[i - 1].world, turns[i - 1].hooks)
    }
}

/// Whether a core hook was activated in its turn.
#[verifier::opaque]
pub open spec fn rise_made<B: MutationBackend>(
    backend: &B,
    id: Seq<char>,
    hook: CoreHook,
    now: u64,
    before: (World<B::Handle, B::ThreadHandle>, Hooks),
    after: Rise<B::Handle, B::ThreadHandle>,
) -> bool {
    core_activates(
        backend,
        id,
        hook,
        now,
        before.0,
        before.1,
        after.world,
        after.hooks,
        after.result,
    )
}

/// Whether a core hook was taken out in its turn.
#[verifier::opaque]
pub open spec fn fall_made<B: MutationBackend>(
    backend: &B,
    id: Seq<char>,
    hook: CoreHook,
    before: (World<B::Handle, B::ThreadHandle>, Hooks),
    after: Fall<B::Handle, B::ThreadHandle>,
) -> bool {
    takes_out(
        backend,
        (id, core_key(hook)),
        before.0,
        before.1,
        after.world,
        after.hooks,
        after.result,
    )
}

/// Whether core hooks were activated in turn, up to the first that failed.
pub open spec fn rises_made<B: MutationBackend>(
    backend: &B,
    id: Seq<char>,
    now: u64,
    start: (World<B::Handle, B::ThreadHandle>, Hooks),
    rises: Seq<Rise<B::Handle, B::ThreadHandle>>,
) -> bool {
    &&& rises.len() <= 6
    &&& forall|i: int|
        0 <= i < rises.len() ==> rise_made(
            backend,
            id,
            core_hooks()[i],
            now,
            before_core_turn(start, rises, i),
            #[trigger] rises[i],
        )
    &&& forall|i: int| 0 <= i < rises.len() - 1 ==> (#[trigger] rises[i]).result is Ok
}

/// Whether core hooks were taken out in turn, each whatever came of the others.
pub open spec fn falls_made<B: MutationBackend>(
    backend: &B,
    id: Seq<char>,
    order: Seq<CoreHook>,
    start: (World<B::Handle, B::ThreadHandle>, Hooks),
    falls: Seq<Fall<B::Handle, B::ThreadHandle>>,
) -> bool {
    &&& falls.len() == order.len()
    &&& forall|i: int|
        0 <= i < order.len() ==> fall_made(
            backend,
            id,
            order[i],
            before_core_turn(start, falls, i),
            #[trigger] falls[i],
        )
}

/// The core hooks that were not in place before their turn.
pub open spec fn fresh<H, T>(
    id: Seq<char>,
    start: (World<H, T>, Hooks),
    rises: Seq<Rise<H, T>>,
    n: int,
) -> Seq<CoreHook>
    decreases n,
{
    if n <= 0 {
        Seq::empty()
    } else {
        let before = fresh(id, start, rises, n - 1);
        let selected = core_hooks()[n - 1];
        if placed_at(before_core_turn(start, rises, n - 1).1, id, core_key(selected)) is None {
            before.push(selected)
        } else {
            before
        }
    }
}

/// The core hooks that could not be taken out again.
pub open spec fn fall_failures<H, T>(
    order: Seq<CoreHook>,
    falls: Seq<Fall<H, T>>,
    n: int,
) -> Seq<Seq<char>>
    decreases n,
{
    if n <= 0 {
        Seq::empty()
    } else {
        let before = fall_failures(order, falls, n - 1);
        match falls[n - 1].result {
            Ok(_) => before,
            Err(trouble) => before.push(
                hook_name(order[n - 1]) + ": "@ + ("Mutation("@ + trouble.said + ")"@),
            ),
        }
    }
}

/// A combined activation that failed and could not be rolled back.
pub open spec fn not_rolled_back(failures: Seq<Seq<char>>) -> Failure {
    failure(
        RpcErrorCode::MemoryWriteFailed,
        "core-hook activation failed and rollback could not be verified for "@ + dec_text(
            failures.len(),
        )
            + " hook(s); failed records remain agent-owned and process-session cleanup will retry: "@
            + joined(failures, "; "@),
    )
}

/// What a combined activation does: each core hook has its turn up to the first
/// that fails, and after a failure those that were not in place before are taken
/// out again, the last one first.
pub open spec fn all_activated<B: MutationBackend>(
    backend: &B,
    id: Seq<char>,
    now: u64,
    start: (World<B::Handle, B::ThreadHandle>, Hooks),
    rises: Seq<Rise<B::Handle, B::ThreadHandle>>,
    falls: Seq<Fall<B::Handle, B::ThreadHandle>>,
    end: (World<B::Handle, B::ThreadHandle>, Hooks),
    result: Result<(), Failure>,
) -> bool {
    let n = rises.len() as int;
    let at = before_core_turn(start, rises, n);
    &&& rises_made(backend, id, now, start, rises)
    &&& if n == 6 && rises[5].result is Ok {
        end == at && result == Ok::<(), Failure>(())
    } else {
        let order = fresh(id, start, rises, n - 1).reverse();
        let m = order.len() as int;
        let failures = fall_failures(order, falls, m);
        &&& n > 0
        &&& rises[n - 1].result is Err
        &&& falls_made(backend, id, order, at, falls)
        &&& end == before_core_turn(at, falls, m)
        &&& result == if failures.len() == 0 {
            Err::<(), Failure>(rises[n - 1].result->Err_0)
        } else {
            Err(not_rolled_back(failures))
        }
    }
}

/// What a combined removal does: each core hook has its turn, the last one first.
pub open spec fn all_deactivated<B: MutationBackend>(
    backend: &B,
    id: Seq<char>,
    start: (World<B::Handle, B::ThreadHandle>, Hooks),
    falls: Seq<Fall<B::Handle, B::ThreadHandle>>,
    end: (World<B::Handle, B::ThreadHandle>, Hooks),
    result: Result<(), Failure>,
) -> bool {
    &&& falls_made(backend, id, core_hooks().reverse(), start, falls)
    &&& end == before_core_turn(start, falls, 6)
    &&& result == match first_trouble(falls, 6) {
        Some(trouble) => Err::<(), Failure>(trouble.fault),
        None => Ok(()),
    }
}

/// The first failure among removals.
pub open spec fn first_trouble<H, T>(falls: Seq<Fall<H, T>>, n: int) -> Option<Trouble>
    decreases n,
{
    if n <= 0 {
        None
    } else {
        match first_trouble(falls, n - 1) {
            Some(trouble) => Some(trouble),
            None => match falls[n - 1].result {
                Ok(_) => None,
                Err(trouble) => Some(trouble),
            },
        }
    }
}

fn rise<B: MutationBackend>(
    sessions: &mut ProcessSessionRegistry<B::Handle>,
    backend: &B,
    mutations: &mut MutationState<B::ThreadHandle>,
    hooks: &mut HookState,
    session_id: &ProcessSessionId,
    selected: CoreHook,
    now: u64,
) -> (turn: (Result<CoreHookResponse, HookApiError>, Ghost<Rise<B::Handle, B::ThreadHandle>>))
    requires
        old(sessions).wf(),
        old(mutations).wf(),
        old(hooks).wf(),
        now + HOOK_LEASE_MS <= u64::MAX,
    ensures
        final(sessions).wf(),
        final(mutations).wf(),
        final(hooks).wf(),
        old(sessions)@.leads_to(final(sessions)@),
        rise_made(
            backend,
            session_id.0@,
            selected,
            now,
            (World { sessions: old(sessions)@, owned: old(mutations)@ }, old(hooks)@),
            turn.1@,
        ),
        turn.1@.world == (World { sessions: final(sessions)@, owned: final(mutations)@ }),
        turn.1@.hooks == final(hooks)@,
        match (turn.0, turn.1@.result) {
            (Ok(response), Ok(_)) => {
                &&& response.session_id.0@ == session_id.0@
                &&& response.hook == selected
                &&& response.active
            },
            (Err(error), Err(fault)) => error@ == fault,
            _ => false,
        },
{
    let ghost before = World { sessions: sessions@, owned: mutations@ };
    let ghost held = hooks@;
    let request = CoreHookRequest { session_id: session_id.clone(), hook: selected };
    let answer = activate(sessions, backend, mutations, hooks, &request, now);
    let ghost after = World { sessions: sessions@, owned: mutations@ };
    let ghost result = choose|result: Result<Hooked, Failure>|
        {
            &&& #[trigger] core_activates(
                backend,
                session_id.0@,
                selected,
                now,
                before,
                held,
                after,
                hooks@,
                result,
            )
            &&& match (answer, result) {
                (Ok(response), Ok(_)) => {
                    &&& response.session_id.0@ == session_id.0@
                    &&& response.hook == selected
                    &&& response.active
                },
                (Err(error), Err(fault)) => error@ == fault,
                _ => false,
            }
        };
    let ghost turn = CoreTurn { world: after, hooks: hooks@, result };
    proof {
        reveal(rise_made);
    }
    (answer, Ghost(turn))
}

fn fall<B: MutationBackend>(
    sessions: &mut ProcessSessionRegistry<B::Handle>,
    backend: &B,
    mutations: &mut MutationState<B::ThreadHandle>,
    hooks: &mut HookState,
    session_id: &ProcessSessionId,
    selected: CoreHook,
) -> (turn: (
    Result<CoreHookDeactivateResponse, HookApiError>,
    Ghost<Fall<B::Handle, B::ThreadHandle>>,
))
    requires
        old(sessions).wf(),
        old(mutations).wf(),
        old(hooks).wf(),
    ensures
        final(sessions).wf(),
        final(mutations).wf(),
        final(hooks).wf(),
        old(sessions)@.leads_to(final(sessions)@),
        fall_made(
            backend,
            session_id.0@,
            selected,
            (World { sessions: old(sessions)@, owned: old(mutations)@ }, old(hooks)@),
            turn.1@,
        ),
        turn.1@.world == (World { sessions: final(sessions)@, owned: final(mutations)@ }),
        turn.1@.hooks == final(hooks)@,
        match (turn.0, turn.1@.result) {
            (Ok(response), Ok(there)) => {
                &&& response.session_id.0@ == session_id.0@
                &&& response.hook == selected
                &&& response.deactivated == there
            },
            (Err(error), Err(trouble)) => error.trouble() == trouble && error is Mutation,
            _ => false,
        },
{
    let ghost before = World { sessions: sessions@, owned: mutations@ };
    let ghost held = hooks@;
    let request = CoreHookRequest { session_id: session_id.clone(), hook: selected };
    let answer = deactivate(sessions, backend, mutations, hooks, &request);
    let ghost after = World { sessions: sessions@, owned: mutations@ };
    let ghost result = choose|result: Result<bool, Trouble>|
        {
            &&& #[trigger] takes_out(
                backend,
                (session_id.0@, core_key(selected)),
                before,
                held,
                after,
                hooks@,
                result,
            )
            &&& match (answer, result) {
                (Ok(response), Ok(there)) => {
                    &&& response.session_id.0@ == session_id.0@
                    &&& response.hook == selected
                    &&& response.deactivated == there
                },
                (Err(error), Err(trouble)) => error.trouble() == trouble && error is Mutation,
                _ => false,
            }
        };
    let ghost turn = CoreTurn { world: after, hooks: hooks@, result };
    proof {
        reveal(fall_made);
    }
    (answer, Ghost(turn))
}

proof fn lemma_falls_step<B: MutationBackend>(
    backend: &B,
    id: Seq<char>,
    order: Seq<CoreHook>,
    start: (World<B::Handle, B::ThreadHandle>, Hooks),
    falls: Seq<Fall<B::Handle, B::ThreadHandle>>,
    turn: Fall<B::Handle, B::ThreadHandle>,
)
    requires
        falls.len() < order.len(),
        falls_made(backend, id, order.take(falls.len() as int), start, falls),
        fall_made(
            backend,
            id,
            order[falls.len() as int],
            before_core_turn(start, falls, falls.len() as int),
            turn,
        ),
    ensures
        falls_made(
            backend,
            id,
            order.take(falls.len() as int + 1),
            start,
            falls.push(turn),
        ),
        before_core_turn(start, falls.push(turn), falls.len() as int + 1) == (turn.world, turn.hooks),
{
    let longer = falls.push(turn);
    let some = order.take(falls.len() as int);
    let more = order.take(falls.len() as int + 1);
    assert forall|i: int| 0 <= i < more.len() implies fall_made(
        backend,
        id,
        more[i],
        before_core_turn(start, longer, i),
        #[trigger] longer[i],
    ) by {
        assert(before_core_turn(start, longer, i) == before_core_turn(start, falls, i));
        if i < falls.len() {
            assert(some[i] == more[i]);
            assert(fall_made(
                backend,
                id,
                some[i],
                before_core_turn(start, falls, i),
                falls[i],
            ));
        }
    }
}

proof fn lemma_fall_failures_agree<H, T>(
    order: Seq<CoreHook>,
    a: Seq<Fall<H, T>>,
    b: Seq<Fall<H, T>>,
    n: int,
)
    requires
        forall|i: int| 0 <= i < n ==> a[i] == b[i],
    ensures
        fall_failures(order, a, n) == fall_failures(order, b, n),
        first_trouble(a, n) == first_trouble(b, n),
    decreases n,
{
    if n > 0 {
        lemma_fall_failures_agree(order, a, b, n - 1);
    }
}

fn roll_back<B: MutationBackend>(
    sessions: &mut ProcessSessionRegistry<B::Handle>,
    backend: &B,
    mutations: &mut MutationState<B::ThreadHandle>,
    hooks: &mut HookState,
    session_id: &ProcessSessionId,
    activated: &Vec<CoreHook>,
) -> (done: (Vec<String>, Ghost<Seq<Fall<B::Handle, B::ThreadHandle>>>))
    requires
        old(sessions).wf(),
        old(mutations).wf(),
        old(hooks).wf(),
    ensures
        final(sessions).wf(),
        final(mutations).wf(),
        final(hooks).wf(),
        old(sessions)@.leads_to(final(sessions)@),
        ({
            let order = activated@.reverse();
            let start = (
                World { sessions: old(sessions)@, owned: old(mutations)@ },
                old(hooks)@,
            );
            let m = order.len() as int;
            &&& falls_made(backend, session_id.0@, order, start, done.1@)
            &&& before_core_turn(start, done.1@, m) == (
                World { sessions: final(sessions)@, owned: final(mutations)@ },
                final(hooks)@,
            )
            &&& texts(done.0@) == fall_failures(order, done.1@, m)
        }),
{
    let ghost id = session_id.0@;
    let ghost order = activated@.reverse();
    let ghost start = (World { sessions: sessions@, owned: mutations@ }, hooks@);
    let ghost mut falls: Seq<Fall<B::Handle, B::ThreadHandle>> = Seq::empty();
    let mut failures: Vec<String> = Vec::new();
    proof {
        assert(texts(failures@) =~= Seq::empty());
        assert(order.take(0) =~= Seq::empty());
    }
    let mut left: usize = activated.len();
    while left > 0
        invariant
            left <= activated@.len(),
            id == session_id.0@,
            order == activated@.reverse(),
            order.len() == activated@.len(),
            start == (
                World { sessions: old(sessions)@, owned: old(mutations)@ },
                old(hooks)@,
            ),
            sessions.wf(),
            mutations.wf(),
            hooks.wf(),
            start.0.sessions.leads_to(sessions@),
            falls.len() == order.len() - left,
            falls_made(backend, id, order.take(order.len() - left), start, falls),
            before_core_turn(start, falls, order.len() - left) == (
                World { sessions: sessions@, owned: mutations@ },
                hooks@,
            ),
            texts(failures@) == fall_failures(order, falls, order.len() - left),
        decreases left,
    {
        left -= 1;
        let selected = activated[left];
        let ghost done = falls.len() as int;
        let ghost before = falls;
        let (answer, Ghost(turn)) = fall(
            sessions,
            backend,
            mutations,
            hooks,
            session_id,
            selected,
        );
        proof {
            assert(order[done] == selected);
            lemma_falls_step(backend, id, order, start, before, turn);
            falls = before.push(turn);
            lemma_fall_failures_agree(order, before, falls, done);
        }
        if let Err(error) = answer {
            let said = error.describe();
            let text = join3(shown(selected), ": ", said.as_str());
            let ghost told = failures@;
            failures.push(text);
            proof {
                assert(texts(failures@) =~= texts(told).push(text@));
            }
        }
    }
    proof {
        assert(order.take(order.len() as int) =~= order);
    }
    (failures, Ghost(falls))
}

proof fn lemma_rises_step<B: MutationBackend>(
    backend: &B,
    id: Seq<char>,
    now: u64,
    start: (World<B::Handle, B::ThreadHandle>, Hooks),
    rises: Seq<Rise<B::Handle, B::ThreadHandle>>,
    turn: Rise<B::Handle, B::ThreadHandle>,
)
    requires
        rises.len() < 6,
        rises_made(backend, id, now, start, rises),
        rises.len() > 0 ==> rises.last().result is Ok,
        rise_made(
            backend,
            id,
            core_hooks()[rises.len() as int],
            now,
            before_core_turn(start, rises, rises.len() as int),
            turn,
        ),
    ensures
        rises_made(backend, id, now, start, rises.push(turn)),
        before_core_turn(start, rises.push(turn), rises.len() as int + 1) == (turn.world, turn.hooks),
        rises.push(turn).last() == turn,
{
    let longer = rises.push(turn);
    assert forall|i: int| 0 <= i < longer.len() implies rise_made(
        backend,
        id,
        core_hooks()[i],
        now,
        before_core_turn(start, longer, i),
        #[trigger] longer[i],
    ) by {
        assert(before_core_turn(start, longer, i) == before_core_turn(start, rises, i));
        if i < rises.len() {
            assert(rise_made(
                backend,
                id,
                core_hooks()[i],
                now,
                before_core_turn(start, rises, i),
                rises[i],
            ));
        }
    }
    assert forall|i: int| 0 <= i < longer.len() - 1 implies (#[trigger] longer[i]).result is Ok by {
        if i == rises.len() - 1 {
            assert(rises.last() == rises[i]);
        } else {
            assert(rises[i].result is Ok);
        }
    }
}

proof fn lemma_fresh_agree<H, T>(
    id: Seq<char>,
    start: (World<H, T>, Hooks),
    a: Seq<Rise<H, T>>,
    b: Seq<Rise<H, T>>,
    n: int,
)
    requires
        forall|i: int| 0 <= i < n ==> a[i] == b[i],
    ensures
        fresh(id, start, a, n) == fresh(id, start, b, n),
    decreases n,
{
    if n > 0 {
        lemma_fresh_agree(id, start, a, b, n - 1);
    }
}

/// Activates all core hooks of a session, or none that was not in place before.
pub fn activate_all<B: MutationBackend>(
    sessions: &mut ProcessSessionRegistry<B::Handle>,
    backend: &B,
    mutations: &mut MutationState<B::ThreadHandle>,
    hooks: &mut HookState,
    request: &CoreHookSessionRequest,
    now: u64,
) -> (answer: Result<CoreHooksResponse, HookApiError>)
    requires
        old(sessions).wf(),
        old(mutations).wf(),
        old(hooks).wf(),
        now + HOOK_LEASE_MS <= u64::MAX,
    ensures
        final(sessions).wf(),
        final(mutations).wf(),
        final(hooks).wf(),
        old(sessions)@.leads_to(final(sessions)@),
        exists|
            rises: Seq<Rise<B::Handle, B::ThreadHandle>>,
            falls: Seq<Fall<B::Handle, B::ThreadHandle>>,
            result: Result<(), Failure>,
        |
            {
                &&& #[trigger] all_activated(
                    backend,
                    request.session_id.0@,
                    now,
                    (World { sessions: old(sessions)@, owned: old(mutations)@ }, old(hooks)@),
                    rises,
                    falls,
                    (
                        World { sessions: final(sessions)@, owned: final(mutations)@ },
                        final(hooks)@,
                    ),
                    result,
                )
                &&& all_stand(answer, request.session_id.0@, true, result)
            },
{
    let ghost id = request.session_id.0@;
    let ghost start = (World { sessions: sessions@, owned: mutations@ }, hooks@);
    let ghost mut rises: Seq<Rise<B::Handle, B::ThreadHandle>> = Seq::empty();
    let all = CoreHook::all();
    let mut activated: Vec<CoreHook> = Vec::new();
    let mut responses: Vec<CoreHookResponse> = Vec::new();
    let mut i: usize = 0;
    while i < all.len()
        invariant
            i <= all@.len(),
            all@ == core_hooks(),
            id == request.session_id.0@,
            now + HOOK_LEASE_MS <= u64::MAX,
            start == (
                World { sessions: old(sessions)@, owned: old(mutations)@ },
                old(hooks)@,
            ),
            sessions.wf(),
            mutations.wf(),
            hooks.wf(),
            start.0.sessions.leads_to(sessions@),
            rises.len() == i,
            rises_made(backend, id, now, start, rises),
            rises.len() > 0 ==> rises.last().result is Ok,
            before_core_turn(start, rises, i as int) == (
                World { sessions: sessions@, owned: mutations@ },
                hooks@,
            ),
            activated@ == fresh(id, start, rises, i as int),
            stand(responses@, id, core_hooks().take(i as int), true),
        decreases all@.len() - i,
    {
        let selected = all[i];
        let key = hook_key(selected);
        let was_active = hooks.allocation_address(&request.session_id, key.as_str()).is_some();
        let ghost before = rises;
        let ghost told = responses@;
        let (answer, Ghost(turn)) = rise(
            sessions,
            backend,
            mutations,
            hooks,
            &request.session_id,
            selected,
            now,
        );
        proof {
            lemma_rises_step(backend, id, now, start, before, turn);
            rises = before.push(turn);
            lemma_fresh_agree(id, start, before, rises, i as int);
            assert(before_core_turn(start, rises, i as int) == before_core_turn(
                start,
                before,
                i as int,
            ));
        }
        match answer {
            Ok(response) => {
                if !was_active {
                    activated.push(selected);
                }
                responses.push(response);
                proof {
                    let some = core_hooks().take(i + 1);
                    assert forall|j: int| 0 <= j < responses@.len() implies {
                        &&& (#[trigger] responses@[j]).session_id.0@ == id
                        &&& responses@[j].hook == some[j]
                        &&& responses@[j].active
                    } by {
                        if j < told.len() {
                            assert(responses@[j] == told[j]);
                            assert(core_hooks().take(i as int)[j] == some[j]);
                        }
                    }
                }
            },
            Err(activation_error) => {
                let ghost at = (World { sessions: sessions@, owned: mutations@ }, hooks@);
                let (failures, Ghost(falls)) = roll_back(
                    sessions,
                    backend,
                    mutations,
                    hooks,
                    &request.session_id,
                    &activated,
                );
                proof {
                    assert(texts(failures@).len() == failures@.len());
                }
                let ghost end = (World { sessions: sessions@, owned: mutations@ }, hooks@);
                if failures.len() > 0 {
                    let count = format_decimal(failures.len() as u64);
                    let listed = join_all(&failures, "; ");
                    let message = join4(
                        "core-hook activation failed and rollback could not be verified for ",
                        count.as_str(),
                        " hook(s); failed records remain agent-owned and process-session cleanup will retry: ",
                        listed.as_str(),
                    );
                    proof {
                        assert(all_activated(
                            backend,
                            id,
                            now,
                            start,
                            rises,
                            falls,
                            end,
                            Err(not_rolled_back(texts(failures@))),
                        ));
                    }
                    return Err(
                        HookApiError::request(RpcErrorCode::MemoryWriteFailed, message),
                    );
                }
                proof {
                    assert(all_activated(
                        backend,
                        id,
                        now,
                        start,
                        rises,
                        falls,
                        end,
                        Err(activation_error@),
                    ));
                }
                return Err(activation_error);
            },
        }
        i += 1;
    }
    proof {
        assert(rises[5] == rises.last());
        assert(core_hooks().take(6) =~= core_hooks());
        let falls: Seq<Fall<B::Handle, B::ThreadHandle>> = Seq::empty();
        let end = (World { sessions: sessions@, owned: mutations@ }, hooks@);
        assert(all_activated(backend, id, now, start, rises, falls, end, Ok(())));
    }
    Ok(CoreHooksResponse { session_id: request.session_id.clone(), hooks: responses })
}

/// The answer to a request on all core hooks.
pub open spec fn all_stand(
    answer: Result<CoreHooksResponse, HookApiError>,
    id: Seq<char>,
    active: bool,
    result: Result<(), Failure>,
) -> bool {
    match (answer, result) {
        (Ok(response), Ok(_)) => {
            &&& response.session_id.0@ == id
            &&& stand(response.hooks@, id, core_hooks(), active)
        },
        (Err(error), Err(fault)) => error@ == fault,
        _ => false,
    }
}

/// Takes all core hooks of a session out.
pub fn deactivate_all<B: MutationBackend>(
    sessions: &mut ProcessSessionRegistry<B::Handle>,
    backend: &B,
    mutations: &mut MutationState<B::ThreadHandle>,
    hooks: &mut HookState,
    request: &CoreHookSessionRequest,
) -> (answer: Result<CoreHooksResponse, HookApiError>)
    requires
        old(sessions).wf(),
        old(mutations).wf(),
        old(hooks).wf(),
    ensures
        final(sessions).wf(),
        final(mutations).wf(),
        final(hooks).wf(),
        old(sessions)@.leads_to(final(sessions)@),
        exists|falls: Seq<Fall<B::Handle, B::ThreadHandle>>, result: Result<(), Failure>|
            {
                &&& #[trigger] all_deactivated(
                    backend,
                    request.session_id.0@,
                    (World { sessions: old(sessions)@, owned: old(mutations)@ }, old(hooks)@),
                    falls,
                    (
                        World { sessions: final(sessions)@, owned: final(mutations)@ },
                        final(hooks)@,
                    ),
                    result,
                )
                &&& all_stand(answer, request.session_id.0@, false, result)
            },
{
    let ghost id = request.session_id.0@;
    let ghost start = (World { sessions: sessions@, owned: mutations@ }, hooks@);
    let ghost order = core_hooks().reverse();
    let ghost mut falls: Seq<Fall<B::Handle, B::ThreadHandle>> = Seq::empty();
    let all = CoreHook::all();
    let mut first_error: Option<HookApiError> = None;
    let mut left: usize = all.len();
    proof {
        assert(order.take(0) =~= Seq::empty());
    }
    while left > 0
        invariant
            left <= all@.len(),
            all@ == core_hooks(),
            id == request.session_id.0@,
            order == core_hooks().reverse(),
            order.len() == 6,
            start == (
                World { sessions: old(sessions)@, owned: old(mutations)@ },
                old(hooks)@,
            ),
            sessions.wf(),
            mutations.wf(),
            hooks.wf(),
            start.0.sessions.leads_to(sessions@),
            falls.len() == 6 - left,
            falls_made(backend, id, order.take(6 - left), start, falls),
            before_core_turn(start, falls, 6 - left) == (
                World { sessions: sessions@, owned: mutations@ },
                hooks@,
            ),
            match (first_error, first_trouble(falls, 6 - left)) {
                (Some(error), Some(trouble)) => error@ == trouble.fault,
                (None, None) => true,
                _ => false,
            },
        decreases left,
    {
        left -= 1;
        let selected = all[left];
        let ghost done = falls.len() as int;
        let ghost before = falls;
        let (answer, Ghost(turn)) = fall(
            sessions,
            backend,
            mutations,
            hooks,
            &request.session_id,
            selected,
        );
        proof {
            assert(order[done] == selected);
            lemma_falls_step(backend, id, order, start, before, turn);
            falls = before.push(turn);
            lemma_fall_failures_agree(order, before, falls, done);
        }
        if let Err(error) = answer {
            if first_error.is_none() {
                first_error = Some(error);
            }
        }
    }
    let mut responses: Vec<CoreHookResponse> = Vec::new();
    let mut i: usize = 0;
    while i < all.len()
        invariant
            i <= all@.len(),
            all@ == core_hooks(),
            id == request.session_id.0@,
            stand(responses@, id, core_hooks().take(i as int), false),
        decreases all@.len() - i,
    {
        let ghost told = responses@;
        responses.push(
            CoreHookResponse {
                session_id: request.session_id.clone(),
                hook: all[i],
                active: false,
            },
        );
        proof {
            let some = core_hooks().take(i + 1);
            assert forall|j: int| 0 <= j < responses@.len() implies {
                &&& (#[trigger] responses@[j]).session_id.0@ == id
                &&& responses@[j].hook == some[j]
                &&& !responses@[j].active
            } by {
                if j < told.len() {
                    assert(responses@[j] == told[j]);
                    assert(core_hooks().take(i as int)[j] == some[j]);
                }
            }
        }
        i += 1;
    }
    proof {
        assert(order.take(6) =~= order);
        assert(core_hooks().take(6) =~= core_hooks());
        let end = (World { sessions: sessions@, owned: mutations@ }, hooks@);
        let result = match first_trouble(falls, 6) {
            Some(trouble) => Err::<(), Failure>(trouble.fault),
            None => Ok(()),
        };
        assert(all_deactivated(backend, id, start, falls, end, result));
    }
    if let Some(error) = first_error {
        return Err(error);
    }
    Ok(CoreHooksResponse { session_id: request.session_id.clone(), hooks: responses })
}

}
