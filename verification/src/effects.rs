//! What the code of the feature hooks does when a thread of the game runs it.

use vstd::prelude::*;

use crate::assembly::{
    assembly, lemma_assembled_len, lemma_branch_stands, lemma_piece_stands, lemma_place_at, offset,
    piece_code, Label,
};
use crate::codec::{
    le_bytes, le_value, lemma_le_bytes_len, lemma_le_value_bound, lemma_pow256,
    read_value_writes_back, wrap32,
};
use crate::machine::{
    held, is_zero, lemma_absolute, lemma_branch, lemma_bytes_stand, lemma_copied, lemma_eight,
    lemma_four, lemma_held_bound, lemma_held_byte, lemma_is_based, lemma_is_reg, lemma_locked,
    lemma_low_byte, lemma_next, lemma_part_stands, lemma_plain, lemma_pop, lemma_push, lemma_put,
    lemma_set32, lemma_set64, lemma_stays, lemma_stored, lemma_wide, load, number, put, reach32,
    reaches, stands, Cpu, Inst, Operand, Place,
};
use crate::payload::{
    at, body, code_len, counter_bytes, counter_offset, dance_bytes, lemma_code_len, lemma_layout,
    lemma_movement, lists_slots, memory_is_clear_and_skipped, mouse_bytes, movement_pieces, payload,
    payload_len, slot_at, ExportSlot, PayloadKind,
};
use crate::protocol::FeatureHookExport;

verus! {

/// The code that moves the player stands at a place.
#[verifier::opaque]
spec fn movement_holds(code: Seq<u8>, o: int, helper: usize, first_je: usize, second_je: usize, first_original: Seq<u8>, second_original: Seq<u8>) -> bool {
    &&& 0 <= o
    &&& o + 118 <= code.len()
    &&& code[o + 0] == 0x50
    &&& code[o + 1] == 0x48
    &&& code[o + 2] == 0xa1
    &&& number(code, o + 3, 8) == (helper + 13)
    &&& code[o + 11] == 0x48
    &&& code[o + 12] == 0x39
    &&& code[o + 13] == 0xc1
    &&& code[o + 14] == 0x58
    &&& code[o + 15] == 0x0f
    &&& code[o + 16] == 0x85
    &&& reach32(code, o + 17) == 97
    &&& code[o + 21] == 0x50
    &&& code[o + 22] == 0xa0
    &&& number(code, o + 23, 8) == (helper + 12)
    &&& code[o + 31] == 0x84
    &&& code[o + 32] == 0xc0
    &&& code[o + 33] == 0x58
    &&& code[o + 34] == 0x0f
    &&& code[o + 35] == 0x84
    &&& reach32(code, o + 36) == 78
    &&& code[o + 40] == 0x50
    &&& code[o + 41] == 0x48
    &&& code[o + 42] == 0xa1
    &&& number(code, o + 43, 8) == (helper)
    &&& code[o + 51] == 0x48
    &&& code[o + 52] == 0x89
    &&& code[o + 53] == 0x02
    &&& code[o + 54] == 0xa1
    &&& number(code, o + 55, 8) == (helper + 8)
    &&& code[o + 63] == 0x89
    &&& code[o + 64] == 0x42
    &&& code[o + 65] == 0x08
    &&& code[o + 66] == 0x48
    &&& code[o + 67] == 0xb8
    &&& number(code, o + 68, 8) == (le_value(first_original))
    &&& code[o + 76] == 0x48
    &&& code[o + 77] == 0xa3
    &&& number(code, o + 78, 8) == (first_je)
    &&& code[o + 86] == 0x48
    &&& code[o + 87] == 0xb8
    &&& number(code, o + 88, 8) == (le_value(second_original))
    &&& code[o + 96] == 0x48
    &&& code[o + 97] == 0xa3
    &&& number(code, o + 98, 8) == (second_je)
    &&& code[o + 106] == 0x30
    &&& code[o + 107] == 0xc0
    &&& code[o + 108] == 0xa2
    &&& number(code, o + 109, 8) == (helper + 12)
    &&& code[o + 117] == 0x58
}

#[verifier::spinoff_prover]
#[verifier::rlimit(100)]
proof fn lemma_movement_holds(
    code: Seq<u8>,
    o: int,
    helper: usize,
    first_je: usize,
    second_je: usize,
    first_original: Seq<u8>,
    second_original: Seq<u8>,
)
    requires
        stands(
            code,
            o,
            assembly(movement_pieces(helper, first_je, second_je, first_original, second_original)),
        ),
        helper + 21 <= usize::MAX,
        first_original.len() == 8,
        second_original.len() == 8,
    ensures
        movement_holds(code, o, helper, first_je, second_je, first_original, second_original),
{
    reveal(movement_holds);
    let pieces = movement_pieces(helper, first_je, second_je, first_original, second_original);
    lemma_movement(helper, first_je, second_je, first_original, second_original);
    lemma_le_bytes_len((helper + 13) as nat, 8);
    lemma_le_bytes_len((helper + 12) as nat, 8);
    lemma_le_bytes_len((helper) as nat, 8);
    lemma_le_bytes_len((helper + 8) as nat, 8);
    lemma_le_bytes_len((first_je) as nat, 8);
    lemma_le_bytes_len((second_je) as nat, 8);
    lemma_le_bytes_len((helper + 12) as nat, 8);
    assert(offset(pieces, 0) == 0);
    assert(offset(pieces, 1) == 3);
    assert(offset(pieces, 2) == 11);
    assert(offset(pieces, 3) == 15);
    assert(offset(pieces, 4) == 21);
    assert(offset(pieces, 5) == 23);
    assert(offset(pieces, 6) == 31);
    assert(offset(pieces, 7) == 34);
    assert(offset(pieces, 8) == 40);
    assert(offset(pieces, 9) == 43);
    assert(offset(pieces, 10) == 51);
    assert(offset(pieces, 11) == 55);
    assert(offset(pieces, 12) == 63);
    assert(offset(pieces, 13) == 66);
    assert(offset(pieces, 14) == 68);
    assert(offset(pieces, 15) == 76);
    assert(offset(pieces, 16) == 78);
    assert(offset(pieces, 17) == 86);
    assert(offset(pieces, 18) == 88);
    assert(offset(pieces, 19) == 96);
    assert(offset(pieces, 20) == 98);
    assert(offset(pieces, 21) == 106);
    assert(offset(pieces, 22) == 109);
    assert(offset(pieces, 23) == 117);
    assert(offset(pieces, 24) == 118);
    assert(offset(pieces, 25) == 118);
    lemma_place_at(pieces, Label::Done, 24, 25);
    lemma_assembled_len(pieces, 25);
    let c0 = seq![0x50u8, 0x48, 0xa1];
    assert(piece_code(pieces, 0) == c0);
    lemma_piece_stands(code, o, pieces, 0);
    lemma_bytes_stand(code, o + 0, c0);
    assert(c0[0] == 0x50);
    assert(c0[1] == 0x48);
    assert(c0[2] == 0xa1);
    lemma_piece_stands(code, o, pieces, 1);
    lemma_eight(code, o + 3, (helper + 13) as nat);
    let c2 = seq![0x48u8, 0x39, 0xc1, 0x58];
    assert(piece_code(pieces, 2) == c2);
    lemma_piece_stands(code, o, pieces, 2);
    lemma_bytes_stand(code, o + 11, c2);
    assert(c2[0] == 0x48);
    assert(c2[1] == 0x39);
    assert(c2[2] == 0xc1);
    assert(c2[3] == 0x58);
    lemma_branch_stands(code, o, pieces, 3);
    let c4 = seq![0x50u8, 0xa0];
    assert(piece_code(pieces, 4) == c4);
    lemma_piece_stands(code, o, pieces, 4);
    lemma_bytes_stand(code, o + 21, c4);
    assert(c4[0] == 0x50);
    assert(c4[1] == 0xa0);
    lemma_piece_stands(code, o, pieces, 5);
    lemma_eight(code, o + 23, (helper + 12) as nat);
    let c6 = seq![0x84u8, 0xc0, 0x58];
    assert(piece_code(pieces, 6) == c6);
    lemma_piece_stands(code, o, pieces, 6);
    lemma_bytes_stand(code, o + 31, c6);
    assert(c6[0] == 0x84);
    assert(c6[1] == 0xc0);
    assert(c6[2] == 0x58);
    lemma_branch_stands(code, o, pieces, 7);
    let c8 = seq![0x50u8, 0x48, 0xa1];
    assert(piece_code(pieces, 8) == c8);
    lemma_piece_stands(code, o, pieces, 8);
    lemma_bytes_stand(code, o + 40, c8);
    assert(c8[0] == 0x50);
    assert(c8[1] == 0x48);
    assert(c8[2] == 0xa1);
    lemma_piece_stands(code, o, pieces, 9);
    lemma_eight(code, o + 43, (helper) as nat);
    let c10 = seq![0x48u8, 0x89, 0x02, 0xa1];
    assert(piece_code(pieces, 10) == c10);
    lemma_piece_stands(code, o, pieces, 10);
    lemma_bytes_stand(code, o + 51, c10);
    assert(c10[0] == 0x48);
    assert(c10[1] == 0x89);
    assert(c10[2] == 0x02);
    assert(c10[3] == 0xa1);
    lemma_piece_stands(code, o, pieces, 11);
    lemma_eight(code, o + 55, (helper + 8) as nat);
    let c12 = seq![0x89u8, 0x42, 0x08];
    assert(piece_code(pieces, 12) == c12);
    lemma_piece_stands(code, o, pieces, 12);
    lemma_bytes_stand(code, o + 63, c12);
    assert(c12[0] == 0x89);
    assert(c12[1] == 0x42);
    assert(c12[2] == 0x08);
    let c13 = seq![0x48u8, 0xb8];
    assert(piece_code(pieces, 13) == c13);
    lemma_piece_stands(code, o, pieces, 13);
    lemma_bytes_stand(code, o + 66, c13);
    assert(c13[0] == 0x48);
    assert(c13[1] == 0xb8);
    lemma_piece_stands(code, o, pieces, 14);
    let c15 = seq![0x48u8, 0xa3];
    assert(piece_code(pieces, 15) == c15);
    lemma_piece_stands(code, o, pieces, 15);
    lemma_bytes_stand(code, o + 76, c15);
    assert(c15[0] == 0x48);
    assert(c15[1] == 0xa3);
    lemma_piece_stands(code, o, pieces, 16);
    lemma_eight(code, o + 78, (first_je) as nat);
    let c17 = seq![0x48u8, 0xb8];
    assert(piece_code(pieces, 17) == c17);
    lemma_piece_stands(code, o, pieces, 17);
    lemma_bytes_stand(code, o + 86, c17);
    assert(c17[0] == 0x48);
    assert(c17[1] == 0xb8);
    lemma_piece_stands(code, o, pieces, 18);
    let c19 = seq![0x48u8, 0xa3];
    assert(piece_code(pieces, 19) == c19);
    lemma_piece_stands(code, o, pieces, 19);
    lemma_bytes_stand(code, o + 96, c19);
    assert(c19[0] == 0x48);
    assert(c19[1] == 0xa3);
    lemma_piece_stands(code, o, pieces, 20);
    lemma_eight(code, o + 98, (second_je) as nat);
    let c21 = seq![0x30u8, 0xc0, 0xa2];
    assert(piece_code(pieces, 21) == c21);
    lemma_piece_stands(code, o, pieces, 21);
    lemma_bytes_stand(code, o + 106, c21);
    assert(c21[0] == 0x30);
    assert(c21[1] == 0xc0);
    assert(c21[2] == 0xa2);
    lemma_piece_stands(code, o, pieces, 22);
    lemma_eight(code, o + 109, (helper + 12) as nat);
    let c23 = seq![0x58u8];
    assert(piece_code(pieces, 23) == c23);
    lemma_piece_stands(code, o, pieces, 23);
    lemma_bytes_stand(code, o + 117, c23);
    assert(c23[0] == 0x58);
}

#[verifier::spinoff_prover]
#[verifier::rlimit(100)]
proof fn lemma_movement_object(
    code: Seq<u8>,
    base: int,
    o: int,
    from: Cpu,
    cpu: Cpu,
    helper: usize,
    first_je: usize,
    second_je: usize,
    first_original: Seq<u8>,
    second_original: Seq<u8>,
) -> (end: Cpu)
    requires
        reaches(code, base, from, cpu),
        cpu.sound(),
        cpu.ip == base + o + 0,
        movement_holds(code, o, helper, first_je, second_je, first_original, second_original),
        helper + 21 <= usize::MAX,
    ensures
        reaches(code, base, from, end),
        end.ip == if cpu.regs[1] == held(cpu.memory, helper + 13, 8) {
            base + o + 21
        } else {
            base + o + 118
        },
        end.memory == cpu.memory,
        end.regs == cpu.regs,
        end.stack == cpu.stack,
        end.vectors == cpu.vectors,
{
    reveal(movement_holds);
    lemma_pow256();
    lemma_push(code, o + 0, 0);
    let s0 = lemma_next(code, base, from, cpu, Inst::Push { n: 0 }, 1);
    lemma_held_bound(cpu.memory, helper + 13, 8);
    lemma_absolute(code, o + 1);
    let s1 = lemma_next(
        code,
        base,
        from,
        s0,
        Inst::Move {
            to: Operand::Reg { n: 0 },
            from: Operand::Mem { place: Place::Absolute { at: (helper + 13) as nat } },
            size: 8,
        },
        10,
    );
    lemma_is_reg(code, o + 13, 0, 0);
    lemma_wide(code, o + 11, Operand::Reg { n: 1 }, 1);
    let s2 = lemma_next(
        code,
        base,
        from,
        s1,
        Inst::Compare { left: Operand::Reg { n: 1 }, right: Operand::Reg { n: 0 }, size: 8 },
        3,
    );
    assert(is_zero(s2) <==> cpu.regs[1] == held(cpu.memory, helper + 13, 8));
    lemma_pop(code, o + 14, 0);
    let s3 = lemma_next(code, base, from, s2, Inst::Pop { n: 0 }, 1);
    assert(s3.regs =~= cpu.regs);
    assert(s3.stack =~= cpu.stack);
    lemma_branch(code, o + 15);
    let s4 = lemma_next(code, base, from, s3, Inst::Branch { condition: 5, reach: 97 }, 6);
    s4
}

#[verifier::spinoff_prover]
#[verifier::rlimit(100)]
proof fn lemma_movement_flag(
    code: Seq<u8>,
    base: int,
    o: int,
    from: Cpu,
    cpu: Cpu,
    helper: usize,
    first_je: usize,
    second_je: usize,
    first_original: Seq<u8>,
    second_original: Seq<u8>,
) -> (end: Cpu)
    requires
        reaches(code, base, from, cpu),
        cpu.sound(),
        cpu.ip == base + o + 21,
        movement_holds(code, o, helper, first_je, second_je, first_original, second_original),
        helper + 21 <= usize::MAX,
    ensures
        reaches(code, base, from, end),
        end.ip == if (cpu.memory)(helper + 12) != 0 { base + o + 40 } else { base + o + 118 },
        end.memory == cpu.memory,
        end.regs == cpu.regs,
        end.stack == cpu.stack,
        end.vectors == cpu.vectors,
{
    reveal(movement_holds);
    lemma_pow256();
    lemma_push(code, o + 21, 0);
    let s5 = lemma_next(code, base, from, cpu, Inst::Push { n: 0 }, 1);
    lemma_held_byte(cpu.memory, helper + 12);
    lemma_absolute(code, o + 22);
    let s6 = lemma_next(
        code,
        base,
        from,
        s5,
        Inst::Move {
            to: Operand::Reg { n: 0 },
            from: Operand::Mem { place: Place::Absolute { at: (helper + 12) as nat } },
            size: 1,
        },
        9,
    );
    lemma_low_byte(cpu.regs[0], held(cpu.memory, helper + 12, 1));
    lemma_is_reg(code, o + 32, 0, 0);
    lemma_plain(code, o + 31, Operand::Reg { n: 0 }, 1);
    let s7 = lemma_next(
        code,
        base,
        from,
        s6,
        Inst::Test { left: Operand::Reg { n: 0 }, right: Operand::Reg { n: 0 }, size: 1 },
        2,
    );
    assert(is_zero(s7) <==> (cpu.memory)(helper + 12) == 0);
    lemma_pop(code, o + 33, 0);
    let s8 = lemma_next(code, base, from, s7, Inst::Pop { n: 0 }, 1);
    assert(s8.regs =~= cpu.regs);
    assert(s8.stack =~= cpu.stack);
    lemma_branch(code, o + 34);
    let s9 = lemma_next(code, base, from, s8, Inst::Branch { condition: 4, reach: 78 }, 6);
    s9
}

#[verifier::spinoff_prover]
#[verifier::rlimit(100)]
proof fn lemma_movement_moves(
    code: Seq<u8>,
    base: int,
    o: int,
    from: Cpu,
    cpu: Cpu,
    helper: usize,
    first_je: usize,
    second_je: usize,
    first_original: Seq<u8>,
    second_original: Seq<u8>,
) -> (end: Cpu)
    requires
        reaches(code, base, from, cpu),
        cpu.sound(),
        cpu.ip == base + o + 40,
        movement_holds(code, o, helper, first_je, second_je, first_original, second_original),
        helper + 21 <= usize::MAX,
        cpu.regs[2] + 12 <= 0x1_0000_0000_0000_0000,
        cpu.regs[2] + 12 <= helper || helper + 21 <= cpu.regs[2],
    ensures
        reaches(code, base, from, end),
        end.ip == base + o + 66,
        end.stack == cpu.stack.push(cpu.regs[0]),
        end.vectors == cpu.vectors,
        end.sound(),
        forall|n: int| 1 <= n < 16 ==> #[trigger] end.regs[n] == cpu.regs[n],
        end.memory == put(
            put(cpu.memory, cpu.regs[2] as int, load(cpu.memory, helper as int, 8)),
            cpu.regs[2] + 8int,
            load(cpu.memory, helper + 8, 4),
        ),
{
    reveal(movement_holds);
    lemma_pow256();
    lemma_push(code, o + 40, 0);
    let s10 = lemma_next(code, base, from, cpu, Inst::Push { n: 0 }, 1);
    lemma_held_bound(cpu.memory, helper as int, 8);
    lemma_copied(cpu.memory, helper as int, 8);
    lemma_absolute(code, o + 41);
    let s11 = lemma_next(
        code,
        base,
        from,
        s10,
        Inst::Move {
            to: Operand::Reg { n: 0 },
            from: Operand::Mem { place: Place::Absolute { at: (helper) as nat } },
            size: 8,
        },
        10,
    );
    assert(s11.regs[0] == held(cpu.memory, helper as int, 8));
    lemma_is_based(code, o + 53, 0, 0);
    lemma_wide(code, o + 51, Operand::Mem { place: Place::Based { base: 2, reach: 0 } }, 1);
    let s12 = lemma_next(
        code,
        base,
        from,
        s11,
        Inst::Move {
            to: Operand::Mem { place: Place::Based { base: 2, reach: 0 } },
            from: Operand::Reg { n: 0 },
            size: 8,
        },
        3,
    );
    assert(s12.memory == put(cpu.memory, cpu.regs[2] as int, load(cpu.memory, helper as int, 8)));
    lemma_put(cpu.memory, cpu.regs[2] as int, load(cpu.memory, helper as int, 8));
    assert(load(s12.memory, helper + 8, 4) == load(cpu.memory, helper + 8, 4));
    lemma_held_bound(s12.memory, helper + 8, 4);
    lemma_copied(s12.memory, helper + 8, 4);
    lemma_absolute(code, o + 54);
    let s13 = lemma_next(
        code,
        base,
        from,
        s12,
        Inst::Move {
            to: Operand::Reg { n: 0 },
            from: Operand::Mem { place: Place::Absolute { at: (helper + 8) as nat } },
            size: 4,
        },
        9,
    );
    assert(s13.regs[0] == held(s12.memory, helper + 8, 4));
    lemma_is_based(code, o + 64, 0, 0);
    lemma_plain(code, o + 63, Operand::Mem { place: Place::Based { base: 2, reach: 8 } }, 2);
    let s14 = lemma_next(
        code,
        base,
        from,
        s13,
        Inst::Move {
            to: Operand::Mem { place: Place::Based { base: 2, reach: 8 } },
            from: Operand::Reg { n: 0 },
            size: 4,
        },
        3,
    );
    s14
}

#[verifier::spinoff_prover]
#[verifier::rlimit(100)]
proof fn lemma_movement_patches(
    code: Seq<u8>,
    base: int,
    o: int,
    from: Cpu,
    cpu: Cpu,
    helper: usize,
    first_je: usize,
    second_je: usize,
    first_original: Seq<u8>,
    second_original: Seq<u8>,
) -> (end: Cpu)
    requires
        reaches(code, base, from, cpu),
        cpu.sound(),
        cpu.ip == base + o + 66,
        movement_holds(code, o, helper, first_je, second_je, first_original, second_original),
        helper + 21 <= usize::MAX,
        first_original.len() == 8,
        second_original.len() == 8,
        cpu.stack.len() > 0,
    ensures
        reaches(code, base, from, end),
        end.ip == base + o + 118,
        end.stack == cpu.stack.drop_last(),
        end.vectors == cpu.vectors,
        end.regs == cpu.regs.update(0, cpu.stack.last()),
        end.memory == put(
            put(
                put(cpu.memory, first_je as int, first_original),
                second_je as int,
                second_original,
            ),
            helper + 12,
            seq![0u8],
        ),
{
    reveal(movement_holds);
    lemma_pow256();
    lemma_le_value_bound(first_original);
    lemma_le_value_bound(second_original);
    read_value_writes_back(first_original);
    read_value_writes_back(second_original);
    lemma_set64(code, o + 66, 0);
    let s15 = lemma_next(
        code,
        base,
        from,
        cpu,
        Inst::Move {
            to: Operand::Reg { n: 0 },
            from: Operand::Imm { value: (le_value(first_original)) as nat },
            size: 8,
        },
        10,
    );
    assert(s15.regs[0] == le_value(first_original));
    lemma_absolute(code, o + 76);
    let s16 = lemma_next(
        code,
        base,
        from,
        s15,
        Inst::Move {
            to: Operand::Mem { place: Place::Absolute { at: (first_je) as nat } },
            from: Operand::Reg { n: 0 },
            size: 8,
        },
        10,
    );
    assert(s16.memory == put(cpu.memory, first_je as int, first_original));
    lemma_set64(code, o + 86, 0);
    let s17 = lemma_next(
        code,
        base,
        from,
        s16,
        Inst::Move {
            to: Operand::Reg { n: 0 },
            from: Operand::Imm { value: (le_value(second_original)) as nat },
            size: 8,
        },
        10,
    );
    assert(s17.regs[0] == le_value(second_original));
    lemma_absolute(code, o + 96);
    let s18 = lemma_next(
        code,
        base,
        from,
        s17,
        Inst::Move {
            to: Operand::Mem { place: Place::Absolute { at: (second_je) as nat } },
            from: Operand::Reg { n: 0 },
            size: 8,
        },
        10,
    );
    assert(s18.memory == put(s16.memory, second_je as int, second_original));
    lemma_is_reg(code, o + 107, 0, 0);
    lemma_plain(code, o + 106, Operand::Reg { n: 0 }, 1);
    let s19 = lemma_next(
        code,
        base,
        from,
        s18,
        Inst::Xor { to: Operand::Reg { n: 0 }, from: Operand::Reg { n: 0 }, size: 1 },
        2,
    );
    lemma_low_byte(s18.regs[0], 0);
    assert(le_bytes(0, 1) =~= seq![0u8]) by {
        reveal_with_fuel(le_bytes, 2);
    }
    lemma_absolute(code, o + 108);
    let s20 = lemma_next(
        code,
        base,
        from,
        s19,
        Inst::Move {
            to: Operand::Mem { place: Place::Absolute { at: (helper + 12) as nat } },
            from: Operand::Reg { n: 0 },
            size: 1,
        },
        9,
    );
    assert(s20.memory == put(s18.memory, helper + 12, seq![0u8]));
    lemma_pop(code, o + 117, 0);
    let s21 = lemma_next(code, base, from, s20, Inst::Pop { n: 0 }, 1);
    assert(s21.regs =~= cpu.regs.update(0, cpu.stack.last()));
    s21
}

/// The code that counts a thread in stands at a place.
#[verifier::opaque]
spec fn enters_holds(code: Seq<u8>, o: int, address: usize) -> bool {
    &&& 0 <= o
    &&& o + 16 <= code.len()
    &&& code[o + 0] == 0x50
    &&& code[o + 1] == 0x48
    &&& code[o + 2] == 0xb8
    &&& number(code, o + 3, 8) == (address)
    &&& code[o + 11] == 0xf0
    &&& code[o + 12] == 0x48
    &&& code[o + 13] == 0xff
    &&& code[o + 14] == 0x00
    &&& code[o + 15] == 0x58
}

#[verifier::spinoff_prover]
#[verifier::rlimit(100)]
proof fn lemma_enters_holds(code: Seq<u8>, o: int, address: usize)
    requires
        stands(code, o, counter_bytes(address, true)),
    ensures
        enters_holds(code, o, address),
{
    reveal(enters_holds);
    let part = counter_bytes(address, true);
    lemma_le_bytes_len((address) as nat, 8);
    let c0 = seq![0x50u8, 0x48, 0xb8];
    assert(part.subrange(0, 3) =~= c0);
    lemma_part_stands(code, o, part, 0, c0);
    assert(c0[0] == 0x50);
    assert(c0[1] == 0x48);
    assert(c0[2] == 0xb8);
    assert(part.subrange(3, 11) =~= le_bytes((address) as nat, 8));
    lemma_part_stands(code, o, part, 3, le_bytes((address) as nat, 8));
    lemma_eight(code, o + 3, (address) as nat);
    let c2 = seq![0xf0u8, 0x48, 0xff, 0x00, 0x58];
    assert(part.subrange(11, 16) =~= c2);
    lemma_part_stands(code, o, part, 11, c2);
    assert(c2[0] == 0xf0);
    assert(c2[1] == 0x48);
    assert(c2[2] == 0xff);
    assert(c2[3] == 0x00);
    assert(c2[4] == 0x58);
}

#[verifier::spinoff_prover]
#[verifier::rlimit(100)]
proof fn lemma_enters_runs(
    code: Seq<u8>,
    base: int,
    o: int,
    from: Cpu,
    cpu: Cpu,
    address: usize,
) -> (end: Cpu)
    requires
        reaches(code, base, from, cpu),
        cpu.sound(),
        cpu.ip == base + o + 0,
        enters_holds(code, o, address),
    ensures
        reaches(code, base, from, end),
        end.ip == base + o + 16,
        end.regs == cpu.regs,
        end.stack == cpu.stack,
        end.vectors == cpu.vectors,
        end.memory == put(
            cpu.memory,
            address as int,
            le_bytes(
                ((held(cpu.memory, address as int, 8) + 1) % 0x1_0000_0000_0000_0000) as nat,
                8,
            ),
        ),
{
    reveal(enters_holds);
    lemma_pow256();
    lemma_push(code, o + 0, 0);
    let s0 = lemma_next(code, base, from, cpu, Inst::Push { n: 0 }, 1);
    lemma_held_bound(cpu.memory, address as int, 8);
    lemma_set64(code, o + 1, 0);
    let s1 = lemma_next(
        code,
        base,
        from,
        s0,
        Inst::Move {
            to: Operand::Reg { n: 0 },
            from: Operand::Imm { value: (address) as nat },
            size: 8,
        },
        10,
    );
    assert(s1.regs[0] == address);
    lemma_is_based(code, o + 14, 0, 0);
    lemma_locked(code, o + 11, Operand::Mem { place: Place::Based { base: 0, reach: 0 } }, 1);
    let s2 = lemma_next(
        code,
        base,
        from,
        s1,
        Inst::Increment { to: Operand::Mem { place: Place::Based { base: 0, reach: 0 } }, size: 8 },
        4,
    );
    lemma_pop(code, o + 15, 0);
    let s3 = lemma_next(code, base, from, s2, Inst::Pop { n: 0 }, 1);
    assert(s3.regs =~= cpu.regs);
    assert(s3.stack =~= cpu.stack);
    s3
}

/// The code that counts a thread out stands at a place.
#[verifier::opaque]
spec fn leaves_holds(code: Seq<u8>, o: int, address: usize) -> bool {
    &&& 0 <= o
    &&& o + 16 <= code.len()
    &&& code[o + 0] == 0x50
    &&& code[o + 1] == 0x48
    &&& code[o + 2] == 0xb8
    &&& number(code, o + 3, 8) == (address)
    &&& code[o + 11] == 0xf0
    &&& code[o + 12] == 0x48
    &&& code[o + 13] == 0xff
    &&& code[o + 14] == 0x08
    &&& code[o + 15] == 0x58
}

#[verifier::spinoff_prover]
#[verifier::rlimit(100)]
proof fn lemma_leaves_holds(code: Seq<u8>, o: int, address: usize)
    requires
        stands(code, o, counter_bytes(address, false)),
    ensures
        leaves_holds(code, o, address),
{
    reveal(leaves_holds);
    let part = counter_bytes(address, false);
    lemma_le_bytes_len((address) as nat, 8);
    let c0 = seq![0x50u8, 0x48, 0xb8];
    assert(part.subrange(0, 3) =~= c0);
    lemma_part_stands(code, o, part, 0, c0);
    assert(c0[0] == 0x50);
    assert(c0[1] == 0x48);
    assert(c0[2] == 0xb8);
    assert(part.subrange(3, 11) =~= le_bytes((address) as nat, 8));
    lemma_part_stands(code, o, part, 3, le_bytes((address) as nat, 8));
    lemma_eight(code, o + 3, (address) as nat);
    let c2 = seq![0xf0u8, 0x48, 0xff, 0x08, 0x58];
    assert(part.subrange(11, 16) =~= c2);
    lemma_part_stands(code, o, part, 11, c2);
    assert(c2[0] == 0xf0);
    assert(c2[1] == 0x48);
    assert(c2[2] == 0xff);
    assert(c2[3] == 0x08);
    assert(c2[4] == 0x58);
}

#[verifier::spinoff_prover]
#[verifier::rlimit(100)]
proof fn lemma_leaves_runs(
    code: Seq<u8>,
    base: int,
    o: int,
    from: Cpu,
    cpu: Cpu,
    address: usize,
) -> (end: Cpu)
    requires
        reaches(code, base, from, cpu),
        cpu.sound(),
        cpu.ip == base + o + 0,
        leaves_holds(code, o, address),
    ensures
        reaches(code, base, from, end),
        end.ip == base + o + 16,
        end.regs == cpu.regs,
        end.stack == cpu.stack,
        end.vectors == cpu.vectors,
        end.memory == put(
            cpu.memory,
            address as int,
            le_bytes(
                (
                    (
                        held(cpu.memory, address as int, 8) + 0xffff_ffff_ffff_ffff
                    ) % 0x1_0000_0000_0000_0000
                ) as nat,
                8,
            ),
        ),
{
    reveal(leaves_holds);
    lemma_pow256();
    lemma_push(code, o + 0, 0);
    let s0 = lemma_next(code, base, from, cpu, Inst::Push { n: 0 }, 1);
    lemma_held_bound(cpu.memory, address as int, 8);
    lemma_set64(code, o + 1, 0);
    let s1 = lemma_next(
        code,
        base,
        from,
        s0,
        Inst::Move {
            to: Operand::Reg { n: 0 },
            from: Operand::Imm { value: (address) as nat },
            size: 8,
        },
        10,
    );
    assert(s1.regs[0] == address);
    lemma_is_based(code, o + 14, 0, 0);
    lemma_locked(code, o + 11, Operand::Mem { place: Place::Based { base: 0, reach: 0 } }, 1);
    let s2 = lemma_next(
        code,
        base,
        from,
        s1,
        Inst::Decrement { to: Operand::Mem { place: Place::Based { base: 0, reach: 0 } }, size: 8 },
        4,
    );
    lemma_pop(code, o + 15, 0);
    let s3 = lemma_next(code, base, from, s2, Inst::Pop { n: 0 }, 1);
    assert(s3.regs =~= cpu.regs);
    assert(s3.stack =~= cpu.stack);
    s3
}

/// The code that answers with a cursor position stands at a place.
#[verifier::opaque]
spec fn mouse_holds(code: Seq<u8>, o: int, position: usize) -> bool {
    &&& 0 <= o
    &&& o + 18 <= code.len()
    &&& code[o + 0] == 0x48
    &&& code[o + 1] == 0xa1
    &&& number(code, o + 2, 8) == (position)
    &&& code[o + 10] == 0x48
    &&& code[o + 11] == 0x89
    &&& code[o + 12] == 0x01
    &&& code[o + 13] == 0xb8
    &&& code[o + 14] == 0x01
    &&& code[o + 15] == 0x00
    &&& code[o + 16] == 0x00
    &&& code[o + 17] == 0x00
}

#[verifier::spinoff_prover]
#[verifier::rlimit(100)]
proof fn lemma_mouse_holds(code: Seq<u8>, o: int, position: usize)
    requires
        stands(code, o, mouse_bytes(position)),
    ensures
        mouse_holds(code, o, position),
{
    reveal(mouse_holds);
    let part = mouse_bytes(position);
    lemma_le_bytes_len((position) as nat, 8);
    let c0 = seq![0x48u8, 0xa1];
    assert(part.subrange(0, 2) =~= c0);
    lemma_part_stands(code, o, part, 0, c0);
    assert(c0[0] == 0x48);
    assert(c0[1] == 0xa1);
    assert(part.subrange(2, 10) =~= le_bytes((position) as nat, 8));
    lemma_part_stands(code, o, part, 2, le_bytes((position) as nat, 8));
    lemma_eight(code, o + 2, (position) as nat);
    let c2 = seq![0x48u8, 0x89, 0x01, 0xb8, 0x01, 0x00, 0x00, 0x00];
    assert(part.subrange(10, 18) =~= c2);
    lemma_part_stands(code, o, part, 10, c2);
    assert(c2[0] == 0x48);
    assert(c2[1] == 0x89);
    assert(c2[2] == 0x01);
    assert(c2[3] == 0xb8);
    assert(c2[4] == 0x01);
    assert(c2[5] == 0x00);
    assert(c2[6] == 0x00);
    assert(c2[7] == 0x00);
}

#[verifier::spinoff_prover]
#[verifier::rlimit(100)]
proof fn lemma_mouse_runs(
    code: Seq<u8>,
    base: int,
    o: int,
    from: Cpu,
    cpu: Cpu,
    position: usize,
) -> (end: Cpu)
    requires
        reaches(code, base, from, cpu),
        cpu.sound(),
        cpu.ip == base + o + 0,
        mouse_holds(code, o, position),
    ensures
        reaches(code, base, from, end),
        end.ip == base + o + 18,
        end.sound(),
        end.regs == cpu.regs.update(0, 1),
        end.stack == cpu.stack,
        end.vectors == cpu.vectors,
        end.memory == put(cpu.memory, cpu.regs[1] as int, load(cpu.memory, position as int, 8)),
{
    reveal(mouse_holds);
    lemma_pow256();
    lemma_held_bound(cpu.memory, position as int, 8);
    lemma_copied(cpu.memory, position as int, 8);
    lemma_absolute(code, o + 0);
    let s0 = lemma_next(
        code,
        base,
        from,
        cpu,
        Inst::Move {
            to: Operand::Reg { n: 0 },
            from: Operand::Mem { place: Place::Absolute { at: (position) as nat } },
            size: 8,
        },
        10,
    );
    assert(s0.regs[0] == held(cpu.memory, position as int, 8));
    lemma_is_based(code, o + 12, 0, 0);
    lemma_wide(code, o + 10, Operand::Mem { place: Place::Based { base: 1, reach: 0 } }, 1);
    let s1 = lemma_next(
        code,
        base,
        from,
        s0,
        Inst::Move {
            to: Operand::Mem { place: Place::Based { base: 1, reach: 0 } },
            from: Operand::Reg { n: 0 },
            size: 8,
        },
        3,
    );
    lemma_four(code, o + 14);
    lemma_set32(code, o + 13, 0);
    let s2 = lemma_next(
        code,
        base,
        from,
        s1,
        Inst::Move { to: Operand::Reg { n: 0 }, from: Operand::Imm { value: 1 }, size: 4 },
        5,
    );
    assert(s2.regs =~= cpu.regs.update(0, 1));
    s2
}

/// The code that remembers the moves of the dance game stands at a place.
#[verifier::opaque]
spec fn dance_holds(code: Seq<u8>, o: int, moves: usize) -> bool {
    &&& 0 <= o
    &&& o + 20 <= code.len()
    &&& code[o + 0] == 0x50
    &&& code[o + 1] == 0x51
    &&& code[o + 2] == 0x48
    &&& code[o + 3] == 0x8b
    &&& code[o + 4] == 0x08
    &&& code[o + 5] == 0x48
    &&& code[o + 6] == 0xb8
    &&& number(code, o + 7, 8) == (moves)
    &&& code[o + 15] == 0x48
    &&& code[o + 16] == 0x89
    &&& code[o + 17] == 0x08
    &&& code[o + 18] == 0x59
    &&& code[o + 19] == 0x58
}

#[verifier::spinoff_prover]
#[verifier::rlimit(100)]
proof fn lemma_dance_holds(code: Seq<u8>, o: int, moves: usize)
    requires
        stands(code, o, dance_bytes(moves)),
    ensures
        dance_holds(code, o, moves),
{
    reveal(dance_holds);
    let part = dance_bytes(moves);
    lemma_le_bytes_len((moves) as nat, 8);
    let c0 = seq![0x50u8, 0x51, 0x48, 0x8b, 0x08, 0x48, 0xb8];
    assert(part.subrange(0, 7) =~= c0);
    lemma_part_stands(code, o, part, 0, c0);
    assert(c0[0] == 0x50);
    assert(c0[1] == 0x51);
    assert(c0[2] == 0x48);
    assert(c0[3] == 0x8b);
    assert(c0[4] == 0x08);
    assert(c0[5] == 0x48);
    assert(c0[6] == 0xb8);
    assert(part.subrange(7, 15) =~= le_bytes((moves) as nat, 8));
    lemma_part_stands(code, o, part, 7, le_bytes((moves) as nat, 8));
    lemma_eight(code, o + 7, (moves) as nat);
    let c2 = seq![0x48u8, 0x89, 0x08, 0x59, 0x58];
    assert(part.subrange(15, 20) =~= c2);
    lemma_part_stands(code, o, part, 15, c2);
    assert(c2[0] == 0x48);
    assert(c2[1] == 0x89);
    assert(c2[2] == 0x08);
    assert(c2[3] == 0x59);
    assert(c2[4] == 0x58);
}

#[verifier::spinoff_prover]
#[verifier::rlimit(100)]
proof fn lemma_dance_runs(
    code: Seq<u8>,
    base: int,
    o: int,
    from: Cpu,
    cpu: Cpu,
    moves: usize,
) -> (end: Cpu)
    requires
        reaches(code, base, from, cpu),
        cpu.sound(),
        cpu.ip == base + o + 0,
        dance_holds(code, o, moves),
    ensures
        reaches(code, base, from, end),
        end.ip == base + o + 20,
        end.regs == cpu.regs,
        end.stack == cpu.stack,
        end.vectors == cpu.vectors,
        end.memory == put(cpu.memory, moves as int, load(cpu.memory, cpu.regs[0] as int, 8)),
{
    reveal(dance_holds);
    lemma_pow256();
    lemma_push(code, o + 0, 0);
    let s0 = lemma_next(code, base, from, cpu, Inst::Push { n: 0 }, 1);
    lemma_push(code, o + 1, 1);
    let s1 = lemma_next(code, base, from, s0, Inst::Push { n: 1 }, 1);
    lemma_held_bound(cpu.memory, cpu.regs[0] as int, 8);
    lemma_copied(cpu.memory, cpu.regs[0] as int, 8);
    lemma_is_based(code, o + 4, 0, 0);
    lemma_wide(code, o + 2, Operand::Mem { place: Place::Based { base: 0, reach: 0 } }, 1);
    let s2 = lemma_next(
        code,
        base,
        from,
        s1,
        Inst::Move {
            to: Operand::Reg { n: 1 },
            from: Operand::Mem { place: Place::Based { base: 0, reach: 0 } },
            size: 8,
        },
        3,
    );
    assert(s2.regs[1] == held(cpu.memory, cpu.regs[0] as int, 8));
    lemma_set64(code, o + 5, 0);
    let s3 = lemma_next(
        code,
        base,
        from,
        s2,
        Inst::Move {
            to: Operand::Reg { n: 0 },
            from: Operand::Imm { value: (moves) as nat },
            size: 8,
        },
        10,
    );
    assert(s3.regs[0] == moves);
    lemma_is_based(code, o + 17, 0, 0);
    lemma_wide(code, o + 15, Operand::Mem { place: Place::Based { base: 0, reach: 0 } }, 1);
    let s4 = lemma_next(
        code,
        base,
        from,
        s3,
        Inst::Move {
            to: Operand::Mem { place: Place::Based { base: 0, reach: 0 } },
            from: Operand::Reg { n: 1 },
            size: 8,
        },
        3,
    );
    lemma_pop(code, o + 18, 1);
    let s5 = lemma_next(code, base, from, s4, Inst::Pop { n: 1 }, 1);
    lemma_pop(code, o + 19, 0);
    let s6 = lemma_next(code, base, from, s5, Inst::Pop { n: 0 }, 1);
    assert(s6.regs =~= cpu.regs);
    assert(s6.stack =~= cpu.stack);
    s6
}

/// An export of a feature hook is at an address.
pub open spec fn gives(
    exports: Seq<ExportSlot>,
    export: FeatureHookExport,
    allocation: usize,
    address: int,
) -> bool {
    exists|i: int|
        0 <= i < exports.len() && (#[trigger] exports[i]).export == export && address == allocation
            + exports[i].offset
}

/// What a feature hook does stands in its payload behind the code that counts a thread in,
/// and before that which counts it out.
pub(crate) proof fn lemma_payload_stands(kind: PayloadKind, allocation: usize)
    requires
        allocation + payload_len(kind) <= usize::MAX,
    ensures
        ({
            let code = payload(kind, allocation);
            let counter = at(allocation, counter_offset(kind));
            let n = body(kind, allocation).len() as int;
            &&& stands(code, 0, counter_bytes(counter, true))
            &&& stands(code, 16, body(kind, allocation))
            &&& stands(code, 16 + n, counter_bytes(counter, false))
            &&& code.len() == payload_len(kind)
        }),
{
    let code = payload(kind, allocation);
    let counter = at(allocation, counter_offset(kind));
    let n = body(kind, allocation).len() as int;
    lemma_layout(kind);
    lemma_code_len(kind, allocation);
    lemma_le_bytes_len(counter as nat, 8);
    lemma_le_bytes_len(
        wrap32(payload_len(kind) - code_len(kind) - 5),
        4,
    );
    assert(code.subrange(0, 16) =~= counter_bytes(counter, true));
    assert(code.subrange(16, 16 + n) =~= body(kind, allocation));
    assert(code.subrange(16 + n, 32 + n) =~= counter_bytes(counter, false));
}

/// A thread that runs the code of a feature hook is counted in before what the hook does
/// and counted out behind it: the counter goes up by one, and down by one. Nothing else
/// changes, neither in memory nor in the registers nor on the stack.
#[verifier::spinoff_prover]
#[verifier::rlimit(100)]
pub proof fn threads_are_counted_in_and_out(kind: PayloadKind, allocation: usize, cpu: Cpu)
    requires
        allocation + payload_len(kind) <= usize::MAX,
        cpu.sound(),
    ensures
        ({
            let code = payload(kind, allocation);
            let counter = allocation + counter_offset(kind);
            let n = body(kind, allocation).len() as int;
            &&& cpu.ip == allocation ==> exists|end: Cpu|
                {
                    &&& #[trigger] reaches(code, allocation as int, cpu, end)
                    &&& end.ip == allocation + 16
                    &&& end.regs == cpu.regs
                    &&& end.stack == cpu.stack
                    &&& end.vectors == cpu.vectors
                    &&& held(end.memory, counter, 8) == (held(cpu.memory, counter, 8) + 1)
                        % 0x1_0000_0000_0000_0000
                    &&& forall|a: int|
                        !(counter <= a < counter + 8) ==> #[trigger] (end.memory)(a) == (
                        cpu.memory)(a)
                }
            &&& cpu.ip == allocation + 16 + n ==> exists|end: Cpu|
                {
                    &&& #[trigger] reaches(code, allocation as int, cpu, end)
                    &&& end.ip == allocation + 32 + n
                    &&& end.regs == cpu.regs
                    &&& end.stack == cpu.stack
                    &&& end.vectors == cpu.vectors
                    &&& held(cpu.memory, counter, 8) == (held(end.memory, counter, 8) + 1)
                        % 0x1_0000_0000_0000_0000
                    &&& forall|a: int|
                        !(counter <= a < counter + 8) ==> #[trigger] (end.memory)(a) == (
                        cpu.memory)(a)
                }
        }),
{
    let code = payload(kind, allocation);
    let base = allocation as int;
    let counter = at(allocation, counter_offset(kind));
    let n = body(kind, allocation).len() as int;
    lemma_payload_stands(kind, allocation);
    lemma_stays(code, base, cpu);
    lemma_held_bound(cpu.memory, counter as int, 8);
    lemma_pow256();
    let before = held(cpu.memory, counter as int, 8);
    if cpu.ip == allocation {
        lemma_enters_holds(code, 0, counter);
        let end = lemma_enters_runs(code, base, 0, cpu, cpu, counter);
        lemma_stored(
            cpu.memory,
            counter as int,
            ((before + 1) % 0x1_0000_0000_0000_0000) as nat,
            8,
        );
        assert(reaches(code, allocation as int, cpu, end));
    }
    if cpu.ip == allocation + 16 + n {
        lemma_leaves_holds(code, 16 + n, counter);
        let end = lemma_leaves_runs(code, base, 16 + n, cpu, cpu, counter);
        lemma_stored(
            cpu.memory,
            counter as int,
            ((before + 0xffff_ffff_ffff_ffff) % 0x1_0000_0000_0000_0000) as nat,
            8,
        );
        assert(reaches(code, allocation as int, cpu, end));
    }
}

/// The ranges that a teleport writes and the helper that it reads are apart.
pub open spec fn teleport_apart(
    helper: int,
    position: int,
    first_je: int,
    second_je: int,
) -> bool {
    &&& position + 12 <= helper || helper + 21 <= position
    &&& first_je + 8 <= helper || helper + 21 <= first_je
    &&& second_je + 8 <= helper || helper + 21 <= second_je
    &&& first_je + 8 <= position || position + 12 <= first_je
    &&& second_je + 8 <= position || position + 12 <= second_je
    &&& first_je + 8 <= second_je || second_je + 8 <= first_je
}

/// A teleport that is asked for takes place when the game moves the object that it is for:
/// the twelve bytes of the coordinates are copied from the helper to the position, the two
/// patched branches get their original bytes back, and the flag is cleared. Nothing else
/// changes. As long as it is not asked for, or the object is another one, nothing changes
/// at all.
#[verifier::spinoff_prover]
#[verifier::rlimit(100)]
pub proof fn teleports_put_the_coordinates_where_the_position_is(
    kind: PayloadKind,
    allocation: usize,
    exports: Seq<ExportSlot>,
    helper: int,
    cpu: Cpu,
)
    requires
        kind is Movement,
        allocation + payload_len(kind) <= usize::MAX,
        lists_slots(exports, kind),
        gives(exports, FeatureHookExport::TeleportHelper, allocation, helper),
        cpu.sound(),
        cpu.ip == allocation + 16,
        cpu.regs[2] + 12 <= 0x1_0000_0000_0000_0000,
        teleport_apart(
            helper,
            cpu.regs[2] as int,
            kind->first_je as int,
            kind->second_je as int,
        ),
    ensures
        exists|end: Cpu|
            {
                &&& #[trigger] reaches(
                    payload(kind, allocation),
                    allocation as int,
                    cpu,
                    end,
                )
                &&& end.ip == allocation + 134
                &&& end.regs == cpu.regs
                &&& end.stack == cpu.stack
                &&& end.vectors == cpu.vectors
                &&& if (cpu.memory)(helper + 12) != 0 && held(cpu.memory, helper + 13, 8)
                    == cpu.regs[1] {
                    let position = cpu.regs[2] as int;
                    &&& load(end.memory, position, 12) == load(cpu.memory, helper, 12)
                    &&& load(end.memory, kind->first_je as int, 8) == kind->first_original@
                    &&& load(end.memory, kind->second_je as int, 8) == kind->second_original@
                    &&& (end.memory)(helper + 12) == 0
                    &&& forall|a: int|
                        {
                            &&& !(position <= a < position + 12)
                            &&& !(kind->first_je <= a < kind->first_je + 8)
                            &&& !(kind->second_je <= a < kind->second_je + 8)
                            &&& a != helper + 12
                        } ==> #[trigger] (end.memory)(a) == (cpu.memory)(a)
                } else {
                    end.memory == cpu.memory
                }
            },
{
    let code = payload(kind, allocation);
    let base = allocation as int;
    let slot = slot_at(kind, allocation, 0);
    let first_je = kind->first_je;
    let second_je = kind->second_je;
    let first = kind->first_original@;
    let second = kind->second_original@;
    lemma_layout(kind);
    lemma_payload_stands(kind, allocation);
    assert(helper == slot);
    lemma_movement_holds(code, 16, slot, first_je, second_je, first, second);
    lemma_stays(code, base, cpu);
    let a = lemma_movement_object(
        code,
        base,
        16,
        cpu,
        cpu,
        slot,
        first_je,
        second_je,
        first,
        second,
    );
    if held(cpu.memory, helper + 13, 8) == cpu.regs[1] {
        let b = lemma_movement_flag(
            code,
            base,
            16,
            cpu,
            a,
            slot,
            first_je,
            second_je,
            first,
            second,
        );
        if (cpu.memory)(helper + 12) != 0 {
            let c = lemma_movement_moves(
                code,
                base,
                16,
                cpu,
                b,
                slot,
                first_je,
                second_je,
                first,
                second,
            );
            let d = lemma_movement_patches(
                code,
                base,
                16,
                cpu,
                c,
                slot,
                first_je,
                second_je,
                first,
                second,
            );
            let p = cpu.regs[2] as int;
            assert(d.regs =~= cpu.regs);
            assert(d.stack =~= cpu.stack);
            assert(load(d.memory, p, 12) =~= load(cpu.memory, helper, 12));
            assert(load(d.memory, first_je as int, 8) =~= first);
            assert(load(d.memory, second_je as int, 8) =~= second);
        }
    }
}

/// The mouse hook answers with the chosen position: its eight bytes are put where the
/// caller wants them, and the answer is one. The caller's other registers, the stack and
/// the rest of memory are as they were.
pub proof fn cursor_questions_are_answered_with_the_position(
    allocation: usize,
    exports: Seq<ExportSlot>,
    position: int,
    cpu: Cpu,
)
    requires
        allocation + payload_len(PayloadKind::Mouse) <= usize::MAX,
        lists_slots(exports, PayloadKind::Mouse),
        gives(exports, FeatureHookExport::MousePosition, allocation, position),
        cpu.sound(),
        cpu.ip == allocation + 16,
    ensures
        exists|end: Cpu|
            {
                &&& #[trigger] reaches(
                    payload(PayloadKind::Mouse, allocation),
                    allocation as int,
                    cpu,
                    end,
                )
                &&& end.ip == allocation + 34
                &&& end.regs == cpu.regs.update(0, 1)
                &&& end.stack == cpu.stack
                &&& end.vectors == cpu.vectors
                &&& load(end.memory, cpu.regs[1] as int, 8) == load(cpu.memory, position, 8)
                &&& forall|a: int|
                    !(cpu.regs[1] <= a < cpu.regs[1] + 8) ==> #[trigger] (end.memory)(a) == (
                    cpu.memory)(a)
            },
{
    let kind = PayloadKind::Mouse;
    let code = payload(kind, allocation);
    let slot = slot_at(kind, allocation, 0);
    lemma_layout(kind);
    lemma_payload_stands(kind, allocation);
    assert(position == slot);
    lemma_mouse_holds(code, 16, slot);
    lemma_stays(code, allocation as int, cpu);
    let end = lemma_mouse_runs(code, allocation as int, 16, cpu, cpu, slot);
    lemma_put(cpu.memory, cpu.regs[1] as int, load(cpu.memory, position, 8));
}

/// Behind the code that counts it out, a thread in the mouse hook returns to its caller.
pub proof fn cursor_questions_return(allocation: usize, cpu: Cpu)
    requires
        allocation + payload_len(PayloadKind::Mouse) <= usize::MAX,
        cpu.ip == allocation + 50,
        cpu.stack.len() > 0,
    ensures
        exists|end: Cpu|
            {
                &&& #[trigger] reaches(
                    payload(PayloadKind::Mouse, allocation),
                    allocation as int,
                    cpu,
                    end,
                )
                &&& end == (Cpu {
                    ip: cpu.stack.last() as int,
                    stack: cpu.stack.drop_last(),
                    ..cpu
                })
            },
{
    let kind = PayloadKind::Mouse;
    let code = payload(kind, allocation);
    lemma_layout(kind);
    lemma_code_len(kind, allocation);
    lemma_le_bytes_len(at(allocation, counter_offset(kind)) as nat, 8);
    lemma_le_bytes_len(slot_at(kind, allocation, 0) as nat, 8);
    assert(code[50] == 0xc3);
    lemma_branch(code, 50);
    lemma_stays(code, allocation as int, cpu);
    let end = lemma_next(code, allocation as int, cpu, cpu, Inst::Return, 1);
}

/// Behind the code that counts it out, a thread in any other feature hook jumps over the
/// memory of the hook, to what stands behind the payload.
pub proof fn other_features_go_on_behind_the_payload(
    kind: PayloadKind,
    allocation: usize,
    cpu: Cpu,
)
    requires
        allocation + payload_len(kind) <= usize::MAX,
        !(kind is Mouse),
        cpu.ip == allocation + 32 + body(kind, allocation).len(),
    ensures
        exists|end: Cpu|
            {
                &&& #[trigger] reaches(
                    payload(kind, allocation),
                    allocation as int,
                    cpu,
                    end,
                )
                &&& end == (Cpu { ip: allocation + payload_len(kind), ..cpu })
            },
{
    let code = payload(kind, allocation);
    let n = code_len(kind) as int;
    lemma_layout(kind);
    lemma_code_len(kind, allocation);
    lemma_le_bytes_len(at(allocation, counter_offset(kind)) as nat, 8);
    memory_is_clear_and_skipped(kind, allocation);
    lemma_branch(code, n);
    lemma_stays(code, allocation as int, cpu);
    let reach = reach32(code, n + 1);
    let end = lemma_next(code, allocation as int, cpu, cpu, Inst::Jump { reach }, 5);
}

/// The dance hook remembers where the moves are: what the object in the first register
/// begins with. Nothing else changes.
pub proof fn dances_remember_the_moves(
    allocation: usize,
    exports: Seq<ExportSlot>,
    moves: int,
    cpu: Cpu,
)
    requires
        allocation + payload_len(PayloadKind::Dance) <= usize::MAX,
        lists_slots(exports, PayloadKind::Dance),
        gives(exports, FeatureHookExport::DanceGameMoves, allocation, moves),
        cpu.sound(),
        cpu.ip == allocation + 16,
    ensures
        exists|end: Cpu|
            {
                &&& #[trigger] reaches(
                    payload(PayloadKind::Dance, allocation),
                    allocation as int,
                    cpu,
                    end,
                )
                &&& end.ip == allocation + 36
                &&& end.regs == cpu.regs
                &&& end.stack == cpu.stack
                &&& end.vectors == cpu.vectors
                &&& load(end.memory, moves, 8) == load(cpu.memory, cpu.regs[0] as int, 8)
                &&& forall|a: int|
                    !(moves <= a < moves + 8) ==> #[trigger] (end.memory)(a) == (cpu.memory)(a)
            },
{
    let kind = PayloadKind::Dance;
    let code = payload(kind, allocation);
    let slot = slot_at(kind, allocation, 0);
    lemma_layout(kind);
    lemma_payload_stands(kind, allocation);
    assert(moves == slot);
    lemma_dance_holds(code, 16, slot);
    lemma_stays(code, allocation as int, cpu);
    let end = lemma_dance_runs(code, allocation as int, 16, cpu, cpu, slot);
    lemma_put(cpu.memory, moves, load(cpu.memory, cpu.regs[0] as int, 8));
}

}
