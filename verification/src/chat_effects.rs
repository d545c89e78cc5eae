//! What the code of the chat hooks does when a thread of the game runs it.

use vstd::prelude::*;

use crate::assembly::{
    assembly, lemma_assembled_len, lemma_branch_stands, lemma_piece_stands, lemma_place_at, offset,
    piece_code, Label,
};
use crate::codec::{le_bytes, lemma_le_bytes_len, lemma_pow256};
use crate::effects::{gives, lemma_payload_stands};
use crate::machine::{
    decode, held, is_carry, is_zero, lemma_absolute, lemma_branch, lemma_bytes_stand, lemma_copied,
    lemma_copies_join, lemma_eight, lemma_four, lemma_held_bound, lemma_held_byte, lemma_high,
    lemma_is_based, lemma_is_reg, lemma_is_sum, lemma_low_byte, lemma_next, lemma_part_stands,
    lemma_plain, lemma_pop, lemma_push, lemma_put, lemma_room, lemma_set32, lemma_set64,
    lemma_stays, lemma_stored, lemma_wide, lemma_wide_digit, load, number, put, reach32, reaches,
    stands, wrapped, Cpu, Inst, Operand, Place,
};
use crate::payload::{
    at, body, buddy_pieces, chat_bytes, lemma_buddy, lemma_layout, lemma_send, lists_slots, payload,
    payload_len, send_pieces, slot_at, slot_offset, slots_end, slots_len, ExportSlot, PayloadKind,
};
use crate::protocol::FeatureHookExport;

verus! {

/// The stack keeps the registers that a called function may change. Five words are left to
/// it.
pub open spec fn action_saved(stack: Seq<nat>, cpu: Cpu) -> bool {
    let n = cpu.stack.len() as int;
    &&& stack.len() == n + 12
    &&& stack.take(n) == cpu.stack
    &&& stack[n] == cpu.regs[0]
    &&& stack[n + 1] == cpu.regs[1]
    &&& stack[n + 2] == cpu.regs[2]
    &&& stack[n + 3] == cpu.regs[8]
    &&& stack[n + 4] == cpu.regs[9]
    &&& stack[n + 5] == cpu.regs[10]
    &&& stack[n + 6] == cpu.regs[11]
}

/// The code that sends a friend request stands at a place.
#[verifier::opaque]
spec fn buddy_holds(code: Seq<u8>, o: int, trigger: usize, buddy_object: usize, buddy: usize) -> bool {
    &&& 0 <= o
    &&& o + 101 <= code.len()
    &&& code[o + 0] == 0x50
    &&& code[o + 1] == 0xa0
    &&& number(code, o + 2, 8) == (trigger)
    &&& code[o + 10] == 0x84
    &&& code[o + 11] == 0xc0
    &&& code[o + 12] == 0x58
    &&& code[o + 13] == 0x0f
    &&& code[o + 14] == 0x84
    &&& reach32(code, o + 15) == 82
    &&& code[o + 19] == 0x50
    &&& code[o + 20] == 0x51
    &&& code[o + 21] == 0x52
    &&& code[o + 22] == 0x41
    &&& code[o + 23] == 0x50
    &&& code[o + 24] == 0x41
    &&& code[o + 25] == 0x51
    &&& code[o + 26] == 0x41
    &&& code[o + 27] == 0x52
    &&& code[o + 28] == 0x41
    &&& code[o + 29] == 0x53
    &&& code[o + 30] == 0x48
    &&& code[o + 31] == 0x81
    &&& code[o + 32] == 0xec
    &&& code[o + 33] == 0x28
    &&& code[o + 34] == 0x00
    &&& code[o + 35] == 0x00
    &&& code[o + 36] == 0x00
    &&& code[o + 37] == 0x48
    &&& code[o + 38] == 0xb9
    &&& number(code, o + 39, 8) == (buddy_object)
    &&& code[o + 47] == 0x48
    &&& code[o + 48] == 0x89
    &&& code[o + 49] == 0x79
    &&& code[o + 50] == 0x18
    &&& code[o + 51] == 0x48
    &&& code[o + 52] == 0x8b
    &&& code[o + 53] == 0x91
    &&& code[o + 54] == 0xe0
    &&& code[o + 55] == 0x00
    &&& code[o + 56] == 0x00
    &&& code[o + 57] == 0x00
    &&& code[o + 58] == 0x48
    &&& code[o + 59] == 0xb8
    &&& number(code, o + 60, 8) == (buddy)
    &&& code[o + 68] == 0xff
    &&& code[o + 69] == 0xd0
    &&& code[o + 70] == 0x48
    &&& code[o + 71] == 0x81
    &&& code[o + 72] == 0xc4
    &&& code[o + 73] == 0x28
    &&& code[o + 74] == 0x00
    &&& code[o + 75] == 0x00
    &&& code[o + 76] == 0x00
    &&& code[o + 77] == 0x41
    &&& code[o + 78] == 0x5b
    &&& code[o + 79] == 0x41
    &&& code[o + 80] == 0x5a
    &&& code[o + 81] == 0x41
    &&& code[o + 82] == 0x59
    &&& code[o + 83] == 0x41
    &&& code[o + 84] == 0x58
    &&& code[o + 85] == 0x5a
    &&& code[o + 86] == 0x59
    &&& code[o + 87] == 0x58
    &&& code[o + 88] == 0x50
    &&& code[o + 89] == 0x30
    &&& code[o + 90] == 0xc0
    &&& code[o + 91] == 0xa2
    &&& number(code, o + 92, 8) == (trigger)
    &&& code[o + 100] == 0x58
}

#[verifier::spinoff_prover]
#[verifier::rlimit(100)]
proof fn lemma_buddy_holds(code: Seq<u8>, o: int, trigger: usize, buddy_object: usize, buddy: usize)
    requires
        stands(code, o, assembly(buddy_pieces(trigger, buddy_object, buddy))),
    ensures
        buddy_holds(code, o, trigger, buddy_object, buddy),
{
    reveal(buddy_holds);
    let pieces = buddy_pieces(trigger, buddy_object, buddy);
    lemma_buddy(trigger, buddy_object, buddy);
    lemma_le_bytes_len((trigger) as nat, 8);
    lemma_le_bytes_len((buddy_object) as nat, 8);
    lemma_le_bytes_len((buddy) as nat, 8);
    lemma_le_bytes_len((trigger) as nat, 8);
    assert(offset(pieces, 0) == 0);
    assert(offset(pieces, 1) == 2);
    assert(offset(pieces, 2) == 10);
    assert(offset(pieces, 3) == 13);
    assert(offset(pieces, 4) == 19);
    assert(offset(pieces, 5) == 37);
    assert(offset(pieces, 6) == 39);
    assert(offset(pieces, 7) == 47);
    assert(offset(pieces, 8) == 60);
    assert(offset(pieces, 9) == 68);
    assert(offset(pieces, 10) == 70);
    assert(offset(pieces, 11) == 92);
    assert(offset(pieces, 12) == 100);
    assert(offset(pieces, 13) == 101);
    assert(offset(pieces, 14) == 101);
    lemma_place_at(pieces, Label::Done, 13, 14);
    lemma_assembled_len(pieces, 14);
    let c0 = seq![0x50u8, 0xa0];
    assert(piece_code(pieces, 0) == c0);
    lemma_piece_stands(code, o, pieces, 0);
    lemma_bytes_stand(code, o + 0, c0);
    assert(c0[0] == 0x50);
    assert(c0[1] == 0xa0);
    lemma_piece_stands(code, o, pieces, 1);
    lemma_eight(code, o + 2, (trigger) as nat);
    let c2 = seq![0x84u8, 0xc0, 0x58];
    assert(piece_code(pieces, 2) == c2);
    lemma_piece_stands(code, o, pieces, 2);
    lemma_bytes_stand(code, o + 10, c2);
    assert(c2[0] == 0x84);
    assert(c2[1] == 0xc0);
    assert(c2[2] == 0x58);
    lemma_branch_stands(code, o, pieces, 3);
    let c4 = seq![
        0x50u8, 0x51, 0x52, 0x41, 0x50, 0x41, 0x51, 0x41, 0x52, 0x41, 0x53, 0x48, 0x81, 0xec, 0x28,
        0x00, 0x00, 0x00,
    ];
    assert(piece_code(pieces, 4) == c4);
    lemma_piece_stands(code, o, pieces, 4);
    lemma_bytes_stand(code, o + 19, c4);
    assert(c4[0] == 0x50);
    assert(c4[1] == 0x51);
    assert(c4[2] == 0x52);
    assert(c4[3] == 0x41);
    assert(c4[4] == 0x50);
    assert(c4[5] == 0x41);
    assert(c4[6] == 0x51);
    assert(c4[7] == 0x41);
    assert(c4[8] == 0x52);
    assert(c4[9] == 0x41);
    assert(c4[10] == 0x53);
    assert(c4[11] == 0x48);
    assert(c4[12] == 0x81);
    assert(c4[13] == 0xec);
    assert(c4[14] == 0x28);
    assert(c4[15] == 0x00);
    assert(c4[16] == 0x00);
    assert(c4[17] == 0x00);
    let c5 = seq![0x48u8, 0xb9];
    assert(piece_code(pieces, 5) == c5);
    lemma_piece_stands(code, o, pieces, 5);
    lemma_bytes_stand(code, o + 37, c5);
    assert(c5[0] == 0x48);
    assert(c5[1] == 0xb9);
    lemma_piece_stands(code, o, pieces, 6);
    lemma_eight(code, o + 39, (buddy_object) as nat);
    let c7 = seq![0x48u8, 0x89, 0x79, 0x18, 0x48, 0x8b, 0x91, 0xe0, 0x00, 0x00, 0x00, 0x48, 0xb8];
    assert(piece_code(pieces, 7) == c7);
    lemma_piece_stands(code, o, pieces, 7);
    lemma_bytes_stand(code, o + 47, c7);
    assert(c7[0] == 0x48);
    assert(c7[1] == 0x89);
    assert(c7[2] == 0x79);
    assert(c7[3] == 0x18);
    assert(c7[4] == 0x48);
    assert(c7[5] == 0x8b);
    assert(c7[6] == 0x91);
    assert(c7[7] == 0xe0);
    assert(c7[8] == 0x00);
    assert(c7[9] == 0x00);
    assert(c7[10] == 0x00);
    assert(c7[11] == 0x48);
    assert(c7[12] == 0xb8);
    lemma_piece_stands(code, o, pieces, 8);
    lemma_eight(code, o + 60, (buddy) as nat);
    let c9 = seq![0xffu8, 0xd0];
    assert(piece_code(pieces, 9) == c9);
    lemma_piece_stands(code, o, pieces, 9);
    lemma_bytes_stand(code, o + 68, c9);
    assert(c9[0] == 0xff);
    assert(c9[1] == 0xd0);
    let c10 = seq![
        0x48u8, 0x81, 0xc4, 0x28, 0x00, 0x00, 0x00, 0x41, 0x5b, 0x41, 0x5a, 0x41, 0x59, 0x41, 0x58,
        0x5a, 0x59, 0x58, 0x50, 0x30, 0xc0, 0xa2,
    ];
    assert(piece_code(pieces, 10) == c10);
    lemma_piece_stands(code, o, pieces, 10);
    lemma_bytes_stand(code, o + 70, c10);
    assert(c10[0] == 0x48);
    assert(c10[1] == 0x81);
    assert(c10[2] == 0xc4);
    assert(c10[3] == 0x28);
    assert(c10[4] == 0x00);
    assert(c10[5] == 0x00);
    assert(c10[6] == 0x00);
    assert(c10[7] == 0x41);
    assert(c10[8] == 0x5b);
    assert(c10[9] == 0x41);
    assert(c10[10] == 0x5a);
    assert(c10[11] == 0x41);
    assert(c10[12] == 0x59);
    assert(c10[13] == 0x41);
    assert(c10[14] == 0x58);
    assert(c10[15] == 0x5a);
    assert(c10[16] == 0x59);
    assert(c10[17] == 0x58);
    assert(c10[18] == 0x50);
    assert(c10[19] == 0x30);
    assert(c10[20] == 0xc0);
    assert(c10[21] == 0xa2);
    lemma_piece_stands(code, o, pieces, 11);
    lemma_eight(code, o + 92, (trigger) as nat);
    let c12 = seq![0x58u8];
    assert(piece_code(pieces, 12) == c12);
    lemma_piece_stands(code, o, pieces, 12);
    lemma_bytes_stand(code, o + 100, c12);
    assert(c12[0] == 0x58);
}

/// The code that sends a message stands at a place.
#[verifier::opaque]
spec fn send_holds(code: Seq<u8>, o: int, trigger: usize, send_struct: usize, message_buffer: usize, send: usize, operator_new: usize) -> bool {
    &&& 0 <= o
    &&& o + 192 <= code.len()
    &&& code[o + 0] == 0x50
    &&& code[o + 1] == 0xa0
    &&& number(code, o + 2, 8) == (trigger)
    &&& code[o + 10] == 0x84
    &&& code[o + 11] == 0xc0
    &&& code[o + 12] == 0x58
    &&& code[o + 13] == 0x0f
    &&& code[o + 14] == 0x84
    &&& reach32(code, o + 15) == 173
    &&& code[o + 19] == 0x50
    &&& code[o + 20] == 0x51
    &&& code[o + 21] == 0x52
    &&& code[o + 22] == 0x41
    &&& code[o + 23] == 0x50
    &&& code[o + 24] == 0x41
    &&& code[o + 25] == 0x51
    &&& code[o + 26] == 0x41
    &&& code[o + 27] == 0x52
    &&& code[o + 28] == 0x41
    &&& code[o + 29] == 0x53
    &&& code[o + 30] == 0x48
    &&& code[o + 31] == 0x81
    &&& code[o + 32] == 0xec
    &&& code[o + 33] == 0x28
    &&& code[o + 34] == 0x00
    &&& code[o + 35] == 0x00
    &&& code[o + 36] == 0x00
    &&& code[o + 37] == 0x48
    &&& code[o + 38] == 0xa1
    &&& number(code, o + 39, 8) == (send_struct + 0x10)
    &&& code[o + 47] == 0x48
    &&& code[o + 48] == 0x83
    &&& code[o + 49] == 0xf8
    &&& code[o + 50] == 0x07
    &&& code[o + 51] == 0x0f
    &&& code[o + 52] == 0x86
    &&& reach32(code, o + 53) == 79
    &&& code[o + 57] == 0x48
    &&& code[o + 58] == 0x8d
    &&& code[o + 59] == 0x4c
    &&& code[o + 60] == 0x00
    &&& code[o + 61] == 0x02
    &&& code[o + 62] == 0x48
    &&& code[o + 63] == 0xb8
    &&& number(code, o + 64, 8) == (operator_new)
    &&& code[o + 72] == 0xff
    &&& code[o + 73] == 0xd0
    &&& code[o + 74] == 0x49
    &&& code[o + 75] == 0x89
    &&& code[o + 76] == 0xc3
    &&& code[o + 77] == 0x49
    &&& code[o + 78] == 0xba
    &&& number(code, o + 79, 8) == (message_buffer)
    &&& code[o + 87] == 0x48
    &&& code[o + 88] == 0xa1
    &&& number(code, o + 89, 8) == (send_struct + 0x10)
    &&& code[o + 97] == 0x48
    &&& code[o + 98] == 0x8d
    &&& code[o + 99] == 0x4c
    &&& code[o + 100] == 0x00
    &&& code[o + 101] == 0x02
    &&& code[o + 102] == 0x41
    &&& code[o + 103] == 0x8a
    &&& code[o + 104] == 0x02
    &&& code[o + 105] == 0x41
    &&& code[o + 106] == 0x88
    &&& code[o + 107] == 0x03
    &&& code[o + 108] == 0x49
    &&& code[o + 109] == 0xff
    &&& code[o + 110] == 0xc2
    &&& code[o + 111] == 0x49
    &&& code[o + 112] == 0xff
    &&& code[o + 113] == 0xc3
    &&& code[o + 114] == 0x48
    &&& code[o + 115] == 0xff
    &&& code[o + 116] == 0xc9
    &&& code[o + 117] == 0x0f
    &&& code[o + 118] == 0x85
    &&& reach32(code, o + 119) == -21
    &&& code[o + 123] == 0x48
    &&& code[o + 124] == 0xb8
    &&& number(code, o + 125, 8) == (send_struct)
    &&& code[o + 133] == 0x4c
    &&& code[o + 134] == 0x89
    &&& code[o + 135] == 0x18
    &&& code[o + 136] == 0x48
    &&& code[o + 137] == 0x89
    &&& code[o + 138] == 0xf9
    &&& code[o + 139] == 0x48
    &&& code[o + 140] == 0xba
    &&& number(code, o + 141, 8) == (send_struct)
    &&& code[o + 149] == 0x48
    &&& code[o + 150] == 0xb8
    &&& number(code, o + 151, 8) == (send)
    &&& code[o + 159] == 0xff
    &&& code[o + 160] == 0xd0
    &&& code[o + 161] == 0x48
    &&& code[o + 162] == 0x81
    &&& code[o + 163] == 0xc4
    &&& code[o + 164] == 0x28
    &&& code[o + 165] == 0x00
    &&& code[o + 166] == 0x00
    &&& code[o + 167] == 0x00
    &&& code[o + 168] == 0x41
    &&& code[o + 169] == 0x5b
    &&& code[o + 170] == 0x41
    &&& code[o + 171] == 0x5a
    &&& code[o + 172] == 0x41
    &&& code[o + 173] == 0x59
    &&& code[o + 174] == 0x41
    &&& code[o + 175] == 0x58
    &&& code[o + 176] == 0x5a
    &&& code[o + 177] == 0x59
    &&& code[o + 178] == 0x58
    &&& code[o + 179] == 0x50
    &&& code[o + 180] == 0x30
    &&& code[o + 181] == 0xc0
    &&& code[o + 182] == 0xa2
    &&& number(code, o + 183, 8) == (trigger)
    &&& code[o + 191] == 0x58
}

#[verifier::spinoff_prover]
#[verifier::rlimit(100)]
proof fn lemma_send_holds(
    code: Seq<u8>,
    o: int,
    trigger: usize,
    send_struct: usize,
    message_buffer: usize,
    send: usize,
    operator_new: usize,
)
    requires
        stands(
            code,
            o,
            assembly(send_pieces(trigger, send_struct, message_buffer, send, operator_new)),
        ),
        send_struct + 0x10 <= usize::MAX,
    ensures
        send_holds(code, o, trigger, send_struct, message_buffer, send, operator_new),
{
    reveal(send_holds);
    let pieces = send_pieces(trigger, send_struct, message_buffer, send, operator_new);
    lemma_send(trigger, send_struct, message_buffer, send, operator_new);
    lemma_le_bytes_len((trigger) as nat, 8);
    lemma_le_bytes_len((send_struct + 0x10) as nat, 8);
    lemma_le_bytes_len((operator_new) as nat, 8);
    lemma_le_bytes_len((message_buffer) as nat, 8);
    lemma_le_bytes_len((send_struct + 0x10) as nat, 8);
    lemma_le_bytes_len((send_struct) as nat, 8);
    lemma_le_bytes_len((send_struct) as nat, 8);
    lemma_le_bytes_len((send) as nat, 8);
    lemma_le_bytes_len((trigger) as nat, 8);
    assert(offset(pieces, 0) == 0);
    assert(offset(pieces, 1) == 2);
    assert(offset(pieces, 2) == 10);
    assert(offset(pieces, 3) == 13);
    assert(offset(pieces, 4) == 19);
    assert(offset(pieces, 5) == 37);
    assert(offset(pieces, 6) == 39);
    assert(offset(pieces, 7) == 47);
    assert(offset(pieces, 8) == 51);
    assert(offset(pieces, 9) == 57);
    assert(offset(pieces, 10) == 64);
    assert(offset(pieces, 11) == 72);
    assert(offset(pieces, 12) == 79);
    assert(offset(pieces, 13) == 87);
    assert(offset(pieces, 14) == 89);
    assert(offset(pieces, 15) == 97);
    assert(offset(pieces, 16) == 102);
    assert(offset(pieces, 17) == 102);
    assert(offset(pieces, 18) == 117);
    assert(offset(pieces, 19) == 123);
    assert(offset(pieces, 20) == 125);
    assert(offset(pieces, 21) == 133);
    assert(offset(pieces, 22) == 136);
    assert(offset(pieces, 23) == 136);
    assert(offset(pieces, 24) == 141);
    assert(offset(pieces, 25) == 149);
    assert(offset(pieces, 26) == 151);
    assert(offset(pieces, 27) == 159);
    assert(offset(pieces, 28) == 161);
    assert(offset(pieces, 29) == 183);
    assert(offset(pieces, 30) == 191);
    assert(offset(pieces, 31) == 192);
    assert(offset(pieces, 32) == 192);
    lemma_place_at(pieces, Label::CopyLoop, 16, 32);
    lemma_place_at(pieces, Label::ChatReady, 22, 32);
    lemma_place_at(pieces, Label::Done, 31, 32);
    lemma_assembled_len(pieces, 32);
    let c0 = seq![0x50u8, 0xa0];
    assert(piece_code(pieces, 0) == c0);
    lemma_piece_stands(code, o, pieces, 0);
    lemma_bytes_stand(code, o + 0, c0);
    assert(c0[0] == 0x50);
    assert(c0[1] == 0xa0);
    lemma_piece_stands(code, o, pieces, 1);
    lemma_eight(code, o + 2, (trigger) as nat);
    let c2 = seq![0x84u8, 0xc0, 0x58];
    assert(piece_code(pieces, 2) == c2);
    lemma_piece_stands(code, o, pieces, 2);
    lemma_bytes_stand(code, o + 10, c2);
    assert(c2[0] == 0x84);
    assert(c2[1] == 0xc0);
    assert(c2[2] == 0x58);
    lemma_branch_stands(code, o, pieces, 3);
    let c4 = seq![
        0x50u8, 0x51, 0x52, 0x41, 0x50, 0x41, 0x51, 0x41, 0x52, 0x41, 0x53, 0x48, 0x81, 0xec, 0x28,
        0x00, 0x00, 0x00,
    ];
    assert(piece_code(pieces, 4) == c4);
    lemma_piece_stands(code, o, pieces, 4);
    lemma_bytes_stand(code, o + 19, c4);
    assert(c4[0] == 0x50);
    assert(c4[1] == 0x51);
    assert(c4[2] == 0x52);
    assert(c4[3] == 0x41);
    assert(c4[4] == 0x50);
    assert(c4[5] == 0x41);
    assert(c4[6] == 0x51);
    assert(c4[7] == 0x41);
    assert(c4[8] == 0x52);
    assert(c4[9] == 0x41);
    assert(c4[10] == 0x53);
    assert(c4[11] == 0x48);
    assert(c4[12] == 0x81);
    assert(c4[13] == 0xec);
    assert(c4[14] == 0x28);
    assert(c4[15] == 0x00);
    assert(c4[16] == 0x00);
    assert(c4[17] == 0x00);
    let c5 = seq![0x48u8, 0xa1];
    assert(piece_code(pieces, 5) == c5);
    lemma_piece_stands(code, o, pieces, 5);
    lemma_bytes_stand(code, o + 37, c5);
    assert(c5[0] == 0x48);
    assert(c5[1] == 0xa1);
    lemma_piece_stands(code, o, pieces, 6);
    lemma_eight(code, o + 39, (send_struct + 0x10) as nat);
    let c7 = seq![0x48u8, 0x83, 0xf8, 0x07];
    assert(piece_code(pieces, 7) == c7);
    lemma_piece_stands(code, o, pieces, 7);
    lemma_bytes_stand(code, o + 47, c7);
    assert(c7[0] == 0x48);
    assert(c7[1] == 0x83);
    assert(c7[2] == 0xf8);
    assert(c7[3] == 0x07);
    lemma_branch_stands(code, o, pieces, 8);
    let c9 = seq![0x48u8, 0x8d, 0x4c, 0x00, 0x02, 0x48, 0xb8];
    assert(piece_code(pieces, 9) == c9);
    lemma_piece_stands(code, o, pieces, 9);
    lemma_bytes_stand(code, o + 57, c9);
    assert(c9[0] == 0x48);
    assert(c9[1] == 0x8d);
    assert(c9[2] == 0x4c);
    assert(c9[3] == 0x00);
    assert(c9[4] == 0x02);
    assert(c9[5] == 0x48);
    assert(c9[6] == 0xb8);
    lemma_piece_stands(code, o, pieces, 10);
    lemma_eight(code, o + 64, (operator_new) as nat);
    let c11 = seq![0xffu8, 0xd0, 0x49, 0x89, 0xc3, 0x49, 0xba];
    assert(piece_code(pieces, 11) == c11);
    lemma_piece_stands(code, o, pieces, 11);
    lemma_bytes_stand(code, o + 72, c11);
    assert(c11[0] == 0xff);
    assert(c11[1] == 0xd0);
    assert(c11[2] == 0x49);
    assert(c11[3] == 0x89);
    assert(c11[4] == 0xc3);
    assert(c11[5] == 0x49);
    assert(c11[6] == 0xba);
    lemma_piece_stands(code, o, pieces, 12);
    lemma_eight(code, o + 79, (message_buffer) as nat);
    let c13 = seq![0x48u8, 0xa1];
    assert(piece_code(pieces, 13) == c13);
    lemma_piece_stands(code, o, pieces, 13);
    lemma_bytes_stand(code, o + 87, c13);
    assert(c13[0] == 0x48);
    assert(c13[1] == 0xa1);
    lemma_piece_stands(code, o, pieces, 14);
    lemma_eight(code, o + 89, (send_struct + 0x10) as nat);
    let c15 = seq![0x48u8, 0x8d, 0x4c, 0x00, 0x02];
    assert(piece_code(pieces, 15) == c15);
    lemma_piece_stands(code, o, pieces, 15);
    lemma_bytes_stand(code, o + 97, c15);
    assert(c15[0] == 0x48);
    assert(c15[1] == 0x8d);
    assert(c15[2] == 0x4c);
    assert(c15[3] == 0x00);
    assert(c15[4] == 0x02);
    let c17 = seq![
        0x41u8, 0x8a, 0x02, 0x41, 0x88, 0x03, 0x49, 0xff, 0xc2, 0x49, 0xff, 0xc3, 0x48, 0xff, 0xc9,
    ];
    assert(piece_code(pieces, 17) == c17);
    lemma_piece_stands(code, o, pieces, 17);
    lemma_bytes_stand(code, o + 102, c17);
    assert(c17[0] == 0x41);
    assert(c17[1] == 0x8a);
    assert(c17[2] == 0x02);
    assert(c17[3] == 0x41);
    assert(c17[4] == 0x88);
    assert(c17[5] == 0x03);
    assert(c17[6] == 0x49);
    assert(c17[7] == 0xff);
    assert(c17[8] == 0xc2);
    assert(c17[9] == 0x49);
    assert(c17[10] == 0xff);
    assert(c17[11] == 0xc3);
    assert(c17[12] == 0x48);
    assert(c17[13] == 0xff);
    assert(c17[14] == 0xc9);
    lemma_branch_stands(code, o, pieces, 18);
    let c19 = seq![0x48u8, 0xb8];
    assert(piece_code(pieces, 19) == c19);
    lemma_piece_stands(code, o, pieces, 19);
    lemma_bytes_stand(code, o + 123, c19);
    assert(c19[0] == 0x48);
    assert(c19[1] == 0xb8);
    lemma_piece_stands(code, o, pieces, 20);
    lemma_eight(code, o + 125, (send_struct) as nat);
    let c21 = seq![0x4cu8, 0x89, 0x18];
    assert(piece_code(pieces, 21) == c21);
    lemma_piece_stands(code, o, pieces, 21);
    lemma_bytes_stand(code, o + 133, c21);
    assert(c21[0] == 0x4c);
    assert(c21[1] == 0x89);
    assert(c21[2] == 0x18);
    let c23 = seq![0x48u8, 0x89, 0xf9, 0x48, 0xba];
    assert(piece_code(pieces, 23) == c23);
    lemma_piece_stands(code, o, pieces, 23);
    lemma_bytes_stand(code, o + 136, c23);
    assert(c23[0] == 0x48);
    assert(c23[1] == 0x89);
    assert(c23[2] == 0xf9);
    assert(c23[3] == 0x48);
    assert(c23[4] == 0xba);
    lemma_piece_stands(code, o, pieces, 24);
    lemma_eight(code, o + 141, (send_struct) as nat);
    let c25 = seq![0x48u8, 0xb8];
    assert(piece_code(pieces, 25) == c25);
    lemma_piece_stands(code, o, pieces, 25);
    lemma_bytes_stand(code, o + 149, c25);
    assert(c25[0] == 0x48);
    assert(c25[1] == 0xb8);
    lemma_piece_stands(code, o, pieces, 26);
    lemma_eight(code, o + 151, (send) as nat);
    let c27 = seq![0xffu8, 0xd0];
    assert(piece_code(pieces, 27) == c27);
    lemma_piece_stands(code, o, pieces, 27);
    lemma_bytes_stand(code, o + 159, c27);
    assert(c27[0] == 0xff);
    assert(c27[1] == 0xd0);
    let c28 = seq![
        0x48u8, 0x81, 0xc4, 0x28, 0x00, 0x00, 0x00, 0x41, 0x5b, 0x41, 0x5a, 0x41, 0x59, 0x41, 0x58,
        0x5a, 0x59, 0x58, 0x50, 0x30, 0xc0, 0xa2,
    ];
    assert(piece_code(pieces, 28) == c28);
    lemma_piece_stands(code, o, pieces, 28);
    lemma_bytes_stand(code, o + 161, c28);
    assert(c28[0] == 0x48);
    assert(c28[1] == 0x81);
    assert(c28[2] == 0xc4);
    assert(c28[3] == 0x28);
    assert(c28[4] == 0x00);
    assert(c28[5] == 0x00);
    assert(c28[6] == 0x00);
    assert(c28[7] == 0x41);
    assert(c28[8] == 0x5b);
    assert(c28[9] == 0x41);
    assert(c28[10] == 0x5a);
    assert(c28[11] == 0x41);
    assert(c28[12] == 0x59);
    assert(c28[13] == 0x41);
    assert(c28[14] == 0x58);
    assert(c28[15] == 0x5a);
    assert(c28[16] == 0x59);
    assert(c28[17] == 0x58);
    assert(c28[18] == 0x50);
    assert(c28[19] == 0x30);
    assert(c28[20] == 0xc0);
    assert(c28[21] == 0xa2);
    lemma_piece_stands(code, o, pieces, 29);
    lemma_eight(code, o + 183, (trigger) as nat);
    let c30 = seq![0x58u8];
    assert(piece_code(pieces, 30) == c30);
    lemma_piece_stands(code, o, pieces, 30);
    lemma_bytes_stand(code, o + 191, c30);
    assert(c30[0] == 0x58);
}

/// The code that copies a message out stands at a place.
#[verifier::opaque]
spec fn chat_holds(code: Seq<u8>, o: int, owner: usize, source: usize, length: usize, buffer: usize, counter: usize) -> bool {
    &&& 0 <= o
    &&& o + 132 <= code.len()
    &&& code[o + 0] == 0x51
    &&& code[o + 1] == 0x52
    &&& code[o + 2] == 0x41
    &&& code[o + 3] == 0x50
    &&& code[o + 4] == 0x41
    &&& code[o + 5] == 0x51
    &&& code[o + 6] == 0x50
    &&& code[o + 7] == 0x48
    &&& code[o + 8] == 0x89
    &&& code[o + 9] == 0xf0
    &&& code[o + 10] == 0x48
    &&& code[o + 11] == 0xa3
    &&& number(code, o + 12, 8) == (owner)
    &&& code[o + 20] == 0x58
    &&& code[o + 21] == 0x50
    &&& code[o + 22] == 0x48
    &&& code[o + 23] == 0x8b
    &&& code[o + 24] == 0x45
    &&& code[o + 25] == 0x80
    &&& code[o + 26] == 0x48
    &&& code[o + 27] == 0xa3
    &&& number(code, o + 28, 8) == (source)
    &&& code[o + 36] == 0x58
    &&& code[o + 37] == 0x50
    &&& code[o + 38] == 0x48
    &&& code[o + 39] == 0x8b
    &&& code[o + 40] == 0x40
    &&& code[o + 41] == 0x10
    &&& code[o + 42] == 0x48
    &&& code[o + 43] == 0xa3
    &&& number(code, o + 44, 8) == (length)
    &&& code[o + 52] == 0x58
    &&& code[o + 53] == 0x48
    &&& code[o + 54] == 0x8b
    &&& code[o + 55] == 0xd0
    &&& code[o + 56] == 0x48
    &&& code[o + 57] == 0x83
    &&& code[o + 58] == 0x78
    &&& code[o + 59] == 0x18
    &&& code[o + 60] == 0x08
    &&& code[o + 61] == 0x72
    &&& code[o + 62] == 0x03
    &&& code[o + 63] == 0x48
    &&& code[o + 64] == 0x8b
    &&& code[o + 65] == 0x10
    &&& code[o + 66] == 0x49
    &&& code[o + 67] == 0xb8
    &&& number(code, o + 68, 8) == (buffer)
    &&& code[o + 76] == 0x41
    &&& code[o + 77] == 0xb9
    &&& code[o + 78] == 0x14
    &&& code[o + 79] == 0x00
    &&& code[o + 80] == 0x00
    &&& code[o + 81] == 0x00
    &&& code[o + 82] == 0x48
    &&& code[o + 83] == 0x8b
    &&& code[o + 84] == 0x0a
    &&& code[o + 85] == 0x49
    &&& code[o + 86] == 0x89
    &&& code[o + 87] == 0x08
    &&& code[o + 88] == 0x48
    &&& code[o + 89] == 0x83
    &&& code[o + 90] == 0xc2
    &&& code[o + 91] == 0x08
    &&& code[o + 92] == 0x49
    &&& code[o + 93] == 0x83
    &&& code[o + 94] == 0xc0
    &&& code[o + 95] == 0x08
    &&& code[o + 96] == 0x41
    &&& code[o + 97] == 0xff
    &&& code[o + 98] == 0xc9
    &&& code[o + 99] == 0x75
    &&& code[o + 100] == 0xed
    &&& code[o + 101] == 0x50
    &&& code[o + 102] == 0x48
    &&& code[o + 103] == 0xa1
    &&& number(code, o + 104, 8) == (counter)
    &&& code[o + 112] == 0x48
    &&& code[o + 113] == 0xff
    &&& code[o + 114] == 0xc0
    &&& code[o + 115] == 0x48
    &&& code[o + 116] == 0xa3
    &&& number(code, o + 117, 8) == (counter)
    &&& code[o + 125] == 0x58
    &&& code[o + 126] == 0x41
    &&& code[o + 127] == 0x59
    &&& code[o + 128] == 0x41
    &&& code[o + 129] == 0x58
    &&& code[o + 130] == 0x5a
    &&& code[o + 131] == 0x59
}

#[verifier::spinoff_prover]
#[verifier::rlimit(100)]
proof fn lemma_chat_holds(
    code: Seq<u8>,
    o: int,
    owner: usize,
    source: usize,
    length: usize,
    buffer: usize,
    counter: usize,
)
    requires
        stands(code, o, chat_bytes(owner, source, length, buffer, counter)),
    ensures
        chat_holds(code, o, owner, source, length, buffer, counter),
{
    reveal(chat_holds);
    let part = chat_bytes(owner, source, length, buffer, counter);
    lemma_le_bytes_len((owner) as nat, 8);
    lemma_le_bytes_len((source) as nat, 8);
    lemma_le_bytes_len((length) as nat, 8);
    lemma_le_bytes_len((buffer) as nat, 8);
    lemma_le_bytes_len((counter) as nat, 8);
    lemma_le_bytes_len((counter) as nat, 8);
    let c0 = seq![0x51u8, 0x52, 0x41, 0x50, 0x41, 0x51, 0x50, 0x48, 0x89, 0xf0, 0x48, 0xa3];
    assert(part.subrange(0, 12) =~= c0);
    lemma_part_stands(code, o, part, 0, c0);
    assert(c0[0] == 0x51);
    assert(c0[1] == 0x52);
    assert(c0[2] == 0x41);
    assert(c0[3] == 0x50);
    assert(c0[4] == 0x41);
    assert(c0[5] == 0x51);
    assert(c0[6] == 0x50);
    assert(c0[7] == 0x48);
    assert(c0[8] == 0x89);
    assert(c0[9] == 0xf0);
    assert(c0[10] == 0x48);
    assert(c0[11] == 0xa3);
    assert(part.subrange(12, 20) =~= le_bytes((owner) as nat, 8));
    lemma_part_stands(code, o, part, 12, le_bytes((owner) as nat, 8));
    lemma_eight(code, o + 12, (owner) as nat);
    let c2 = seq![0x58u8, 0x50, 0x48, 0x8b, 0x45, 0x80, 0x48, 0xa3];
    assert(part.subrange(20, 28) =~= c2);
    lemma_part_stands(code, o, part, 20, c2);
    assert(c2[0] == 0x58);
    assert(c2[1] == 0x50);
    assert(c2[2] == 0x48);
    assert(c2[3] == 0x8b);
    assert(c2[4] == 0x45);
    assert(c2[5] == 0x80);
    assert(c2[6] == 0x48);
    assert(c2[7] == 0xa3);
    assert(part.subrange(28, 36) =~= le_bytes((source) as nat, 8));
    lemma_part_stands(code, o, part, 28, le_bytes((source) as nat, 8));
    lemma_eight(code, o + 28, (source) as nat);
    let c4 = seq![0x58u8, 0x50, 0x48, 0x8b, 0x40, 0x10, 0x48, 0xa3];
    assert(part.subrange(36, 44) =~= c4);
    lemma_part_stands(code, o, part, 36, c4);
    assert(c4[0] == 0x58);
    assert(c4[1] == 0x50);
    assert(c4[2] == 0x48);
    assert(c4[3] == 0x8b);
    assert(c4[4] == 0x40);
    assert(c4[5] == 0x10);
    assert(c4[6] == 0x48);
    assert(c4[7] == 0xa3);
    assert(part.subrange(44, 52) =~= le_bytes((length) as nat, 8));
    lemma_part_stands(code, o, part, 44, le_bytes((length) as nat, 8));
    lemma_eight(code, o + 44, (length) as nat);
    let c6 = seq![
        0x58u8, 0x48, 0x8b, 0xd0, 0x48, 0x83, 0x78, 0x18, 0x08, 0x72, 0x03, 0x48, 0x8b, 0x10, 0x49,
        0xb8,
    ];
    assert(part.subrange(52, 68) =~= c6);
    lemma_part_stands(code, o, part, 52, c6);
    assert(c6[0] == 0x58);
    assert(c6[1] == 0x48);
    assert(c6[2] == 0x8b);
    assert(c6[3] == 0xd0);
    assert(c6[4] == 0x48);
    assert(c6[5] == 0x83);
    assert(c6[6] == 0x78);
    assert(c6[7] == 0x18);
    assert(c6[8] == 0x08);
    assert(c6[9] == 0x72);
    assert(c6[10] == 0x03);
    assert(c6[11] == 0x48);
    assert(c6[12] == 0x8b);
    assert(c6[13] == 0x10);
    assert(c6[14] == 0x49);
    assert(c6[15] == 0xb8);
    assert(part.subrange(68, 76) =~= le_bytes((buffer) as nat, 8));
    lemma_part_stands(code, o, part, 68, le_bytes((buffer) as nat, 8));
    lemma_eight(code, o + 68, (buffer) as nat);
    let c8 = seq![
        0x41u8, 0xb9, 0x14, 0x00, 0x00, 0x00, 0x48, 0x8b, 0x0a, 0x49, 0x89, 0x08, 0x48, 0x83, 0xc2,
        0x08, 0x49, 0x83, 0xc0, 0x08, 0x41, 0xff, 0xc9, 0x75, 0xed, 0x50, 0x48, 0xa1,
    ];
    assert(part.subrange(76, 104) =~= c8);
    lemma_part_stands(code, o, part, 76, c8);
    assert(c8[0] == 0x41);
    assert(c8[1] == 0xb9);
    assert(c8[2] == 0x14);
    assert(c8[3] == 0x00);
    assert(c8[4] == 0x00);
    assert(c8[5] == 0x00);
    assert(c8[6] == 0x48);
    assert(c8[7] == 0x8b);
    assert(c8[8] == 0x0a);
    assert(c8[9] == 0x49);
    assert(c8[10] == 0x89);
    assert(c8[11] == 0x08);
    assert(c8[12] == 0x48);
    assert(c8[13] == 0x83);
    assert(c8[14] == 0xc2);
    assert(c8[15] == 0x08);
    assert(c8[16] == 0x49);
    assert(c8[17] == 0x83);
    assert(c8[18] == 0xc0);
    assert(c8[19] == 0x08);
    assert(c8[20] == 0x41);
    assert(c8[21] == 0xff);
    assert(c8[22] == 0xc9);
    assert(c8[23] == 0x75);
    assert(c8[24] == 0xed);
    assert(c8[25] == 0x50);
    assert(c8[26] == 0x48);
    assert(c8[27] == 0xa1);
    assert(part.subrange(104, 112) =~= le_bytes((counter) as nat, 8));
    lemma_part_stands(code, o, part, 104, le_bytes((counter) as nat, 8));
    lemma_eight(code, o + 104, (counter) as nat);
    let c10 = seq![0x48u8, 0xff, 0xc0, 0x48, 0xa3];
    assert(part.subrange(112, 117) =~= c10);
    lemma_part_stands(code, o, part, 112, c10);
    assert(c10[0] == 0x48);
    assert(c10[1] == 0xff);
    assert(c10[2] == 0xc0);
    assert(c10[3] == 0x48);
    assert(c10[4] == 0xa3);
    assert(part.subrange(117, 125) =~= le_bytes((counter) as nat, 8));
    lemma_part_stands(code, o, part, 117, le_bytes((counter) as nat, 8));
    lemma_eight(code, o + 117, (counter) as nat);
    let c12 = seq![0x58u8, 0x41, 0x59, 0x41, 0x58, 0x5a, 0x59];
    assert(part.subrange(125, 132) =~= c12);
    lemma_part_stands(code, o, part, 125, c12);
    assert(c12[0] == 0x58);
    assert(c12[1] == 0x41);
    assert(c12[2] == 0x59);
    assert(c12[3] == 0x41);
    assert(c12[4] == 0x58);
    assert(c12[5] == 0x5a);
    assert(c12[6] == 0x59);
}

#[verifier::spinoff_prover]
#[verifier::rlimit(100)]
proof fn lemma_buddy_trigger(
    code: Seq<u8>,
    base: int,
    o: int,
    from: Cpu,
    cpu: Cpu,
    trigger: usize,
    buddy_object: usize,
    buddy: usize,
) -> (end: Cpu)
    requires
        reaches(code, base, from, cpu),
        cpu.sound(),
        cpu.ip == base + o + 0,
        buddy_holds(code, o, trigger, buddy_object, buddy),
    ensures
        reaches(code, base, from, end),
        end.ip == if (cpu.memory)(trigger as int) != 0 { base + o + 19 } else { base + o + 101 },
        end.memory == cpu.memory,
        end.regs == cpu.regs,
        end.stack == cpu.stack,
        end.vectors == cpu.vectors,
{
    reveal(buddy_holds);
    lemma_pow256();
    lemma_push(code, o + 0, 0);
    let s0 = lemma_next(code, base, from, cpu, Inst::Push { n: 0 }, 1);
    lemma_held_byte(cpu.memory, trigger as int);
    lemma_absolute(code, o + 1);
    let s1 = lemma_next(
        code,
        base,
        from,
        s0,
        Inst::Move {
            to: Operand::Reg { n: 0 },
            from: Operand::Mem { place: Place::Absolute { at: (trigger) as nat } },
            size: 1,
        },
        9,
    );
    lemma_low_byte(cpu.regs[0], held(cpu.memory, trigger as int, 1));
    lemma_is_reg(code, o + 11, 0, 0);
    lemma_plain(code, o + 10, Operand::Reg { n: 0 }, 1);
    let s2 = lemma_next(
        code,
        base,
        from,
        s1,
        Inst::Test { left: Operand::Reg { n: 0 }, right: Operand::Reg { n: 0 }, size: 1 },
        2,
    );
    assert(is_zero(s2) <==> (cpu.memory)(trigger as int) == 0);
    lemma_pop(code, o + 12, 0);
    let s3 = lemma_next(code, base, from, s2, Inst::Pop { n: 0 }, 1);
    assert(s3.regs =~= cpu.regs);
    assert(s3.stack =~= cpu.stack);
    lemma_branch(code, o + 13);
    let s4 = lemma_next(code, base, from, s3, Inst::Branch { condition: 4, reach: 82 }, 6);
    s4
}

#[verifier::spinoff_prover]
#[verifier::rlimit(100)]
proof fn lemma_buddy_saves(
    code: Seq<u8>,
    base: int,
    o: int,
    from: Cpu,
    cpu: Cpu,
    trigger: usize,
    buddy_object: usize,
    buddy: usize,
) -> (end: Cpu)
    requires
        reaches(code, base, from, cpu),
        cpu.sound(),
        cpu.ip == base + o + 19,
        buddy_holds(code, o, trigger, buddy_object, buddy),
    ensures
        reaches(code, base, from, end),
        end.ip == base + o + 37,
        end.memory == cpu.memory,
        end.regs == cpu.regs,
        end.vectors == cpu.vectors,
        action_saved(end.stack, cpu),
{
    reveal(buddy_holds);
    lemma_pow256();
    lemma_push(code, o + 19, 0);
    let s5 = lemma_next(code, base, from, cpu, Inst::Push { n: 0 }, 1);
    lemma_push(code, o + 20, 1);
    let s6 = lemma_next(code, base, from, s5, Inst::Push { n: 1 }, 1);
    lemma_push(code, o + 21, 2);
    let s7 = lemma_next(code, base, from, s6, Inst::Push { n: 2 }, 1);
    lemma_push(code, o + 22, 8);
    let s8 = lemma_next(code, base, from, s7, Inst::Push { n: 8 }, 2);
    lemma_push(code, o + 24, 9);
    let s9 = lemma_next(code, base, from, s8, Inst::Push { n: 9 }, 2);
    lemma_push(code, o + 26, 10);
    let s10 = lemma_next(code, base, from, s9, Inst::Push { n: 10 }, 2);
    lemma_push(code, o + 28, 11);
    let s11 = lemma_next(code, base, from, s10, Inst::Push { n: 11 }, 2);
    lemma_four(code, o + 33);
    lemma_room(code, o + 30);
    let s12 = lemma_next(code, base, from, s11, Inst::Grow { words: 5 }, 7);
    assert(s12.stack.take(cpu.stack.len() as int) =~= cpu.stack);
    s12
}

#[verifier::spinoff_prover]
#[verifier::rlimit(100)]
proof fn lemma_buddy_returns(
    code: Seq<u8>,
    base: int,
    o: int,
    from: Cpu,
    cpu: Cpu,
    trigger: usize,
    buddy_object: usize,
    buddy: usize,
) -> (end: Cpu)
    requires
        reaches(code, base, from, cpu),
        cpu.sound(),
        cpu.ip == base + o + 70,
        buddy_holds(code, o, trigger, buddy_object, buddy),
        cpu.stack.len() >= 12,
    ensures
        reaches(code, base, from, end),
        end.ip == base + o + 88,
        end.memory == cpu.memory,
        end.vectors == cpu.vectors,
        end.stack == cpu.stack.take(cpu.stack.len() - 12),
        end.regs.len() == 16,
        end.regs[0] == cpu.stack[cpu.stack.len() - 12],
        end.regs[1] == cpu.stack[cpu.stack.len() - 11],
        end.regs[2] == cpu.stack[cpu.stack.len() - 10],
        end.regs[8] == cpu.stack[cpu.stack.len() - 9],
        end.regs[9] == cpu.stack[cpu.stack.len() - 8],
        end.regs[10] == cpu.stack[cpu.stack.len() - 7],
        end.regs[11] == cpu.stack[cpu.stack.len() - 6],
        forall|n: int| 3 <= n < 8 || 12 <= n < 16 ==> #[trigger] end.regs[n] == cpu.regs[n],
{
    reveal(buddy_holds);
    lemma_pow256();
    lemma_four(code, o + 73);
    lemma_room(code, o + 70);
    let s18 = lemma_next(code, base, from, cpu, Inst::Shrink { words: 5 }, 7);
    lemma_pop(code, o + 77, 11);
    let s19 = lemma_next(code, base, from, s18, Inst::Pop { n: 11 }, 2);
    lemma_pop(code, o + 79, 10);
    let s20 = lemma_next(code, base, from, s19, Inst::Pop { n: 10 }, 2);
    lemma_pop(code, o + 81, 9);
    let s21 = lemma_next(code, base, from, s20, Inst::Pop { n: 9 }, 2);
    lemma_pop(code, o + 83, 8);
    let s22 = lemma_next(code, base, from, s21, Inst::Pop { n: 8 }, 2);
    lemma_pop(code, o + 85, 2);
    let s23 = lemma_next(code, base, from, s22, Inst::Pop { n: 2 }, 1);
    lemma_pop(code, o + 86, 1);
    let s24 = lemma_next(code, base, from, s23, Inst::Pop { n: 1 }, 1);
    lemma_pop(code, o + 87, 0);
    let s25 = lemma_next(code, base, from, s24, Inst::Pop { n: 0 }, 1);
    assert(s25.stack =~= cpu.stack.take(cpu.stack.len() - 12));
    s25
}

#[verifier::spinoff_prover]
#[verifier::rlimit(100)]
proof fn lemma_buddy_clears(
    code: Seq<u8>,
    base: int,
    o: int,
    from: Cpu,
    cpu: Cpu,
    trigger: usize,
    buddy_object: usize,
    buddy: usize,
) -> (end: Cpu)
    requires
        reaches(code, base, from, cpu),
        cpu.sound(),
        cpu.ip == base + o + 88,
        buddy_holds(code, o, trigger, buddy_object, buddy),
    ensures
        reaches(code, base, from, end),
        end.ip == base + o + 101,
        end.regs == cpu.regs,
        end.stack == cpu.stack,
        end.vectors == cpu.vectors,
        end.memory == put(cpu.memory, trigger as int, seq![0u8]),
{
    reveal(buddy_holds);
    lemma_pow256();
    lemma_push(code, o + 88, 0);
    let s26 = lemma_next(code, base, from, cpu, Inst::Push { n: 0 }, 1);
    lemma_is_reg(code, o + 90, 0, 0);
    lemma_plain(code, o + 89, Operand::Reg { n: 0 }, 1);
    let s27 = lemma_next(
        code,
        base,
        from,
        s26,
        Inst::Xor { to: Operand::Reg { n: 0 }, from: Operand::Reg { n: 0 }, size: 1 },
        2,
    );
    lemma_low_byte(cpu.regs[0], 0);
    assert(le_bytes(0, 1) =~= seq![0u8]) by {
        reveal_with_fuel(le_bytes, 2);
    }
    lemma_absolute(code, o + 91);
    let s28 = lemma_next(
        code,
        base,
        from,
        s27,
        Inst::Move {
            to: Operand::Mem { place: Place::Absolute { at: (trigger) as nat } },
            from: Operand::Reg { n: 0 },
            size: 1,
        },
        9,
    );
    lemma_pop(code, o + 100, 0);
    let s29 = lemma_next(code, base, from, s28, Inst::Pop { n: 0 }, 1);
    assert(s29.regs =~= cpu.regs);
    assert(s29.stack =~= cpu.stack);
    s29
}

#[verifier::spinoff_prover]
#[verifier::rlimit(100)]
proof fn lemma_send_trigger(
    code: Seq<u8>,
    base: int,
    o: int,
    from: Cpu,
    cpu: Cpu,
    trigger: usize,
    send_struct: usize,
    message_buffer: usize,
    send: usize,
    operator_new: usize,
) -> (end: Cpu)
    requires
        reaches(code, base, from, cpu),
        cpu.sound(),
        cpu.ip == base + o + 0,
        send_holds(code, o, trigger, send_struct, message_buffer, send, operator_new),
    ensures
        reaches(code, base, from, end),
        end.ip == if (cpu.memory)(trigger as int) != 0 { base + o + 19 } else { base + o + 192 },
        end.memory == cpu.memory,
        end.regs == cpu.regs,
        end.stack == cpu.stack,
        end.vectors == cpu.vectors,
{
    reveal(send_holds);
    lemma_pow256();
    lemma_push(code, o + 0, 0);
    let s0 = lemma_next(code, base, from, cpu, Inst::Push { n: 0 }, 1);
    lemma_held_byte(cpu.memory, trigger as int);
    lemma_absolute(code, o + 1);
    let s1 = lemma_next(
        code,
        base,
        from,
        s0,
        Inst::Move {
            to: Operand::Reg { n: 0 },
            from: Operand::Mem { place: Place::Absolute { at: (trigger) as nat } },
            size: 1,
        },
        9,
    );
    lemma_low_byte(cpu.regs[0], held(cpu.memory, trigger as int, 1));
    lemma_is_reg(code, o + 11, 0, 0);
    lemma_plain(code, o + 10, Operand::Reg { n: 0 }, 1);
    let s2 = lemma_next(
        code,
        base,
        from,
        s1,
        Inst::Test { left: Operand::Reg { n: 0 }, right: Operand::Reg { n: 0 }, size: 1 },
        2,
    );
    assert(is_zero(s2) <==> (cpu.memory)(trigger as int) == 0);
    lemma_pop(code, o + 12, 0);
    let s3 = lemma_next(code, base, from, s2, Inst::Pop { n: 0 }, 1);
    assert(s3.regs =~= cpu.regs);
    assert(s3.stack =~= cpu.stack);
    lemma_branch(code, o + 13);
    let s4 = lemma_next(code, base, from, s3, Inst::Branch { condition: 4, reach: 173 }, 6);
    s4
}

#[verifier::spinoff_prover]
#[verifier::rlimit(100)]
proof fn lemma_send_saves(
    code: Seq<u8>,
    base: int,
    o: int,
    from: Cpu,
    cpu: Cpu,
    trigger: usize,
    send_struct: usize,
    message_buffer: usize,
    send: usize,
    operator_new: usize,
) -> (end: Cpu)
    requires
        reaches(code, base, from, cpu),
        cpu.sound(),
        cpu.ip == base + o + 19,
        send_holds(code, o, trigger, send_struct, message_buffer, send, operator_new),
    ensures
        reaches(code, base, from, end),
        end.ip == base + o + 37,
        end.memory == cpu.memory,
        end.regs == cpu.regs,
        end.vectors == cpu.vectors,
        action_saved(end.stack, cpu),
{
    reveal(send_holds);
    lemma_pow256();
    lemma_push(code, o + 19, 0);
    let s5 = lemma_next(code, base, from, cpu, Inst::Push { n: 0 }, 1);
    lemma_push(code, o + 20, 1);
    let s6 = lemma_next(code, base, from, s5, Inst::Push { n: 1 }, 1);
    lemma_push(code, o + 21, 2);
    let s7 = lemma_next(code, base, from, s6, Inst::Push { n: 2 }, 1);
    lemma_push(code, o + 22, 8);
    let s8 = lemma_next(code, base, from, s7, Inst::Push { n: 8 }, 2);
    lemma_push(code, o + 24, 9);
    let s9 = lemma_next(code, base, from, s8, Inst::Push { n: 9 }, 2);
    lemma_push(code, o + 26, 10);
    let s10 = lemma_next(code, base, from, s9, Inst::Push { n: 10 }, 2);
    lemma_push(code, o + 28, 11);
    let s11 = lemma_next(code, base, from, s10, Inst::Push { n: 11 }, 2);
    lemma_four(code, o + 33);
    lemma_room(code, o + 30);
    let s12 = lemma_next(code, base, from, s11, Inst::Grow { words: 5 }, 7);
    assert(s12.stack.take(cpu.stack.len() as int) =~= cpu.stack);
    s12
}

#[verifier::spinoff_prover]
#[verifier::rlimit(100)]
proof fn lemma_send_returns(
    code: Seq<u8>,
    base: int,
    o: int,
    from: Cpu,
    cpu: Cpu,
    trigger: usize,
    send_struct: usize,
    message_buffer: usize,
    send: usize,
    operator_new: usize,
) -> (end: Cpu)
    requires
        reaches(code, base, from, cpu),
        cpu.sound(),
        cpu.ip == base + o + 161,
        send_holds(code, o, trigger, send_struct, message_buffer, send, operator_new),
        cpu.stack.len() >= 12,
    ensures
        reaches(code, base, from, end),
        end.ip == base + o + 179,
        end.memory == cpu.memory,
        end.vectors == cpu.vectors,
        end.stack == cpu.stack.take(cpu.stack.len() - 12),
        end.regs.len() == 16,
        end.regs[0] == cpu.stack[cpu.stack.len() - 12],
        end.regs[1] == cpu.stack[cpu.stack.len() - 11],
        end.regs[2] == cpu.stack[cpu.stack.len() - 10],
        end.regs[8] == cpu.stack[cpu.stack.len() - 9],
        end.regs[9] == cpu.stack[cpu.stack.len() - 8],
        end.regs[10] == cpu.stack[cpu.stack.len() - 7],
        end.regs[11] == cpu.stack[cpu.stack.len() - 6],
        forall|n: int| 3 <= n < 8 || 12 <= n < 16 ==> #[trigger] end.regs[n] == cpu.regs[n],
{
    reveal(send_holds);
    lemma_pow256();
    lemma_four(code, o + 164);
    lemma_room(code, o + 161);
    let s35 = lemma_next(code, base, from, cpu, Inst::Shrink { words: 5 }, 7);
    lemma_pop(code, o + 168, 11);
    let s36 = lemma_next(code, base, from, s35, Inst::Pop { n: 11 }, 2);
    lemma_pop(code, o + 170, 10);
    let s37 = lemma_next(code, base, from, s36, Inst::Pop { n: 10 }, 2);
    lemma_pop(code, o + 172, 9);
    let s38 = lemma_next(code, base, from, s37, Inst::Pop { n: 9 }, 2);
    lemma_pop(code, o + 174, 8);
    let s39 = lemma_next(code, base, from, s38, Inst::Pop { n: 8 }, 2);
    lemma_pop(code, o + 176, 2);
    let s40 = lemma_next(code, base, from, s39, Inst::Pop { n: 2 }, 1);
    lemma_pop(code, o + 177, 1);
    let s41 = lemma_next(code, base, from, s40, Inst::Pop { n: 1 }, 1);
    lemma_pop(code, o + 178, 0);
    let s42 = lemma_next(code, base, from, s41, Inst::Pop { n: 0 }, 1);
    assert(s42.stack =~= cpu.stack.take(cpu.stack.len() - 12));
    s42
}

#[verifier::spinoff_prover]
#[verifier::rlimit(100)]
proof fn lemma_send_clears(
    code: Seq<u8>,
    base: int,
    o: int,
    from: Cpu,
    cpu: Cpu,
    trigger: usize,
    send_struct: usize,
    message_buffer: usize,
    send: usize,
    operator_new: usize,
) -> (end: Cpu)
    requires
        reaches(code, base, from, cpu),
        cpu.sound(),
        cpu.ip == base + o + 179,
        send_holds(code, o, trigger, send_struct, message_buffer, send, operator_new),
    ensures
        reaches(code, base, from, end),
        end.ip == base + o + 192,
        end.regs == cpu.regs,
        end.stack == cpu.stack,
        end.vectors == cpu.vectors,
        end.memory == put(cpu.memory, trigger as int, seq![0u8]),
{
    reveal(send_holds);
    lemma_pow256();
    lemma_push(code, o + 179, 0);
    let s43 = lemma_next(code, base, from, cpu, Inst::Push { n: 0 }, 1);
    lemma_is_reg(code, o + 181, 0, 0);
    lemma_plain(code, o + 180, Operand::Reg { n: 0 }, 1);
    let s44 = lemma_next(
        code,
        base,
        from,
        s43,
        Inst::Xor { to: Operand::Reg { n: 0 }, from: Operand::Reg { n: 0 }, size: 1 },
        2,
    );
    lemma_low_byte(cpu.regs[0], 0);
    assert(le_bytes(0, 1) =~= seq![0u8]) by {
        reveal_with_fuel(le_bytes, 2);
    }
    lemma_absolute(code, o + 182);
    let s45 = lemma_next(
        code,
        base,
        from,
        s44,
        Inst::Move {
            to: Operand::Mem { place: Place::Absolute { at: (trigger) as nat } },
            from: Operand::Reg { n: 0 },
            size: 1,
        },
        9,
    );
    lemma_pop(code, o + 191, 0);
    let s46 = lemma_next(code, base, from, s45, Inst::Pop { n: 0 }, 1);
    assert(s46.regs =~= cpu.regs);
    assert(s46.stack =~= cpu.stack);
    s46
}

#[verifier::spinoff_prover]
#[verifier::rlimit(100)]
proof fn lemma_buddy_asks(
    code: Seq<u8>,
    base: int,
    o: int,
    from: Cpu,
    cpu: Cpu,
    trigger: usize,
    buddy_object: usize,
    buddy: usize,
) -> (end: Cpu)
    requires
        reaches(code, base, from, cpu),
        cpu.sound(),
        cpu.ip == base + o + 37,
        buddy_holds(code, o, trigger, buddy_object, buddy),
        buddy_object + 0xe8 <= usize::MAX,
    ensures
        reaches(code, base, from, end),
        end.ip == base + o + 68,
        decode(code, o + 68) == Some((Inst::Call { target: Operand::Reg { n: 0 } }, 2int)),
        end.regs[0] == buddy,
        end.regs[1] == buddy_object,
        end.regs[2] == held(cpu.memory, buddy_object + 0xe0, 8),
        forall|n: int| 3 <= n < 16 ==> #[trigger] end.regs[n] == cpu.regs[n],
        end.stack == cpu.stack,
        end.vectors == cpu.vectors,
        end.memory == put(cpu.memory, buddy_object + 0x18, le_bytes(cpu.regs[7], 8)),
{
    reveal(buddy_holds);
    lemma_pow256();
    lemma_set64(code, o + 37, 1);
    let s13 = lemma_next(
        code,
        base,
        from,
        cpu,
        Inst::Move {
            to: Operand::Reg { n: 1 },
            from: Operand::Imm { value: (buddy_object) as nat },
            size: 8,
        },
        10,
    );
    assert(s13.regs[1] == buddy_object);
    lemma_is_based(code, o + 49, 0, 0);
    lemma_wide(code, o + 47, Operand::Mem { place: Place::Based { base: 1, reach: 24 } }, 2);
    let s14 = lemma_next(
        code,
        base,
        from,
        s13,
        Inst::Move {
            to: Operand::Mem { place: Place::Based { base: 1, reach: 24 } },
            from: Operand::Reg { n: 7 },
            size: 8,
        },
        4,
    );
    assert(s14.memory == put(cpu.memory, buddy_object + 0x18, le_bytes(cpu.regs[7], 8)));
    lemma_le_bytes_len(cpu.regs[7], 8);
    lemma_put(cpu.memory, buddy_object + 0x18, le_bytes(cpu.regs[7], 8));
    assert(load(s14.memory, buddy_object + 0xe0, 8) == load(cpu.memory, buddy_object + 0xe0, 8));
    lemma_held_bound(s14.memory, buddy_object + 0xe0, 8);
    lemma_four(code, o + 54);
    lemma_is_based(code, o + 53, 0, 0);
    lemma_wide(code, o + 51, Operand::Mem { place: Place::Based { base: 1, reach: 224 } }, 5);
    let s15 = lemma_next(
        code,
        base,
        from,
        s14,
        Inst::Move {
            to: Operand::Reg { n: 2 },
            from: Operand::Mem { place: Place::Based { base: 1, reach: 224 } },
            size: 8,
        },
        7,
    );
    assert(s15.regs[2] == held(cpu.memory, buddy_object + 0xe0, 8));
    lemma_set64(code, o + 58, 0);
    let s16 = lemma_next(
        code,
        base,
        from,
        s15,
        Inst::Move {
            to: Operand::Reg { n: 0 },
            from: Operand::Imm { value: (buddy) as nat },
            size: 8,
        },
        10,
    );
    lemma_is_reg(code, o + 69, 0, 0);
    lemma_plain(code, o + 68, Operand::Reg { n: 0 }, 1);
    s16
}

#[verifier::spinoff_prover]
#[verifier::rlimit(100)]
proof fn lemma_send_measures(
    code: Seq<u8>,
    base: int,
    o: int,
    from: Cpu,
    cpu: Cpu,
    trigger: usize,
    send_struct: usize,
    message_buffer: usize,
    send: usize,
    operator_new: usize,
) -> (end: Cpu)
    requires
        reaches(code, base, from, cpu),
        cpu.sound(),
        cpu.ip == base + o + 37,
        send_holds(code, o, trigger, send_struct, message_buffer, send, operator_new),
        send_struct + 0x28 <= usize::MAX,
    ensures
        reaches(code, base, from, end),
        end.ip == if held(cpu.memory, send_struct + 0x10, 8) <= 7 {
            base + o + 136
        } else {
            base + o + 57
        },
        end.regs == cpu.regs.update(0, held(cpu.memory, send_struct + 0x10, 8)),
        end.sound(),
        end.stack == cpu.stack,
        end.vectors == cpu.vectors,
        end.memory == cpu.memory,
{
    reveal(send_holds);
    lemma_pow256();
    lemma_held_bound(cpu.memory, send_struct + 0x10, 8);
    lemma_absolute(code, o + 37);
    let s13 = lemma_next(
        code,
        base,
        from,
        cpu,
        Inst::Move {
            to: Operand::Reg { n: 0 },
            from: Operand::Mem { place: Place::Absolute { at: (send_struct + 0x10) as nat } },
            size: 8,
        },
        10,
    );
    assert(s13.regs =~= cpu.regs.update(0, held(cpu.memory, send_struct + 0x10, 8)));
    lemma_is_reg(code, o + 49, 0, 0);
    lemma_wide_digit(code, o + 47, Operand::Reg { n: 0 }, 1);
    let s14 = lemma_next(
        code,
        base,
        from,
        s13,
        Inst::Compare { left: Operand::Reg { n: 0 }, right: Operand::Imm { value: 7 }, size: 8 },
        4,
    );
    assert(is_zero(s14) || is_carry(s14) <==> held(cpu.memory, send_struct + 0x10, 8) <= 7);
    lemma_branch(code, o + 51);
    let s15 = lemma_next(code, base, from, s14, Inst::Branch { condition: 6, reach: 79 }, 6);
    s15
}

#[verifier::spinoff_prover]
#[verifier::rlimit(100)]
proof fn lemma_send_asks_for_room(
    code: Seq<u8>,
    base: int,
    o: int,
    from: Cpu,
    cpu: Cpu,
    trigger: usize,
    send_struct: usize,
    message_buffer: usize,
    send: usize,
    operator_new: usize,
) -> (end: Cpu)
    requires
        reaches(code, base, from, cpu),
        cpu.sound(),
        cpu.ip == base + o + 57,
        send_holds(code, o, trigger, send_struct, message_buffer, send, operator_new),
    ensures
        reaches(code, base, from, end),
        end.ip == base + o + 72,
        decode(code, o + 72) == Some((Inst::Call { target: Operand::Reg { n: 0 } }, 2int)),
        end.regs[0] == operator_new,
        end.regs[1] == wrapped(2 * cpu.regs[0] + 2int),
        forall|n: int| 2 <= n < 16 ==> #[trigger] end.regs[n] == cpu.regs[n],
        end.stack == cpu.stack,
        end.vectors == cpu.vectors,
        end.memory == cpu.memory,
{
    reveal(send_holds);
    lemma_pow256();
    lemma_is_sum(code, o + 59, 0, 0);
    lemma_wide(code, o + 57, Operand::Mem { place: Place::Sum { base: 0, index: 0, reach: 2 } }, 3);
    let s16 = lemma_next(
        code,
        base,
        from,
        cpu,
        Inst::Address { n: 1, place: Place::Sum { base: 0, index: 0, reach: 2 } },
        5,
    );
    lemma_set64(code, o + 62, 0);
    let s17 = lemma_next(
        code,
        base,
        from,
        s16,
        Inst::Move {
            to: Operand::Reg { n: 0 },
            from: Operand::Imm { value: (operator_new) as nat },
            size: 8,
        },
        10,
    );
    lemma_is_reg(code, o + 73, 0, 0);
    lemma_plain(code, o + 72, Operand::Reg { n: 0 }, 1);
    s17
}

#[verifier::spinoff_prover]
#[verifier::rlimit(100)]
proof fn lemma_send_sets_out(
    code: Seq<u8>,
    base: int,
    o: int,
    from: Cpu,
    cpu: Cpu,
    trigger: usize,
    send_struct: usize,
    message_buffer: usize,
    send: usize,
    operator_new: usize,
) -> (end: Cpu)
    requires
        reaches(code, base, from, cpu),
        cpu.sound(),
        cpu.ip == base + o + 74,
        send_holds(code, o, trigger, send_struct, message_buffer, send, operator_new),
        send_struct + 0x28 <= usize::MAX,
    ensures
        reaches(code, base, from, end),
        end.ip == base + o + 102,
        end.sound(),
        end.regs[11] == cpu.regs[0],
        end.regs[10] == message_buffer,
        end.regs[1] == wrapped(2 * held(cpu.memory, send_struct + 0x10, 8) + 2int),
        forall|n: int| 2 <= n < 10 || 12 <= n < 16 ==> #[trigger] end.regs[n] == cpu.regs[n],
        end.stack == cpu.stack,
        end.vectors == cpu.vectors,
        end.memory == cpu.memory,
{
    reveal(send_holds);
    lemma_pow256();
    lemma_is_reg(code, o + 76, 0, 1);
    lemma_wide(code, o + 74, Operand::Reg { n: 11 }, 1);
    let s19 = lemma_next(
        code,
        base,
        from,
        cpu,
        Inst::Move { to: Operand::Reg { n: 11 }, from: Operand::Reg { n: 0 }, size: 8 },
        3,
    );
    lemma_set64(code, o + 77, 10);
    let s20 = lemma_next(
        code,
        base,
        from,
        s19,
        Inst::Move {
            to: Operand::Reg { n: 10 },
            from: Operand::Imm { value: (message_buffer) as nat },
            size: 8,
        },
        10,
    );
    lemma_held_bound(cpu.memory, send_struct + 0x10, 8);
    lemma_absolute(code, o + 87);
    let s21 = lemma_next(
        code,
        base,
        from,
        s20,
        Inst::Move {
            to: Operand::Reg { n: 0 },
            from: Operand::Mem { place: Place::Absolute { at: (send_struct + 0x10) as nat } },
            size: 8,
        },
        10,
    );
    assert(s21.regs[0] == held(cpu.memory, send_struct + 0x10, 8) && s21.regs[11] == cpu.regs[0] && s21.regs[10] == message_buffer);
    lemma_is_sum(code, o + 99, 0, 0);
    lemma_wide(code, o + 97, Operand::Mem { place: Place::Sum { base: 0, index: 0, reach: 2 } }, 3);
    let s22 = lemma_next(
        code,
        base,
        from,
        s21,
        Inst::Address { n: 1, place: Place::Sum { base: 0, index: 0, reach: 2 } },
        5,
    );
    s22
}

#[verifier::spinoff_prover]
#[verifier::rlimit(100)]
proof fn lemma_send_moves_one(
    code: Seq<u8>,
    base: int,
    o: int,
    from: Cpu,
    cpu: Cpu,
    trigger: usize,
    send_struct: usize,
    message_buffer: usize,
    send: usize,
    operator_new: usize,
) -> (end: Cpu)
    requires
        reaches(code, base, from, cpu),
        cpu.sound(),
        cpu.ip == base + o + 102,
        send_holds(code, o, trigger, send_struct, message_buffer, send, operator_new),
    ensures
        reaches(code, base, from, end),
        end.ip == base + o + 108,
        end.sound(),
        forall|n: int| 1 <= n < 16 ==> #[trigger] end.regs[n] == cpu.regs[n],
        end.stack == cpu.stack,
        end.vectors == cpu.vectors,
        end.memory == put(
            cpu.memory,
            cpu.regs[11] as int,
            load(cpu.memory, cpu.regs[10] as int, 1),
        ),
{
    reveal(send_holds);
    lemma_pow256();
    lemma_held_bound(cpu.memory, cpu.regs[10] as int, 1);
    lemma_copied(cpu.memory, cpu.regs[10] as int, 1);
    lemma_is_based(code, o + 104, 0, 1);
    lemma_high(code, o + 102, Operand::Mem { place: Place::Based { base: 10, reach: 0 } }, 1);
    let s23 = lemma_next(
        code,
        base,
        from,
        cpu,
        Inst::Move {
            to: Operand::Reg { n: 0 },
            from: Operand::Mem { place: Place::Based { base: 10, reach: 0 } },
            size: 1,
        },
        3,
    );
    lemma_low_byte(cpu.regs[0], held(cpu.memory, cpu.regs[10] as int, 1));
    lemma_is_based(code, o + 107, 0, 1);
    lemma_high(code, o + 105, Operand::Mem { place: Place::Based { base: 11, reach: 0 } }, 1);
    let s24 = lemma_next(
        code,
        base,
        from,
        s23,
        Inst::Move {
            to: Operand::Mem { place: Place::Based { base: 11, reach: 0 } },
            from: Operand::Reg { n: 0 },
            size: 1,
        },
        3,
    );
    assert(s24.memory == put(cpu.memory, cpu.regs[11] as int, load(cpu.memory, cpu.regs[10] as int, 1)));
    s24
}

#[verifier::spinoff_prover]
#[verifier::rlimit(100)]
proof fn lemma_send_counts_one(
    code: Seq<u8>,
    base: int,
    o: int,
    from: Cpu,
    cpu: Cpu,
    trigger: usize,
    send_struct: usize,
    message_buffer: usize,
    send: usize,
    operator_new: usize,
) -> (end: Cpu)
    requires
        reaches(code, base, from, cpu),
        cpu.sound(),
        cpu.ip == base + o + 108,
        send_holds(code, o, trigger, send_struct, message_buffer, send, operator_new),
        cpu.regs[1] >= 1,
        cpu.regs[10] + 1 < 0x1_0000_0000_0000_0000,
        cpu.regs[11] + 1 < 0x1_0000_0000_0000_0000,
    ensures
        reaches(code, base, from, end),
        end.ip == if cpu.regs[1] == 1 { base + o + 123 } else { base + o + 102 },
        end.sound(),
        end.regs[1] == cpu.regs[1] - 1,
        end.regs[10] == cpu.regs[10] + 1,
        end.regs[11] == cpu.regs[11] + 1,
        forall|n: int| 2 <= n < 10 || 12 <= n < 16 ==> #[trigger] end.regs[n] == cpu.regs[n],
        end.stack == cpu.stack,
        end.vectors == cpu.vectors,
        end.memory == cpu.memory,
{
    reveal(send_holds);
    lemma_pow256();
    lemma_is_reg(code, o + 110, 0, 1);
    lemma_wide_digit(code, o + 108, Operand::Reg { n: 10 }, 1);
    let s25 = lemma_next(
        code,
        base,
        from,
        cpu,
        Inst::Increment { to: Operand::Reg { n: 10 }, size: 8 },
        3,
    );
    lemma_is_reg(code, o + 113, 0, 1);
    lemma_wide_digit(code, o + 111, Operand::Reg { n: 11 }, 1);
    let s26 = lemma_next(
        code,
        base,
        from,
        s25,
        Inst::Increment { to: Operand::Reg { n: 11 }, size: 8 },
        3,
    );
    assert(s26.regs[10] == cpu.regs[10] + 1 && s26.regs[11] == cpu.regs[11] + 1 && s26.regs[1] == cpu.regs[1]);
    lemma_is_reg(code, o + 116, 0, 0);
    lemma_wide_digit(code, o + 114, Operand::Reg { n: 1 }, 1);
    let s27 = lemma_next(
        code,
        base,
        from,
        s26,
        Inst::Decrement { to: Operand::Reg { n: 1 }, size: 8 },
        3,
    );
    assert(s27.regs[1] == cpu.regs[1] - 1);
    assert(is_zero(s27) <==> cpu.regs[1] == 1);
    lemma_branch(code, o + 117);
    let s28 = lemma_next(code, base, from, s27, Inst::Branch { condition: 5, reach: -21 }, 6);
    s28
}

#[verifier::spinoff_prover]
#[verifier::rlimit(100)]
proof fn lemma_send_copies_one(
    code: Seq<u8>,
    base: int,
    o: int,
    from: Cpu,
    cpu: Cpu,
    trigger: usize,
    send_struct: usize,
    message_buffer: usize,
    send: usize,
    operator_new: usize,
) -> (end: Cpu)
    requires
        reaches(code, base, from, cpu),
        cpu.sound(),
        cpu.ip == base + o + 102,
        send_holds(code, o, trigger, send_struct, message_buffer, send, operator_new),
        cpu.regs[1] >= 1,
        cpu.regs[10] + 1 < 0x1_0000_0000_0000_0000,
        cpu.regs[11] + 1 < 0x1_0000_0000_0000_0000,
    ensures
        reaches(code, base, from, end),
        end.ip == if cpu.regs[1] == 1 { base + o + 123 } else { base + o + 102 },
        end.sound(),
        end.regs[1] == cpu.regs[1] - 1,
        end.regs[10] == cpu.regs[10] + 1,
        end.regs[11] == cpu.regs[11] + 1,
        forall|n: int| 2 <= n < 10 || 12 <= n < 16 ==> #[trigger] end.regs[n] == cpu.regs[n],
        end.stack == cpu.stack,
        end.vectors == cpu.vectors,
        end.memory == put(
            cpu.memory,
            cpu.regs[11] as int,
            load(cpu.memory, cpu.regs[10] as int, 1),
        ),
{
    let moved = lemma_send_moves_one(
        code,
        base,
        o,
        from,
        cpu,
        trigger,
        send_struct,
        message_buffer,
        send,
        operator_new,
    );
    lemma_send_counts_one(
        code,
        base,
        o,
        from,
        moved,
        trigger,
        send_struct,
        message_buffer,
        send,
        operator_new,
    )
}

#[verifier::spinoff_prover]
#[verifier::rlimit(100)]
proof fn lemma_send_copies(
    code: Seq<u8>,
    base: int,
    o: int,
    from: Cpu,
    cpu: Cpu,
    trigger: usize,
    send_struct: usize,
    message_buffer: usize,
    send: usize,
    operator_new: usize,
) -> (end: Cpu)
    requires
        reaches(code, base, from, cpu),
        cpu.sound(),
        cpu.ip == base + o + 102,
        send_holds(code, o, trigger, send_struct, message_buffer, send, operator_new),
        cpu.regs[1] >= 1,
        cpu.regs[10] + cpu.regs[1] < 0x1_0000_0000_0000_0000,
        cpu.regs[11] + cpu.regs[1] < 0x1_0000_0000_0000_0000,
        cpu.regs[10] + cpu.regs[1] <= cpu.regs[11] || cpu.regs[11] + cpu.regs[1] <= cpu.regs[10],
    ensures
        reaches(code, base, from, end),
        end.ip == base + o + 123,
        end.sound(),
        end.regs[11] == cpu.regs[11] + cpu.regs[1],
        forall|n: int| 2 <= n < 10 || 12 <= n < 16 ==> #[trigger] end.regs[n] == cpu.regs[n],
        end.stack == cpu.stack,
        end.vectors == cpu.vectors,
        end.memory == put(
            cpu.memory,
            cpu.regs[11] as int,
            load(cpu.memory, cpu.regs[10] as int, cpu.regs[1]),
        ),
    decreases cpu.regs[1],
{
    let a = lemma_send_copies_one(
        code,
        base,
        o,
        from,
        cpu,
        trigger,
        send_struct,
        message_buffer,
        send,
        operator_new,
    );
    if cpu.regs[1] == 1 {
        a
    } else {
        let end = lemma_send_copies(
            code,
            base,
            o,
            from,
            a,
            trigger,
            send_struct,
            message_buffer,
            send,
            operator_new,
        );
        lemma_copies_join(
            cpu.memory,
            cpu.regs[11] as int,
            cpu.regs[10] as int,
            1,
            (cpu.regs[1] - 1) as nat,
        );
        end
    }
}

#[verifier::spinoff_prover]
#[verifier::rlimit(100)]
proof fn lemma_send_stores(
    code: Seq<u8>,
    base: int,
    o: int,
    from: Cpu,
    cpu: Cpu,
    trigger: usize,
    send_struct: usize,
    message_buffer: usize,
    send: usize,
    operator_new: usize,
) -> (end: Cpu)
    requires
        reaches(code, base, from, cpu),
        cpu.sound(),
        cpu.ip == base + o + 123,
        send_holds(code, o, trigger, send_struct, message_buffer, send, operator_new),
    ensures
        reaches(code, base, from, end),
        end.ip == base + o + 136,
        end.sound(),
        forall|n: int| 1 <= n < 16 ==> #[trigger] end.regs[n] == cpu.regs[n],
        end.stack == cpu.stack,
        end.vectors == cpu.vectors,
        end.memory == put(cpu.memory, send_struct as int, le_bytes(cpu.regs[11], 8)),
{
    reveal(send_holds);
    lemma_pow256();
    lemma_set64(code, o + 123, 0);
    let s29 = lemma_next(
        code,
        base,
        from,
        cpu,
        Inst::Move {
            to: Operand::Reg { n: 0 },
            from: Operand::Imm { value: (send_struct) as nat },
            size: 8,
        },
        10,
    );
    assert(s29.regs[0] == send_struct);
    lemma_is_based(code, o + 135, 0, 0);
    lemma_wide(code, o + 133, Operand::Mem { place: Place::Based { base: 0, reach: 0 } }, 1);
    let s30 = lemma_next(
        code,
        base,
        from,
        s29,
        Inst::Move {
            to: Operand::Mem { place: Place::Based { base: 0, reach: 0 } },
            from: Operand::Reg { n: 11 },
            size: 8,
        },
        3,
    );
    s30
}

#[verifier::spinoff_prover]
#[verifier::rlimit(100)]
proof fn lemma_send_sends(
    code: Seq<u8>,
    base: int,
    o: int,
    from: Cpu,
    cpu: Cpu,
    trigger: usize,
    send_struct: usize,
    message_buffer: usize,
    send: usize,
    operator_new: usize,
) -> (end: Cpu)
    requires
        reaches(code, base, from, cpu),
        cpu.sound(),
        cpu.ip == base + o + 136,
        send_holds(code, o, trigger, send_struct, message_buffer, send, operator_new),
    ensures
        reaches(code, base, from, end),
        end.ip == base + o + 159,
        decode(code, o + 159) == Some((Inst::Call { target: Operand::Reg { n: 0 } }, 2int)),
        end.regs[0] == send,
        end.regs[1] == cpu.regs[7],
        end.regs[2] == send_struct,
        forall|n: int| 3 <= n < 16 ==> #[trigger] end.regs[n] == cpu.regs[n],
        end.stack == cpu.stack,
        end.vectors == cpu.vectors,
        end.memory == cpu.memory,
{
    reveal(send_holds);
    lemma_pow256();
    lemma_is_reg(code, o + 138, 0, 0);
    lemma_wide(code, o + 136, Operand::Reg { n: 1 }, 1);
    let s31 = lemma_next(
        code,
        base,
        from,
        cpu,
        Inst::Move { to: Operand::Reg { n: 1 }, from: Operand::Reg { n: 7 }, size: 8 },
        3,
    );
    lemma_set64(code, o + 139, 2);
    let s32 = lemma_next(
        code,
        base,
        from,
        s31,
        Inst::Move {
            to: Operand::Reg { n: 2 },
            from: Operand::Imm { value: (send_struct) as nat },
            size: 8,
        },
        10,
    );
    lemma_set64(code, o + 149, 0);
    let s33 = lemma_next(
        code,
        base,
        from,
        s32,
        Inst::Move {
            to: Operand::Reg { n: 0 },
            from: Operand::Imm { value: (send) as nat },
            size: 8,
        },
        10,
    );
    lemma_is_reg(code, o + 160, 0, 0);
    lemma_plain(code, o + 159, Operand::Reg { n: 0 }, 1);
    s33
}

#[verifier::spinoff_prover]
#[verifier::rlimit(100)]
proof fn lemma_chat_owner(
    code: Seq<u8>,
    base: int,
    o: int,
    from: Cpu,
    cpu: Cpu,
    owner: usize,
    source: usize,
    length: usize,
    buffer: usize,
    counter: usize,
) -> (end: Cpu)
    requires
        reaches(code, base, from, cpu),
        cpu.sound(),
        cpu.ip == base + o + 0,
        chat_holds(code, o, owner, source, length, buffer, counter),
    ensures
        reaches(code, base, from, end),
        end.ip == base + o + 21,
        end.regs == cpu.regs,
        end.vectors == cpu.vectors,
        end.stack == cpu.stack.push(
            cpu.regs[1],
        ).push(cpu.regs[2]).push(cpu.regs[8]).push(cpu.regs[9]),
        end.memory == put(cpu.memory, owner as int, le_bytes(cpu.regs[6], 8)),
{
    reveal(chat_holds);
    lemma_pow256();
    lemma_push(code, o + 0, 1);
    let s0 = lemma_next(code, base, from, cpu, Inst::Push { n: 1 }, 1);
    lemma_push(code, o + 1, 2);
    let s1 = lemma_next(code, base, from, s0, Inst::Push { n: 2 }, 1);
    lemma_push(code, o + 2, 8);
    let s2 = lemma_next(code, base, from, s1, Inst::Push { n: 8 }, 2);
    lemma_push(code, o + 4, 9);
    let s3 = lemma_next(code, base, from, s2, Inst::Push { n: 9 }, 2);
    lemma_push(code, o + 6, 0);
    let s4 = lemma_next(code, base, from, s3, Inst::Push { n: 0 }, 1);
    lemma_is_reg(code, o + 9, 0, 0);
    lemma_wide(code, o + 7, Operand::Reg { n: 0 }, 1);
    let s5 = lemma_next(
        code,
        base,
        from,
        s4,
        Inst::Move { to: Operand::Reg { n: 0 }, from: Operand::Reg { n: 6 }, size: 8 },
        3,
    );
    assert(s5.regs[0] == cpu.regs[6]);
    lemma_absolute(code, o + 10);
    let s6 = lemma_next(
        code,
        base,
        from,
        s5,
        Inst::Move {
            to: Operand::Mem { place: Place::Absolute { at: (owner) as nat } },
            from: Operand::Reg { n: 0 },
            size: 8,
        },
        10,
    );
    lemma_pop(code, o + 20, 0);
    let s7 = lemma_next(code, base, from, s6, Inst::Pop { n: 0 }, 1);
    assert(s7.regs =~= cpu.regs);
    assert(s7.stack =~= cpu.stack.push(cpu.regs[1]).push(cpu.regs[2]).push(cpu.regs[8]).push(cpu.regs[9]));
    s7
}

#[verifier::spinoff_prover]
#[verifier::rlimit(100)]
proof fn lemma_chat_source(
    code: Seq<u8>,
    base: int,
    o: int,
    from: Cpu,
    cpu: Cpu,
    owner: usize,
    source: usize,
    length: usize,
    buffer: usize,
    counter: usize,
) -> (end: Cpu)
    requires
        reaches(code, base, from, cpu),
        cpu.sound(),
        cpu.ip == base + o + 21,
        chat_holds(code, o, owner, source, length, buffer, counter),
        cpu.regs[5] >= 0x80,
    ensures
        reaches(code, base, from, end),
        end.ip == base + o + 37,
        end.regs == cpu.regs,
        end.stack == cpu.stack,
        end.vectors == cpu.vectors,
        end.memory == put(cpu.memory, source as int, load(cpu.memory, cpu.regs[5] - 0x80, 8)),
{
    reveal(chat_holds);
    lemma_pow256();
    lemma_push(code, o + 21, 0);
    let s8 = lemma_next(code, base, from, cpu, Inst::Push { n: 0 }, 1);
    lemma_held_bound(cpu.memory, cpu.regs[5] - 0x80, 8);
    lemma_copied(cpu.memory, cpu.regs[5] - 0x80, 8);
    lemma_is_based(code, o + 24, 0, 0);
    lemma_wide(code, o + 22, Operand::Mem { place: Place::Based { base: 5, reach: -128 } }, 2);
    let s9 = lemma_next(
        code,
        base,
        from,
        s8,
        Inst::Move {
            to: Operand::Reg { n: 0 },
            from: Operand::Mem { place: Place::Based { base: 5, reach: -128 } },
            size: 8,
        },
        4,
    );
    assert(s9.regs[0] == held(cpu.memory, cpu.regs[5] - 0x80, 8));
    lemma_absolute(code, o + 26);
    let s10 = lemma_next(
        code,
        base,
        from,
        s9,
        Inst::Move {
            to: Operand::Mem { place: Place::Absolute { at: (source) as nat } },
            from: Operand::Reg { n: 0 },
            size: 8,
        },
        10,
    );
    lemma_pop(code, o + 36, 0);
    let s11 = lemma_next(code, base, from, s10, Inst::Pop { n: 0 }, 1);
    assert(s11.regs =~= cpu.regs);
    assert(s11.stack =~= cpu.stack);
    s11
}

#[verifier::spinoff_prover]
#[verifier::rlimit(100)]
proof fn lemma_chat_length(
    code: Seq<u8>,
    base: int,
    o: int,
    from: Cpu,
    cpu: Cpu,
    owner: usize,
    source: usize,
    length: usize,
    buffer: usize,
    counter: usize,
) -> (end: Cpu)
    requires
        reaches(code, base, from, cpu),
        cpu.sound(),
        cpu.ip == base + o + 37,
        chat_holds(code, o, owner, source, length, buffer, counter),
        cpu.regs[0] + 0x20 <= 0x1_0000_0000_0000_0000,
    ensures
        reaches(code, base, from, end),
        end.ip == base + o + 53,
        end.regs == cpu.regs,
        end.stack == cpu.stack,
        end.vectors == cpu.vectors,
        end.memory == put(cpu.memory, length as int, load(cpu.memory, cpu.regs[0] + 0x10int, 8)),
{
    reveal(chat_holds);
    lemma_pow256();
    lemma_push(code, o + 37, 0);
    let s12 = lemma_next(code, base, from, cpu, Inst::Push { n: 0 }, 1);
    lemma_held_bound(cpu.memory, cpu.regs[0] + 0x10int, 8);
    lemma_copied(cpu.memory, cpu.regs[0] + 0x10int, 8);
    lemma_is_based(code, o + 40, 0, 0);
    lemma_wide(code, o + 38, Operand::Mem { place: Place::Based { base: 0, reach: 16 } }, 2);
    let s13 = lemma_next(
        code,
        base,
        from,
        s12,
        Inst::Move {
            to: Operand::Reg { n: 0 },
            from: Operand::Mem { place: Place::Based { base: 0, reach: 16 } },
            size: 8,
        },
        4,
    );
    assert(s13.regs[0] == held(cpu.memory, cpu.regs[0] + 0x10int, 8));
    lemma_absolute(code, o + 42);
    let s14 = lemma_next(
        code,
        base,
        from,
        s13,
        Inst::Move {
            to: Operand::Mem { place: Place::Absolute { at: (length) as nat } },
            from: Operand::Reg { n: 0 },
            size: 8,
        },
        10,
    );
    lemma_pop(code, o + 52, 0);
    let s15 = lemma_next(code, base, from, s14, Inst::Pop { n: 0 }, 1);
    assert(s15.regs =~= cpu.regs);
    assert(s15.stack =~= cpu.stack);
    s15
}

#[verifier::spinoff_prover]
#[verifier::rlimit(100)]
proof fn lemma_chat_kind(
    code: Seq<u8>,
    base: int,
    o: int,
    from: Cpu,
    cpu: Cpu,
    owner: usize,
    source: usize,
    length: usize,
    buffer: usize,
    counter: usize,
) -> (end: Cpu)
    requires
        reaches(code, base, from, cpu),
        cpu.sound(),
        cpu.ip == base + o + 53,
        chat_holds(code, o, owner, source, length, buffer, counter),
        cpu.regs[0] + 0x20 <= 0x1_0000_0000_0000_0000,
    ensures
        reaches(code, base, from, end),
        end.ip == if held(cpu.memory, cpu.regs[0] + 0x18int, 8) < 8 {
            base + o + 66
        } else {
            base + o + 63
        },
        end.regs == cpu.regs.update(2, cpu.regs[0]),
        end.stack == cpu.stack,
        end.vectors == cpu.vectors,
        end.memory == cpu.memory,
        end.sound(),
{
    reveal(chat_holds);
    lemma_pow256();
    lemma_held_bound(cpu.memory, cpu.regs[0] + 0x18int, 8);
    lemma_is_reg(code, o + 55, 0, 0);
    lemma_wide(code, o + 53, Operand::Reg { n: 0 }, 1);
    let s16 = lemma_next(
        code,
        base,
        from,
        cpu,
        Inst::Move { to: Operand::Reg { n: 2 }, from: Operand::Reg { n: 0 }, size: 8 },
        3,
    );
    assert(s16.regs =~= cpu.regs.update(2, cpu.regs[0]));
    lemma_is_based(code, o + 58, 0, 0);
    lemma_wide_digit(code, o + 56, Operand::Mem { place: Place::Based { base: 0, reach: 24 } }, 2);
    let s17 = lemma_next(
        code,
        base,
        from,
        s16,
        Inst::Compare {
            left: Operand::Mem { place: Place::Based { base: 0, reach: 24 } },
            right: Operand::Imm { value: 8 },
            size: 8,
        },
        5,
    );
    assert(is_carry(s17) <==> held(cpu.memory, cpu.regs[0] + 0x18int, 8) < 8);
    lemma_branch(code, o + 61);
    let s18 = lemma_next(code, base, from, s17, Inst::Branch { condition: 2, reach: 3 }, 2);
    s18
}

#[verifier::spinoff_prover]
#[verifier::rlimit(100)]
proof fn lemma_chat_follows(
    code: Seq<u8>,
    base: int,
    o: int,
    from: Cpu,
    cpu: Cpu,
    owner: usize,
    source: usize,
    length: usize,
    buffer: usize,
    counter: usize,
) -> (end: Cpu)
    requires
        reaches(code, base, from, cpu),
        cpu.sound(),
        cpu.ip == base + o + 63,
        chat_holds(code, o, owner, source, length, buffer, counter),
    ensures
        reaches(code, base, from, end),
        end.ip == base + o + 66,
        end.regs == cpu.regs.update(2, held(cpu.memory, cpu.regs[0] as int, 8)),
        end.stack == cpu.stack,
        end.vectors == cpu.vectors,
        end.memory == cpu.memory,
        end.sound(),
{
    reveal(chat_holds);
    lemma_pow256();
    lemma_held_bound(cpu.memory, cpu.regs[0] as int, 8);
    lemma_is_based(code, o + 65, 0, 0);
    lemma_wide(code, o + 63, Operand::Mem { place: Place::Based { base: 0, reach: 0 } }, 1);
    let s19 = lemma_next(
        code,
        base,
        from,
        cpu,
        Inst::Move {
            to: Operand::Reg { n: 2 },
            from: Operand::Mem { place: Place::Based { base: 0, reach: 0 } },
            size: 8,
        },
        3,
    );
    assert(s19.regs =~= cpu.regs.update(2, held(cpu.memory, cpu.regs[0] as int, 8)));
    s19
}

#[verifier::spinoff_prover]
#[verifier::rlimit(100)]
proof fn lemma_chat_sets_out(
    code: Seq<u8>,
    base: int,
    o: int,
    from: Cpu,
    cpu: Cpu,
    owner: usize,
    source: usize,
    length: usize,
    buffer: usize,
    counter: usize,
) -> (end: Cpu)
    requires
        reaches(code, base, from, cpu),
        cpu.sound(),
        cpu.ip == base + o + 66,
        chat_holds(code, o, owner, source, length, buffer, counter),
    ensures
        reaches(code, base, from, end),
        end.ip == base + o + 82,
        end.regs == cpu.regs.update(8, buffer as nat).update(9, 20),
        end.stack == cpu.stack,
        end.vectors == cpu.vectors,
        end.memory == cpu.memory,
        end.sound(),
{
    reveal(chat_holds);
    lemma_pow256();
    lemma_set64(code, o + 66, 8);
    let s20 = lemma_next(
        code,
        base,
        from,
        cpu,
        Inst::Move {
            to: Operand::Reg { n: 8 },
            from: Operand::Imm { value: (buffer) as nat },
            size: 8,
        },
        10,
    );
    lemma_four(code, o + 78);
    lemma_set32(code, o + 76, 9);
    let s21 = lemma_next(
        code,
        base,
        from,
        s20,
        Inst::Move { to: Operand::Reg { n: 9 }, from: Operand::Imm { value: 20 }, size: 4 },
        6,
    );
    assert(s21.regs =~= cpu.regs.update(8, buffer as nat).update(9, 20));
    s21
}

#[verifier::spinoff_prover]
#[verifier::rlimit(100)]
proof fn lemma_chat_copies_one(
    code: Seq<u8>,
    base: int,
    o: int,
    from: Cpu,
    cpu: Cpu,
    owner: usize,
    source: usize,
    length: usize,
    buffer: usize,
    counter: usize,
) -> (end: Cpu)
    requires
        reaches(code, base, from, cpu),
        cpu.sound(),
        cpu.ip == base + o + 82,
        chat_holds(code, o, owner, source, length, buffer, counter),
        1 <= cpu.regs[9] <= 20,
        cpu.regs[2] + 8 < 0x1_0000_0000_0000_0000,
        cpu.regs[8] + 8 < 0x1_0000_0000_0000_0000,
    ensures
        reaches(code, base, from, end),
        end.ip == if cpu.regs[9] == 1 { base + o + 101 } else { base + o + 82 },
        end.sound(),
        end.regs[2] == cpu.regs[2] + 8,
        end.regs[8] == cpu.regs[8] + 8,
        end.regs[9] == cpu.regs[9] - 1,
        forall|n: int| n == 0 || 3 <= n < 8 || 10 <= n < 16 ==> #[trigger] end.regs[n] == cpu.regs[n],
        end.stack == cpu.stack,
        end.vectors == cpu.vectors,
        end.memory == put(cpu.memory, cpu.regs[8] as int, load(cpu.memory, cpu.regs[2] as int, 8)),
{
    reveal(chat_holds);
    lemma_pow256();
    lemma_held_bound(cpu.memory, cpu.regs[2] as int, 8);
    lemma_copied(cpu.memory, cpu.regs[2] as int, 8);
    lemma_is_based(code, o + 84, 0, 0);
    lemma_wide(code, o + 82, Operand::Mem { place: Place::Based { base: 2, reach: 0 } }, 1);
    let s22 = lemma_next(
        code,
        base,
        from,
        cpu,
        Inst::Move {
            to: Operand::Reg { n: 1 },
            from: Operand::Mem { place: Place::Based { base: 2, reach: 0 } },
            size: 8,
        },
        3,
    );
    assert(s22.regs[1] == held(cpu.memory, cpu.regs[2] as int, 8));
    lemma_is_based(code, o + 87, 0, 1);
    lemma_wide(code, o + 85, Operand::Mem { place: Place::Based { base: 8, reach: 0 } }, 1);
    let s23 = lemma_next(
        code,
        base,
        from,
        s22,
        Inst::Move {
            to: Operand::Mem { place: Place::Based { base: 8, reach: 0 } },
            from: Operand::Reg { n: 1 },
            size: 8,
        },
        3,
    );
    assert(s23.memory == put(cpu.memory, cpu.regs[8] as int, load(cpu.memory, cpu.regs[2] as int, 8)));
    lemma_is_reg(code, o + 90, 0, 0);
    lemma_wide_digit(code, o + 88, Operand::Reg { n: 2 }, 1);
    let s24 = lemma_next(
        code,
        base,
        from,
        s23,
        Inst::Plus { to: Operand::Reg { n: 2 }, from: Operand::Imm { value: 8 }, size: 8 },
        4,
    );
    lemma_is_reg(code, o + 94, 0, 1);
    lemma_wide_digit(code, o + 92, Operand::Reg { n: 8 }, 1);
    let s25 = lemma_next(
        code,
        base,
        from,
        s24,
        Inst::Plus { to: Operand::Reg { n: 8 }, from: Operand::Imm { value: 8 }, size: 8 },
        4,
    );
    assert(s25.regs[2] == cpu.regs[2] + 8 && s25.regs[8] == cpu.regs[8] + 8 && s25.regs[9] == cpu.regs[9]);
    lemma_is_reg(code, o + 98, 0, 1);
    lemma_high(code, o + 96, Operand::Reg { n: 9 }, 1);
    let s26 = lemma_next(
        code,
        base,
        from,
        s25,
        Inst::Decrement { to: Operand::Reg { n: 9 }, size: 4 },
        3,
    );
    assert(s26.regs[9] == cpu.regs[9] - 1);
    assert(is_zero(s26) <==> cpu.regs[9] == 1);
    lemma_branch(code, o + 99);
    let s27 = lemma_next(code, base, from, s26, Inst::Branch { condition: 5, reach: -19 }, 2);
    s27
}

proof fn lemma_chat_copies(
    code: Seq<u8>,
    base: int,
    o: int,
    from: Cpu,
    cpu: Cpu,
    owner: usize,
    source: usize,
    length: usize,
    buffer: usize,
    counter: usize,
) -> (end: Cpu)
    requires
        reaches(code, base, from, cpu),
        cpu.sound(),
        cpu.ip == base + o + 82,
        chat_holds(code, o, owner, source, length, buffer, counter),
        1 <= cpu.regs[9] <= 20,
        cpu.regs[2] + 8 * cpu.regs[9] < 0x1_0000_0000_0000_0000,
        cpu.regs[8] + 8 * cpu.regs[9] < 0x1_0000_0000_0000_0000,
        cpu.regs[2] + 8 * cpu.regs[9] <= cpu.regs[8] || cpu.regs[8] + 8 * cpu.regs[9]
            <= cpu.regs[2],
    ensures
        reaches(code, base, from, end),
        end.ip == base + o + 101,
        end.sound(),
        forall|n: int|
            n == 0 || 3 <= n < 8 || 10 <= n < 16 ==> #[trigger] end.regs[n] == cpu.regs[n],
        end.stack == cpu.stack,
        end.vectors == cpu.vectors,
        end.memory == put(
            cpu.memory,
            cpu.regs[8] as int,
            load(cpu.memory, cpu.regs[2] as int, 8 * cpu.regs[9]),
        ),
    decreases cpu.regs[9],
{
    let a = lemma_chat_copies_one(code, base, o, from, cpu, owner, source, length, buffer, counter);
    if cpu.regs[9] == 1 {
        a
    } else {
        let end = lemma_chat_copies(code, base, o, from, a, owner, source, length, buffer, counter);
        lemma_copies_join(
            cpu.memory,
            cpu.regs[8] as int,
            cpu.regs[2] as int,
            8,
            8 * (cpu.regs[9] - 1) as nat,
        );
        end
    }
}

#[verifier::spinoff_prover]
#[verifier::rlimit(100)]
proof fn lemma_chat_counts(
    code: Seq<u8>,
    base: int,
    o: int,
    from: Cpu,
    cpu: Cpu,
    owner: usize,
    source: usize,
    length: usize,
    buffer: usize,
    counter: usize,
) -> (end: Cpu)
    requires
        reaches(code, base, from, cpu),
        cpu.sound(),
        cpu.ip == base + o + 101,
        chat_holds(code, o, owner, source, length, buffer, counter),
    ensures
        reaches(code, base, from, end),
        end.ip == base + o + 126,
        end.regs == cpu.regs,
        end.stack == cpu.stack,
        end.vectors == cpu.vectors,
        end.memory == put(
            cpu.memory,
            counter as int,
            le_bytes(
                ((held(cpu.memory, counter as int, 8) + 1) % 0x1_0000_0000_0000_0000) as nat,
                8,
            ),
        ),
{
    reveal(chat_holds);
    lemma_pow256();
    lemma_push(code, o + 101, 0);
    let s28 = lemma_next(code, base, from, cpu, Inst::Push { n: 0 }, 1);
    lemma_held_bound(cpu.memory, counter as int, 8);
    lemma_absolute(code, o + 102);
    let s29 = lemma_next(
        code,
        base,
        from,
        s28,
        Inst::Move {
            to: Operand::Reg { n: 0 },
            from: Operand::Mem { place: Place::Absolute { at: (counter) as nat } },
            size: 8,
        },
        10,
    );
    assert(s29.regs[0] == held(cpu.memory, counter as int, 8));
    lemma_is_reg(code, o + 114, 0, 0);
    lemma_wide_digit(code, o + 112, Operand::Reg { n: 0 }, 1);
    let s30 = lemma_next(
        code,
        base,
        from,
        s29,
        Inst::Increment { to: Operand::Reg { n: 0 }, size: 8 },
        3,
    );
    assert(s30.regs[0] == (held(cpu.memory, counter as int, 8) + 1) % 0x1_0000_0000_0000_0000);
    lemma_absolute(code, o + 115);
    let s31 = lemma_next(
        code,
        base,
        from,
        s30,
        Inst::Move {
            to: Operand::Mem { place: Place::Absolute { at: (counter) as nat } },
            from: Operand::Reg { n: 0 },
            size: 8,
        },
        10,
    );
    lemma_pop(code, o + 125, 0);
    let s32 = lemma_next(code, base, from, s31, Inst::Pop { n: 0 }, 1);
    assert(s32.regs =~= cpu.regs);
    assert(s32.stack =~= cpu.stack);
    s32
}

#[verifier::spinoff_prover]
#[verifier::rlimit(100)]
proof fn lemma_chat_returns(
    code: Seq<u8>,
    base: int,
    o: int,
    from: Cpu,
    cpu: Cpu,
    owner: usize,
    source: usize,
    length: usize,
    buffer: usize,
    counter: usize,
) -> (end: Cpu)
    requires
        reaches(code, base, from, cpu),
        cpu.sound(),
        cpu.ip == base + o + 126,
        chat_holds(code, o, owner, source, length, buffer, counter),
        cpu.stack.len() >= 4,
    ensures
        reaches(code, base, from, end),
        end.ip == base + o + 132,
        end.memory == cpu.memory,
        end.vectors == cpu.vectors,
        end.stack == cpu.stack.take(cpu.stack.len() - 4),
        end.regs.len() == 16,
        end.regs[1] == cpu.stack[cpu.stack.len() - 4],
        end.regs[2] == cpu.stack[cpu.stack.len() - 3],
        end.regs[8] == cpu.stack[cpu.stack.len() - 2],
        end.regs[9] == cpu.stack[cpu.stack.len() - 1],
        forall|n: int| n == 0 || 3 <= n < 8 || 10 <= n < 16 ==> #[trigger] end.regs[n] == cpu.regs[n],
{
    reveal(chat_holds);
    lemma_pow256();
    lemma_pop(code, o + 126, 9);
    let s33 = lemma_next(code, base, from, cpu, Inst::Pop { n: 9 }, 2);
    lemma_pop(code, o + 128, 8);
    let s34 = lemma_next(code, base, from, s33, Inst::Pop { n: 8 }, 2);
    lemma_pop(code, o + 130, 2);
    let s35 = lemma_next(code, base, from, s34, Inst::Pop { n: 2 }, 1);
    lemma_pop(code, o + 131, 1);
    let s36 = lemma_next(code, base, from, s35, Inst::Pop { n: 1 }, 1);
    assert(s36.stack =~= cpu.stack.take(cpu.stack.len() - 4));
    s36
}

/// Where the text of a message is: a short one is kept in its object, a long one where the
/// object begins by pointing to.
pub open spec fn text_of(cpu: Cpu) -> int {
    if held(cpu.memory, cpu.regs[0] + 0x18int, 8) < 8 {
        cpu.regs[0] as int
    } else {
        held(cpu.memory, cpu.regs[0] as int, 8) as int
    }
}

/// Two ranges have no byte in common.
pub open spec fn apart(a: int, m: int, b: int, n: int) -> bool {
    a + m <= b || b + n <= a
}

/// The chat hook copies a message out as the game takes it: who owns it, whom it is from,
/// how long it is and its text are put in the exports for them, and the count of messages
/// goes up by one. Outside the hook's memory nothing changes.
#[verifier::spinoff_prover]
#[verifier::rlimit(100)]
pub proof fn messages_are_copied_out(
    allocation: usize,
    exports: Seq<ExportSlot>,
    owner: int,
    source: int,
    buffer: int,
    length: int,
    counter: int,
    cpu: Cpu,
)
    requires
        allocation + payload_len(PayloadKind::Chat) <= usize::MAX,
        lists_slots(exports, PayloadKind::Chat),
        gives(exports, FeatureHookExport::ChatOwner, allocation, owner),
        gives(exports, FeatureHookExport::ReceiveSourceGid, allocation, source),
        gives(exports, FeatureHookExport::ReceiveMessageBuffer, allocation, buffer),
        gives(exports, FeatureHookExport::ReceiveMessageLength, allocation, length),
        gives(exports, FeatureHookExport::ReceiveCounter, allocation, counter),
        cpu.sound(),
        cpu.ip == allocation + 16,
        cpu.regs[5] >= 0x80,
        cpu.regs[0] + 0x20 <= 0x1_0000_0000_0000_0000,
        text_of(cpu) + 160 < 0x1_0000_0000_0000_0000,
        apart(
            allocation as int,
            payload_len(PayloadKind::Chat) as int,
            cpu.regs[5] - 0x80,
            8,
        ),
        apart(
            allocation as int,
            payload_len(PayloadKind::Chat) as int,
            cpu.regs[0] as int,
            0x20,
        ),
        apart(allocation as int, payload_len(PayloadKind::Chat) as int, text_of(cpu), 160),
    ensures
        exists|end: Cpu|
            {
                &&& #[trigger] reaches(
                    payload(PayloadKind::Chat, allocation),
                    allocation as int,
                    cpu,
                    end,
                )
                &&& end.ip == allocation + 148
                &&& end.regs == cpu.regs
                &&& end.stack == cpu.stack
                &&& end.vectors == cpu.vectors
                &&& held(end.memory, owner, 8) == cpu.regs[6]
                &&& load(end.memory, source, 8) == load(cpu.memory, cpu.regs[5] - 0x80, 8)
                &&& load(end.memory, length, 8) == load(cpu.memory, cpu.regs[0] + 0x10int, 8)
                &&& load(end.memory, buffer, 160) == load(cpu.memory, text_of(cpu), 160)
                &&& held(end.memory, counter, 8) == (held(cpu.memory, counter, 8) + 1)
                    % 0x1_0000_0000_0000_0000
                &&& forall|a: int|
                    !(allocation <= a < allocation + payload_len(PayloadKind::Chat))
                        ==> #[trigger] (end.memory)(a) == (cpu.memory)(a)
            },
{
    let kind = PayloadKind::Chat;
    let code = payload(kind, allocation);
    let base = allocation as int;
    let o = slot_at(kind, allocation, 0);
    let s = slot_at(kind, allocation, 1);
    let b = slot_at(kind, allocation, 2);
    let l = slot_at(kind, allocation, 3);
    let c = slot_at(kind, allocation, 4);
    let text = text_of(cpu);
    lemma_layout(kind);
    lemma_payload_stands(kind, allocation);
    lemma_chat_slots(allocation);
    assert(owner == o && source == s && buffer == b && length == l && counter == c);
    lemma_chat_holds(code, 16, o, s, l, b, c);
    lemma_stays(code, base, cpu);
    lemma_pow256();
    let m0 = cpu.memory;
    let x1 = lemma_chat_owner(code, base, 16, cpu, cpu, o, s, l, b, c);
    lemma_le_bytes_len(cpu.regs[6], 8);
    lemma_put(m0, owner, le_bytes(cpu.regs[6], 8));
    lemma_stored(m0, owner, cpu.regs[6], 8);
    let m1 = x1.memory;
    let x2 = lemma_chat_source(code, base, 16, cpu, x1, o, s, l, b, c);
    assert(load(m1, cpu.regs[5] - 0x80, 8) == load(m0, cpu.regs[5] - 0x80, 8));
    lemma_put(m1, source, load(m1, cpu.regs[5] - 0x80, 8));
    let m2 = x2.memory;
    let x3 = lemma_chat_length(code, base, 16, cpu, x2, o, s, l, b, c);
    assert(load(m2, cpu.regs[0] + 0x10int, 8) == load(m0, cpu.regs[0] + 0x10int, 8));
    lemma_put(m2, length, load(m2, cpu.regs[0] + 0x10int, 8));
    let m3 = x3.memory;
    assert(load(m3, cpu.regs[0] + 0x18int, 8) == load(m0, cpu.regs[0] + 0x18int, 8));
    assert(load(m3, cpu.regs[0] as int, 8) == load(m0, cpu.regs[0] as int, 8));
    let x4 = lemma_chat_kind(code, base, 16, cpu, x3, o, s, l, b, c);
    let x5 = if held(m0, cpu.regs[0] + 0x18int, 8) < 8 {
        x4
    } else {
        lemma_chat_follows(code, base, 16, cpu, x4, o, s, l, b, c)
    };
    assert(x5.regs[2] == text);
    let x6 = lemma_chat_sets_out(code, base, 16, cpu, x5, o, s, l, b, c);
    let x7 = lemma_chat_copies(code, base, 16, cpu, x6, o, s, l, b, c);
    assert(load(m3, text, 160) == load(m0, text, 160));
    lemma_put(m3, buffer, load(m3, text, 160));
    let m7 = x7.memory;
    let x8 = lemma_chat_counts(code, base, 16, cpu, x7, o, s, l, b, c);
    assert(load(m7, counter, 8) == load(m0, counter, 8));
    lemma_held_bound(m7, counter, 8);
    let more = ((held(m7, counter, 8) + 1) % 0x1_0000_0000_0000_0000) as nat;
    lemma_le_bytes_len(more, 8);
    lemma_put(m7, counter, le_bytes(more, 8));
    lemma_stored(m7, counter, more, 8);
    let end = lemma_chat_returns(code, base, 16, cpu, x8, o, s, l, b, c);
    assert(end.regs =~= cpu.regs);
    assert(end.stack =~= cpu.stack);
    assert(load(end.memory, owner, 8) == load(m1, owner, 8));
    assert(load(end.memory, source, 8) == load(m2, source, 8));
    assert(load(end.memory, length, 8) == load(m3, length, 8));
    assert(load(end.memory, buffer, 160) == load(m7, buffer, 160));
}

proof fn lemma_chat_slots(allocation: usize)
    requires
        allocation + payload_len(PayloadKind::Chat) <= usize::MAX,
    ensures
        ({
            let kind = PayloadKind::Chat;
            let o = slot_at(kind, allocation, 0);
            &&& allocation + 100 < o
            &&& slot_at(kind, allocation, 1) == o + 8
            &&& slot_at(kind, allocation, 2) == o + 16
            &&& slot_at(kind, allocation, 3) == o + 176
            &&& slot_at(kind, allocation, 4) == o + 184
            &&& o + 192 <= allocation + payload_len(kind)
        }),
{
    reveal_with_fuel(slots_len, 7);
}

/// What an action of the chat hook finds when it is asked for: its code, and where the
/// exports of the hook are.
pub open spec fn chat_actions(
    kind: PayloadKind,
    allocation: usize,
    exports: Seq<ExportSlot>,
    send_trigger: int,
    send_struct: int,
    buddy_trigger: int,
    buddy_object: int,
) -> bool {
    &&& kind is ChatSend
    &&& allocation + payload_len(kind) <= usize::MAX
    &&& lists_slots(exports, kind)
    &&& gives(exports, FeatureHookExport::SendTrigger, allocation, send_trigger)
    &&& gives(exports, FeatureHookExport::SendStruct, allocation, send_struct)
    &&& gives(exports, FeatureHookExport::BuddyTrigger, allocation, buddy_trigger)
    &&& gives(exports, FeatureHookExport::BuddyObject, allocation, buddy_object)
}

proof fn lemma_action_slots(kind: PayloadKind, allocation: usize)
    requires
        kind is ChatSend,
        allocation + payload_len(kind) <= usize::MAX,
    ensures
        ({
            let first = slot_at(kind, allocation, 0);
            &&& slot_offset(kind, 0) == 330
            &&& slot_offset(kind, 1) == 331
            &&& slot_offset(kind, 2) == 371
            &&& slot_offset(kind, 3) == 372
            &&& slots_end(kind) == 604
            &&& first == allocation + 330
            &&& slot_at(kind, allocation, 1) == first + 1
            &&& slot_at(kind, allocation, 2) == first + 41
            &&& slot_at(kind, allocation, 3) == first + 42
            &&& at(allocation, slots_end(kind)) == first + 274
            &&& allocation + payload_len(kind) == first + 442
        }),
{
    reveal_with_fuel(slots_len, 7);
}

proof fn lemma_body_parts(kind: PayloadKind, allocation: usize, code: Seq<u8>)
    requires
        kind is ChatSend,
        stands(code, 16, body(kind, allocation)),
    ensures
        stands(
            code,
            16,
            assembly(
                send_pieces(
                    slot_at(kind, allocation, 0),
                    slot_at(kind, allocation, 1),
                    at(allocation, slots_end(kind)),
                    kind->send,
                    kind->operator_new,
                ),
            ),
        ),
        stands(
            code,
            208,
            assembly(
                buddy_pieces(
                    slot_at(kind, allocation, 2),
                    slot_at(kind, allocation, 3),
                    kind->buddy,
                ),
            ),
        ),
{
    let trigger = slot_at(kind, allocation, 0);
    let message = slot_at(kind, allocation, 1);
    let other = slot_at(kind, allocation, 2);
    let object = slot_at(kind, allocation, 3);
    let buffer = at(allocation, slots_end(kind));
    let first = assembly(send_pieces(trigger, message, buffer, kind->send, kind->operator_new));
    let second = assembly(buddy_pieces(other, object, kind->buddy));
    lemma_send(trigger, message, buffer, kind->send, kind->operator_new);
    lemma_buddy(other, object, kind->buddy);
    let whole = body(kind, allocation);
    assert(whole.subrange(0, 192) =~= first);
    assert(whole.subrange(192, 293) =~= second);
    lemma_part_stands(code, 16, whole, 0, first);
    lemma_part_stands(code, 16, whole, 192, second);
}

proof fn lemma_actions_stand(
    kind: PayloadKind,
    allocation: usize,
    exports: Seq<ExportSlot>,
    send_trigger: int,
    send_struct: int,
    buddy_trigger: int,
    buddy_object: int,
)
    requires
        chat_actions(
            kind,
            allocation,
            exports,
            send_trigger,
            send_struct,
            buddy_trigger,
            buddy_object,
        ),
    ensures
        0 <= send_trigger <= usize::MAX,
        0 <= send_struct,
        send_struct + 0x28 <= usize::MAX,
        0 <= buddy_trigger <= usize::MAX,
        0 <= buddy_object,
        buddy_object + 0xe8 + 160 <= usize::MAX,
        send_holds(
            payload(kind, allocation),
            16,
            send_trigger as usize,
            send_struct as usize,
            (buddy_object + 0xe8) as usize,
            kind->send,
            kind->operator_new,
        ),
        buddy_holds(
            payload(kind, allocation),
            208,
            buddy_trigger as usize,
            buddy_object as usize,
            kind->buddy,
        ),
{
    let code = payload(kind, allocation);
    lemma_layout(kind);
    lemma_payload_stands(kind, allocation);
    lemma_action_slots(kind, allocation);
    let trigger = slot_at(kind, allocation, 0);
    let message = slot_at(kind, allocation, 1);
    let other = slot_at(kind, allocation, 2);
    let object = slot_at(kind, allocation, 3);
    let buffer = at(allocation, slots_end(kind));
    assert(send_trigger == trigger && send_struct == message);
    assert(buddy_trigger == other && buddy_object == object);
    assert(buffer == object + 0xe8);
    lemma_body_parts(kind, allocation, code);
    lemma_send_holds(code, 16, trigger, message, buffer, kind->send, kind->operator_new);
    lemma_buddy_holds(code, 208, other, object, kind->buddy);
}

/// A message that is asked for is sent by a call of the game's function, on the object in
/// the register for it, with the prepared message. For a long one, room is asked for first:
/// two bytes for each unit of the text and two for its end. What a called function may
/// change has been saved. A message that is not asked for leaves everything as it is.
#[verifier::spinoff_prover]
#[verifier::rlimit(100)]
pub proof fn messages_are_sent_when_asked_for(
    kind: PayloadKind,
    allocation: usize,
    exports: Seq<ExportSlot>,
    send_trigger: int,
    send_struct: int,
    buddy_trigger: int,
    buddy_object: int,
    cpu: Cpu,
)
    requires
        chat_actions(
            kind,
            allocation,
            exports,
            send_trigger,
            send_struct,
            buddy_trigger,
            buddy_object,
        ),
        cpu.sound(),
        cpu.ip == allocation + 16,
    ensures
        exists|at: Cpu|
            {
                let length = held(cpu.memory, send_struct + 0x10, 8);
                &&& #[trigger] reaches(payload(kind, allocation), allocation as int, cpu, at)
                &&& at.memory == cpu.memory
                &&& at.vectors == cpu.vectors
                &&& if (cpu.memory)(send_trigger) == 0 {
                    &&& at.ip == allocation + 208
                    &&& at.regs == cpu.regs
                    &&& at.stack == cpu.stack
                } else {
                    &&& decode(payload(kind, allocation), at.ip - allocation) == Some(
                        (Inst::Call { target: Operand::Reg { n: 0 } }, 2int),
                    )
                    &&& action_saved(at.stack, cpu)
                    &&& forall|n: int|
                        3 <= n < 16 ==> #[trigger] at.regs[n] == cpu.regs[n]
                    &&& if length <= 7 {
                        &&& at.ip == allocation + 175
                        &&& at.regs[0] == kind->send
                        &&& at.regs[1] == cpu.regs[7]
                        &&& at.regs[2] == send_struct
                    } else {
                        &&& at.ip == allocation + 88
                        &&& at.regs[0] == kind->operator_new
                        &&& at.regs[1] == wrapped(2 * length + 2int)
                    }
                }
            },
{
    let code = payload(kind, allocation);
    let base = allocation as int;
    lemma_actions_stand(
        kind,
        allocation,
        exports,
        send_trigger,
        send_struct,
        buddy_trigger,
        buddy_object,
    );
    let trigger = send_trigger as usize;
    let message = send_struct as usize;
    let buffer = (buddy_object + 0xe8) as usize;
    let send = kind->send;
    let room = kind->operator_new;
    lemma_stays(code, base, cpu);
    let a = lemma_send_trigger(code, base, 16, cpu, cpu, trigger, message, buffer, send, room);
    if (cpu.memory)(send_trigger) != 0 {
        let b = lemma_send_saves(code, base, 16, cpu, a, trigger, message, buffer, send, room);
        let c = lemma_send_measures(code, base, 16, cpu, b, trigger, message, buffer, send, room);
        if held(cpu.memory, send_struct + 0x10, 8) <= 7 {
            let d = lemma_send_sends(code, base, 16, cpu, c, trigger, message, buffer, send, room);
            assert(reaches(code, base, cpu, d));
        } else {
            let d = lemma_send_asks_for_room(
                code,
                base,
                16,
                cpu,
                c,
                trigger,
                message,
                buffer,
                send,
                room,
            );
            assert(reaches(code, base, cpu, d));
        }
    }
}

/// Once there is room for a long message, its text is copied there from the buffer behind
/// the exports, with its end, the prepared message is given the address behind the copy,
/// and the message is sent.
#[verifier::spinoff_prover]
#[verifier::rlimit(100)]
pub proof fn long_messages_are_copied_before_they_are_sent(
    kind: PayloadKind,
    allocation: usize,
    exports: Seq<ExportSlot>,
    send_trigger: int,
    send_struct: int,
    buddy_trigger: int,
    buddy_object: int,
    returned: Cpu,
)
    requires
        chat_actions(
            kind,
            allocation,
            exports,
            send_trigger,
            send_struct,
            buddy_trigger,
            buddy_object,
        ),
        returned.sound(),
        returned.ip == allocation + 90,
        ({
            let n = 2 * held(returned.memory, send_struct + 0x10, 8) + 2int;
            let room = returned.regs[0] as int;
            &&& room + n < 0x1_0000_0000_0000_0000
            &&& buddy_object + 0xe8 + n < 0x1_0000_0000_0000_0000
            &&& apart(room, n, buddy_object + 0xe8, n)
        }),
    ensures
        exists|at: Cpu|
            {
                let n = (2 * held(returned.memory, send_struct + 0x10, 8) + 2) as nat;
                let room = returned.regs[0] as int;
                &&& #[trigger] reaches(
                    payload(kind, allocation),
                    allocation as int,
                    returned,
                    at,
                )
                &&& at.ip == allocation + 175
                &&& decode(payload(kind, allocation), at.ip - allocation) == Some(
                    (Inst::Call { target: Operand::Reg { n: 0 } }, 2int),
                )
                &&& at.regs[0] == kind->send
                &&& at.regs[1] == returned.regs[7]
                &&& at.regs[2] == send_struct
                &&& forall|r: int|
                    3 <= r < 10 || 12 <= r < 16 ==> #[trigger] at.regs[r] == returned.regs[r]
                &&& at.stack == returned.stack
                &&& at.vectors == returned.vectors
                &&& at.memory == put(
                    put(returned.memory, room, load(returned.memory, buddy_object + 0xe8, n)),
                    send_struct,
                    le_bytes((room + n) as nat, 8),
                )
            },
{
    let code = payload(kind, allocation);
    let base = allocation as int;
    lemma_actions_stand(
        kind,
        allocation,
        exports,
        send_trigger,
        send_struct,
        buddy_trigger,
        buddy_object,
    );
    let t = send_trigger as usize;
    let m = send_struct as usize;
    let b = (buddy_object + 0xe8) as usize;
    let s = kind->send;
    let r = kind->operator_new;
    lemma_stays(code, base, returned);
    let w = lemma_send_sets_out(code, base, 16, returned, returned, t, m, b, s, r);
    let x = lemma_send_copies(code, base, 16, returned, w, t, m, b, s, r);
    let y = lemma_send_stores(code, base, 16, returned, x, t, m, b, s, r);
    let z = lemma_send_sends(code, base, 16, returned, y, t, m, b, s, r);
    assert(reaches(code, base, returned, z));
}

/// A thread that comes back from sending clears the trigger, and every register that was
/// saved, the stack and the rest of memory are as they were.
#[verifier::spinoff_prover]
#[verifier::rlimit(100)]
pub proof fn sending_ends_as_it_began(
    kind: PayloadKind,
    allocation: usize,
    exports: Seq<ExportSlot>,
    send_trigger: int,
    send_struct: int,
    buddy_trigger: int,
    buddy_object: int,
    cpu: Cpu,
    returned: Cpu,
)
    requires
        chat_actions(
            kind,
            allocation,
            exports,
            send_trigger,
            send_struct,
            buddy_trigger,
            buddy_object,
        ),
        cpu.sound(),
        returned.sound(),
        action_saved(returned.stack, cpu),
        returned.ip == allocation + 177 || returned.ip == allocation + 278,
    ensures
        exists|end: Cpu|
            {
                let sent = returned.ip == allocation + 177;
                &&& #[trigger] reaches(
                    payload(kind, allocation),
                    allocation as int,
                    returned,
                    end,
                )
                &&& end.ip == if sent {
                    allocation + 208
                } else {
                    allocation + 309
                }
                &&& forall|n: int|
                    0 <= n < 3 || 8 <= n < 12 ==> #[trigger] end.regs[n] == cpu.regs[n]
                &&& forall|n: int|
                    3 <= n < 8 || 12 <= n < 16 ==> #[trigger] end.regs[n] == returned.regs[n]
                &&& end.stack == cpu.stack
                &&& end.vectors == returned.vectors
                &&& end.memory == put(
                    returned.memory,
                    if sent {
                        send_trigger
                    } else {
                        buddy_trigger
                    },
                    seq![0u8],
                )
            },
{
    let code = payload(kind, allocation);
    let base = allocation as int;
    lemma_actions_stand(
        kind,
        allocation,
        exports,
        send_trigger,
        send_struct,
        buddy_trigger,
        buddy_object,
    );
    let t = send_trigger as usize;
    let m = send_struct as usize;
    let b = (buddy_object + 0xe8) as usize;
    let s = kind->send;
    let r = kind->operator_new;
    let u = buddy_trigger as usize;
    let w = buddy_object as usize;
    let n = cpu.stack.len() as int;
    lemma_stays(code, base, returned);
    let sent = returned.ip == allocation + 177;
    let a = if sent {
        lemma_send_returns(code, base, 16, returned, returned, t, m, b, s, r)
    } else {
        lemma_buddy_returns(code, base, 208, returned, returned, u, w, kind->buddy)
    };
    assert(a.sound()) by {
        assert forall|i: int| 0 <= i < 16 implies #[trigger] a.regs[i] < 0x1_0000_0000_0000_0000 by {
            if i < 3 || 8 <= i < 12 {
                assert(a.regs[i] == cpu.regs[i]);
            } else {
                assert(a.regs[i] == returned.regs[i]);
            }
        }
    }
    let end = if sent {
        lemma_send_clears(code, base, 16, returned, a, t, m, b, s, r)
    } else {
        lemma_buddy_clears(code, base, 208, returned, a, u, w, kind->buddy)
    };
    assert(end.stack =~= cpu.stack);
}

/// A friend request that is asked for is sent by a call of the game's function: on the
/// prepared object, which is given the object in the register for it, and with what the
/// prepared object holds for whom it is. One that is not asked for leaves everything as it
/// is.
#[verifier::spinoff_prover]
#[verifier::rlimit(100)]
pub proof fn friend_requests_are_sent_when_asked_for(
    kind: PayloadKind,
    allocation: usize,
    exports: Seq<ExportSlot>,
    send_trigger: int,
    send_struct: int,
    buddy_trigger: int,
    buddy_object: int,
    cpu: Cpu,
)
    requires
        chat_actions(
            kind,
            allocation,
            exports,
            send_trigger,
            send_struct,
            buddy_trigger,
            buddy_object,
        ),
        cpu.sound(),
        cpu.ip == allocation + 208,
    ensures
        exists|at: Cpu|
            {
                &&& #[trigger] reaches(payload(kind, allocation), allocation as int, cpu, at)
                &&& at.vectors == cpu.vectors
                &&& if (cpu.memory)(buddy_trigger) == 0 {
                    &&& at.ip == allocation + 309
                    &&& at.regs == cpu.regs
                    &&& at.stack == cpu.stack
                    &&& at.memory == cpu.memory
                } else {
                    &&& at.ip == allocation + 276
                    &&& decode(payload(kind, allocation), at.ip - allocation) == Some(
                        (Inst::Call { target: Operand::Reg { n: 0 } }, 2int),
                    )
                    &&& at.regs[0] == kind->buddy
                    &&& at.regs[1] == buddy_object
                    &&& at.regs[2] == held(cpu.memory, buddy_object + 0xe0, 8)
                    &&& forall|n: int|
                        3 <= n < 16 ==> #[trigger] at.regs[n] == cpu.regs[n]
                    &&& action_saved(at.stack, cpu)
                    &&& held(at.memory, buddy_object + 0x18, 8) == cpu.regs[7]
                    &&& forall|a: int|
                        !(buddy_object + 0x18 <= a < buddy_object + 0x20) ==> #[trigger] (
                        at.memory)(a) == (cpu.memory)(a)
                }
            },
{
    let code = payload(kind, allocation);
    let base = allocation as int;
    lemma_actions_stand(
        kind,
        allocation,
        exports,
        send_trigger,
        send_struct,
        buddy_trigger,
        buddy_object,
    );
    let u = buddy_trigger as usize;
    let w = buddy_object as usize;
    lemma_stays(code, base, cpu);
    lemma_pow256();
    let a = lemma_buddy_trigger(code, base, 208, cpu, cpu, u, w, kind->buddy);
    if (cpu.memory)(buddy_trigger) != 0 {
        let b = lemma_buddy_saves(code, base, 208, cpu, a, u, w, kind->buddy);
        let c = lemma_buddy_asks(code, base, 208, cpu, b, u, w, kind->buddy);
        lemma_stored(cpu.memory, buddy_object + 0x18, cpu.regs[7], 8);
        assert(reaches(code, base, cpu, c));
    }
}

}
