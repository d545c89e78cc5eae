//! What the code of a login does when a thread of the game runs it.

use vstd::prelude::*;

use crate::calls::{Answer, Call, Calls, Wish};
use crate::codec::{
    le_bytes, le_value, lemma_le_bytes_len, lemma_le_value_bound, lemma_pow256,
    read_value_writes_back, wrap32,
};
use crate::game_login::{
    all_allocated, first_sites, hook_bytes, hooked, lemma_login_head_len, lemma_vector_moves_len,
    login_bytes, login_call, login_code_bytes, login_command, login_entry, login_exit, login_head,
    login_places, only_match, relative_jump, string_bytes, vector_moves, written, CredentialSecret,
    Sites, Trace,
};
use crate::machine::{
    decode, held, is_zero, lemma_branch, lemma_eight, lemma_exchange, lemma_four, lemma_held_bound,
    lemma_held_byte, lemma_high, lemma_is_based, lemma_is_reg, lemma_low_byte, lemma_next,
    lemma_part_stands, lemma_plain, lemma_pop, lemma_push, lemma_put, lemma_room, lemma_set64,
    lemma_set8, lemma_stays, lemma_vector, lemma_wide, load, number, put, reach32, reaches, stands,
    Cpu, Inst, Operand, Place,
};
use crate::protocol::MemoryProtection;
use crate::rpc::Failure;
use crate::signature::{hits, hits_are_complete, matches_at, occurrences};

verus! {

/// The first vectors are kept on the stack, above four words of room.
pub open spec fn vectors_kept(stack: Seq<nat>, vectors: Seq<(nat, nat)>) -> bool {
    let n = stack.len();
    &&& vectors[0] == (stack[n - 5], stack[n - 6])
    &&& vectors[1] == (stack[n - 7], stack[n - 8])
    &&& vectors[2] == (stack[n - 9], stack[n - 10])
    &&& vectors[3] == (stack[n - 11], stack[n - 12])
    &&& vectors[4] == (stack[n - 13], stack[n - 14])
    &&& vectors[5] == (stack[n - 15], stack[n - 16])
}

/// The stack keeps what a called function may change: the status word, the registers and
/// the vectors that are not its caller's to rely on. Four words are left to it.
pub open spec fn saved(stack: Seq<nat>, cpu: Cpu) -> bool {
    let n = cpu.stack.len() as int;
    &&& stack.len() == n + 24
    &&& stack.take(n) == cpu.stack
    &&& stack[n] == cpu.flags
    &&& stack[n + 1] == cpu.regs[0]
    &&& stack[n + 2] == cpu.regs[1]
    &&& stack[n + 3] == cpu.regs[2]
    &&& stack[n + 4] == cpu.regs[8]
    &&& stack[n + 5] == cpu.regs[9]
    &&& stack[n + 6] == cpu.regs[10]
    &&& stack[n + 7] == cpu.regs[11]
    &&& vectors_kept(stack, cpu.vectors)
}

/// The code up to the call stands at a place.
#[verifier::opaque]
spec fn entry_holds(code: Seq<u8>, o: int, flag: usize) -> bool {
    &&& 0 <= o
    &&& o + 85 <= code.len()
    &&& code[o + 0] == 0x9c
    &&& code[o + 1] == 0x50
    &&& code[o + 2] == 0x51
    &&& code[o + 3] == 0x52
    &&& code[o + 4] == 0x48
    &&& code[o + 5] == 0xba
    &&& number(code, o + 6, 8) == (flag)
    &&& code[o + 14] == 0xb0
    &&& code[o + 15] == 0x01
    &&& code[o + 16] == 0xb1
    &&& code[o + 17] == 0x02
    &&& code[o + 18] == 0xf0
    &&& code[o + 19] == 0x0f
    &&& code[o + 20] == 0xb0
    &&& code[o + 21] == 0x0a
    &&& code[o + 22] == 0x0f
    &&& code[o + 23] == 0x85
    &&& code[o + 24] == 0xad
    &&& code[o + 25] == 0x00
    &&& code[o + 26] == 0x00
    &&& code[o + 27] == 0x00
    &&& code[o + 28] == 0x5a
    &&& code[o + 29] == 0x59
    &&& code[o + 30] == 0x58
    &&& code[o + 31] == 0x50
    &&& code[o + 32] == 0x51
    &&& code[o + 33] == 0x52
    &&& code[o + 34] == 0x41
    &&& code[o + 35] == 0x50
    &&& code[o + 36] == 0x41
    &&& code[o + 37] == 0x51
    &&& code[o + 38] == 0x41
    &&& code[o + 39] == 0x52
    &&& code[o + 40] == 0x41
    &&& code[o + 41] == 0x53
    &&& code[o + 42] == 0x48
    &&& code[o + 43] == 0x81
    &&& code[o + 44] == 0xec
    &&& code[o + 45] == 0x80
    &&& code[o + 46] == 0x00
    &&& code[o + 47] == 0x00
    &&& code[o + 48] == 0x00
    &&& code[o + 49] == 0xf3
    &&& code[o + 50] == 0x0f
    &&& code[o + 51] == 0x7f
    &&& code[o + 52] == 0x44
    &&& code[o + 53] == 0x24
    &&& code[o + 54] == 0x20
    &&& code[o + 55] == 0xf3
    &&& code[o + 56] == 0x0f
    &&& code[o + 57] == 0x7f
    &&& code[o + 58] == 0x4c
    &&& code[o + 59] == 0x24
    &&& code[o + 60] == 0x30
    &&& code[o + 61] == 0xf3
    &&& code[o + 62] == 0x0f
    &&& code[o + 63] == 0x7f
    &&& code[o + 64] == 0x54
    &&& code[o + 65] == 0x24
    &&& code[o + 66] == 0x40
    &&& code[o + 67] == 0xf3
    &&& code[o + 68] == 0x0f
    &&& code[o + 69] == 0x7f
    &&& code[o + 70] == 0x5c
    &&& code[o + 71] == 0x24
    &&& code[o + 72] == 0x50
    &&& code[o + 73] == 0xf3
    &&& code[o + 74] == 0x0f
    &&& code[o + 75] == 0x7f
    &&& code[o + 76] == 0x64
    &&& code[o + 77] == 0x24
    &&& code[o + 78] == 0x60
    &&& code[o + 79] == 0xf3
    &&& code[o + 80] == 0x0f
    &&& code[o + 81] == 0x7f
    &&& code[o + 82] == 0x6c
    &&& code[o + 83] == 0x24
    &&& code[o + 84] == 0x70
}

/// The call stands at a place.
#[verifier::opaque]
spec fn call_holds(code: Seq<u8>, o: int, structure: usize, client: usize, function: usize) -> bool {
    &&& 0 <= o
    &&& o + 41 <= code.len()
    &&& code[o + 0] == 0x41
    &&& code[o + 1] == 0xb1
    &&& code[o + 2] == 0x01
    &&& code[o + 3] == 0x45
    &&& code[o + 4] == 0x33
    &&& code[o + 5] == 0xc0
    &&& code[o + 6] == 0x48
    &&& code[o + 7] == 0xba
    &&& number(code, o + 8, 8) == (structure)
    &&& code[o + 16] == 0x48
    &&& code[o + 17] == 0xb8
    &&& number(code, o + 18, 8) == (client)
    &&& code[o + 26] == 0x48
    &&& code[o + 27] == 0x8b
    &&& code[o + 28] == 0x08
    &&& code[o + 29] == 0x48
    &&& code[o + 30] == 0xb8
    &&& number(code, o + 31, 8) == (function)
    &&& code[o + 39] == 0xff
    &&& code[o + 40] == 0xd0
}

/// The code behind the call stands at a place.
#[verifier::opaque]
spec fn exit_holds(code: Seq<u8>, o: int, flag: usize) -> bool {
    &&& 0 <= o
    &&& o + 79 <= code.len()
    &&& code[o + 0] == 0xf3
    &&& code[o + 1] == 0x0f
    &&& code[o + 2] == 0x6f
    &&& code[o + 3] == 0x44
    &&& code[o + 4] == 0x24
    &&& code[o + 5] == 0x20
    &&& code[o + 6] == 0xf3
    &&& code[o + 7] == 0x0f
    &&& code[o + 8] == 0x6f
    &&& code[o + 9] == 0x4c
    &&& code[o + 10] == 0x24
    &&& code[o + 11] == 0x30
    &&& code[o + 12] == 0xf3
    &&& code[o + 13] == 0x0f
    &&& code[o + 14] == 0x6f
    &&& code[o + 15] == 0x54
    &&& code[o + 16] == 0x24
    &&& code[o + 17] == 0x40
    &&& code[o + 18] == 0xf3
    &&& code[o + 19] == 0x0f
    &&& code[o + 20] == 0x6f
    &&& code[o + 21] == 0x5c
    &&& code[o + 22] == 0x24
    &&& code[o + 23] == 0x50
    &&& code[o + 24] == 0xf3
    &&& code[o + 25] == 0x0f
    &&& code[o + 26] == 0x6f
    &&& code[o + 27] == 0x64
    &&& code[o + 28] == 0x24
    &&& code[o + 29] == 0x60
    &&& code[o + 30] == 0xf3
    &&& code[o + 31] == 0x0f
    &&& code[o + 32] == 0x6f
    &&& code[o + 33] == 0x6c
    &&& code[o + 34] == 0x24
    &&& code[o + 35] == 0x70
    &&& code[o + 36] == 0x48
    &&& code[o + 37] == 0x81
    &&& code[o + 38] == 0xc4
    &&& code[o + 39] == 0x80
    &&& code[o + 40] == 0x00
    &&& code[o + 41] == 0x00
    &&& code[o + 42] == 0x00
    &&& code[o + 43] == 0x41
    &&& code[o + 44] == 0x5b
    &&& code[o + 45] == 0x41
    &&& code[o + 46] == 0x5a
    &&& code[o + 47] == 0x41
    &&& code[o + 48] == 0x59
    &&& code[o + 49] == 0x41
    &&& code[o + 50] == 0x58
    &&& code[o + 51] == 0x5a
    &&& code[o + 52] == 0x59
    &&& code[o + 53] == 0x58
    &&& code[o + 54] == 0x50
    &&& code[o + 55] == 0x48
    &&& code[o + 56] == 0xb8
    &&& number(code, o + 57, 8) == (flag)
    &&& code[o + 65] == 0xc6
    &&& code[o + 66] == 0x00
    &&& code[o + 67] == 0x00
    &&& code[o + 68] == 0x58
    &&& code[o + 69] == 0x9d
    &&& code[o + 70] == 0xe9
    &&& code[o + 71] == 0x04
    &&& code[o + 72] == 0x00
    &&& code[o + 73] == 0x00
    &&& code[o + 74] == 0x00
    &&& code[o + 75] == 0x5a
    &&& code[o + 76] == 0x59
    &&& code[o + 77] == 0x58
    &&& code[o + 78] == 0x9d
}

#[verifier::spinoff_prover]
#[verifier::rlimit(100)]
proof fn lemma_entry_holds(code: Seq<u8>, o: int, flag: usize)
    requires
        stands(code, o, login_entry(flag)),
    ensures
        entry_holds(code, o, flag),
{
    reveal(entry_holds);
    let part = login_entry(flag);
    reveal_with_fuel(vector_moves, 7);
    reveal_with_fuel(le_bytes, 5);
    assert(le_bytes(173, 4) =~= seq![0xadu8, 0, 0, 0]);
    lemma_vector_moves_len(0x7f, 6);
    lemma_le_bytes_len((flag) as nat, 8);
    let c0 = seq![0x9cu8, 0x50, 0x51, 0x52, 0x48, 0xba];
    assert(part.subrange(0, 6) =~= c0);
    lemma_part_stands(code, o, part, 0, c0);
    assert(c0[0] == 0x9c);
    assert(c0[1] == 0x50);
    assert(c0[2] == 0x51);
    assert(c0[3] == 0x52);
    assert(c0[4] == 0x48);
    assert(c0[5] == 0xba);
    assert(part.subrange(6, 14) =~= le_bytes((flag) as nat, 8));
    lemma_part_stands(code, o, part, 6, le_bytes((flag) as nat, 8));
    lemma_eight(code, o + 6, (flag) as nat);
    let c2 = seq![0xb0u8, 0x01, 0xb1, 0x02, 0xf0, 0x0f, 0xb0, 0x0a, 0x0f, 0x85];
    assert(part.subrange(14, 24) =~= c2);
    lemma_part_stands(code, o, part, 14, c2);
    assert(c2[0] == 0xb0);
    assert(c2[1] == 0x01);
    assert(c2[2] == 0xb1);
    assert(c2[3] == 0x02);
    assert(c2[4] == 0xf0);
    assert(c2[5] == 0x0f);
    assert(c2[6] == 0xb0);
    assert(c2[7] == 0x0a);
    assert(c2[8] == 0x0f);
    assert(c2[9] == 0x85);
    let c3 = seq![0xadu8, 0x00, 0x00, 0x00];
    assert(part.subrange(24, 28) =~= c3);
    lemma_part_stands(code, o, part, 24, c3);
    assert(c3[0] == 0xad);
    assert(c3[1] == 0x00);
    assert(c3[2] == 0x00);
    assert(c3[3] == 0x00);
    let c4 = seq![
        0x5au8, 0x59, 0x58, 0x50, 0x51, 0x52, 0x41, 0x50, 0x41, 0x51, 0x41, 0x52, 0x41, 0x53, 0x48,
        0x81, 0xec, 0x80, 0x00, 0x00, 0x00,
    ];
    assert(part.subrange(28, 49) =~= c4);
    lemma_part_stands(code, o, part, 28, c4);
    assert(c4[0] == 0x5a);
    assert(c4[1] == 0x59);
    assert(c4[2] == 0x58);
    assert(c4[3] == 0x50);
    assert(c4[4] == 0x51);
    assert(c4[5] == 0x52);
    assert(c4[6] == 0x41);
    assert(c4[7] == 0x50);
    assert(c4[8] == 0x41);
    assert(c4[9] == 0x51);
    assert(c4[10] == 0x41);
    assert(c4[11] == 0x52);
    assert(c4[12] == 0x41);
    assert(c4[13] == 0x53);
    assert(c4[14] == 0x48);
    assert(c4[15] == 0x81);
    assert(c4[16] == 0xec);
    assert(c4[17] == 0x80);
    assert(c4[18] == 0x00);
    assert(c4[19] == 0x00);
    assert(c4[20] == 0x00);
    let c5 = seq![
        0xf3u8, 0x0f, 0x7f, 0x44, 0x24, 0x20, 0xf3, 0x0f, 0x7f, 0x4c, 0x24, 0x30, 0xf3, 0x0f, 0x7f,
        0x54, 0x24, 0x40, 0xf3, 0x0f, 0x7f, 0x5c, 0x24, 0x50, 0xf3, 0x0f, 0x7f, 0x64, 0x24, 0x60,
        0xf3, 0x0f, 0x7f, 0x6c, 0x24, 0x70,
    ];
    assert(part.subrange(49, 85) =~= c5);
    lemma_part_stands(code, o, part, 49, c5);
    assert(c5[0] == 0xf3);
    assert(c5[1] == 0x0f);
    assert(c5[2] == 0x7f);
    assert(c5[3] == 0x44);
    assert(c5[4] == 0x24);
    assert(c5[5] == 0x20);
    assert(c5[6] == 0xf3);
    assert(c5[7] == 0x0f);
    assert(c5[8] == 0x7f);
    assert(c5[9] == 0x4c);
    assert(c5[10] == 0x24);
    assert(c5[11] == 0x30);
    assert(c5[12] == 0xf3);
    assert(c5[13] == 0x0f);
    assert(c5[14] == 0x7f);
    assert(c5[15] == 0x54);
    assert(c5[16] == 0x24);
    assert(c5[17] == 0x40);
    assert(c5[18] == 0xf3);
    assert(c5[19] == 0x0f);
    assert(c5[20] == 0x7f);
    assert(c5[21] == 0x5c);
    assert(c5[22] == 0x24);
    assert(c5[23] == 0x50);
    assert(c5[24] == 0xf3);
    assert(c5[25] == 0x0f);
    assert(c5[26] == 0x7f);
    assert(c5[27] == 0x64);
    assert(c5[28] == 0x24);
    assert(c5[29] == 0x60);
    assert(c5[30] == 0xf3);
    assert(c5[31] == 0x0f);
    assert(c5[32] == 0x7f);
    assert(c5[33] == 0x6c);
    assert(c5[34] == 0x24);
    assert(c5[35] == 0x70);
}

#[verifier::spinoff_prover]
#[verifier::rlimit(100)]
proof fn lemma_call_holds(code: Seq<u8>, o: int, structure: usize, client: usize, function: usize)
    requires
        stands(code, o, login_call(structure, client, function)),
    ensures
        call_holds(code, o, structure, client, function),
{
    reveal(call_holds);
    let part = login_call(structure, client, function);
    lemma_le_bytes_len((structure) as nat, 8);
    lemma_le_bytes_len((client) as nat, 8);
    lemma_le_bytes_len((function) as nat, 8);
    let c0 = seq![0x41u8, 0xb1, 0x01, 0x45, 0x33, 0xc0, 0x48, 0xba];
    assert(part.subrange(0, 8) =~= c0);
    lemma_part_stands(code, o, part, 0, c0);
    assert(c0[0] == 0x41);
    assert(c0[1] == 0xb1);
    assert(c0[2] == 0x01);
    assert(c0[3] == 0x45);
    assert(c0[4] == 0x33);
    assert(c0[5] == 0xc0);
    assert(c0[6] == 0x48);
    assert(c0[7] == 0xba);
    assert(part.subrange(8, 16) =~= le_bytes((structure) as nat, 8));
    lemma_part_stands(code, o, part, 8, le_bytes((structure) as nat, 8));
    lemma_eight(code, o + 8, (structure) as nat);
    let c2 = seq![0x48u8, 0xb8];
    assert(part.subrange(16, 18) =~= c2);
    lemma_part_stands(code, o, part, 16, c2);
    assert(c2[0] == 0x48);
    assert(c2[1] == 0xb8);
    assert(part.subrange(18, 26) =~= le_bytes((client) as nat, 8));
    lemma_part_stands(code, o, part, 18, le_bytes((client) as nat, 8));
    lemma_eight(code, o + 18, (client) as nat);
    let c4 = seq![0x48u8, 0x8b, 0x08, 0x48, 0xb8];
    assert(part.subrange(26, 31) =~= c4);
    lemma_part_stands(code, o, part, 26, c4);
    assert(c4[0] == 0x48);
    assert(c4[1] == 0x8b);
    assert(c4[2] == 0x08);
    assert(c4[3] == 0x48);
    assert(c4[4] == 0xb8);
    assert(part.subrange(31, 39) =~= le_bytes((function) as nat, 8));
    lemma_part_stands(code, o, part, 31, le_bytes((function) as nat, 8));
    lemma_eight(code, o + 31, (function) as nat);
    let c6 = seq![0xffu8, 0xd0];
    assert(part.subrange(39, 41) =~= c6);
    lemma_part_stands(code, o, part, 39, c6);
    assert(c6[0] == 0xff);
    assert(c6[1] == 0xd0);
}

#[verifier::spinoff_prover]
#[verifier::rlimit(100)]
proof fn lemma_exit_holds(code: Seq<u8>, o: int, flag: usize)
    requires
        stands(code, o, login_exit(flag)),
    ensures
        exit_holds(code, o, flag),
{
    reveal(exit_holds);
    let part = login_exit(flag);
    reveal_with_fuel(vector_moves, 7);
    reveal_with_fuel(le_bytes, 5);
    assert(le_bytes(4, 4) =~= seq![0x04u8, 0, 0, 0]);
    lemma_vector_moves_len(0x6f, 6);
    lemma_le_bytes_len((flag) as nat, 8);
    let c0 = seq![
        0xf3u8, 0x0f, 0x6f, 0x44, 0x24, 0x20, 0xf3, 0x0f, 0x6f, 0x4c, 0x24, 0x30, 0xf3, 0x0f, 0x6f,
        0x54, 0x24, 0x40, 0xf3, 0x0f, 0x6f, 0x5c, 0x24, 0x50, 0xf3, 0x0f, 0x6f, 0x64, 0x24, 0x60,
        0xf3, 0x0f, 0x6f, 0x6c, 0x24, 0x70,
    ];
    assert(part.subrange(0, 36) =~= c0);
    lemma_part_stands(code, o, part, 0, c0);
    assert(c0[0] == 0xf3);
    assert(c0[1] == 0x0f);
    assert(c0[2] == 0x6f);
    assert(c0[3] == 0x44);
    assert(c0[4] == 0x24);
    assert(c0[5] == 0x20);
    assert(c0[6] == 0xf3);
    assert(c0[7] == 0x0f);
    assert(c0[8] == 0x6f);
    assert(c0[9] == 0x4c);
    assert(c0[10] == 0x24);
    assert(c0[11] == 0x30);
    assert(c0[12] == 0xf3);
    assert(c0[13] == 0x0f);
    assert(c0[14] == 0x6f);
    assert(c0[15] == 0x54);
    assert(c0[16] == 0x24);
    assert(c0[17] == 0x40);
    assert(c0[18] == 0xf3);
    assert(c0[19] == 0x0f);
    assert(c0[20] == 0x6f);
    assert(c0[21] == 0x5c);
    assert(c0[22] == 0x24);
    assert(c0[23] == 0x50);
    assert(c0[24] == 0xf3);
    assert(c0[25] == 0x0f);
    assert(c0[26] == 0x6f);
    assert(c0[27] == 0x64);
    assert(c0[28] == 0x24);
    assert(c0[29] == 0x60);
    assert(c0[30] == 0xf3);
    assert(c0[31] == 0x0f);
    assert(c0[32] == 0x6f);
    assert(c0[33] == 0x6c);
    assert(c0[34] == 0x24);
    assert(c0[35] == 0x70);
    let c1 = seq![
        0x48u8, 0x81, 0xc4, 0x80, 0x00, 0x00, 0x00, 0x41, 0x5b, 0x41, 0x5a, 0x41, 0x59, 0x41, 0x58,
        0x5a, 0x59, 0x58, 0x50, 0x48, 0xb8,
    ];
    assert(part.subrange(36, 57) =~= c1);
    lemma_part_stands(code, o, part, 36, c1);
    assert(c1[0] == 0x48);
    assert(c1[1] == 0x81);
    assert(c1[2] == 0xc4);
    assert(c1[3] == 0x80);
    assert(c1[4] == 0x00);
    assert(c1[5] == 0x00);
    assert(c1[6] == 0x00);
    assert(c1[7] == 0x41);
    assert(c1[8] == 0x5b);
    assert(c1[9] == 0x41);
    assert(c1[10] == 0x5a);
    assert(c1[11] == 0x41);
    assert(c1[12] == 0x59);
    assert(c1[13] == 0x41);
    assert(c1[14] == 0x58);
    assert(c1[15] == 0x5a);
    assert(c1[16] == 0x59);
    assert(c1[17] == 0x58);
    assert(c1[18] == 0x50);
    assert(c1[19] == 0x48);
    assert(c1[20] == 0xb8);
    assert(part.subrange(57, 65) =~= le_bytes((flag) as nat, 8));
    lemma_part_stands(code, o, part, 57, le_bytes((flag) as nat, 8));
    lemma_eight(code, o + 57, (flag) as nat);
    let c3 = seq![0xc6u8, 0x00, 0x00, 0x58, 0x9d, 0xe9];
    assert(part.subrange(65, 71) =~= c3);
    lemma_part_stands(code, o, part, 65, c3);
    assert(c3[0] == 0xc6);
    assert(c3[1] == 0x00);
    assert(c3[2] == 0x00);
    assert(c3[3] == 0x58);
    assert(c3[4] == 0x9d);
    assert(c3[5] == 0xe9);
    let c4 = seq![0x04u8, 0x00, 0x00, 0x00];
    assert(part.subrange(71, 75) =~= c4);
    lemma_part_stands(code, o, part, 71, c4);
    assert(c4[0] == 0x04);
    assert(c4[1] == 0x00);
    assert(c4[2] == 0x00);
    assert(c4[3] == 0x00);
    let c5 = seq![0x5au8, 0x59, 0x58, 0x9d];
    assert(part.subrange(75, 79) =~= c5);
    lemma_part_stands(code, o, part, 75, c5);
    assert(c5[0] == 0x5a);
    assert(c5[1] == 0x59);
    assert(c5[2] == 0x58);
    assert(c5[3] == 0x9d);
}

#[verifier::spinoff_prover]
#[verifier::rlimit(100)]
proof fn lemma_claim_sets_out(
    code: Seq<u8>,
    base: int,
    o: int,
    from: Cpu,
    cpu: Cpu,
    flag: usize,
) -> (end: Cpu)
    requires
        reaches(code, base, from, cpu),
        cpu.sound(),
        cpu.ip == base + o + 0,
        entry_holds(code, o, flag),
    ensures
        reaches(code, base, from, end),
        end.ip == base + o + 14,
        end.stack == cpu.stack.push(cpu.flags).push(
            cpu.regs[0],
        ).push(cpu.regs[1]).push(cpu.regs[2]),
        end.regs == cpu.regs.update(2, flag as nat),
        end.sound(),
        end.vectors == cpu.vectors,
        end.memory == cpu.memory,
{
    reveal(entry_holds);
    lemma_pow256();
    lemma_branch(code, o + 0);
    let s0 = lemma_next(code, base, from, cpu, Inst::PushFlags, 1);
    lemma_push(code, o + 1, 0);
    let s1 = lemma_next(code, base, from, s0, Inst::Push { n: 0 }, 1);
    lemma_push(code, o + 2, 1);
    let s2 = lemma_next(code, base, from, s1, Inst::Push { n: 1 }, 1);
    lemma_push(code, o + 3, 2);
    let s3 = lemma_next(code, base, from, s2, Inst::Push { n: 2 }, 1);
    lemma_set64(code, o + 4, 2);
    let s4 = lemma_next(
        code,
        base,
        from,
        s3,
        Inst::Move {
            to: Operand::Reg { n: 2 },
            from: Operand::Imm { value: (flag) as nat },
            size: 8,
        },
        10,
    );
    s4
}

#[verifier::spinoff_prover]
#[verifier::rlimit(100)]
proof fn lemma_claim_decides(
    code: Seq<u8>,
    base: int,
    o: int,
    from: Cpu,
    cpu: Cpu,
    flag: usize,
) -> (end: Cpu)
    requires
        reaches(code, base, from, cpu),
        cpu.sound(),
        cpu.ip == base + o + 14,
        entry_holds(code, o, flag),
        cpu.regs[2] == flag,
    ensures
        reaches(code, base, from, end),
        end.ip == if (cpu.memory)(flag as int) == 1 { base + o + 28 } else { base + o + 201 },
        end.stack == cpu.stack,
        forall|n: int| 2 <= n < 16 ==> #[trigger] end.regs[n] == cpu.regs[n],
        end.sound(),
        end.vectors == cpu.vectors,
        end.memory == if (cpu.memory)(flag as int) == 1 {
            put(cpu.memory, flag as int, seq![2u8])
        } else {
            cpu.memory
        },
{
    reveal(entry_holds);
    lemma_pow256();
    lemma_set8(code, o + 14, 0);
    let s5 = lemma_next(
        code,
        base,
        from,
        cpu,
        Inst::Move { to: Operand::Reg { n: 0 }, from: Operand::Imm { value: 1 }, size: 1 },
        2,
    );
    lemma_low_byte(cpu.regs[0], 1);
    lemma_set8(code, o + 16, 1);
    let s6 = lemma_next(
        code,
        base,
        from,
        s5,
        Inst::Move { to: Operand::Reg { n: 1 }, from: Operand::Imm { value: 2 }, size: 1 },
        2,
    );
    lemma_low_byte(s5.regs[1], 2);
    assert(s6.regs[2] == flag && s6.regs[0] % 256 == 1 && s6.regs[1] % 256 == 2);
    lemma_held_byte(cpu.memory, flag as int);
    lemma_is_based(code, o + 21, 0, 0);
    lemma_exchange(code, o + 18, Operand::Mem { place: Place::Based { base: 2, reach: 0 } }, 1);
    let s7 = lemma_next(
        code,
        base,
        from,
        s6,
        Inst::CompareExchange {
            to: Operand::Mem { place: Place::Based { base: 2, reach: 0 } },
            n: 1,
        },
        4,
    );
    assert(le_bytes(2, 1) =~= seq![2u8]) by {
        reveal_with_fuel(le_bytes, 2);
    }
    assert(is_zero(s7) <==> (cpu.memory)(flag as int) == 1);
    lemma_four(code, o + 24);
    lemma_branch(code, o + 22);
    let s8 = lemma_next(code, base, from, s7, Inst::Branch { condition: 5, reach: 173 }, 6);
    s8
}

proof fn lemma_claim_runs(
    code: Seq<u8>,
    base: int,
    o: int,
    from: Cpu,
    cpu: Cpu,
    flag: usize,
) -> (end: Cpu)
    requires
        reaches(code, base, from, cpu),
        cpu.sound(),
        cpu.ip == base + o,
        entry_holds(code, o, flag),
    ensures
        reaches(code, base, from, end),
        end.ip == if (cpu.memory)(flag as int) == 1 { base + o + 28 } else { base + o + 201 },
        end.stack == cpu.stack.push(cpu.flags).push(
            cpu.regs[0],
        ).push(cpu.regs[1]).push(cpu.regs[2]),
        forall|n: int| 3 <= n < 16 ==> #[trigger] end.regs[n] == cpu.regs[n],
        end.sound(),
        end.vectors == cpu.vectors,
        end.memory == if (cpu.memory)(flag as int) == 1 {
            put(cpu.memory, flag as int, seq![2u8])
        } else {
            cpu.memory
        },
{
    let a = lemma_claim_sets_out(code, base, o, from, cpu, flag);
    lemma_claim_decides(code, base, o, from, a, flag)
}

#[verifier::spinoff_prover]
#[verifier::rlimit(100)]
proof fn lemma_saves_again(
    code: Seq<u8>,
    base: int,
    o: int,
    from: Cpu,
    cpu: Cpu,
    flag: usize,
) -> (end: Cpu)
    requires
        reaches(code, base, from, cpu),
        cpu.sound(),
        cpu.ip == base + o + 28,
        entry_holds(code, o, flag),
        cpu.stack.len() >= 4,
        cpu.stack[cpu.stack.len() - 1] < 0x1_0000_0000_0000_0000,
        cpu.stack[cpu.stack.len() - 2] < 0x1_0000_0000_0000_0000,
        cpu.stack[cpu.stack.len() - 3] < 0x1_0000_0000_0000_0000,
    ensures
        reaches(code, base, from, end),
        end.ip == base + o + 34,
        end.memory == cpu.memory,
        end.vectors == cpu.vectors,
        end.sound(),
        end.stack == cpu.stack,
        forall|n: int| 3 <= n < 16 ==> #[trigger] end.regs[n] == cpu.regs[n],
{
    reveal(entry_holds);
    lemma_pop(code, o + 28, 2);
    let s9 = lemma_next(code, base, from, cpu, Inst::Pop { n: 2 }, 1);
    lemma_pop(code, o + 29, 1);
    let s10 = lemma_next(code, base, from, s9, Inst::Pop { n: 1 }, 1);
    lemma_pop(code, o + 30, 0);
    let s11 = lemma_next(code, base, from, s10, Inst::Pop { n: 0 }, 1);
    lemma_push(code, o + 31, 0);
    let s12 = lemma_next(code, base, from, s11, Inst::Push { n: 0 }, 1);
    lemma_push(code, o + 32, 1);
    let s13 = lemma_next(code, base, from, s12, Inst::Push { n: 1 }, 1);
    lemma_push(code, o + 33, 2);
    let s14 = lemma_next(code, base, from, s13, Inst::Push { n: 2 }, 1);
    assert(s14.stack =~= cpu.stack);
    s14
}

#[verifier::spinoff_prover]
#[verifier::rlimit(100)]
proof fn lemma_saves_more(
    code: Seq<u8>,
    base: int,
    o: int,
    from: Cpu,
    cpu: Cpu,
    flag: usize,
) -> (end: Cpu)
    requires
        reaches(code, base, from, cpu),
        cpu.sound(),
        cpu.ip == base + o + 34,
        entry_holds(code, o, flag),
    ensures
        reaches(code, base, from, end),
        end.ip == base + o + 49,
        end.memory == cpu.memory,
        end.vectors == cpu.vectors,
        end.sound(),
        end.stack.len() == cpu.stack.len() + 20,
        end.stack.take(cpu.stack.len() as int) == cpu.stack,
        end.stack[cpu.stack.len() as int] == cpu.regs[8],
        end.stack[cpu.stack.len() as int + 1] == cpu.regs[9],
        end.stack[cpu.stack.len() as int + 2] == cpu.regs[10],
        end.stack[cpu.stack.len() as int + 3] == cpu.regs[11],
        forall|n: int| 3 <= n < 16 ==> #[trigger] end.regs[n] == cpu.regs[n],
{
    reveal(entry_holds);
    lemma_pow256();
    lemma_push(code, o + 34, 8);
    let s15 = lemma_next(code, base, from, cpu, Inst::Push { n: 8 }, 2);
    lemma_push(code, o + 36, 9);
    let s16 = lemma_next(code, base, from, s15, Inst::Push { n: 9 }, 2);
    lemma_push(code, o + 38, 10);
    let s17 = lemma_next(code, base, from, s16, Inst::Push { n: 10 }, 2);
    lemma_push(code, o + 40, 11);
    let s18 = lemma_next(code, base, from, s17, Inst::Push { n: 11 }, 2);
    lemma_four(code, o + 45);
    lemma_room(code, o + 42);
    let s19 = lemma_next(code, base, from, s18, Inst::Grow { words: 16 }, 7);
    assert(s19.stack.take(cpu.stack.len() as int) =~= cpu.stack);
    s19
}

#[verifier::spinoff_prover]
#[verifier::rlimit(100)]
proof fn lemma_saves_vectors(
    code: Seq<u8>,
    base: int,
    o: int,
    from: Cpu,
    cpu: Cpu,
    flag: usize,
) -> (end: Cpu)
    requires
        reaches(code, base, from, cpu),
        cpu.sound(),
        cpu.ip == base + o + 49,
        entry_holds(code, o, flag),
        cpu.stack.len() >= 24,
    ensures
        reaches(code, base, from, end),
        end.ip == base + o + 85,
        end.memory == cpu.memory,
        end.vectors == cpu.vectors,
        end.sound(),
        end.stack.len() == cpu.stack.len(),
        end.stack.take(cpu.stack.len() - 16) == cpu.stack.take(cpu.stack.len() - 16),
        vectors_kept(end.stack, cpu.vectors),
        end.regs == cpu.regs,
{
    reveal(entry_holds);
    lemma_vector(code, o + 49);
    let s20 = lemma_next(code, base, from, cpu, Inst::SaveVector { n: 0, word: 4 }, 6);
    lemma_vector(code, o + 55);
    let s21 = lemma_next(code, base, from, s20, Inst::SaveVector { n: 1, word: 6 }, 6);
    lemma_vector(code, o + 61);
    let s22 = lemma_next(code, base, from, s21, Inst::SaveVector { n: 2, word: 8 }, 6);
    lemma_vector(code, o + 67);
    let s23 = lemma_next(code, base, from, s22, Inst::SaveVector { n: 3, word: 10 }, 6);
    lemma_vector(code, o + 73);
    let s24 = lemma_next(code, base, from, s23, Inst::SaveVector { n: 4, word: 12 }, 6);
    lemma_vector(code, o + 79);
    let s25 = lemma_next(code, base, from, s24, Inst::SaveVector { n: 5, word: 14 }, 6);
    assert(s25.stack.take(cpu.stack.len() - 16) =~= cpu.stack.take(cpu.stack.len() - 16));
    s25
}

#[verifier::spinoff_prover]
#[verifier::rlimit(100)]
proof fn lemma_saves_run(
    code: Seq<u8>,
    base: int,
    o: int,
    from: Cpu,
    cpu: Cpu,
    flag: usize,
) -> (end: Cpu)
    requires
        reaches(code, base, from, cpu),
        cpu.sound(),
        cpu.ip == base + o + 28,
        entry_holds(code, o, flag),
        cpu.stack.len() >= 4,
        cpu.stack[cpu.stack.len() - 1] < 0x1_0000_0000_0000_0000,
        cpu.stack[cpu.stack.len() - 2] < 0x1_0000_0000_0000_0000,
        cpu.stack[cpu.stack.len() - 3] < 0x1_0000_0000_0000_0000,
    ensures
        reaches(code, base, from, end),
        end.ip == base + o + 85,
        end.memory == cpu.memory,
        end.vectors == cpu.vectors,
        end.sound(),
        end.stack.len() == cpu.stack.len() + 20,
        end.stack.take(cpu.stack.len() as int) == cpu.stack,
        end.stack[cpu.stack.len() as int] == cpu.regs[8],
        end.stack[cpu.stack.len() as int + 1] == cpu.regs[9],
        end.stack[cpu.stack.len() as int + 2] == cpu.regs[10],
        end.stack[cpu.stack.len() as int + 3] == cpu.regs[11],
        vectors_kept(end.stack, cpu.vectors),
        forall|n: int| 3 <= n < 16 ==> #[trigger] end.regs[n] == cpu.regs[n],
{
    let again = lemma_saves_again(code, base, o, from, cpu, flag);
    let more = lemma_saves_more(code, base, o, from, again, flag);
    let end = lemma_saves_vectors(code, base, o, from, more, flag);
    let n = cpu.stack.len() as int;
    assert forall|i: int| 0 <= i < n + 4 implies end.stack[i] == more.stack[i] by {
        assert(end.stack.take(n + 4)[i] == more.stack.take(n + 4)[i]);
    }
    assert(end.stack.take(n) =~= more.stack.take(n));
    end
}

#[verifier::spinoff_prover]
#[verifier::rlimit(100)]
proof fn lemma_call_sets_out(
    code: Seq<u8>,
    base: int,
    o: int,
    from: Cpu,
    cpu: Cpu,
    structure: usize,
    client: usize,
    function: usize,
) -> (end: Cpu)
    requires
        reaches(code, base, from, cpu),
        cpu.sound(),
        cpu.ip == base + o + 0,
        call_holds(code, o, structure, client, function),
    ensures
        reaches(code, base, from, end),
        end.sound(),
        end.ip == base + o + 16,
        end.regs[2] == structure,
        end.regs[8] == 0,
        end.regs[9] % 256 == 1,
        end.memory == cpu.memory,
        end.stack == cpu.stack,
        end.vectors == cpu.vectors,
        forall|n: int| 3 <= n < 8 || 10 <= n < 16 ==> #[trigger] end.regs[n] == cpu.regs[n],
{
    reveal(call_holds);
    lemma_pow256();
    lemma_set8(code, o + 0, 9);
    let s0 = lemma_next(
        code,
        base,
        from,
        cpu,
        Inst::Move { to: Operand::Reg { n: 9 }, from: Operand::Imm { value: 1 }, size: 1 },
        3,
    );
    lemma_low_byte(cpu.regs[9], 1);
    lemma_is_reg(code, o + 5, 0, 1);
    lemma_high(code, o + 3, Operand::Reg { n: 8 }, 1);
    let s1 = lemma_next(
        code,
        base,
        from,
        s0,
        Inst::Xor { to: Operand::Reg { n: 8 }, from: Operand::Reg { n: 8 }, size: 4 },
        3,
    );
    assert(s1.regs[8] == 0 && s1.regs[9] % 256 == 1);
    lemma_set64(code, o + 6, 2);
    let s2 = lemma_next(
        code,
        base,
        from,
        s1,
        Inst::Move {
            to: Operand::Reg { n: 2 },
            from: Operand::Imm { value: (structure) as nat },
            size: 8,
        },
        10,
    );
    assert(s2.regs[2] == structure);
    s2
}

#[verifier::spinoff_prover]
#[verifier::rlimit(100)]
proof fn lemma_call_runs(
    code: Seq<u8>,
    base: int,
    o: int,
    from: Cpu,
    cpu: Cpu,
    structure: usize,
    client: usize,
    function: usize,
) -> (end: Cpu)
    requires
        reaches(code, base, from, cpu),
        cpu.sound(),
        cpu.ip == base + o + 0,
        call_holds(code, o, structure, client, function),
    ensures
        reaches(code, base, from, end),
        end.ip == base + o + 39,
        decode(code, o + 39) == Some((Inst::Call { target: Operand::Reg { n: 0 } }, 2int)),
        end.regs[0] == function,
        end.regs[1] == held(cpu.memory, client as int, 8),
        end.regs[2] == structure,
        end.regs[8] == 0,
        end.regs[9] % 256 == 1,
        end.memory == cpu.memory,
        end.stack == cpu.stack,
        end.vectors == cpu.vectors,
        forall|n: int| 3 <= n < 8 || 10 <= n < 16 ==> #[trigger] end.regs[n] == cpu.regs[n],
{
    let s2 = lemma_call_sets_out(code, base, o, from, cpu, structure, client, function);
    reveal(call_holds);
    lemma_pow256();
    lemma_set64(code, o + 16, 0);
    let s3 = lemma_next(
        code,
        base,
        from,
        s2,
        Inst::Move {
            to: Operand::Reg { n: 0 },
            from: Operand::Imm { value: (client) as nat },
            size: 8,
        },
        10,
    );
    assert(s3.regs[0] == client);
    lemma_held_bound(cpu.memory, client as int, 8);
    lemma_is_based(code, o + 28, 0, 0);
    lemma_wide(code, o + 26, Operand::Mem { place: Place::Based { base: 0, reach: 0 } }, 1);
    let s4 = lemma_next(
        code,
        base,
        from,
        s3,
        Inst::Move {
            to: Operand::Reg { n: 1 },
            from: Operand::Mem { place: Place::Based { base: 0, reach: 0 } },
            size: 8,
        },
        3,
    );
    assert(s4.regs[1] == held(cpu.memory, client as int, 8));
    lemma_set64(code, o + 29, 0);
    let s5 = lemma_next(
        code,
        base,
        from,
        s4,
        Inst::Move {
            to: Operand::Reg { n: 0 },
            from: Operand::Imm { value: (function) as nat },
            size: 8,
        },
        10,
    );
    lemma_is_reg(code, o + 40, 0, 0);
    lemma_plain(code, o + 39, Operand::Reg { n: 0 }, 1);
    s5
}

#[verifier::spinoff_prover]
#[verifier::rlimit(100)]
proof fn lemma_vectors_return(
    code: Seq<u8>,
    base: int,
    o: int,
    from: Cpu,
    cpu: Cpu,
    flag: usize,
) -> (end: Cpu)
    requires
        reaches(code, base, from, cpu),
        cpu.sound(),
        cpu.ip == base + o + 0,
        exit_holds(code, o, flag),
        cpu.stack.len() >= 24,
    ensures
        reaches(code, base, from, end),
        end.ip == base + o + 43,
        end.regs == cpu.regs,
        end.vectors.len() == 16,
        vectors_kept(cpu.stack, end.vectors),
        forall|n: int| 6 <= n < 16 ==> #[trigger] end.vectors[n] == cpu.vectors[n],
        end.stack == cpu.stack.take(cpu.stack.len() - 16),
        end.memory == cpu.memory,
{
    reveal(exit_holds);
    lemma_pow256();
    lemma_vector(code, o + 0);
    let s0 = lemma_next(code, base, from, cpu, Inst::LoadVector { n: 0, word: 4 }, 6);
    lemma_vector(code, o + 6);
    let s1 = lemma_next(code, base, from, s0, Inst::LoadVector { n: 1, word: 6 }, 6);
    lemma_vector(code, o + 12);
    let s2 = lemma_next(code, base, from, s1, Inst::LoadVector { n: 2, word: 8 }, 6);
    lemma_vector(code, o + 18);
    let s3 = lemma_next(code, base, from, s2, Inst::LoadVector { n: 3, word: 10 }, 6);
    lemma_vector(code, o + 24);
    let s4 = lemma_next(code, base, from, s3, Inst::LoadVector { n: 4, word: 12 }, 6);
    lemma_vector(code, o + 30);
    let s5 = lemma_next(code, base, from, s4, Inst::LoadVector { n: 5, word: 14 }, 6);
    lemma_four(code, o + 39);
    lemma_room(code, o + 36);
    let s6 = lemma_next(code, base, from, s5, Inst::Shrink { words: 16 }, 7);
    s6
}

#[verifier::spinoff_prover]
#[verifier::rlimit(100)]
proof fn lemma_registers_return(
    code: Seq<u8>,
    base: int,
    o: int,
    from: Cpu,
    cpu: Cpu,
    flag: usize,
) -> (end: Cpu)
    requires
        reaches(code, base, from, cpu),
        cpu.sound(),
        cpu.ip == base + o + 43,
        exit_holds(code, o, flag),
        cpu.stack.len() >= 8,
    ensures
        reaches(code, base, from, end),
        end.ip == base + o + 54,
        end.regs[0] == cpu.stack[cpu.stack.len() - 7],
        end.regs[1] == cpu.stack[cpu.stack.len() - 6],
        end.regs[2] == cpu.stack[cpu.stack.len() - 5],
        end.regs[8] == cpu.stack[cpu.stack.len() - 4],
        end.regs[9] == cpu.stack[cpu.stack.len() - 3],
        end.regs[10] == cpu.stack[cpu.stack.len() - 2],
        end.regs[11] == cpu.stack[cpu.stack.len() - 1],
        forall|n: int| 3 <= n < 8 || 12 <= n < 16 ==> #[trigger] end.regs[n] == cpu.regs[n],
        end.regs.len() == 16,
        end.vectors == cpu.vectors,
        end.stack == cpu.stack.take(cpu.stack.len() - 7),
        end.memory == cpu.memory,
{
    reveal(exit_holds);
    lemma_pow256();
    lemma_pop(code, o + 43, 11);
    let s7 = lemma_next(code, base, from, cpu, Inst::Pop { n: 11 }, 2);
    lemma_pop(code, o + 45, 10);
    let s8 = lemma_next(code, base, from, s7, Inst::Pop { n: 10 }, 2);
    lemma_pop(code, o + 47, 9);
    let s9 = lemma_next(code, base, from, s8, Inst::Pop { n: 9 }, 2);
    lemma_pop(code, o + 49, 8);
    let s10 = lemma_next(code, base, from, s9, Inst::Pop { n: 8 }, 2);
    lemma_pop(code, o + 51, 2);
    let s11 = lemma_next(code, base, from, s10, Inst::Pop { n: 2 }, 1);
    lemma_pop(code, o + 52, 1);
    let s12 = lemma_next(code, base, from, s11, Inst::Pop { n: 1 }, 1);
    lemma_pop(code, o + 53, 0);
    let s13 = lemma_next(code, base, from, s12, Inst::Pop { n: 0 }, 1);
    assert(s13.stack =~= cpu.stack.take(cpu.stack.len() - 7));
    s13
}

#[verifier::spinoff_prover]
#[verifier::rlimit(100)]
proof fn lemma_flag_clears(
    code: Seq<u8>,
    base: int,
    o: int,
    from: Cpu,
    cpu: Cpu,
    flag: usize,
) -> (end: Cpu)
    requires
        reaches(code, base, from, cpu),
        cpu.regs.len() == 16,
        cpu.ip == base + o + 54,
        exit_holds(code, o, flag),
        cpu.stack.len() >= 1,
    ensures
        reaches(code, base, from, end),
        end.ip == base + o + 79,
        end.flags == cpu.stack.last(),
        end.regs == cpu.regs,
        end.vectors == cpu.vectors,
        end.stack == cpu.stack.drop_last(),
        end.memory == put(cpu.memory, flag as int, seq![0u8]),
{
    reveal(exit_holds);
    lemma_pow256();
    lemma_push(code, o + 54, 0);
    let s14 = lemma_next(code, base, from, cpu, Inst::Push { n: 0 }, 1);
    lemma_set64(code, o + 55, 0);
    let s15 = lemma_next(
        code,
        base,
        from,
        s14,
        Inst::Move {
            to: Operand::Reg { n: 0 },
            from: Operand::Imm { value: (flag) as nat },
            size: 8,
        },
        10,
    );
    assert(s15.regs[0] == flag);
    lemma_is_based(code, o + 66, 0, 0);
    lemma_plain(code, o + 65, Operand::Mem { place: Place::Based { base: 0, reach: 0 } }, 1);
    let s16 = lemma_next(
        code,
        base,
        from,
        s15,
        Inst::Move {
            to: Operand::Mem { place: Place::Based { base: 0, reach: 0 } },
            from: Operand::Imm { value: 0 },
            size: 1,
        },
        3,
    );
    assert(le_bytes(0, 1) =~= seq![0u8]) by {
        reveal_with_fuel(le_bytes, 2);
    }
    lemma_pop(code, o + 68, 0);
    let s17 = lemma_next(code, base, from, s16, Inst::Pop { n: 0 }, 1);
    assert(s17.regs =~= cpu.regs);
    assert(s17.stack =~= cpu.stack);
    lemma_branch(code, o + 69);
    let s18 = lemma_next(code, base, from, s17, Inst::PopFlags, 1);
    lemma_four(code, o + 71);
    lemma_branch(code, o + 70);
    let s19 = lemma_next(code, base, from, s18, Inst::Jump { reach: 4 }, 5);
    s19
}

#[verifier::spinoff_prover]
#[verifier::rlimit(100)]
proof fn lemma_passes_run(
    code: Seq<u8>,
    base: int,
    o: int,
    from: Cpu,
    cpu: Cpu,
    flag: usize,
) -> (end: Cpu)
    requires
        reaches(code, base, from, cpu),
        cpu.sound(),
        cpu.ip == base + o + 75,
        exit_holds(code, o, flag),
        cpu.stack.len() >= 4,
    ensures
        reaches(code, base, from, end),
        end.ip == base + o + 79,
        end.flags == cpu.stack[cpu.stack.len() - 4],
        end.regs[0] == cpu.stack[cpu.stack.len() - 3],
        end.regs[1] == cpu.stack[cpu.stack.len() - 2],
        end.regs[2] == cpu.stack[cpu.stack.len() - 1],
        forall|n: int| 3 <= n < 16 ==> #[trigger] end.regs[n] == cpu.regs[n],
        end.regs.len() == 16,
        end.stack == cpu.stack.take(cpu.stack.len() - 4),
        end.vectors == cpu.vectors,
        end.memory == cpu.memory,
{
    reveal(exit_holds);
    lemma_pow256();
    lemma_pop(code, o + 75, 2);
    let s20 = lemma_next(code, base, from, cpu, Inst::Pop { n: 2 }, 1);
    lemma_pop(code, o + 76, 1);
    let s21 = lemma_next(code, base, from, s20, Inst::Pop { n: 1 }, 1);
    lemma_pop(code, o + 77, 0);
    let s22 = lemma_next(code, base, from, s21, Inst::Pop { n: 0 }, 1);
    lemma_branch(code, o + 78);
    let s23 = lemma_next(code, base, from, s22, Inst::PopFlags, 1);
    assert(s23.stack =~= cpu.stack.take(cpu.stack.len() - 4));
    s23
}

proof fn lemma_login_stands(
    block: usize,
    flag: usize,
    structure: usize,
    client: usize,
    function: usize,
    original: Seq<u8>,
    back: usize,
    code: Seq<u8>,
)
    requires
        login_code_bytes(block, flag, structure, client, function, original, back) == Ok::<
            Seq<u8>,
            Failure,
        >(code),
    ensures
        entry_holds(code, 0, flag),
        call_holds(code, 85, structure, client, function),
        exit_holds(code, 126, flag),
{
    let head = login_head(flag, structure, client, function);
    lemma_login_head_len(flag, structure, client, function);
    assert(stands(code, 0, head)) by {
        assert(code.subrange(0, head.len() as int) =~= head);
    }
    assert(head.subrange(0, 85) =~= login_entry(flag));
    assert(head.subrange(85, 126) =~= login_call(structure, client, function));
    assert(head.subrange(126, 205) =~= login_exit(flag));
    lemma_part_stands(code, 0, head, 0, login_entry(flag));
    lemma_part_stands(code, 0, head, 85, login_call(structure, client, function));
    lemma_part_stands(code, 0, head, 126, login_exit(flag));
    lemma_entry_holds(code, 0, flag);
    lemma_call_holds(code, 85, structure, client, function);
    lemma_exit_holds(code, 126, flag);
}

/// The thread that finds the flag at one sets it to two and calls the function of the
/// dispatcher: on the client that the client pointer leads to, with the command's string,
/// no third argument and a fourth of one. What the function may change has been saved.
pub proof fn logins_call_the_dispatcher_on_the_client(
    block: usize,
    flag: usize,
    structure: usize,
    client: usize,
    function: usize,
    original: Seq<u8>,
    back: usize,
    code: Seq<u8>,
    cpu: Cpu,
)
    requires
        login_code_bytes(block, flag, structure, client, function, original, back) == Ok::<
            Seq<u8>,
            Failure,
        >(code),
        cpu.sound(),
        cpu.ip == block,
        (cpu.memory)(flag as int) == 1,
        flag < client || client + 8 <= flag,
    ensures
        exists|at: Cpu|
            {
                &&& #[trigger] reaches(code, block as int, cpu, at)
                &&& at.ip == block + 124
                &&& decode(code, at.ip - block) == Some(
                    (Inst::Call { target: Operand::Reg { n: 0 } }, 2int),
                )
                &&& at.regs[0] == function
                &&& at.regs[1] == held(cpu.memory, client as int, 8)
                &&& at.regs[2] == structure
                &&& at.regs[8] == 0
                &&& at.regs[9] % 256 == 1
                &&& forall|n: int| 3 <= n < 8 || 10 <= n < 16 ==> #[trigger] at.regs[n] == cpu.regs[n]
                &&& at.memory == put(cpu.memory, flag as int, seq![2u8])
                &&& saved(at.stack, cpu)
            },
{
    let base = block as int;
    lemma_login_stands(block, flag, structure, client, function, original, back, code);
    lemma_stays(code, base, cpu);
    let a = lemma_claim_runs(code, base, 0, cpu, cpu, flag);
    let b = lemma_saves_run(code, base, 0, cpu, a, flag);
    let c = lemma_call_runs(code, base, 85, cpu, b, structure, client, function);
    lemma_put(cpu.memory, flag as int, seq![2u8]);
    assert(load(a.memory, client as int, 8) == load(cpu.memory, client as int, 8));
    let n = cpu.stack.len() as int;
    assert(c.stack.take(n) =~= cpu.stack) by {
        assert(c.stack.take(n + 4).take(n) =~= c.stack.take(n));
        assert(a.stack.take(n) =~= cpu.stack);
    }
    assert(c.stack[n] == c.stack.take(n + 4)[n]);
    assert(c.stack[n + 1] == c.stack.take(n + 4)[n + 1]);
    assert(c.stack[n + 2] == c.stack.take(n + 4)[n + 2]);
    assert(c.stack[n + 3] == c.stack.take(n + 4)[n + 3]);
    assert(saved(c.stack, cpu));
}

/// A thread that comes back from the dispatcher, with what was saved still on the stack,
/// clears the flag and reaches the code that the login took the place of with every
/// register that was saved, the vectors, the status word and the stack as they were before.
pub proof fn logins_end_as_they_began(
    block: usize,
    flag: usize,
    structure: usize,
    client: usize,
    function: usize,
    original: Seq<u8>,
    back: usize,
    code: Seq<u8>,
    cpu: Cpu,
    returned: Cpu,
)
    requires
        login_code_bytes(block, flag, structure, client, function, original, back) == Ok::<
            Seq<u8>,
            Failure,
        >(code),
        returned.sound(),
        returned.ip == block + 126,
        saved(returned.stack, cpu),
    ensures
        exists|end: Cpu|
            {
                &&& #[trigger] reaches(code, block as int, returned, end)
                &&& end.ip == block + 205
                &&& end.flags == cpu.flags
                &&& forall|n: int|
                    0 <= n < 3 || 8 <= n < 12 ==> #[trigger] end.regs[n] == cpu.regs[n]
                &&& forall|n: int|
                    3 <= n < 8 || 12 <= n < 16 ==> #[trigger] end.regs[n] == returned.regs[n]
                &&& forall|n: int| 0 <= n < 6 ==> #[trigger] end.vectors[n] == cpu.vectors[n]
                &&& end.stack == cpu.stack
                &&& end.memory == put(returned.memory, flag as int, seq![0u8])
            },
{
    let base = block as int;
    lemma_login_stands(block, flag, structure, client, function, original, back, code);
    lemma_stays(code, base, returned);
    let a = lemma_vectors_return(code, base, 126, returned, returned, flag);
    let b = lemma_registers_return(code, base, 126, returned, a, flag);
    let end = lemma_flag_clears(code, base, 126, returned, b, flag);
    let n = cpu.stack.len() as int;
    assert(end.stack =~= returned.stack.take(n));
}

/// A thread that does not find the flag at one goes on with the code that the login took
/// the place of, and nothing has changed.
pub proof fn other_threads_pass_a_login(
    block: usize,
    flag: usize,
    structure: usize,
    client: usize,
    function: usize,
    original: Seq<u8>,
    back: usize,
    code: Seq<u8>,
    cpu: Cpu,
)
    requires
        login_code_bytes(block, flag, structure, client, function, original, back) == Ok::<
            Seq<u8>,
            Failure,
        >(code),
        cpu.sound(),
        cpu.ip == block,
        (cpu.memory)(flag as int) != 1,
    ensures
        exists|end: Cpu|
            {
                &&& #[trigger] reaches(code, block as int, cpu, end)
                &&& end.ip == block + 205
                &&& end.regs == cpu.regs
                &&& end.vectors == cpu.vectors
                &&& end.stack == cpu.stack
                &&& end.memory == cpu.memory
                &&& end.flags == cpu.flags
            },
{
    let base = block as int;
    lemma_login_stands(block, flag, structure, client, function, original, back, code);
    lemma_stays(code, base, cpu);
    let a = lemma_claim_runs(code, base, 0, cpu, cpu, flag);
    let end = lemma_passes_run(code, base, 126, cpu, a, flag);
    assert(end.regs =~= cpu.regs);
    assert(end.stack =~= cpu.stack);
}


/// The game's own code calls the dispatcher on the client that a pointer near it leads to.
/// The site of a login names that pointer and that function, and the code that a hook takes
/// the place of, where the module holds them: once each.
pub proof fn logins_call_what_the_game_calls(bytes: Seq<u8>, base: usize, sites: Sites)
    requires
        first_sites(bytes, base) == Ok::<Sites, Failure>(sites),
        bytes.len() <= usize::MAX,
    ensures
        exists|login: int, hook: int|
            {
                &&& #[trigger] calls_the_dispatcher(bytes, login)
                &&& forall|other: int| #[trigger]
                    calls_the_dispatcher(bytes, other) ==> other == login
                &&& sites.client == base + login + 17 + reach32(bytes, login + 13)
                &&& sites.function == base + login + 22 + reach32(bytes, login + 18)
                &&& #[trigger] takes_a_hook(bytes, hook)
                &&& forall|other: int| #[trigger] takes_a_hook(bytes, other) ==> other == hook
                &&& sites.hook == base + hook
                &&& sites.original == bytes.subrange(hook, hook + 7)
            },
{
    let (login, hook) = login_places(bytes)->Ok_0;
    lemma_login_pattern(bytes);
    lemma_hook_pattern(bytes);
    lemma_only_place(bytes, login_bytes(), "login dispatcher"@);
    lemma_only_place(bytes, hook_bytes(), "login hook"@);
    assert(calls_the_dispatcher(bytes, login as int));
    assert(takes_a_hook(bytes, hook as int));
    assert forall|other: int| #[trigger] calls_the_dispatcher(bytes, other) implies other
        == login by {
        assert(matches_at(bytes, login_bytes(), other));
    }
    assert forall|other: int| #[trigger] takes_a_hook(bytes, other) implies other == hook by {
        assert(matches_at(bytes, hook_bytes(), other));
    }
}

/// Code that sets the fourth argument to one and the third to nothing, loads the second
/// from the frame and the first from a pointer near the code, and calls a function near it.
pub open spec fn calls_the_dispatcher(bytes: Seq<u8>, at: int) -> bool {
    &&& 0 <= at
    &&& at + 22 <= bytes.len()
    &&& bytes.subrange(at, at + 13) == seq![
        0x41u8, 0xb1, 0x01, 0x45, 0x33, 0xc0, 0x48, 0x8d, 0x55, 0xcf, 0x48, 0x8b, 0x0d,
    ]
    &&& bytes[at + 17] == 0xe8
}

/// Code of seven bytes before a call of the fifteenth function of an object.
pub open spec fn takes_a_hook(bytes: Seq<u8>, at: int) -> bool {
    &&& 0 <= at
    &&& at + 21 <= bytes.len()
    &&& bytes.subrange(at + 7, at + 10) == seq![0x48u8, 0x8b, 0x01]
    &&& bytes.subrange(at + 17, at + 21) == seq![0xffu8, 0x50, 0x70, 0x84]
}

#[verifier::spinoff_prover]
#[verifier::rlimit(100)]
proof fn lemma_login_pattern(bytes: Seq<u8>)
    ensures
        forall|at: int| #[trigger]
            matches_at(bytes, login_bytes(), at) && 0 <= at <= bytes.len() - 22
                <==> calls_the_dispatcher(bytes, at),
        login_bytes().len() == 22,
{
    reveal(login_bytes);
    let pattern = login_bytes();
    let part = seq![
        0x41u8, 0xb1, 0x01, 0x45, 0x33, 0xc0, 0x48, 0x8d, 0x55, 0xcf, 0x48, 0x8b, 0x0d,
    ];
    assert forall|at: int| #[trigger]
        matches_at(bytes, pattern, at) && 0 <= at <= bytes.len() - 22 <==> calls_the_dispatcher(
        bytes,
        at,
    ) by {
        if matches_at(bytes, pattern, at) && 0 <= at <= bytes.len() - 22 {
            assert forall|j: int| 0 <= j < 13 implies bytes[at + j] == part[j] by {
                assert(pattern[j] == Some(part[j]));
            }
            assert(pattern[17] == Some(0xe8u8));
            assert(bytes.subrange(at, at + 13) =~= part);
        }
        if calls_the_dispatcher(bytes, at) {
            assert forall|j: int|
                0 <= j < pattern.len() && (#[trigger] pattern[j]) is Some implies pattern[j]
                == Some(bytes[at + j]) by {
                if j < 13 {
                    assert(bytes.subrange(at, at + 13)[j] == part[j]);
                }
            }
        }
    }
}

#[verifier::spinoff_prover]
#[verifier::rlimit(100)]
proof fn lemma_hook_pattern(bytes: Seq<u8>)
    ensures
        forall|at: int| #[trigger]
            matches_at(bytes, hook_bytes(), at) && 0 <= at <= bytes.len() - 21 <==> takes_a_hook(
                bytes,
                at,
            ),
        hook_bytes().len() == 21,
{
    reveal(hook_bytes);
    let pattern = hook_bytes();
    let one = seq![0x48u8, 0x8b, 0x01];
    let two = seq![0xffu8, 0x50, 0x70, 0x84];
    assert forall|at: int| #[trigger]
        matches_at(bytes, pattern, at) && 0 <= at <= bytes.len() - 21 <==> takes_a_hook(
        bytes,
        at,
    ) by {
        if matches_at(bytes, pattern, at) && 0 <= at <= bytes.len() - 21 {
            assert(pattern[7] == Some(0x48u8));
            assert(pattern[8] == Some(0x8bu8));
            assert(pattern[9] == Some(0x01u8));
            assert(pattern[17] == Some(0xffu8));
            assert(pattern[18] == Some(0x50u8));
            assert(pattern[19] == Some(0x70u8));
            assert(pattern[20] == Some(0x84u8));
            assert(bytes.subrange(at + 7, at + 10) =~= one);
            assert(bytes.subrange(at + 17, at + 21) =~= two);
        }
        if takes_a_hook(bytes, at) {
            assert forall|j: int|
                0 <= j < pattern.len() && (#[trigger] pattern[j]) is Some implies pattern[j]
                == Some(bytes[at + j]) by {
                if 7 <= j < 10 {
                    assert(bytes.subrange(at + 7, at + 10)[j - 7] == one[j - 7]);
                } else {
                    assert(bytes.subrange(at + 17, at + 21)[j - 17] == two[j - 17]);
                }
            }
        }
    }
}

proof fn lemma_only_place(bytes: Seq<u8>, pattern: Seq<Option<u8>>, label: Seq<char>)
    requires
        only_match(bytes, pattern, label) is Ok,
        bytes.len() <= usize::MAX,
        pattern.len() > 0,
    ensures
        ({
            let at = only_match(bytes, pattern, label)->Ok_0 as int;
            &&& matches_at(bytes, pattern, at)
            &&& at + pattern.len() <= bytes.len()
            &&& forall|other: int| #[trigger]
                matches_at(bytes, pattern, other) && 0 <= other <= bytes.len() - pattern.len()
                    ==> other == at
        }),
{
    let holds = |at: int| matches_at(bytes, pattern, at);
    let len = (bytes.len() - pattern.len() + 1) as nat;
    hits_are_complete(len, holds);
    let places = occurrences(bytes, pattern);
    assert(places == hits(len, holds));
    assert(places.contains(places[0]));
    assert forall|other: int| #[trigger]
        matches_at(bytes, pattern, other) && 0 <= other <= bytes.len() - pattern.len() implies other
        == places[0] by {
        assert(holds(other));
        assert(places.contains(other));
    }
}

/// A string of the game names where its text is, how long it is, and how much room there
/// is for it.
pub open spec fn is_string(bytes: Seq<u8>, data: usize, length: nat) -> bool {
    &&& bytes.len() == 32
    &&& number(bytes, 0, 8) == data
    &&& forall|i: int| 8 <= i < 16 ==> #[trigger] bytes[i] == 0
    &&& number(bytes, 16, 8) == length
    &&& number(bytes, 24, 8) == length
}

/// What is written for a login: the command, a string that names it without its closing
/// zero, a cleared flag, and the code that calls the function on the client with that
/// string and goes back behind the hook. Once the code is visible, the flag is set.
pub proof fn logins_are_written_as_their_code_expects(
    calls: Calls,
    k: int,
    trace: Trace,
    client: usize,
    function: usize,
    credential: CredentialSecret,
    command: Seq<u8>,
    string: Seq<u8>,
    code: Seq<u8>,
)
    requires
        trace.pieces.len() == 4,
        trace.hook + trace.original.len() <= usize::MAX,
        login_command(credential) == Ok::<Seq<u8>, Failure>(command),
        command.len() <= usize::MAX,
        is_string(string, trace.pieces[0].at, (command.len() - 1) as nat),
        login_code_bytes(
            trace.pieces[3].at,
            trace.pieces[2].at,
            trace.pieces[1].at,
            client,
            function,
            trace.original,
            (trace.hook + trace.original.len()) as usize,
        ) == Ok::<Seq<u8>, Failure>(code),
        calls[k] == (Call {
            wish: Wish::Write { at: trace.pieces[0].at, bytes: command },
            answer: Answer::Done,
        }),
        calls[k + 1] == (Call {
            wish: Wish::Write { at: trace.pieces[1].at, bytes: string },
            answer: Answer::Done,
        }),
        calls[k + 2] == (Call {
            wish: Wish::Write { at: trace.pieces[2].at, bytes: seq![0u8, 0, 0, 0, 0, 0, 0, 0] },
            answer: Answer::Done,
        }),
        calls[k + 3] == (Call {
            wish: Wish::Write { at: trace.pieces[3].at, bytes: code },
            answer: Answer::Done,
        }),
        calls[k + 4] == (Call {
            wish: Wish::Flush { at: trace.pieces[3].at, size: code.len() as usize },
            answer: Answer::Done,
        }),
        calls[k + 5] == (Call {
            wish: Wish::Write { at: trace.pieces[2].at, bytes: seq![1u8] },
            answer: Answer::Done,
        }),
    ensures
        written(calls, k, trace, client, function, credential) == (
            k + 6,
            Ok::<(), Failure>(()),
        ),
{
    let n = (command.len() - 1) as nat;
    let data = trace.pieces[0].at;
    read_value_writes_back(string.subrange(0, 8));
    read_value_writes_back(string.subrange(16, 24));
    read_value_writes_back(string.subrange(24, 32));
    lemma_le_bytes_len(data as nat, 8);
    lemma_le_bytes_len(n, 8);
    assert(string =~= string_bytes(data, n)) by {
        assert forall|i: int| 0 <= i < 32 implies string[i] == string_bytes(data, n)[i] by {
            if i < 8 {
                assert(string[i] == string.subrange(0, 8)[i]);
            } else if 16 <= i < 24 {
                assert(string[i] == string.subrange(16, 24)[i - 16]);
            } else if 24 <= i {
                assert(string[i] == string.subrange(24, 32)[i - 24]);
            }
        }
    }
    assert(Seq::new(8, |i: int| 0u8) =~= seq![0u8, 0, 0, 0, 0, 0, 0, 0]);
}

/// The memory of a login is large enough for what is written there: for the command, its
/// string, the flag, and the code with what it takes the place of. The command's memory is
/// to be wiped, and the flag's is where the code looks.
pub proof fn memory_of_a_login_is_large_enough(
    calls: Calls,
    k: int,
    trace: Trace,
    credential: CredentialSecret,
    command: Seq<u8>,
)
    requires
        trace.pieces.len() == 0,
        trace.original.len() == 7,
        login_command(credential) == Ok::<Seq<u8>, Failure>(command),
        all_allocated(calls, k, trace, credential).2 is Ok,
    ensures
        ({
            let ready = all_allocated(calls, k, trace, credential).1;
            &&& ready.pieces.len() == 4
            &&& ready.pieces[0].size == command.len()
            &&& ready.pieces[0].sensitive
            &&& ready.pieces[1].size == 32
            &&& ready.pieces[2].size == 8
            &&& ready.pieces[3].size >= 210 + ready.original.len()
            &&& ready.flag == Some(ready.pieces[2].at)
            &&& ready.code == Some((ready.pieces[3].at, ready.pieces[3].size))
            &&& ready.hook == trace.hook
            &&& ready.original == trace.original
        }),
{
}

/// The hook of a login is opened for writing, gets a jump to the login's code that is
/// filled up with idle instructions, is made visible, and gets its access rights back.
pub proof fn hooks_of_logins_lead_to_their_code(
    calls: Calls,
    k: int,
    trace: Trace,
    previous: MemoryProtection,
    detour: Seq<u8>,
)
    requires
        trace.pieces.len() == 4,
        trace.original.len() == 7,
        detour.len() == 7,
        detour[0] == 0xe9,
        detour[5] == 0x90,
        detour[6] == 0x90,
        trace.hook + 5 <= usize::MAX,
        trace.hook + 5 + reach32(detour, 1) == trace.pieces[3].at,
        calls[k] == (Call {
            wish: Wish::Protect {
                at: trace.hook,
                size: 7,
                protection: MemoryProtection::ExecuteReadWrite,
            },
            answer: Answer::Earlier { protection: previous },
        }),
        calls[k + 1] == (Call {
            wish: Wish::Write { at: trace.hook, bytes: detour },
            answer: Answer::Done,
        }),
        calls[k + 2] == (Call {
            wish: Wish::Flush { at: trace.hook, size: 7 },
            answer: Answer::Done,
        }),
        calls[k + 3].wish == (Wish::Protect { at: trace.hook, size: 7, protection: previous }),
        calls[k + 3].answer is Earlier,
    ensures
        hooked(calls, k, trace) == (
            k + 4,
            Trace { protection: Some(previous), active: true, ..trace },
            Ok::<(), Failure>(()),
        ),
{
    let distance = reach32(detour, 1);
    let field = detour.subrange(1, 5);
    lemma_pow256();
    lemma_le_value_bound(field);
    read_value_writes_back(field);
    assert(wrap32(distance) == le_value(field));
    let expected = relative_jump(trace.hook, trace.pieces[3].at, 7)->Ok_0;
    lemma_le_bytes_len(wrap32(distance), 4);
    assert(expected =~= detour) by {
        assert forall|i: int| 0 <= i < 7 implies expected[i] == detour[i] by {
            if 1 <= i < 5 {
                assert(detour[i] == field[i - 1]);
            }
        }
    }
}

}
