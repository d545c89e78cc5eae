//! What can be moved is what the machine does the same way elsewhere.

use vstd::prelude::*;

use crate::machine::{decode, decode_op, operand, Inst, Operand};
use crate::x64::{instruction_end, is_prefix, opcode_at, operand_end, short_operand, wide_operand};

verus! {

/// An operand that is found from where its instruction is.
pub open spec fn is_relative(other: Operand) -> bool {
    other matches Operand::Mem { place } && place is Relative
}

/// An instruction that says where to go, or where something is, from where it is itself.
pub open spec fn depends_on_its_place(inst: Inst) -> bool {
    match inst {
        Inst::Jump { .. } => true,
        Inst::Branch { .. } => true,
        Inst::Move { to, from, .. } => is_relative(to) || is_relative(from),
        Inst::Address { place, .. } => place is Relative,
        Inst::Compare { left, right, .. } => is_relative(left) || is_relative(right),
        Inst::Test { left, right, .. } => is_relative(left) || is_relative(right),
        Inst::Xor { to, from, .. } => is_relative(to) || is_relative(from),
        Inst::Plus { to, from, .. } => is_relative(to) || is_relative(from),
        Inst::Increment { to, .. } => is_relative(to),
        Inst::Decrement { to, .. } => is_relative(to),
        Inst::CompareExchange { to, .. } => is_relative(to),
        Inst::Call { target } => is_relative(target),
        _ => false,
    }
}

proof fn lemma_bits(byte: u8)
    ensures
        byte >> 6 == byte / 64,
        (byte >> 3) & 7 == byte / 8 % 8,
        byte & 7 == byte % 8,
        byte & 0x08 != 0 <==> byte / 8 % 2 == 1,
{
    assert(byte >> 6 == byte / 64) by (bit_vector);
    assert((byte >> 3) & 7 == byte / 8 % 8) by (bit_vector);
    assert(byte & 7 == byte % 8) by (bit_vector);
    assert(byte & 0x08 != 0 <==> byte / 8 % 2 == 1) by (bit_vector);
}

proof fn lemma_operand(
    code: Seq<u8>,
    start: int,
    at: int,
    opcode: u8,
    immediate: int,
    index_high: int,
    base_high: int,
)
    requires
        0 <= at,
        opcode != 0xf6,
        opcode != 0xf7,
        operand_end(code, start, at, opcode, immediate) is Ok,
        operand(code, at, index_high, base_high) is Some,
    ensures
        operand_end(code, start, at, opcode, immediate)->Ok_0 == at + operand(
            code,
            at,
            index_high,
            base_high,
        )->Some_0.1 + immediate,
        !is_relative(operand(code, at, index_high, base_high)->Some_0.0),
{
    reveal(operand);
    lemma_bits(code[at]);
    lemma_bits(code[at + 1]);
}

/// What an instruction is behind its prefixes.
proof fn lemma_behind_prefixes(
    code: Seq<u8>,
    start: int,
    at: int,
    wide: bool,
    reg_high: int,
    index_high: int,
    base_high: int,
)
    requires
        0 <= start <= at,
        opcode_at(code, start) == at,
        wide_operand(code, start, false) == wide,
        !short_operand(code, start),
        instruction_end(code, start) is Ok,
        decode_op(code, at, wide, reg_high, index_high, base_high) is Some,
    ensures
        ({
            let (inst, n) = decode_op(code, at, wide, reg_high, index_high, base_high)->Some_0;
            &&& instruction_end(code, start)->Ok_0 == at + n
            &&& !depends_on_its_place(inst)
        }),
{
    let op = code[at];
    lemma_bits(code[at + 1]);
    if op == 0x30 || op == 0x33 || op == 0x39 {
        assert(0x30u8 & 4 == 0 && 0x33u8 & 4 == 0 && 0x39u8 & 4 == 0) by (bit_vector);
        assert(0x30u8 & 7 == 0 && 0x33u8 & 7 == 3 && 0x39u8 & 7 == 1) by (bit_vector);
        lemma_operand(code, start, at + 1, op, 0, index_high, base_high);
    } else if op == 0x83 || op == 0xc6 {
        lemma_operand(code, start, at + 1, op, 1, index_high, base_high);
    } else if op == 0x81 {
        assert(instruction_end(code, start)->Ok_0 == at + 6);
    } else if 0x84 <= op <= 0x8f || op == 0xff {
        lemma_operand(code, start, at + 1, op, 0, index_high, base_high);
    } else if 0x50 <= op < 0x60 {
        assert(instruction_end(code, start)->Ok_0 == at + 1);
    } else if 0xb8 <= op < 0xc0 {
        assert(instruction_end(code, start)->Ok_0 == at + if wide { 9int } else { 5int });
    } else {
        assert(op == 0x0f || 0xa0 <= op < 0xa4 || 0xb0 <= op < 0xb4);
        assert(0x0fu8 & 4 == 4) by (bit_vector);
        assert(false);
    }
}

/// An instruction that can be moved ends where the machine ends it, and says nothing from
/// where it is.
#[verifier::spinoff_prover]
#[verifier::rlimit(100)]
pub proof fn moved_instructions_are_those_of_the_machine(code: Seq<u8>, start: int)
    requires
        0 <= start < code.len(),
        decode(code, start) is Some,
        instruction_end(code, start) is Ok,
    ensures
        instruction_end(code, start)->Ok_0 == start + decode(code, start)->Some_0.1,
        !depends_on_its_place(decode(code, start)->Some_0.0),
{
    reveal(decode);
    reveal_with_fuel(opcode_at, 4);
    reveal_with_fuel(wide_operand, 4);
    reveal_with_fuel(short_operand, 4);
    assert(0x0fu8 & 4 == 4) by (bit_vector);
    let first = code[start];
    if first == 0xf0 {
        let next = code[start + 1];
        lemma_bits(next);
        if 0x40 <= next < 0x50 {
            lemma_behind_prefixes(
                code,
                start,
                start + 2,
                next / 8 % 2 == 1,
                (next / 4 % 2) as int,
                (next / 2 % 2) as int,
                (next % 2) as int,
            );
        } else {
            lemma_behind_prefixes(code, start, start + 1, false, 0, 0, 0);
        }
    } else if 0x40 <= first < 0x50 {
        lemma_bits(first);
        lemma_behind_prefixes(
            code,
            start,
            start + 1,
            first / 8 % 2 == 1,
            (first / 4 % 2) as int,
            (first / 2 % 2) as int,
            (first % 2) as int,
        );
    } else if first == 0xf3 {
        assert(!is_prefix(0x0f));
        assert(false);
    } else if first == 0x9c || first == 0x9d || first == 0xe9 || first == 0xeb || 0x70 <= first
        < 0x80 || (first == 0x0f && 0x80 <= code[start + 1] < 0x90) {
        assert(false);
    } else if first != 0xc3 {
        lemma_behind_prefixes(code, start, start, false, 0, 0, 0);
    }
}

}
