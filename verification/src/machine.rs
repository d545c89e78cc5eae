//! What a processor makes of the instructions that the agent writes into a process: only
//! those, and of each only what the written code relies on.

use vstd::prelude::*;

use crate::codec::{
    four_bytes_count, le_bytes, le_value, lemma_le_value_bound, lemma_pow256, pow256,
    read_value_writes_back, signed32, written_value_reads_back,
};

verus! {

/// The memory of a process.
pub type Memory = spec_fn(int) -> u8;

/// How the processor stands. The stack is kept apart from the memory that addresses lead
/// to; its words are numbered from the oldest on, and the last one is on top.
pub ghost struct Cpu {
    /// Where the next instruction is.
    pub ip: int,
    /// The general registers, by their numbers.
    pub regs: Seq<nat>,
    /// The halves of the vector registers, the low one first.
    pub vectors: Seq<(nat, nat)>,
    pub stack: Seq<nat>,
    pub memory: Memory,
    /// The status word. Only two of its bits are looked at: whether the last result was
    /// zero, and whether a carry was left.
    pub flags: nat,
}

impl Cpu {
    /// There are sixteen registers of each kind, and each holds what fits in it.
    pub open spec fn sound(self) -> bool {
        &&& self.regs.len() == 16
        &&& self.vectors.len() == 16
        &&& forall|n: int|
            0 <= n < 16 ==> #[trigger] self.regs[n] < 0x1_0000_0000_0000_0000
    }
}

/// Where an operand is in memory.
pub ghost enum Place {
    /// At a number.
    Absolute { at: nat },
    /// At a register and a distance.
    Based { base: int, reach: int },
    /// At two registers and a distance.
    Sum { base: int, index: int, reach: int },
    /// At a distance from the next instruction.
    Relative { reach: int },
}

/// An operand.
pub ghost enum Operand {
    Reg { n: int },
    Mem { place: Place },
    Imm { value: nat },
}

/// An instruction. Sizes are in bytes.
pub ghost enum Inst {
    Push { n: int },
    Pop { n: int },
    PushFlags,
    PopFlags,
    Move { to: Operand, from: Operand, size: nat },
    /// The address of a place.
    Address { n: int, place: Place },
    Compare { left: Operand, right: Operand, size: nat },
    Test { left: Operand, right: Operand, size: nat },
    Xor { to: Operand, from: Operand, size: nat },
    Plus { to: Operand, from: Operand, size: nat },
    Increment { to: Operand, size: nat },
    Decrement { to: Operand, size: nat },
    /// Where the low byte of the first register equals the operand, that becomes the low
    /// byte of the other one.
    CompareExchange { to: Operand, n: int },
    /// Makes room on the stack, in words.
    Grow { words: nat },
    /// Gives room on the stack back.
    Shrink { words: nat },
    /// Keeps a vector in words of the stack, counted from its top.
    SaveVector { n: int, word: int },
    LoadVector { n: int, word: int },
    Branch { condition: int, reach: int },
    Jump { reach: int },
    Call { target: Operand },
    Return,
}

/// A signed byte.
pub open spec fn signed8(value: u8) -> int {
    if value < 0x80 {
        value as int
    } else {
        value - 0x100
    }
}

/// Four bytes of code as a distance.
pub open spec fn reach32(code: Seq<u8>, i: int) -> int {
    signed32(le_value(code.subrange(i, i + 4)))
}

/// Bytes of code as a number.
pub open spec fn number(code: Seq<u8>, i: int, size: int) -> nat {
    le_value(code.subrange(i, i + size))
}

/// A signed byte as a number of a register.
pub open spec fn extended8(value: u8) -> nat {
    (signed8(value) % 0x1_0000_0000_0000_0000) as nat
}

/// The operand that a byte of operands and what follows it name, and how many bytes they
/// take. The last bit of the high register numbers comes from a prefix.
#[verifier::opaque]
pub open spec fn operand(code: Seq<u8>, i: int, index_high: int, base_high: int) -> Option<
    (Operand, int),
> {
    let mode = code[i] / 64;
    let low = (code[i] % 8) as int;
    if mode == 3 {
        Some((Operand::Reg { n: low + 8 * base_high }, 1))
    } else if mode == 0 && low == 5 {
        Some((Operand::Mem { place: Place::Relative { reach: reach32(code, i + 1) } }, 5))
    } else if low == 4 {
        let base = code[i + 1] % 8 + 8 * base_high;
        let index = code[i + 1] / 8 % 8 + 8 * index_high;
        if code[i + 1] / 64 != 0 || index == 4 || mode != 1 {
            None
        } else {
            Some(
                (
                    Operand::Mem {
                        place: Place::Sum { base, index, reach: signed8(code[i + 2]) },
                    },
                    3,
                ),
            )
        }
    } else {
        let base = low + 8 * base_high;
        if mode == 0 {
            Some((Operand::Mem { place: Place::Based { base, reach: 0 } }, 1))
        } else if mode == 1 {
            Some((Operand::Mem { place: Place::Based { base, reach: signed8(code[i + 1]) } }, 2))
        } else {
            Some(
                (
                    Operand::Mem { place: Place::Based { base, reach: reach32(code, i + 1) } },
                    5,
                ),
            )
        }
    }
}

/// An instruction behind its prefixes, and how many bytes it takes from there on. The
/// prefix says whether it works on eight bytes and gives the high bits of the registers.
pub open spec fn decode_op(
    code: Seq<u8>,
    i: int,
    wide: bool,
    reg_high: int,
    index_high: int,
    base_high: int,
) -> Option<(Inst, int)> {
    let op = code[i] as int;
    let size: nat = if wide {
        8
    } else {
        4
    };
    let reg = code[i + 1] / 8 % 8 + 8 * reg_high;
    let digit = code[i + 1] / 8 % 8;
    if 0x50 <= op < 0x58 {
        Some((Inst::Push { n: op - 0x50 + 8 * base_high }, 1))
    } else if 0x58 <= op < 0x60 {
        Some((Inst::Pop { n: op - 0x58 + 8 * base_high }, 1))
    } else if 0xa0 <= op < 0xa4 {
        let place = Operand::Mem { place: Place::Absolute { at: number(code, i + 1, 8) } };
        let first = Operand::Reg { n: 0 };
        let size: nat = if op == 0xa0 || op == 0xa2 {
            1
        } else {
            size
        };
        if op < 0xa2 {
            Some((Inst::Move { to: first, from: place, size }, 9))
        } else {
            Some((Inst::Move { to: place, from: first, size }, 9))
        }
    } else if 0xb0 <= op < 0xb4 {
        Some(
            (
                Inst::Move {
                    to: Operand::Reg { n: op - 0xb0 + 8 * base_high },
                    from: Operand::Imm { value: code[i + 1] as nat },
                    size: 1,
                },
                2,
            ),
        )
    } else if 0xb8 <= op < 0xc0 {
        Some(
            (
                Inst::Move {
                    to: Operand::Reg { n: op - 0xb8 + 8 * base_high },
                    from: Operand::Imm { value: number(code, i + 1, size as int) },
                    size,
                },
                1 + size as int,
            ),
        )
    } else if op == 0x81 && code[i + 1] == 0xec && wide && base_high == 0 {
        Some((Inst::Grow { words: number(code, i + 2, 4) / 8 }, 6))
    } else if op == 0x81 && code[i + 1] == 0xc4 && wide && base_high == 0 {
        Some((Inst::Shrink { words: number(code, i + 2, 4) / 8 }, 6))
    } else if op == 0x0f && code[i + 1] == 0xb0 {
        match operand(code, i + 2, index_high, base_high) {
            Some((to, n)) => Some(
                (Inst::CompareExchange { to, n: code[i + 2] / 8 % 8 + 8 * reg_high }, n + 2),
            ),
            None => None,
        }
    } else {
        match operand(code, i + 1, index_high, base_high) {
            None => None,
            Some((other, n)) => {
                let named = Operand::Reg { n: reg };
                if op == 0x88 {
                    Some((Inst::Move { to: other, from: named, size: 1 }, n + 1))
                } else if op == 0x89 {
                    Some((Inst::Move { to: other, from: named, size }, n + 1))
                } else if op == 0x8a {
                    Some((Inst::Move { to: named, from: other, size: 1 }, n + 1))
                } else if op == 0x8b {
                    Some((Inst::Move { to: named, from: other, size }, n + 1))
                } else if op == 0x8d && wide && other is Mem {
                    Some((Inst::Address { n: reg, place: other->place }, n + 1))
                } else if op == 0x39 {
                    Some((Inst::Compare { left: other, right: named, size }, n + 1))
                } else if op == 0x84 {
                    Some((Inst::Test { left: other, right: named, size: 1 }, n + 1))
                } else if op == 0x30 {
                    Some((Inst::Xor { to: other, from: named, size: 1 }, n + 1))
                } else if op == 0x33 {
                    Some((Inst::Xor { to: named, from: other, size }, n + 1))
                } else if op == 0x83 && digit == 7 {
                    Some(
                        (
                            Inst::Compare {
                                left: other,
                                right: Operand::Imm { value: extended8(code[i + 1 + n]) },
                                size,
                            },
                            n + 2,
                        ),
                    )
                } else if op == 0x83 && digit == 0 {
                    Some(
                        (
                            Inst::Plus {
                                to: other,
                                from: Operand::Imm { value: extended8(code[i + 1 + n]) },
                                size,
                            },
                            n + 2,
                        ),
                    )
                } else if op == 0xff && digit == 0 {
                    Some((Inst::Increment { to: other, size }, n + 1))
                } else if op == 0xff && digit == 1 {
                    Some((Inst::Decrement { to: other, size }, n + 1))
                } else if op == 0xff && digit == 2 {
                    Some((Inst::Call { target: other }, n + 1))
                } else if op == 0xc6 && digit == 0 {
                    Some(
                        (
                            Inst::Move {
                                to: other,
                                from: Operand::Imm { value: code[i + 1 + n] as nat },
                                size: 1,
                            },
                            n + 2,
                        ),
                    )
                } else {
                    None
                }
            },
        }
    }
}

/// An instruction from its prefix of registers on.
pub open spec fn decode_rest(code: Seq<u8>, i: int) -> Option<(Inst, int)> {
    if 0x40 <= code[i] < 0x50 {
        match decode_op(
            code,
            i + 1,
            code[i] / 8 % 2 == 1,
            (code[i] / 4 % 2) as int,
            (code[i] / 2 % 2) as int,
            (code[i] % 2) as int,
        ) {
            Some((inst, n)) => Some((inst, n + 1)),
            None => None,
        }
    } else {
        decode_op(code, i, false, 0, 0, 0)
    }
}

/// The instruction at a place of the code, and how many bytes it takes.
#[verifier::opaque]
pub open spec fn decode(code: Seq<u8>, i: int) -> Option<(Inst, int)> {
    let first = code[i];
    if first == 0x9c {
        Some((Inst::PushFlags, 1))
    } else if first == 0x9d {
        Some((Inst::PopFlags, 1))
    } else if first == 0xc3 {
        Some((Inst::Return, 1))
    } else if first == 0xe9 {
        Some((Inst::Jump { reach: reach32(code, i + 1) }, 5))
    } else if first == 0xeb {
        Some((Inst::Jump { reach: signed8(code[i + 1]) }, 2))
    } else if 0x70 <= first < 0x80 {
        Some((Inst::Branch { condition: first - 0x70, reach: signed8(code[i + 1]) }, 2))
    } else if first == 0x0f && 0x80 <= code[i + 1] < 0x90 {
        Some((Inst::Branch { condition: code[i + 1] - 0x80, reach: reach32(code, i + 2) }, 6))
    } else if first == 0xf3 {
        // A vector and words of the stack.
        if code[i + 1] != 0x0f || code[i + 3] / 64 != 1 || code[i + 3] % 8 != 4 || code[i + 4]
            != 0x24 || code[i + 5] % 8 != 0 || code[i + 5] >= 0x80 {
            None
        } else if code[i + 2] == 0x7f {
            Some(
                (
                    Inst::SaveVector {
                        n: (code[i + 3] / 8 % 8) as int,
                        word: (code[i + 5] / 8) as int,
                    },
                    6,
                ),
            )
        } else if code[i + 2] == 0x6f {
            Some(
                (
                    Inst::LoadVector {
                        n: (code[i + 3] / 8 % 8) as int,
                        word: (code[i + 5] / 8) as int,
                    },
                    6,
                ),
            )
        } else {
            None
        }
    } else if first == 0xf0 {
        match decode_rest(code, i + 1) {
            Some((inst, n)) => Some((inst, n + 1)),
            None => None,
        }
    } else {
        decode_rest(code, i)
    }
}

/// Bytes of memory from an address on.
pub open spec fn load(memory: Memory, at: int, size: nat) -> Seq<u8> {
    Seq::new(size, |i: int| memory(at + i))
}

/// The memory with bytes put at an address.
pub open spec fn put(memory: Memory, at: int, bytes: Seq<u8>) -> Memory {
    |a: int|
        if at <= a < at + bytes.len() {
            bytes[a - at]
        } else {
            memory(a)
        }
}

/// The number that memory holds at an address.
pub open spec fn held(memory: Memory, at: int, size: nat) -> nat {
    le_value(load(memory, at, size))
}

/// A number as an address. Addresses wrap around.
pub open spec fn wrapped(number: int) -> int {
    number % 0x1_0000_0000_0000_0000
}

/// The address of a place.
pub open spec fn address(cpu: Cpu, place: Place) -> int {
    match place {
        Place::Absolute { at } => at as int,
        Place::Based { base, reach } => wrapped(cpu.regs[base] + reach),
        Place::Sum { base, index, reach } => wrapped(cpu.regs[base] + cpu.regs[index] + reach),
        Place::Relative { reach } => wrapped(cpu.ip + reach),
    }
}

/// The last bytes of a number.
pub open spec fn low(value: nat, size: nat) -> nat {
    value % pow256(size)
}

/// What an operand holds.
pub open spec fn read(cpu: Cpu, operand: Operand, size: nat) -> nat {
    match operand {
        Operand::Reg { n } => low(cpu.regs[n], size),
        Operand::Mem { place } => held(cpu.memory, address(cpu, place), size),
        Operand::Imm { value } => low(value, size),
    }
}

/// A register with its last bytes replaced. Four bytes clear the rest, one byte leaves it.
pub open spec fn replaced(before: nat, size: nat, value: nat) -> nat {
    if size == 1 {
        (before - before % 256 + value % 256) as nat
    } else {
        low(value, size)
    }
}

/// The processor with an operand set.
pub open spec fn written(cpu: Cpu, operand: Operand, size: nat, value: nat) -> Cpu {
    match operand {
        Operand::Reg { n } => Cpu {
            regs: cpu.regs.update(n, replaced(cpu.regs[n], size, value)),
            ..cpu
        },
        Operand::Mem { place } => Cpu {
            memory: put(cpu.memory, address(cpu, place), le_bytes(value, size)),
            ..cpu
        },
        Operand::Imm { value } => cpu,
    }
}

/// A status word of the two bits that are looked at.
pub open spec fn status(zero: bool, carry: bool) -> nat {
    (if zero {
        64nat
    } else {
        0
    }) + (if carry {
        1nat
    } else {
        0
    })
}

/// Whether the last result was zero.
pub open spec fn is_zero(cpu: Cpu) -> bool {
    cpu.flags / 64 % 2 == 1
}

/// Whether a carry was left.
pub open spec fn is_carry(cpu: Cpu) -> bool {
    cpu.flags % 2 == 1
}

/// Whether a branch is taken: below, zero, not zero, below or zero.
pub open spec fn taken(cpu: Cpu, condition: int) -> Option<bool> {
    if condition == 2 {
        Some(is_carry(cpu))
    } else if condition == 4 {
        Some(is_zero(cpu))
    } else if condition == 5 {
        Some(!is_zero(cpu))
    } else if condition == 6 {
        Some(is_carry(cpu) || is_zero(cpu))
    } else {
        None
    }
}

/// What an instruction does, once the next one is known. A call leaves the code: what it
/// does is not followed.
pub open spec fn perform(inst: Inst, cpu: Cpu) -> Option<Cpu> {
    match inst {
        Inst::Push { n } => Some(Cpu { stack: cpu.stack.push(cpu.regs[n]), ..cpu }),
        Inst::Pop { n } => if cpu.stack.len() == 0 {
            None
        } else {
            Some(
                Cpu {
                    regs: cpu.regs.update(n, cpu.stack.last()),
                    stack: cpu.stack.drop_last(),
                    ..cpu
                },
            )
        },
        Inst::PushFlags => Some(Cpu { stack: cpu.stack.push(cpu.flags), ..cpu }),
        Inst::PopFlags => if cpu.stack.len() == 0 {
            None
        } else {
            Some(Cpu { flags: cpu.stack.last(), stack: cpu.stack.drop_last(), ..cpu })
        },
        Inst::Move { to, from, size } => Some(written(cpu, to, size, read(cpu, from, size))),
        Inst::Address { n, place } => Some(
            Cpu { regs: cpu.regs.update(n, address(cpu, place) as nat), ..cpu },
        ),
        Inst::Compare { left, right, size } => Some(
            Cpu {
                flags: status(
                    read(cpu, left, size) == read(cpu, right, size),
                    read(cpu, left, size) < read(cpu, right, size),
                ),
                ..cpu
            },
        ),
        Inst::Test { left, right, size } => if left != right {
            None
        } else {
            Some(Cpu { flags: status(read(cpu, left, size) == 0, false), ..cpu })
        },
        Inst::Xor { to, from, size } => if to != from {
            None
        } else {
            Some(Cpu { flags: status(true, false), ..written(cpu, to, size, 0) })
        },
        Inst::Plus { to, from, size } => {
            let sum = read(cpu, to, size) + read(cpu, from, size);
            Some(
                Cpu {
                    flags: status(low(sum, size) == 0, sum >= pow256(size)),
                    ..written(cpu, to, size, low(sum, size))
                },
            )
        },
        Inst::Increment { to, size } => {
            let sum = low(read(cpu, to, size) + 1, size);
            Some(Cpu { flags: status(sum == 0, is_carry(cpu)), ..written(cpu, to, size, sum) })
        },
        Inst::Decrement { to, size } => {
            let less = low((read(cpu, to, size) + pow256(size) - 1) as nat, size);
            Some(Cpu { flags: status(less == 0, is_carry(cpu)), ..written(cpu, to, size, less) })
        },
        Inst::CompareExchange { to, n } => {
            let there = read(cpu, to, 1);
            let first = low(cpu.regs[0], 1);
            if there == first {
                Some(
                    Cpu { flags: status(true, false), ..written(cpu, to, 1, low(cpu.regs[n], 1)) },
                )
            } else {
                Some(
                    Cpu {
                        flags: status(false, first < there),
                        ..written(cpu, Operand::Reg { n: 0 }, 1, there)
                    },
                )
            }
        },
        Inst::Grow { words } => Some(
            Cpu {
                stack: cpu.stack + Seq::new(words, |i: int| arbitrary::<nat>()),
                flags: arbitrary(),
                ..cpu
            },
        ),
        Inst::Shrink { words } => if cpu.stack.len() < words {
            None
        } else {
            Some(
                Cpu {
                    stack: cpu.stack.take(cpu.stack.len() - words),
                    flags: arbitrary(),
                    ..cpu
                },
            )
        },
        Inst::SaveVector { n, word } => {
            let top = cpu.stack.len() - 1 - word;
            if top < 1 {
                None
            } else {
                Some(
                    Cpu {
                        stack: cpu.stack.update(top, cpu.vectors[n].0).update(
                            top - 1,
                            cpu.vectors[n].1,
                        ),
                        ..cpu
                    },
                )
            }
        },
        Inst::LoadVector { n, word } => {
            let top = cpu.stack.len() - 1 - word;
            if top < 1 {
                None
            } else {
                Some(
                    Cpu {
                        vectors: cpu.vectors.update(n, (cpu.stack[top], cpu.stack[top - 1])),
                        ..cpu
                    },
                )
            }
        },
        Inst::Branch { condition, reach } => match taken(cpu, condition) {
            None => None,
            Some(yes) => Some(
                if yes {
                    Cpu { ip: cpu.ip + reach, ..cpu }
                } else {
                    cpu
                },
            ),
        },
        Inst::Jump { reach } => Some(Cpu { ip: cpu.ip + reach, ..cpu }),
        Inst::Call { target } => None,
        Inst::Return => if cpu.stack.len() == 0 {
            None
        } else {
            Some(Cpu { ip: cpu.stack.last() as int, stack: cpu.stack.drop_last(), ..cpu })
        },
    }
}

/// The processor after one instruction of code that begins at an address.
pub open spec fn step(code: Seq<u8>, base: int, cpu: Cpu) -> Option<Cpu> {
    match decode(code, cpu.ip - base) {
        None => None,
        Some((inst, n)) => perform(inst, Cpu { ip: cpu.ip + n, ..cpu }),
    }
}

/// The processor after so many instructions.
pub open spec fn run(code: Seq<u8>, base: int, cpu: Cpu, n: nat) -> Option<Cpu>
    decreases n,
{
    if n == 0 {
        Some(cpu)
    } else {
        match run(code, base, cpu, (n - 1) as nat) {
            None => None,
            Some(middle) => step(code, base, middle),
        }
    }
}

/// The code leads from one state to another.
#[verifier::opaque]
pub open spec fn reaches(code: Seq<u8>, base: int, from: Cpu, to: Cpu) -> bool {
    exists|n: nat| #[trigger] run(code, base, from, n) == Some(to)
}

pub(crate) proof fn lemma_stays(code: Seq<u8>, base: int, cpu: Cpu)
    ensures
        reaches(code, base, cpu, cpu),
{
    reveal(reaches);
    assert(run(code, base, cpu, 0) == Some(cpu));
}

pub(crate) proof fn lemma_steps(code: Seq<u8>, base: int, from: Cpu, middle: Cpu, to: Cpu)
    requires
        reaches(code, base, from, middle),
        step(code, base, middle) == Some(to),
    ensures
        reaches(code, base, from, to),
{
    reveal(reaches);
    let n = choose|n: nat| #[trigger] run(code, base, from, n) == Some(middle);
    assert(run(code, base, from, n + 1) == Some(to));
}

/// One more instruction.
pub(crate) proof fn lemma_next(
    code: Seq<u8>,
    base: int,
    from: Cpu,
    cpu: Cpu,
    inst: Inst,
    n: int,
) -> (next: Cpu)
    requires
        reaches(code, base, from, cpu),
        decode(code, cpu.ip - base) == Some((inst, n)),
        perform(inst, Cpu { ip: cpu.ip + n, ..cpu }) is Some,
    ensures
        reaches(code, base, from, next),
        Some(next) == perform(inst, Cpu { ip: cpu.ip + n, ..cpu }),
{
    let next = perform(inst, Cpu { ip: cpu.ip + n, ..cpu })->Some_0;
    lemma_steps(code, base, from, cpu, next);
    next
}

pub(crate) proof fn lemma_is_reg(code: Seq<u8>, i: int, index_high: int, base_high: int)
    requires
        code[i] >= 0xc0,
    ensures
        operand(code, i, index_high, base_high) == Some(
            (Operand::Reg { n: code[i] % 8 + 8 * base_high }, 1int),
        ),
{
    reveal(operand);
}

/// An operand at a register and a distance of no byte, one byte or four bytes.
pub(crate) proof fn lemma_is_based(code: Seq<u8>, i: int, index_high: int, base_high: int)
    requires
        code[i] < 0xc0,
        code[i] % 8 != 4,
        code[i] / 64 == 0 ==> code[i] % 8 != 5,
    ensures
        ({
            let base = code[i] % 8 + 8 * base_high;
            operand(code, i, index_high, base_high) == Some(
                if code[i] < 0x40 {
                    (Operand::Mem { place: Place::Based { base, reach: 0 } }, 1int)
                } else if code[i] < 0x80 {
                    (
                        Operand::Mem { place: Place::Based { base, reach: signed8(code[i + 1]) } },
                        2int,
                    )
                } else {
                    (
                        Operand::Mem { place: Place::Based { base, reach: reach32(code, i + 1) } },
                        5int,
                    )
                },
            )
        }),
{
    reveal(operand);
}

pub(crate) proof fn lemma_is_relative(code: Seq<u8>, i: int, index_high: int, base_high: int)
    requires
        code[i] / 64 == 0,
        code[i] % 8 == 5,
    ensures
        operand(code, i, index_high, base_high) == Some(
            (Operand::Mem { place: Place::Relative { reach: reach32(code, i + 1) } }, 5int),
        ),
{
    reveal(operand);
}

pub(crate) proof fn lemma_is_sum(code: Seq<u8>, i: int, index_high: int, base_high: int)
    requires
        code[i] / 64 == 1,
        code[i] % 8 == 4,
        code[i + 1] / 64 == 0,
        code[i + 1] / 8 % 8 + 8 * index_high != 4,
    ensures
        operand(code, i, index_high, base_high) == Some(
            (
                Operand::Mem {
                    place: Place::Sum {
                        base: code[i + 1] % 8 + 8 * base_high,
                        index: code[i + 1] / 8 % 8 + 8 * index_high,
                        reach: signed8(code[i + 2]),
                    },
                },
                3int,
            ),
        ),
{
    reveal(operand);
}

/// Room on the stack.
pub(crate) proof fn lemma_room(code: Seq<u8>, i: int)
    requires
        code[i] == 0x48,
        code[i + 1] == 0x81,
        code[i + 2] == 0xec || code[i + 2] == 0xc4,
    ensures
        code[i + 2] == 0xec ==> decode(code, i) == Some(
            (Inst::Grow { words: number(code, i + 3, 4) / 8 }, 7int),
        ),
        code[i + 2] == 0xc4 ==> decode(code, i) == Some(
            (Inst::Shrink { words: number(code, i + 3, 4) / 8 }, 7int),
        ),
{
    reveal(decode);
}

/// A comparison and exchange that no other processor cuts into.
pub(crate) proof fn lemma_exchange(code: Seq<u8>, i: int, other: Operand, n: int)
    requires
        code[i] == 0xf0,
        code[i + 1] == 0x0f,
        code[i + 2] == 0xb0,
        operand(code, i + 3, 0, 0) == Some((other, n)),
    ensures
        decode(code, i) == Some(
            (Inst::CompareExchange { to: other, n: (code[i + 3] / 8 % 8) as int }, n + 3),
        ),
{
    reveal(decode);
}

/// A vector kept on the stack or taken from it.
pub(crate) proof fn lemma_vector(code: Seq<u8>, i: int)
    requires
        code[i] == 0xf3,
        code[i + 1] == 0x0f,
        code[i + 3] / 64 == 1,
        code[i + 3] % 8 == 4,
        code[i + 4] == 0x24,
        code[i + 5] % 8 == 0,
        code[i + 5] < 0x80,
    ensures
        ({
            let n = (code[i + 3] / 8 % 8) as int;
            let word = (code[i + 5] / 8) as int;
            &&& code[i + 2] == 0x7f ==> decode(code, i) == Some(
                (Inst::SaveVector { n, word }, 6int),
            )
            &&& code[i + 2] == 0x6f ==> decode(code, i) == Some(
                (Inst::LoadVector { n, word }, 6int),
            )
        }),
{
    reveal(decode);
}

pub(crate) proof fn lemma_push(code: Seq<u8>, i: int, n: int)
    requires
        0 <= n < 8 && code[i] == 0x50 + n || 8 <= n < 16 && code[i] == 0x41 && code[i + 1] == 0x50
            + n - 8,
    ensures
        decode(code, i) == Some(
            (
                Inst::Push { n },
                if n < 8 {
                    1int
                } else {
                    2
                },
            ),
        ),
{
    reveal(decode);
}

pub(crate) proof fn lemma_pop(code: Seq<u8>, i: int, n: int)
    requires
        0 <= n < 8 && code[i] == 0x58 + n || 8 <= n < 16 && code[i] == 0x41 && code[i + 1] == 0x58
            + n - 8,
    ensures
        decode(code, i) == Some(
            (
                Inst::Pop { n },
                if n < 8 {
                    1int
                } else {
                    2
                },
            ),
        ),
{
    reveal(decode);
}

/// A move between the first register and an absolute address.
pub(crate) proof fn lemma_absolute(code: Seq<u8>, i: int)
    requires
        0xa0 <= code[i] < 0xa4 || code[i] == 0x48 && (code[i + 1] == 0xa1 || code[i + 1] == 0xa3),
    ensures
        ({
            let wide = code[i] == 0x48;
            let j = if wide {
                i + 1
            } else {
                i
            };
            let place = Operand::Mem { place: Place::Absolute { at: number(code, j + 1, 8) } };
            let first = Operand::Reg { n: 0 };
            let size: nat = if wide {
                8
            } else if code[j] == 0xa0 || code[j] == 0xa2 {
                1
            } else {
                4
            };
            decode(code, i) == Some(
                (
                    if code[j] < 0xa2 {
                        Inst::Move { to: first, from: place, size }
                    } else {
                        Inst::Move { to: place, from: first, size }
                    },
                    j - i + 9,
                ),
            )
        }),
{
    reveal(decode);
}

/// A register set to a number of eight bytes.
pub(crate) proof fn lemma_set64(code: Seq<u8>, i: int, n: int)
    requires
        0 <= n < 8 && code[i] == 0x48 && code[i + 1] == 0xb8 + n || 8 <= n < 16 && code[i] == 0x49
            && code[i + 1] == 0xb8 + n - 8,
    ensures
        decode(code, i) == Some(
            (
                Inst::Move {
                    to: Operand::Reg { n },
                    from: Operand::Imm { value: number(code, i + 2, 8) },
                    size: 8,
                },
                10int,
            ),
        ),
{
    reveal(decode);
}

/// A register set to a number of four bytes.
pub(crate) proof fn lemma_set32(code: Seq<u8>, i: int, n: int)
    requires
        0 <= n < 8 && code[i] == 0xb8 + n || 8 <= n < 16 && code[i] == 0x41 && code[i + 1] == 0xb8
            + n - 8,
    ensures
        ({
            let j = if n < 8 {
                i
            } else {
                i + 1
            };
            decode(code, i) == Some(
                (
                    Inst::Move {
                        to: Operand::Reg { n },
                        from: Operand::Imm { value: number(code, j + 1, 4) },
                        size: 4,
                    },
                    j - i + 5,
                ),
            )
        }),
{
    reveal(decode);
}

/// The low byte of a register set.
pub(crate) proof fn lemma_set8(code: Seq<u8>, i: int, n: int)
    requires
        0 <= n < 4 && code[i] == 0xb0 + n || 8 <= n < 12 && code[i] == 0x41 && code[i + 1] == 0xb0
            + n - 8,
    ensures
        ({
            let j = if n < 8 {
                i
            } else {
                i + 1
            };
            decode(code, i) == Some(
                (
                    Inst::Move {
                        to: Operand::Reg { n },
                        from: Operand::Imm { value: code[j + 1] as nat },
                        size: 1,
                    },
                    j - i + 2,
                ),
            )
        }),
{
    reveal(decode);
}

/// An instruction of eight bytes with a register and an operand.
pub(crate) proof fn lemma_wide(code: Seq<u8>, i: int, other: Operand, n: int)
    requires
        0x48 <= code[i] < 0x50,
        operand(code, i + 2, (code[i] / 2 % 2) as int, (code[i] % 2) as int) == Some((other, n)),
    ensures
        ({
            let op = code[i + 1];
            let reg = code[i + 2] / 8 % 8 + 8 * (code[i] / 4 % 2);
            let named = Operand::Reg { n: reg };
            &&& op == 0x89 ==> decode(code, i) == Some(
                (Inst::Move { to: other, from: named, size: 8 }, n + 2),
            )
            &&& op == 0x8b ==> decode(code, i) == Some(
                (Inst::Move { to: named, from: other, size: 8 }, n + 2),
            )
            &&& op == 0x8d && other is Mem ==> decode(code, i) == Some(
                (Inst::Address { n: reg, place: other->place }, n + 2),
            )
            &&& op == 0x39 ==> decode(code, i) == Some(
                (Inst::Compare { left: other, right: named, size: 8 }, n + 2),
            )
        }),
{
    reveal(decode);
}

/// An instruction of eight bytes with an operand alone, or with a byte behind it.
pub(crate) proof fn lemma_wide_digit(code: Seq<u8>, i: int, other: Operand, n: int)
    requires
        0x48 <= code[i] < 0x50,
        operand(code, i + 2, (code[i] / 2 % 2) as int, (code[i] % 2) as int) == Some((other, n)),
    ensures
        ({
            let op = code[i + 1];
            let digit = code[i + 2] / 8 % 8;
            let value = Operand::Imm { value: extended8(code[i + 2 + n]) };
            &&& op == 0x83 && digit == 7 ==> decode(code, i) == Some(
                (Inst::Compare { left: other, right: value, size: 8 }, n + 3),
            )
            &&& op == 0x83 && digit == 0 ==> decode(code, i) == Some(
                (Inst::Plus { to: other, from: value, size: 8 }, n + 3),
            )
            &&& op == 0xff && digit == 0 ==> decode(code, i) == Some(
                (Inst::Increment { to: other, size: 8 }, n + 2),
            )
            &&& op == 0xff && digit == 1 ==> decode(code, i) == Some(
                (Inst::Decrement { to: other, size: 8 }, n + 2),
            )
        }),
{
    reveal(decode);
}

/// An increment or decrement of eight bytes that no other processor cuts into.
pub(crate) proof fn lemma_locked(code: Seq<u8>, i: int, other: Operand, n: int)
    requires
        code[i] == 0xf0,
        0x48 <= code[i + 1] < 0x50,
        code[i + 2] == 0xff,
        operand(code, i + 3, (code[i + 1] / 2 % 2) as int, (code[i + 1] % 2) as int) == Some(
            (other, n),
        ),
    ensures
        code[i + 3] / 8 % 8 == 0 ==> decode(code, i) == Some(
            (Inst::Increment { to: other, size: 8 }, n + 3),
        ),
        code[i + 3] / 8 % 8 == 1 ==> decode(code, i) == Some(
            (Inst::Decrement { to: other, size: 8 }, n + 3),
        ),
{
    reveal(decode);
}

/// An instruction without a prefix, with a register and an operand, or with a byte behind
/// an operand.
pub(crate) proof fn lemma_plain(code: Seq<u8>, i: int, other: Operand, n: int)
    requires
        operand(code, i + 1, 0, 0) == Some((other, n)),
    ensures
        ({
            let op = code[i];
            let digit = code[i + 1] / 8 % 8;
            let named = Operand::Reg { n: digit as int };
            let value = Operand::Imm { value: extended8(code[i + 1 + n]) };
            &&& op == 0x89 ==> decode(code, i) == Some(
                (Inst::Move { to: other, from: named, size: 4 }, n + 1),
            )
            &&& op == 0x8b ==> decode(code, i) == Some(
                (Inst::Move { to: named, from: other, size: 4 }, n + 1),
            )
            &&& op == 0x84 ==> decode(code, i) == Some(
                (Inst::Test { left: other, right: named, size: 1 }, n + 1),
            )
            &&& op == 0x30 ==> decode(code, i) == Some(
                (Inst::Xor { to: other, from: named, size: 1 }, n + 1),
            )
            &&& op == 0x83 && digit == 7 ==> decode(code, i) == Some(
                (Inst::Compare { left: other, right: value, size: 4 }, n + 2),
            )
            &&& op == 0xff && digit == 2 ==> decode(code, i) == Some(
                (Inst::Call { target: other }, n + 1),
            )
            &&& op == 0xc6 && digit == 0 ==> decode(code, i) == Some(
                (
                    Inst::Move {
                        to: other,
                        from: Operand::Imm { value: code[i + 1 + n] as nat },
                        size: 1,
                    },
                    n + 2,
                ),
            )
        }),
{
    reveal(decode);
}

/// An instruction of less than eight bytes on the high registers.
pub(crate) proof fn lemma_high(code: Seq<u8>, i: int, other: Operand, n: int)
    requires
        0x40 <= code[i] < 0x48,
        operand(code, i + 2, (code[i] / 2 % 2) as int, (code[i] % 2) as int) == Some((other, n)),
    ensures
        ({
            let op = code[i + 1];
            let digit = code[i + 2] / 8 % 8;
            let reg = digit + 8 * (code[i] / 4 % 2);
            let named = Operand::Reg { n: reg };
            &&& op == 0x33 ==> decode(code, i) == Some(
                (Inst::Xor { to: named, from: other, size: 4 }, n + 2),
            )
            &&& op == 0x88 ==> decode(code, i) == Some(
                (Inst::Move { to: other, from: named, size: 1 }, n + 2),
            )
            &&& op == 0x8a ==> decode(code, i) == Some(
                (Inst::Move { to: named, from: other, size: 1 }, n + 2),
            )
            &&& op == 0xff && digit == 1 ==> decode(code, i) == Some(
                (Inst::Decrement { to: other, size: 4 }, n + 2),
            )
        }),
{
    reveal(decode);
}

/// A branch or a jump.
pub(crate) proof fn lemma_branch(code: Seq<u8>, i: int)
    ensures
        0x70 <= code[i] < 0x80 ==> decode(code, i) == Some(
            (Inst::Branch { condition: code[i] - 0x70, reach: signed8(code[i + 1]) }, 2int),
        ),
        code[i] == 0x0f && 0x80 <= code[i + 1] < 0x90 ==> decode(code, i) == Some(
            (Inst::Branch { condition: code[i + 1] - 0x80, reach: reach32(code, i + 2) }, 6int),
        ),
        code[i] == 0xe9 ==> decode(code, i) == Some(
            (Inst::Jump { reach: reach32(code, i + 1) }, 5int),
        ),
        code[i] == 0xeb ==> decode(code, i) == Some(
            (Inst::Jump { reach: signed8(code[i + 1]) }, 2int),
        ),
        code[i] == 0xc3 ==> decode(code, i) == Some((Inst::Return, 1int)),
        code[i] == 0x9c ==> decode(code, i) == Some((Inst::PushFlags, 1int)),
        code[i] == 0x9d ==> decode(code, i) == Some((Inst::PopFlags, 1int)),
{
    reveal(decode);
}

/// Four bytes of code, as a number and as a distance.
pub(crate) proof fn lemma_four(code: Seq<u8>, i: int)
    requires
        0 <= i,
        i + 4 <= code.len(),
    ensures
        number(code, i, 4) == code[i] + 0x100 * code[i + 1] + 0x1_0000 * code[i + 2] + 0x100_0000
            * code[i + 3],
        reach32(code, i) == signed32(number(code, i, 4)),
{
    four_bytes_count(code.subrange(i, i + 4));
}

/// A number of eight bytes that stands in the code.
pub(crate) proof fn lemma_eight(code: Seq<u8>, i: int, value: nat)
    requires
        stands(code, i, le_bytes(value, 8)),
        value < 0x1_0000_0000_0000_0000,
    ensures
        number(code, i, 8) == value,
{
    lemma_pow256();
    written_value_reads_back(value, 8);
}

/// A number of so many bytes is less than 256 to their power.
pub(crate) proof fn lemma_held_bound(memory: Memory, at: int, size: nat)
    ensures
        held(memory, at, size) < pow256(size),
{
    lemma_le_value_bound(load(memory, at, size));
}

/// The low byte of a register is what it was set to.
pub(crate) proof fn lemma_low_byte(before: nat, value: nat)
    requires
        value < 256,
    ensures
        replaced(before, 1, value) % 256 == value,
        replaced(before, 1, value) / 256 == before / 256,
        before < 0x1_0000_0000_0000_0000 ==> replaced(before, 1, value) < 0x1_0000_0000_0000_0000,
{
}

/// A byte of memory as a number.
pub(crate) proof fn lemma_held_byte(memory: Memory, at: int)
    ensures
        held(memory, at, 1) == memory(at),
{
    let byte = load(memory, at, 1);
    reveal_with_fuel(le_value, 2);
    assert(byte.skip(1).len() == 0);
}

/// What is put at an address is held there, and nothing else changes.
pub(crate) proof fn lemma_stored(memory: Memory, at: int, value: nat, size: nat)
    requires
        value < pow256(size),
    ensures
        held(put(memory, at, le_bytes(value, size)), at, size) == value,
        forall|a: int|
            !(at <= a < at + size) ==> #[trigger] put(memory, at, le_bytes(value, size))(a)
                == memory(a),
{
    written_value_reads_back(value, size);
    assert(load(put(memory, at, le_bytes(value, size)), at, size) =~= le_bytes(value, size));
}

/// What is copied is there as it was.
pub(crate) proof fn lemma_copied(memory: Memory, from: int, size: nat)
    ensures
        le_bytes(held(memory, from, size), size) == load(memory, from, size),
        le_bytes(held(memory, from, size), size).len() == size,
{
    read_value_writes_back(load(memory, from, size));
}

/// What was put at an address is there, and the memory around it is as it was.
pub(crate) proof fn lemma_put(memory: Memory, at: int, bytes: Seq<u8>)
    ensures
        load(put(memory, at, bytes), at, bytes.len()) == bytes,
        forall|other: int, size: nat|
            other + size <= at || at + bytes.len() <= other ==> #[trigger] load(
                put(memory, at, bytes),
                other,
                size,
            ) == load(memory, other, size),
        forall|a: int|
            !(at <= a < at + bytes.len()) ==> #[trigger] put(memory, at, bytes)(a) == memory(a),
{
    assert(load(put(memory, at, bytes), at, bytes.len()) =~= bytes);
    assert forall|other: int, size: nat|
        other + size <= at || at + bytes.len() <= other implies #[trigger] load(
        put(memory, at, bytes),
        other,
        size,
    ) == load(memory, other, size) by {
        assert(load(put(memory, at, bytes), other, size) =~= load(memory, other, size));
    }
}

/// Two copies, one behind the other, are one.
pub(crate) proof fn lemma_copies_join(memory: Memory, to: int, from: int, m: nat, n: nat)
    requires
        from + m + n <= to || to + m + n <= from,
    ensures
        ({
            let first = put(memory, to, load(memory, from, m));
            put(first, to + m, load(first, from + m, n)) == put(
                memory,
                to,
                load(memory, from, m + n),
            )
        }),
{
    let first = put(memory, to, load(memory, from, m));
    let whole = put(memory, to, load(memory, from, m + n));
    assert forall|a: int| #[trigger]
        put(first, to + m, load(first, from + m, n))(a) == whole(a) by {}
    assert(put(first, to + m, load(first, from + m, n)) =~= whole);
}

/// The bytes of what stands in the code.
pub(crate) proof fn lemma_bytes_stand(code: Seq<u8>, at: int, part: Seq<u8>)
    requires
        stands(code, at, part),
    ensures
        forall|j: int| 0 <= j < part.len() ==> code[at + j] == #[trigger] part[j],
{
    assert forall|j: int| 0 <= j < part.len() implies code[at + j] == #[trigger] part[j] by {
        assert(code.subrange(at, at + part.len())[j] == part[j]);
    }
}

/// A part of what stands in the code.
pub(crate) proof fn lemma_part_stands(code: Seq<u8>, at: int, whole: Seq<u8>, from: int, part: Seq<u8>)
    requires
        stands(code, at, whole),
        0 <= from,
        from + part.len() <= whole.len(),
        whole.subrange(from, from + part.len()) == part,
    ensures
        stands(code, at + from, part),
        forall|j: int| 0 <= j < part.len() ==> code[at + from + j] == #[trigger] part[j],
{
    assert(code.subrange(at + from, at + from + part.len()) =~= part) by {
        assert forall|j: int| 0 <= j < part.len() implies code[at + from + j] == part[j] by {
            assert(code.subrange(at, at + whole.len())[from + j] == whole[from + j]);
            assert(whole.subrange(from, from + part.len())[j] == whole[from + j]);
        }
    }
    assert forall|j: int| 0 <= j < part.len() implies code[at + from + j] == #[trigger] part[j] by {
        assert(code.subrange(at + from, at + from + part.len())[j] == part[j]);
    }
}

/// Bytes that stand at a place of the code.
pub open spec fn stands(code: Seq<u8>, at: int, part: Seq<u8>) -> bool {
    0 <= at && at + part.len() <= code.len() && code.subrange(at, at + part.len()) == part
}

}
