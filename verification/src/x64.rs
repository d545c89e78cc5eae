//! A compact decoder for the x64 instructions that may be copied to another
//! address unchanged.
//!
//! Saved instructions are copied verbatim into a trampoline. An instruction
//! whose meaning depends on its own address, or on a relative branch target,
//! is refused, and so is everything that the decoder does not know.

use vstd::prelude::*;
use vstd::slice::*;

verus! {

/// Why a span of code cannot be moved.
#[derive(Clone, Copy, Debug, PartialEq, Eq, Structural)]
pub enum RelocationFault {
    /// A relative branch or call.
    RelativeBranch,
    /// A relative conditional branch with a wide displacement.
    RelativeConditionalBranch,
    /// A memory operand addressed from the instruction pointer.
    InstructionRelative,
    /// The same with an address-size prefix.
    AddressRelative,
    /// An unknown or cut-off instruction that starts at this byte.
    Unsupported { start: usize },
}

/// Bytes that may stand in front of an opcode.
pub open spec fn is_prefix(byte: u8) -> bool {
    ||| 0x40 <= byte <= 0x4f
    ||| byte == 0x66
    ||| byte == 0x67
    ||| byte == 0xf0
    ||| byte == 0xf2
    ||| byte == 0xf3
    ||| byte == 0x26
    ||| byte == 0x2e
    ||| byte == 0x36
    ||| byte == 0x3e
    ||| byte == 0x64
    ||| byte == 0x65
}

/// Where the run of prefixes that starts at `from` ends.
pub open spec fn opcode_at(code: Seq<u8>, from: int) -> int
    decreases code.len() - from,
{
    if 0 <= from < code.len() && is_prefix(code[from]) {
        opcode_at(code, from + 1)
    } else {
        from
    }
}

/// Whether a register-extension prefix widens the operand. Such a prefix counts only
/// directly before the opcode.
pub open spec fn wide_operand(code: Seq<u8>, from: int, wide: bool) -> bool
    decreases code.len() - from,
{
    if 0 <= from < code.len() && is_prefix(code[from]) {
        wide_operand(
            code,
            from + 1,
            if 0x40 <= code[from] <= 0x4f {
                code[from] & 0x08 != 0
            } else {
                false
            },
        )
    } else {
        wide
    }
}

/// Whether the run of prefixes overrides the address size.
pub open spec fn short_address(code: Seq<u8>, from: int) -> bool
    decreases code.len() - from,
{
    &&& 0 <= from < code.len()
    &&& is_prefix(code[from])
    &&& code[from] == 0x67 || short_address(code, from + 1)
}

/// Whether the run of prefixes overrides the operand size.
pub open spec fn short_operand(code: Seq<u8>, from: int) -> bool
    decreases code.len() - from,
{
    &&& 0 <= from < code.len()
    &&& is_prefix(code[from])
    &&& code[from] == 0x66 || short_operand(code, from + 1)
}

/// The bytes of an immediate as long as the operand, where that is not 8 bytes long.
pub open spec fn full_immediate(wide: bool, half: bool) -> usize {
    if half && !wide {
        2
    } else {
        4
    }
}

/// Opcodes that branch relative to the instruction pointer.
pub open spec fn is_relative_branch(opcode: u8) -> bool {
    ||| opcode == 0xe8
    ||| opcode == 0xe9
    ||| opcode == 0xeb
    ||| 0xe0 <= opcode <= 0xe3
    ||| 0x70 <= opcode <= 0x7f
}

/// What follows an opcode.
#[derive(Clone, Copy, PartialEq, Eq, Structural)]
pub enum Operands {
    /// An immediate of so many bytes.
    Immediate { bytes: usize },
    /// A register or memory operand, then an immediate of so many bytes.
    Addressed { bytes: usize },
    /// A second opcode byte.
    Extended,
    /// Nothing that the decoder knows.
    Unknown,
}

/// The operands of a one-byte opcode.
pub open spec fn operands(opcode: u8, wide: bool, half: bool) -> Operands {
    if opcode == 0x90 || opcode == 0xc3 || opcode == 0xcc || 0x50 <= opcode <= 0x5f {
        Operands::Immediate { bytes: 0 }
    } else if opcode == 0xc2 {
        Operands::Immediate { bytes: 2 }
    } else if 0xb8 <= opcode <= 0xbf {
        Operands::Immediate {
            bytes: if wide {
                8
            } else {
                full_immediate(wide, half)
            },
        }
    } else if opcode <= 0x3b && opcode & 0x04 == 0 && opcode & 0x07 <= 0x03 {
        Operands::Addressed { bytes: 0 }
    } else if opcode == 0x63 || 0x84 <= opcode <= 0x8f || 0xd0 <= opcode <= 0xd3 || 0xf6 <= opcode
        <= 0xf7 || 0xfe <= opcode {
        Operands::Addressed { bytes: 0 }
    } else if opcode == 0x69 || opcode == 0x81 || opcode == 0xc7 {
        Operands::Addressed { bytes: full_immediate(wide, half) }
    } else if opcode == 0x6b || opcode == 0x80 || opcode == 0x82 || opcode == 0x83 || opcode == 0xc0
        || opcode == 0xc1 || opcode == 0xc6 {
        Operands::Addressed { bytes: 1 }
    } else if opcode == 0x0f {
        Operands::Extended
    } else {
        Operands::Unknown
    }
}

/// Second opcode bytes that take a register or memory operand and nothing more.
pub open spec fn is_known_extension(byte: u8) -> bool {
    ||| byte == 0x10
    ||| byte == 0x11
    ||| byte == 0x1f
    ||| byte == 0x28
    ||| byte == 0x29
    ||| byte == 0x49
    ||| byte == 0xaf
    ||| byte == 0xb6
    ||| byte == 0xb7
    ||| byte == 0xbe
    ||| byte == 0xbf
}

/// Opcodes that are known with the first extension alone: others of the same opcode
/// are branches, prefixes or nothing.
pub open spec fn takes_first_extension(opcode: u8) -> bool {
    opcode == 0x8f || opcode == 0xc6 || opcode == 0xc7
}

/// Where an instruction ends whose register or memory operand starts at `at`.
pub open spec fn operand_end(
    code: Seq<u8>,
    start: int,
    at: int,
    opcode: u8,
    immediate: int,
) -> Result<int, RelocationFault> {
    let cut_off = Err(RelocationFault::Unsupported { start: start as usize });
    if at >= code.len() {
        cut_off
    } else {
        let mode = code[at] >> 6;
        let register = (code[at] >> 3) & 7;
        let base = code[at] & 7;
        let indexed = mode != 3 && base == 4;
        if takes_first_extension(opcode) && register != 0 {
            cut_off
        } else if mode == 0 && base == 5 {
            Err(
                if short_address(code, start) {
                    RelocationFault::AddressRelative
                } else {
                    RelocationFault::InstructionRelative
                },
            )
        } else if indexed && at + 1 >= code.len() {
            cut_off
        } else {
            let index: int = if !indexed {
                0
            } else if mode == 0 && code[at + 1] & 7 == 5 {
                5
            } else {
                1
            };
            let displacement: int = if mode == 1 {
                1
            } else if mode == 2 {
                4
            } else {
                0
            };
            let tail: int = if opcode == 0xf6 && register <= 1 {
                1
            } else if opcode == 0xf7 && register <= 1 {
                full_immediate(
                    wide_operand(code, start, false),
                    short_operand(code, start),
                ) as int
            } else {
                immediate
            };
            let end = at + 1 + index + displacement + tail;
            if end > code.len() {
                cut_off
            } else {
                Ok(end)
            }
        }
    }
}

/// Where the instruction that starts at `start` ends, if it can be moved.
pub open spec fn instruction_end(code: Seq<u8>, start: int) -> Result<int, RelocationFault> {
    let cut_off = Err(RelocationFault::Unsupported { start: start as usize });
    let at = opcode_at(code, start);
    if at >= code.len() {
        cut_off
    } else if is_relative_branch(code[at]) {
        Err(RelocationFault::RelativeBranch)
    } else {
        match operands(
            code[at],
            wide_operand(code, start, false),
            short_operand(code, start),
        ) {
            Operands::Immediate { bytes } => if at + 1 + bytes > code.len() {
                cut_off
            } else {
                Ok(at + 1 + bytes)
            },
            Operands::Addressed { bytes } => operand_end(
                code,
                start,
                at + 1,
                code[at],
                bytes as int,
            ),
            Operands::Extended => if at + 1 >= code.len() {
                cut_off
            } else if 0x80 <= code[at + 1] <= 0x8f {
                Err(RelocationFault::RelativeConditionalBranch)
            } else if is_known_extension(code[at + 1]) {
                operand_end(code, start, at + 2, code[at], 0)
            } else {
                cut_off
            },
            Operands::Unknown => cut_off,
        }
    }
}

/// The first fault of a span of code from `start` on, if it has one.
pub open spec fn first_fault(code: Seq<u8>, start: int) -> Option<RelocationFault>
    decreases code.len() - start,
{
    if start >= code.len() {
        None
    } else {
        match instruction_end(code, start) {
            Err(fault) => Some(fault),
            Ok(end) => if end > start {
                first_fault(code, end)
            } else {
                None
            },
        }
    }
}

/// A span of complete instructions each of which can be moved.
pub open spec fn is_relocatable(code: Seq<u8>) -> bool {
    first_fault(code, 0) is None
}

proof fn lemma_opcode_at(code: Seq<u8>, from: int)
    requires
        0 <= from <= code.len(),
    ensures
        from <= opcode_at(code, from) <= code.len(),
    decreases code.len() - from,
{
    if from < code.len() && is_prefix(code[from]) {
        lemma_opcode_at(code, from + 1);
    }
}

/// An instruction takes at least one byte and ends inside the span.
pub proof fn lemma_instruction_end(code: Seq<u8>, start: int)
    requires
        0 <= start < code.len(),
    ensures
        instruction_end(code, start) matches Ok(end) ==> start < end <= code.len(),
{
    lemma_opcode_at(code, start);
}

fn prefix(byte: u8) -> (yes: bool)
    ensures
        yes == is_prefix(byte),
{
    (0x40 <= byte && byte <= 0x4f) || byte == 0x66 || byte == 0x67 || byte == 0xf0 || byte == 0xf2
        || byte == 0xf3 || byte == 0x26 || byte == 0x2e || byte == 0x36 || byte == 0x3e || byte
        == 0x64 || byte == 0x65
}

fn immediate_len(wide: bool, half: bool) -> (bytes: usize)
    ensures
        bytes == full_immediate(wide, half),
{
    if half && !wide {
        2
    } else {
        4
    }
}

fn operands_of(opcode: u8, wide: bool, half: bool) -> (found: Operands)
    ensures
        found == operands(opcode, wide, half),
{
    proof {
        assert(opcode <= 0x3b && opcode & 0x04 == 0 && opcode & 0x07 <= 0x03 <==> (opcode <= 0x03
            || (0x08 <= opcode && opcode <= 0x0b) || (0x10 <= opcode && opcode <= 0x13) || (0x18
            <= opcode && opcode <= 0x1b) || (0x20 <= opcode && opcode <= 0x23) || (0x28 <= opcode
            && opcode <= 0x2b) || (0x30 <= opcode && opcode <= 0x33) || (0x38 <= opcode && opcode
            <= 0x3b))) by (bit_vector);
    }
    match opcode {
        0x90 | 0xc3 | 0xcc | 0x50..=0x5f => Operands::Immediate { bytes: 0 },
        0xc2 => Operands::Immediate { bytes: 2 },
        0xb8..=0xbf => Operands::Immediate {
            bytes: if wide {
                8
            } else {
                immediate_len(wide, half)
            },
        },
        0x00..=0x03
        | 0x08..=0x0b
        | 0x10..=0x13
        | 0x18..=0x1b
        | 0x20..=0x23
        | 0x28..=0x2b
        | 0x30..=0x33
        | 0x38..=0x3b
        | 0x63
        | 0x84..=0x8f
        | 0xd0..=0xd3
        | 0xf6
        | 0xf7
        | 0xfe
        | 0xff => Operands::Addressed { bytes: 0 },
        0x69 | 0x81 | 0xc7 => Operands::Addressed { bytes: immediate_len(wide, half) },
        0x6b | 0x80 | 0x82 | 0x83 | 0xc0 | 0xc1 | 0xc6 => Operands::Addressed { bytes: 1 },
        0x0f => Operands::Extended,
        _ => Operands::Unknown,
    }
}

fn known_extension(byte: u8) -> (yes: bool)
    ensures
        yes == is_known_extension(byte),
{
    matches!(byte, 0x10 | 0x11 | 0x1f | 0x28 | 0x29 | 0x49 | 0xaf | 0xb6 | 0xb7 | 0xbe | 0xbf)
}

/// Skips the register or memory operand and the immediate of an instruction.
fn skip_operand(
    code: &[u8],
    start: usize,
    at: usize,
    opcode: u8,
    immediate: usize,
    short: bool,
    full: usize,
) -> (end: Result<usize, RelocationFault>)
    requires
        start <= at <= code@.len(),
        immediate <= 8,
        short == short_address(code@, start as int),
        full == full_immediate(
            wide_operand(code@, start as int, false),
            short_operand(code@, start as int),
        ),
    ensures
        match (end, operand_end(code@, start as int, at as int, opcode, immediate as int)) {
            (Ok(n), Ok(m)) => n == m,
            (Err(f), Err(g)) => f == g,
            _ => false,
        },
{
    let cut_off = RelocationFault::Unsupported { start };
    if at >= code.len() {
        return Err(cut_off);
    }
    let value: u8 = code[at];
    let mode: u8 = value >> 6;
    let register: u8 = (value >> 3) & 7;
    let base: u8 = value & 7;
    if matches!(opcode, 0x8f | 0xc6 | 0xc7) && register != 0 {
        return Err(cut_off);
    }
    if mode == 0 && base == 5 {
        return Err(
            if short {
                RelocationFault::AddressRelative
            } else {
                RelocationFault::InstructionRelative
            },
        );
    }
    let mut rest: usize = 0;
    if mode != 3 && base == 4 {
        if at + 1 >= code.len() {
            return Err(cut_off);
        }
        rest = if mode == 0 && (code[at + 1] & 7) == 5 {
            5
        } else {
            1
        };
    }
    rest += match mode {
        1 => 1,
        2 => 4,
        _ => 0,
    };
    rest += match opcode {
        0xf6 if register <= 1 => 1,
        0xf7 if register <= 1 => full,
        _ => immediate,
    };
    if code.len() - (at + 1) < rest {
        return Err(cut_off);
    }
    Ok(at + 1 + rest)
}

/// Decodes one instruction and returns where it ends.
pub fn decode_instruction(code: &[u8], start: usize) -> (end: Result<usize, RelocationFault>)
    requires
        start < code@.len(),
    ensures
        match (end, instruction_end(code@, start as int)) {
            (Ok(n), Ok(m)) => n == m,
            (Err(f), Err(g)) => f == g,
            _ => false,
        },
{
    let mut at: usize = start;
    let mut wide = false;
    let mut short = false;
    let mut half = false;
    while at < code.len() && prefix(code[at])
        invariant
            start <= at <= code@.len(),
            opcode_at(code@, at as int) == opcode_at(code@, start as int),
            wide_operand(code@, at as int, wide) == wide_operand(code@, start as int, false),
            short_address(code@, start as int) == (short || short_address(code@, at as int)),
            short_operand(code@, start as int) == (half || short_operand(code@, at as int)),
        decreases code@.len() - at,
    {
        let byte: u8 = code[at];
        if 0x40 <= byte && byte <= 0x4f {
            wide = byte & 0x08 != 0;
        } else {
            wide = false;
            if byte == 0x67 {
                short = true;
            } else if byte == 0x66 {
                half = true;
            }
        }
        at += 1;
    }
    let cut_off = RelocationFault::Unsupported { start };
    if at >= code.len() {
        return Err(cut_off);
    }
    let opcode: u8 = code[at];
    if matches!(opcode, 0xe8 | 0xe9 | 0xeb | 0xe0..=0xe3 | 0x70..=0x7f) {
        return Err(RelocationFault::RelativeBranch);
    }
    let full: usize = immediate_len(wide, half);
    match operands_of(opcode, wide, half) {
        Operands::Immediate { bytes } => {
            if code.len() - (at + 1) < bytes {
                Err(cut_off)
            } else {
                Ok(at + 1 + bytes)
            }
        },
        Operands::Addressed { bytes } => skip_operand(
            code,
            start,
            at + 1,
            opcode,
            bytes,
            short,
            full,
        ),
        Operands::Extended => {
            if at + 1 >= code.len() {
                return Err(cut_off);
            }
            let extended: u8 = code[at + 1];
            if 0x80 <= extended && extended <= 0x8f {
                Err(RelocationFault::RelativeConditionalBranch)
            } else if known_extension(extended) {
                skip_operand(code, start, at + 2, opcode, 0, short, full)
            } else {
                Err(cut_off)
            }
        },
        Operands::Unknown => Err(cut_off),
    }
}

/// Checks that a span holds complete instructions that can be moved, and
/// names its first fault where it does not.
pub fn check_relocatable(code: &[u8]) -> (checked: Result<(), RelocationFault>)
    ensures
        checked is Ok <==> is_relocatable(code@),
        checked matches Err(fault) ==> first_fault(code@, 0) == Some(fault),
{
    let mut offset: usize = 0;
    while offset < code.len()
        invariant
            offset <= code@.len(),
            first_fault(code@, offset as int) == first_fault(code@, 0),
        decreases code@.len() - offset,
    {
        proof {
            lemma_instruction_end(code@, offset as int);
        }
        match decode_instruction(code, offset) {
            Ok(end) => {
                offset = end;
            },
            Err(fault) => {
                return Err(fault);
            },
        }
    }
    Ok(())
}

/// The length of the shortest span from `minimum` bytes on that can be moved.
pub open spec fn shortest_span(code: Seq<u8>, minimum: int) -> Option<int>
    decreases code.len() + 1 - minimum,
{
    if minimum > code.len() {
        None
    } else if is_relocatable(code.take(minimum)) {
        Some(minimum)
    } else {
        shortest_span(code, minimum + 1)
    }
}

/// The shortest span of at least `minimum` bytes that can be moved.
pub fn shortest_relocatable(code: &[u8], minimum: usize) -> (size: Option<usize>)
    ensures
        match size {
            Some(n) => shortest_span(code@, minimum as int) == Some(n as int),
            None => shortest_span(code@, minimum as int) is None,
        },
        size matches Some(n) ==> minimum <= n <= code@.len() && is_relocatable(code@.take(n as int))
            && forall|k: int|
            minimum <= k < n ==> !is_relocatable(#[trigger] code@.take(k)),
        size is None ==> forall|k: int|
            minimum <= k <= code@.len() ==> !is_relocatable(#[trigger] code@.take(k)),
{
    let mut size: usize = minimum;
    while size <= code.len()
        invariant
            minimum <= size,
            shortest_span(code@, minimum as int) == shortest_span(code@, size as int),
            forall|k: int|
                minimum <= k < size && k <= code@.len() ==> !is_relocatable(
                    #[trigger] code@.take(k),
                ),
        decreases code@.len() + 1 - size,
    {
        let span = slice_subrange(code, 0, size);
        proof {
            assert(span@ =~= code@.take(size as int));
        }
        if check_relocatable(span).is_ok() {
            return Some(size);
        }
        if size == usize::MAX {
            proof {
                assert(shortest_span(code@, size + 1) is None);
            }
            return None;
        }
        size += 1;
    }
    None
}

/// What is decoded at `start` of `code` is decoded alike `shift` bytes into
/// any longer span that holds the same bytes there.
proof fn lemma_prefixes_embed(code: Seq<u8>, from: int, wider: Seq<u8>, shift: int, wide: bool)
    requires
        0 <= from <= code.len(),
        0 <= shift,
        shift + code.len() <= wider.len(),
        forall|i: int| 0 <= i < code.len() ==> code[i] == #[trigger] wider[shift + i],
        opcode_at(code, from) < code.len() || shift + code.len() == wider.len(),
    ensures
        opcode_at(wider, shift + from) == shift + opcode_at(code, from),
        wide_operand(wider, shift + from, wide) == wide_operand(code, from, wide),
        short_address(wider, shift + from) == short_address(code, from),
        short_operand(wider, shift + from) == short_operand(code, from),
    decreases code.len() - from,
{
    lemma_opcode_at(code, from);
    if from < code.len() {
        assert(code[from] == wider[shift + from]);
    }
    if from < code.len() && is_prefix(code[from]) {
        let next = if 0x40 <= code[from] <= 0x4f {
            code[from] & 0x08 != 0
        } else {
            false
        };
        lemma_prefixes_embed(code, from + 1, wider, shift, next);
    }
}

proof fn lemma_instruction_embeds(code: Seq<u8>, start: int, wider: Seq<u8>, shift: int)
    requires
        0 <= start < code.len(),
        0 <= shift,
        shift + code.len() <= wider.len(),
        forall|i: int| 0 <= i < code.len() ==> code[i] == #[trigger] wider[shift + i],
        instruction_end(code, start) is Ok,
    ensures
        instruction_end(wider, shift + start) == Ok::<int, RelocationFault>(
            shift + instruction_end(code, start)->Ok_0,
        ),
{
    lemma_opcode_at(code, start);
    lemma_prefixes_embed(code, start, wider, shift, false);
    let at = opcode_at(code, start);
    assert(code[at] == wider[shift + at]);
    if at + 1 < code.len() {
        assert(code[at + 1] == wider[shift + (at + 1)]);
    }
    if at + 2 < code.len() {
        assert(code[at + 2] == wider[shift + (at + 2)]);
    }
    if at + 3 < code.len() {
        assert(code[at + 3] == wider[shift + (at + 3)]);
    }
}

proof fn lemma_span_embeds(code: Seq<u8>, start: int, wider: Seq<u8>, shift: int)
    requires
        0 <= start <= code.len(),
        0 <= shift,
        shift + code.len() <= wider.len(),
        forall|i: int| 0 <= i < code.len() ==> code[i] == #[trigger] wider[shift + i],
        first_fault(code, start) is None,
    ensures
        first_fault(wider, shift + start) == first_fault(wider, shift + code.len()),
    decreases code.len() - start,
{
    if start < code.len() {
        lemma_instruction_end(code, start);
        lemma_instruction_embeds(code, start, wider, shift);
        lemma_span_embeds(code, instruction_end(code, start)->Ok_0, wider, shift);
    }
}

proof fn lemma_tail(code: Seq<u8>, start: int, wider: Seq<u8>, shift: int)
    requires
        0 <= start <= code.len(),
        0 <= shift,
        shift + code.len() == wider.len(),
        forall|i: int| 0 <= i < code.len() ==> code[i] == #[trigger] wider[shift + i],
    ensures
        first_fault(wider, shift + start) is None <==> first_fault(code, start) is None,
    decreases code.len() - start,
{
    if start < code.len() {
        lemma_instruction_end(code, start);
        lemma_opcode_at(code, start);
        lemma_prefixes_embed(code, start, wider, shift, false);
        let at = opcode_at(code, start);
        if at < code.len() {
            assert(code[at] == wider[shift + at]);
        }
        if at + 1 < code.len() {
            assert(code[at + 1] == wider[shift + (at + 1)]);
        }
        if at + 2 < code.len() {
            assert(code[at + 2] == wider[shift + (at + 2)]);
        }
        if at + 3 < code.len() {
            assert(code[at + 3] == wider[shift + (at + 3)]);
        }
        match instruction_end(code, start) {
            Ok(end) => {
                lemma_instruction_embeds(code, start, wider, shift);
                lemma_tail(code, end, wider, shift);
            },
            Err(_) => {
                assert(instruction_end(wider, shift + start) is Err);
            },
        }
    }
}

/// Behind a span that can be moved, what follows decides: the joined span can be
/// moved just where the rest can.
pub proof fn relocatable_spans_join(first: Seq<u8>, second: Seq<u8>)
    requires
        is_relocatable(first),
    ensures
        is_relocatable(first + second) <==> is_relocatable(second),
{
    let both = first + second;
    lemma_span_embeds(first, 0, both, 0);
    lemma_tail(second, 0, both, first.len() as int);
}

}
