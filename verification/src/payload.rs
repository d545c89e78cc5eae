//! The code and the memory of the feature hooks.

use vstd::prelude::*;

use crate::assembly::{
    assembly, lemma_assembled_len, offset, place, qword, raw, well_branched, BranchCode, Label,
    Piece,
};
use crate::codec::{
    copy_bytes, le_bytes, le_value, lemma_le_bytes_len, lemma_pow256, push_all, push_i32, push_u64,
    signed32, wrap32, written_value_reads_back, zeros,
};
use crate::protocol::FeatureHookExport;

verus! {

/// The longest chat message, in UTF-16 units.
pub const MAX_CHAT_WCHARS: usize = 79;

/// The size of the buffer for a chat message, with its end mark.
pub const CHAT_BUFFER_BYTES: usize = 160;

/// What a feature hook's code does and what it is given.
#[derive(Clone, Copy, Debug)]
pub enum PayloadKind {
    Movement {
        first_je: usize,
        second_je: usize,
        first_original: [u8; 8],
        second_original: [u8; 8],
    },
    Mouse,
    Chat,
    ChatSend { send: usize, buddy: usize, operator_new: usize },
    Dance,
}

proof fn lemma_marked(pieces: Seq<Piece>, label: Label, i: int, n: int)
    requires
        0 <= i < n <= pieces.len(),
        pieces[i] == (Piece::Mark { label }),
    ensures
        place(pieces, label, n) is Some,
    decreases n - i,
{
    if i < n - 1 {
        lemma_marked(pieces, label, i, n - 1);
    }
}

/// The code that moves the player when it is asked to.
pub open spec fn movement_pieces(
    helper: usize,
    first_je: usize,
    second_je: usize,
    first_original: Seq<u8>,
    second_original: Seq<u8>,
) -> Seq<Piece> {
    seq![
        raw(seq![0x50u8, 0x48, 0xa1]),
        qword((helper + 13) as usize),
        raw(seq![0x48u8, 0x39, 0xc1, 0x58]),
        Piece::Branch { condition: 0x85, label: Label::Done },
        raw(seq![0x50u8, 0xa0]),
        qword((helper + 12) as usize),
        raw(seq![0x84u8, 0xc0, 0x58]),
        Piece::Branch { condition: 0x84, label: Label::Done },
        raw(seq![0x50u8, 0x48, 0xa1]),
        qword(helper),
        raw(seq![0x48u8, 0x89, 0x02, 0xa1]),
        qword((helper + 8) as usize),
        raw(seq![0x89u8, 0x42, 0x08]),
        raw(seq![0x48u8, 0xb8]),
        raw(first_original),
        raw(seq![0x48u8, 0xa3]),
        qword(first_je),
        raw(seq![0x48u8, 0xb8]),
        raw(second_original),
        raw(seq![0x48u8, 0xa3]),
        qword(second_je),
        raw(seq![0x30u8, 0xc0, 0xa2]),
        qword((helper + 12) as usize),
        raw(seq![0x58u8]),
        Piece::Mark { label: Label::Done },
    ]
}

pub(crate) proof fn lemma_movement(
    helper: usize,
    first_je: usize,
    second_je: usize,
    first_original: Seq<u8>,
    second_original: Seq<u8>,
)
    requires
        first_original.len() == 8,
        second_original.len() == 8,
    ensures
        ({
            let pieces = movement_pieces(
                helper,
                first_je,
                second_je,
                first_original,
                second_original,
            );
            well_branched(pieces) && assembly(pieces).len() == 118
        }),
{
    let pieces = movement_pieces(helper, first_je, second_je, first_original, second_original);
    lemma_le_bytes_len(helper as nat, 8);
    lemma_le_bytes_len((helper + 8) as usize as nat, 8);
    lemma_le_bytes_len((helper + 12) as usize as nat, 8);
    lemma_le_bytes_len((helper + 13) as usize as nat, 8);
    lemma_le_bytes_len(first_je as nat, 8);
    lemma_le_bytes_len(second_je as nat, 8);
    reveal_with_fuel(offset, 27);
    lemma_assembled_len(pieces, pieces.len() as int);
    assert(place(pieces, Label::Done, pieces.len() as int) is Some);
}

/// Builds the code that moves the player when it is asked to.
pub fn movement_code(
    helper: usize,
    first_je: usize,
    second_je: usize,
    first_original: &[u8],
    second_original: &[u8],
) -> (bytes: Vec<u8>)
    requires
        helper + 13 <= usize::MAX,
        first_original@.len() == 8,
        second_original@.len() == 8,
    ensures
        bytes@ == assembly(
            movement_pieces(
                helper,
                first_je,
                second_je,
                first_original@,
                second_original@,
            ),
        ),
        bytes@.len() == 118,
{
    let mut code = BranchCode::new();
    code.put(vec![0x50, 0x48, 0xa1]);
    code.qword(helper + 13);
    code.put(vec![0x48, 0x39, 0xc1, 0x58]);
    code.jcc(0x85, Label::Done);
    code.put(vec![0x50, 0xa0]);
    code.qword(helper + 12);
    code.put(vec![0x84, 0xc0, 0x58]);
    code.jcc(0x84, Label::Done);
    code.put(vec![0x50, 0x48, 0xa1]);
    code.qword(helper);
    code.put(vec![0x48, 0x89, 0x02, 0xa1]);
    code.qword(helper + 8);
    code.put(vec![0x89, 0x42, 0x08]);
    code.put(vec![0x48, 0xb8]);
    code.put(copy_bytes(first_original));
    code.put(vec![0x48, 0xa3]);
    code.qword(first_je);
    code.put(vec![0x48, 0xb8]);
    code.put(copy_bytes(second_original));
    code.put(vec![0x48, 0xa3]);
    code.qword(second_je);
    code.put(vec![0x30, 0xc0, 0xa2]);
    code.qword(helper + 12);
    code.put(vec![0x58]);
    code.label(Label::Done);
    proof {
        assert(code@ =~~= movement_pieces(
            helper,
            first_je,
            second_je,
            first_original@,
            second_original@,
        ));
        lemma_movement(helper, first_je, second_je, first_original@, second_original@);
    }
    code.finish()
}

fn put(code: &mut Vec<u8>, bytes: Vec<u8>)
    ensures
        final(code)@ == old(code)@ + bytes@,
{
    push_all(code, bytes.as_slice());
}

/// The code that answers with the chosen cursor position.
pub open spec fn mouse_bytes(position: usize) -> Seq<u8> {
    seq![0x48u8, 0xa1]
        + le_bytes(position as nat, 8)
        + seq![0x48u8, 0x89, 0x01, 0xb8, 0x01, 0, 0, 0]
}

/// Builds the code. The code that answers with the chosen cursor position.
pub fn mouse_code(position: usize) -> (bytes: Vec<u8>)
    ensures
        bytes@ == mouse_bytes(position),
        bytes@.len() == 18,
{
    let mut code: Vec<u8> = Vec::new();
    put(&mut code, vec![0x48, 0xa1]);
    push_u64(&mut code, position as u64);
    put(&mut code, vec![0x48, 0x89, 0x01, 0xb8, 0x01, 0, 0, 0]);
    proof {
        lemma_le_bytes_len(position as nat, 8);
        assert(code@ =~= mouse_bytes(position));
    }
    code
}

/// The code that remembers where the moves of the dance game are.
pub open spec fn dance_bytes(moves: usize) -> Seq<u8> {
    seq![0x50u8, 0x51, 0x48, 0x8b, 0x08, 0x48, 0xb8]
        + le_bytes(moves as nat, 8)
        + seq![0x48u8, 0x89, 0x08, 0x59, 0x58]
}

/// Builds the code. The code that remembers where the moves of the dance game are.
pub fn dance_code(moves: usize) -> (bytes: Vec<u8>)
    ensures
        bytes@ == dance_bytes(moves),
        bytes@.len() == 20,
{
    let mut code: Vec<u8> = Vec::new();
    put(&mut code, vec![0x50, 0x51, 0x48, 0x8b, 0x08, 0x48, 0xb8]);
    push_u64(&mut code, moves as u64);
    put(&mut code, vec![0x48, 0x89, 0x08, 0x59, 0x58]);
    proof {
        lemma_le_bytes_len(moves as nat, 8);
        assert(code@ =~= dance_bytes(moves));
    }
    code
}

/// The code that copies a chat message out.
pub open spec fn chat_bytes(
    owner: usize,
    source: usize,
    length: usize,
    buffer: usize,
    counter: usize,
) -> Seq<u8> {
    seq![0x51u8, 0x52, 0x41, 0x50, 0x41, 0x51, 0x50, 0x48, 0x89, 0xf0, 0x48, 0xa3]
        + le_bytes(owner as nat, 8)
        + seq![0x58u8, 0x50, 0x48, 0x8b, 0x45, 0x80, 0x48, 0xa3]
        + le_bytes(source as nat, 8)
        + seq![0x58u8, 0x50, 0x48, 0x8b, 0x40, 0x10, 0x48, 0xa3]
        + le_bytes(length as nat, 8)
        + seq![
            0x58u8, 0x48, 0x8b, 0xd0, 0x48, 0x83, 0x78, 0x18, 0x08, 0x72, 0x03, 0x48, 0x8b, 0x10,
            0x49, 0xb8,
        ]
        + le_bytes(buffer as nat, 8)
        + seq![
            0x41u8, 0xb9, 0x14, 0, 0, 0, 0x48, 0x8b, 0x0a, 0x49, 0x89, 0x08, 0x48, 0x83, 0xc2, 0x08,
            0x49, 0x83, 0xc0, 0x08, 0x41, 0xff, 0xc9, 0x75, 0xed, 0x50, 0x48, 0xa1,
        ]
        + le_bytes(counter as nat, 8)
        + seq![0x48u8, 0xff, 0xc0, 0x48, 0xa3]
        + le_bytes(counter as nat, 8)
        + seq![0x58u8, 0x41, 0x59, 0x41, 0x58, 0x5a, 0x59]
}

/// Builds the code. The code that copies a chat message out.
pub fn chat_code(
    owner: usize,
    source: usize,
    length: usize,
    buffer: usize,
    counter: usize,
) -> (bytes: Vec<u8>)
    ensures
        bytes@ == chat_bytes(owner, source, length, buffer, counter),
        bytes@.len() == 132,
{
    let mut code: Vec<u8> = Vec::new();
    put(&mut code, vec![0x51, 0x52, 0x41, 0x50, 0x41, 0x51, 0x50, 0x48, 0x89, 0xf0, 0x48, 0xa3]);
    push_u64(&mut code, owner as u64);
    put(&mut code, vec![0x58, 0x50, 0x48, 0x8b, 0x45, 0x80, 0x48, 0xa3]);
    push_u64(&mut code, source as u64);
    put(&mut code, vec![0x58, 0x50, 0x48, 0x8b, 0x40, 0x10, 0x48, 0xa3]);
    push_u64(&mut code, length as u64);
    put(
        &mut code,
        vec![0x58, 0x48, 0x8b, 0xd0, 0x48, 0x83, 0x78, 0x18, 0x08, 0x72, 0x03, 0x48, 0x8b, 0x10, 0x49, 0xb8],
    );
    push_u64(&mut code, buffer as u64);
    put(
        &mut code,
        vec![0x41, 0xb9, 0x14, 0, 0, 0, 0x48, 0x8b, 0x0a, 0x49, 0x89, 0x08, 0x48, 0x83, 0xc2, 0x08, 0x49, 0x83, 0xc0, 0x08, 0x41, 0xff, 0xc9, 0x75, 0xed, 0x50, 0x48, 0xa1],
    );
    push_u64(&mut code, counter as u64);
    put(&mut code, vec![0x48, 0xff, 0xc0, 0x48, 0xa3]);
    push_u64(&mut code, counter as u64);
    put(&mut code, vec![0x58, 0x41, 0x59, 0x41, 0x58, 0x5a, 0x59]);
    proof {
        lemma_le_bytes_len(owner as nat, 8);
        lemma_le_bytes_len(source as nat, 8);
        lemma_le_bytes_len(length as nat, 8);
        lemma_le_bytes_len(buffer as nat, 8);
        lemma_le_bytes_len(counter as nat, 8);
        assert(code@ =~= chat_bytes(owner, source, length, buffer, counter));
    }
    code
}

/// The code that sends a chat message when it is asked to, on the game's own thread.
pub open spec fn send_pieces(
    trigger: usize,
    send_struct: usize,
    message_buffer: usize,
    send: usize,
    operator_new: usize,
) -> Seq<Piece> {
    seq![
        raw(seq![0x50u8, 0xa0]),
        qword(trigger),
        raw(seq![0x84u8, 0xc0, 0x58]),
        Piece::Branch { condition: 0x84, label: Label::Done },
        raw(seq![
            0x50u8, 0x51, 0x52, 0x41, 0x50, 0x41, 0x51, 0x41, 0x52, 0x41, 0x53, 0x48, 0x81, 0xec,
            0x28, 0, 0, 0,
        ]),
        raw(seq![0x48u8, 0xa1]),
        qword((send_struct + 0x10) as usize),
        raw(seq![0x48u8, 0x83, 0xf8, 0x07]),
        Piece::Branch { condition: 0x86, label: Label::ChatReady },
        raw(seq![0x48u8, 0x8d, 0x4c, 0, 0x02, 0x48, 0xb8]),
        qword(operator_new),
        raw(seq![0xffu8, 0xd0, 0x49, 0x89, 0xc3, 0x49, 0xba]),
        qword(message_buffer),
        raw(seq![0x48u8, 0xa1]),
        qword((send_struct + 0x10) as usize),
        raw(seq![0x48u8, 0x8d, 0x4c, 0, 0x02]),
        Piece::Mark { label: Label::CopyLoop },
        raw(seq![
            0x41u8, 0x8a, 0x02, 0x41, 0x88, 0x03, 0x49, 0xff, 0xc2, 0x49, 0xff, 0xc3, 0x48, 0xff,
            0xc9,
        ]),
        Piece::Branch { condition: 0x85, label: Label::CopyLoop },
        raw(seq![0x48u8, 0xb8]),
        qword(send_struct),
        raw(seq![0x4cu8, 0x89, 0x18]),
        Piece::Mark { label: Label::ChatReady },
        raw(seq![0x48u8, 0x89, 0xf9, 0x48, 0xba]),
        qword(send_struct),
        raw(seq![0x48u8, 0xb8]),
        qword(send),
        raw(seq![0xffu8, 0xd0]),
        raw(seq![
            0x48u8, 0x81, 0xc4, 0x28, 0, 0, 0, 0x41, 0x5b, 0x41, 0x5a, 0x41, 0x59, 0x41, 0x58, 0x5a,
            0x59, 0x58, 0x50, 0x30, 0xc0, 0xa2,
        ]),
        qword(trigger),
        raw(seq![0x58u8]),
        Piece::Mark { label: Label::Done },
    ]
}

pub(crate) proof fn lemma_send(
    trigger: usize,
    send_struct: usize,
    message_buffer: usize,
    send: usize,
    operator_new: usize,
)
    ensures
        ({
            let pieces = send_pieces(trigger, send_struct, message_buffer, send, operator_new);
            well_branched(pieces) && assembly(pieces).len() == 192
        }),
{
    let pieces = send_pieces(trigger, send_struct, message_buffer, send, operator_new);
    lemma_le_bytes_len(message_buffer as nat, 8);
    lemma_le_bytes_len(operator_new as nat, 8);
    lemma_le_bytes_len(send as nat, 8);
    lemma_le_bytes_len(send_struct as nat, 8);
    lemma_le_bytes_len((send_struct + 0x10) as usize as nat, 8);
    lemma_le_bytes_len(trigger as nat, 8);
    assert(offset(pieces, 0) == 0);
    assert(offset(pieces, 1) == 2);
    assert(offset(pieces, 2) == 10);
    assert(offset(pieces, 3) == 13);
    assert(offset(pieces, 4) == 19);
    assert(offset(pieces, 5) == 37);
    assert(offset(pieces, 6) == 39);
    assert(offset(pieces, 7) == 47);
    assert(offset(pieces, 8) == 51);
    assert(offset(pieces, 9) == 57);
    assert(offset(pieces, 10) == 64);
    assert(offset(pieces, 11) == 72);
    assert(offset(pieces, 12) == 79);
    assert(offset(pieces, 13) == 87);
    assert(offset(pieces, 14) == 89);
    assert(offset(pieces, 15) == 97);
    assert(offset(pieces, 16) == 102);
    assert(offset(pieces, 17) == 102);
    assert(offset(pieces, 18) == 117);
    assert(offset(pieces, 19) == 123);
    assert(offset(pieces, 20) == 125);
    assert(offset(pieces, 21) == 133);
    assert(offset(pieces, 22) == 136);
    assert(offset(pieces, 23) == 136);
    assert(offset(pieces, 24) == 141);
    assert(offset(pieces, 25) == 149);
    assert(offset(pieces, 26) == 151);
    assert(offset(pieces, 27) == 159);
    assert(offset(pieces, 28) == 161);
    assert(offset(pieces, 29) == 183);
    assert(offset(pieces, 30) == 191);
    assert(offset(pieces, 31) == 192);
    assert(offset(pieces, 32) == 192);
    lemma_assembled_len(pieces, pieces.len() as int);
    lemma_marked(pieces, Label::CopyLoop, 16, 32);
    lemma_marked(pieces, Label::ChatReady, 22, 32);
    lemma_marked(pieces, Label::Done, 31, 32);
}

/// Builds the code. The code that sends a chat message when it is asked to, on the game's own thread.
pub fn send_code(
    trigger: usize,
    send_struct: usize,
    message_buffer: usize,
    send: usize,
    operator_new: usize,
) -> (bytes: Vec<u8>)
    requires
        send_struct + 0x10 <= usize::MAX,
    ensures
        bytes@ == assembly(send_pieces(trigger, send_struct, message_buffer, send, operator_new)),
        bytes@.len() == 192,
{
    let mut code = BranchCode::new();
    code.put(vec![0x50, 0xa0]);
    code.qword(trigger);
    code.put(vec![0x84, 0xc0, 0x58]);
    code.jcc(0x84, Label::Done);
    code.put(vec![
        0x50, 0x51, 0x52, 0x41, 0x50, 0x41, 0x51, 0x41, 0x52, 0x41, 0x53, 0x48, 0x81, 0xec, 0x28, 0,
        0, 0,
    ]);
    code.put(vec![0x48, 0xa1]);
    code.qword(send_struct + 0x10);
    code.put(vec![0x48, 0x83, 0xf8, 0x07]);
    code.jcc(0x86, Label::ChatReady);
    code.put(vec![0x48, 0x8d, 0x4c, 0, 0x02, 0x48, 0xb8]);
    code.qword(operator_new);
    code.put(vec![0xff, 0xd0, 0x49, 0x89, 0xc3, 0x49, 0xba]);
    code.qword(message_buffer);
    code.put(vec![0x48, 0xa1]);
    code.qword(send_struct + 0x10);
    code.put(vec![0x48, 0x8d, 0x4c, 0, 0x02]);
    code.label(Label::CopyLoop);
    code.put(vec![
        0x41, 0x8a, 0x02, 0x41, 0x88, 0x03, 0x49, 0xff, 0xc2, 0x49, 0xff, 0xc3, 0x48, 0xff, 0xc9,
    ]);
    code.jcc(0x85, Label::CopyLoop);
    code.put(vec![0x48, 0xb8]);
    code.qword(send_struct);
    code.put(vec![0x4c, 0x89, 0x18]);
    code.label(Label::ChatReady);
    code.put(vec![0x48, 0x89, 0xf9, 0x48, 0xba]);
    code.qword(send_struct);
    code.put(vec![0x48, 0xb8]);
    code.qword(send);
    code.put(vec![0xff, 0xd0]);
    code.put(vec![
        0x48, 0x81, 0xc4, 0x28, 0, 0, 0, 0x41, 0x5b, 0x41, 0x5a, 0x41, 0x59, 0x41, 0x58, 0x5a, 0x59,
        0x58, 0x50, 0x30, 0xc0, 0xa2,
    ]);
    code.qword(trigger);
    code.put(vec![0x58]);
    code.label(Label::Done);
    proof {
        assert(code@ =~~= send_pieces(trigger, send_struct, message_buffer, send, operator_new));
        lemma_send(trigger, send_struct, message_buffer, send, operator_new);
    }
    code.finish()
}

/// The code that sends a friend request when it is asked to, on the game's own thread.
pub open spec fn buddy_pieces(
    trigger: usize,
    buddy_object: usize,
    buddy: usize,
) -> Seq<Piece> {
    seq![
        raw(seq![0x50u8, 0xa0]),
        qword(trigger),
        raw(seq![0x84u8, 0xc0, 0x58]),
        Piece::Branch { condition: 0x84, label: Label::Done },
        raw(seq![
            0x50u8, 0x51, 0x52, 0x41, 0x50, 0x41, 0x51, 0x41, 0x52, 0x41, 0x53, 0x48, 0x81, 0xec,
            0x28, 0, 0, 0,
        ]),
        raw(seq![0x48u8, 0xb9]),
        qword(buddy_object),
        raw(seq![0x48u8, 0x89, 0x79, 0x18, 0x48, 0x8b, 0x91, 0xe0, 0, 0, 0, 0x48, 0xb8]),
        qword(buddy),
        raw(seq![0xffu8, 0xd0]),
        raw(seq![
            0x48u8, 0x81, 0xc4, 0x28, 0, 0, 0, 0x41, 0x5b, 0x41, 0x5a, 0x41, 0x59, 0x41, 0x58, 0x5a,
            0x59, 0x58, 0x50, 0x30, 0xc0, 0xa2,
        ]),
        qword(trigger),
        raw(seq![0x58u8]),
        Piece::Mark { label: Label::Done },
    ]
}

pub(crate) proof fn lemma_buddy(
    trigger: usize,
    buddy_object: usize,
    buddy: usize,
)
    ensures
        ({
            let pieces = buddy_pieces(trigger, buddy_object, buddy);
            well_branched(pieces) && assembly(pieces).len() == 101
        }),
{
    let pieces = buddy_pieces(trigger, buddy_object, buddy);
    lemma_le_bytes_len(buddy as nat, 8);
    lemma_le_bytes_len(buddy_object as nat, 8);
    lemma_le_bytes_len(trigger as nat, 8);
    assert(offset(pieces, 0) == 0);
    assert(offset(pieces, 1) == 2);
    assert(offset(pieces, 2) == 10);
    assert(offset(pieces, 3) == 13);
    assert(offset(pieces, 4) == 19);
    assert(offset(pieces, 5) == 37);
    assert(offset(pieces, 6) == 39);
    assert(offset(pieces, 7) == 47);
    assert(offset(pieces, 8) == 60);
    assert(offset(pieces, 9) == 68);
    assert(offset(pieces, 10) == 70);
    assert(offset(pieces, 11) == 92);
    assert(offset(pieces, 12) == 100);
    assert(offset(pieces, 13) == 101);
    assert(offset(pieces, 14) == 101);
    lemma_assembled_len(pieces, pieces.len() as int);
    lemma_marked(pieces, Label::Done, 13, 14);
}

/// Builds the code. The code that sends a friend request when it is asked to, on the game's own thread.
pub fn buddy_code(
    trigger: usize,
    buddy_object: usize,
    buddy: usize,
) -> (bytes: Vec<u8>)
    ensures
        bytes@ == assembly(buddy_pieces(trigger, buddy_object, buddy)),
        bytes@.len() == 101,
{
    let mut code = BranchCode::new();
    code.put(vec![0x50, 0xa0]);
    code.qword(trigger);
    code.put(vec![0x84, 0xc0, 0x58]);
    code.jcc(0x84, Label::Done);
    code.put(vec![
        0x50, 0x51, 0x52, 0x41, 0x50, 0x41, 0x51, 0x41, 0x52, 0x41, 0x53, 0x48, 0x81, 0xec, 0x28, 0,
        0, 0,
    ]);
    code.put(vec![0x48, 0xb9]);
    code.qword(buddy_object);
    code.put(vec![0x48, 0x89, 0x79, 0x18, 0x48, 0x8b, 0x91, 0xe0, 0, 0, 0, 0x48, 0xb8]);
    code.qword(buddy);
    code.put(vec![0xff, 0xd0]);
    code.put(vec![
        0x48, 0x81, 0xc4, 0x28, 0, 0, 0, 0x41, 0x5b, 0x41, 0x5a, 0x41, 0x59, 0x41, 0x58, 0x5a, 0x59,
        0x58, 0x50, 0x30, 0xc0, 0xa2,
    ]);
    code.qword(trigger);
    code.put(vec![0x58]);
    code.label(Label::Done);
    proof {
        assert(code@ =~~= buddy_pieces(trigger, buddy_object, buddy));
        lemma_buddy(trigger, buddy_object, buddy);
    }
    code.finish()
}

/// Counts a thread into the hook's code, or out of it.
pub open spec fn counter_bytes(address: usize, increment: bool) -> Seq<u8> {
    seq![0x50u8, 0x48, 0xb8] + le_bytes(address as nat, 8) + seq![
        0xf0u8,
        0x48,
        0xff,
        if increment {
            0x00
        } else {
            0x08
        },
        0x58,
    ]
}

/// Builds the code that counts a thread in or out.
pub fn quiescence_counter_code(address: usize, increment: bool) -> (code: Vec<u8>)
    ensures
        code@ == counter_bytes(address, increment),
        code@.len() == 16,
{
    let mut code: Vec<u8> = vec![0x50, 0x48, 0xb8];
    push_u64(&mut code, address as u64);
    let step: u8 = if increment {
        0x00
    } else {
        0x08
    };
    put(&mut code, vec![0xf0, 0x48, 0xff, step, 0x58]);
    proof {
        lemma_le_bytes_len(address as nat, 8);
        assert(code@ =~= counter_bytes(address, increment));
    }
    code
}

/// The places that a feature hook gives others, with their sizes.
pub open spec fn slots(kind: PayloadKind) -> Seq<(FeatureHookExport, nat)> {
    match kind {
        PayloadKind::Movement { .. } => seq![(FeatureHookExport::TeleportHelper, 21nat)],
        PayloadKind::Mouse => seq![(FeatureHookExport::MousePosition, 8nat)],
        PayloadKind::Chat => seq![
            (FeatureHookExport::ChatOwner, 8nat),
            (FeatureHookExport::ReceiveSourceGid, 8nat),
            (FeatureHookExport::ReceiveMessageBuffer, 160nat),
            (FeatureHookExport::ReceiveMessageLength, 8nat),
            (FeatureHookExport::ReceiveCounter, 8nat),
        ],
        PayloadKind::ChatSend { .. } => seq![
            (FeatureHookExport::SendTrigger, 1nat),
            (FeatureHookExport::SendStruct, 0x28nat),
            (FeatureHookExport::BuddyTrigger, 1nat),
            (FeatureHookExport::BuddyObject, 0xe8nat),
        ],
        PayloadKind::Dance => seq![(FeatureHookExport::DanceGameMoves, 8nat)],
    }
}

/// The size of the first slots together.
pub open spec fn slots_len(kind: PayloadKind, n: int) -> nat
    decreases n,
{
    if n <= 0 {
        0
    } else {
        slots_len(kind, n - 1) + slots(kind)[n - 1].1
    }
}

/// The length of a feature hook's code.
pub open spec fn code_len(kind: PayloadKind) -> nat {
    match kind {
        PayloadKind::Movement { .. } => 150,
        PayloadKind::Mouse => 51,
        PayloadKind::Chat => 164,
        PayloadKind::ChatSend { .. } => 325,
        PayloadKind::Dance => 52,
    }
}

/// Where a slot is: behind the code and the jump over the slots.
pub open spec fn slot_offset(kind: PayloadKind, i: int) -> nat {
    code_len(kind) + 5 + slots_len(kind, i)
}

/// Where the slots end.
pub open spec fn slots_end(kind: PayloadKind) -> nat {
    slot_offset(kind, slots(kind).len() as int)
}

/// Where the count of threads in the code is.
pub open spec fn counter_offset(kind: PayloadKind) -> nat {
    match kind {
        PayloadKind::ChatSend { .. } => slots_end(kind) + CHAT_BUFFER_BYTES as nat,
        _ => slots_end(kind),
    }
}

/// The length of a feature hook's code and memory.
pub open spec fn payload_len(kind: PayloadKind) -> nat {
    counter_offset(kind) + 8
}

/// The address of a place in a payload.
pub open spec fn at(allocation: usize, place: nat) -> usize {
    (allocation + place) as usize
}

/// The address of a slot.
pub open spec fn slot_at(kind: PayloadKind, allocation: usize, i: int) -> usize {
    at(allocation, slot_offset(kind, i))
}

/// What a feature hook's code does.
pub open spec fn body(kind: PayloadKind, allocation: usize) -> Seq<u8> {
    match kind {
        PayloadKind::Movement { first_je, second_je, first_original, second_original } => assembly(
            movement_pieces(
                slot_at(kind, allocation, 0),
                first_je,
                second_je,
                first_original@,
                second_original@,
            ),
        ),
        PayloadKind::Mouse => mouse_bytes(slot_at(kind, allocation, 0)),
        PayloadKind::Chat => chat_bytes(
            slot_at(kind, allocation, 0),
            slot_at(kind, allocation, 1),
            slot_at(kind, allocation, 3),
            slot_at(kind, allocation, 2),
            slot_at(kind, allocation, 4),
        ),
        PayloadKind::ChatSend { send, buddy, operator_new } => assembly(
            send_pieces(
                slot_at(kind, allocation, 0),
                slot_at(kind, allocation, 1),
                at(allocation, slots_end(kind)),
                send,
                operator_new,
            ),
        ) + assembly(
            buddy_pieces(
                slot_at(kind, allocation, 2),
                slot_at(kind, allocation, 3),
                buddy,
            ),
        ),
        PayloadKind::Dance => dance_bytes(slot_at(kind, allocation, 0)),
    }
}

/// A feature hook's code: a thread is counted in, does what the hook is for, and
/// is counted out. The mouse hook then returns to its caller.
pub open spec fn payload_bytes(kind: PayloadKind, allocation: usize) -> Seq<u8> {
    let counter = at(allocation, counter_offset(kind));
    counter_bytes(counter, true) + body(kind, allocation) + counter_bytes(counter, false) + (
    match kind {
        PayloadKind::Mouse => seq![0xc3u8],
        _ => Seq::empty(),
    })
}

/// A feature hook's code and memory: the code, a jump over the memory, and the
/// memory, all zero.
pub open spec fn payload(kind: PayloadKind, allocation: usize) -> Seq<u8> {
    let storage = payload_len(kind) - code_len(kind) - 5;
    payload_bytes(kind, allocation) + seq![0xe9u8] + le_bytes(wrap32(storage), 4) + Seq::new(
        storage as nat,
        |i: int| 0u8,
    )
}

pub(crate) proof fn lemma_layout(kind: PayloadKind)
    ensures
        slots(kind).len() <= 5,
        slots_end(kind) <= 700,
        payload_len(kind) <= 900,
        payload_len(kind) >= code_len(kind) + 13,
        forall|i: int|
            0 <= i < slots(kind).len() ==> #[trigger] slot_offset(kind, i) + slots(kind)[i].1
                <= slots_end(kind),
        forall|i: int|
            0 <= i < slots(kind).len() ==> #[trigger] slot_offset(kind, i) + slots(kind)[i].1
                == slot_offset(kind, i + 1),
{
    reveal_with_fuel(slots_len, 7);
}

/// A place in a feature hook's memory.
#[derive(Clone, Copy, Debug)]
pub struct ExportSlot {
    pub export: FeatureHookExport,
    pub offset: usize,
    pub size: usize,
}

fn build_slots(kind: PayloadKind) -> (list: Vec<(FeatureHookExport, usize)>)
    ensures
        list@.len() == slots(kind).len(),
        forall|i: int|
            0 <= i < list@.len() ==> (#[trigger] list@[i]).0 == slots(kind)[i].0 && list@[i].1
                == slots(kind)[i].1,
{
    match kind {
        PayloadKind::Movement { .. } => vec![(FeatureHookExport::TeleportHelper, 21)],
        PayloadKind::Mouse => vec![(FeatureHookExport::MousePosition, 8)],
        PayloadKind::Chat => vec![
            (FeatureHookExport::ChatOwner, 8),
            (FeatureHookExport::ReceiveSourceGid, 8),
            (FeatureHookExport::ReceiveMessageBuffer, 160),
            (FeatureHookExport::ReceiveMessageLength, 8),
            (FeatureHookExport::ReceiveCounter, 8),
        ],
        PayloadKind::ChatSend { .. } => vec![
            (FeatureHookExport::SendTrigger, 1),
            (FeatureHookExport::SendStruct, 0x28),
            (FeatureHookExport::BuddyTrigger, 1),
            (FeatureHookExport::BuddyObject, 0xe8),
        ],
        PayloadKind::Dance => vec![(FeatureHookExport::DanceGameMoves, 8)],
    }
}

/// The slots of a payload as they should be.
pub open spec fn lists_slots(exports: Seq<ExportSlot>, kind: PayloadKind) -> bool {
    &&& exports.len() == slots(kind).len()
    &&& forall|i: int|
        0 <= i < exports.len() ==> {
            &&& (#[trigger] exports[i]).export == slots(kind)[i].0
            &&& exports[i].offset == slot_offset(kind, i)
            &&& exports[i].size == slots(kind)[i].1
        }
}

pub(crate) fn lay_out(kind: PayloadKind) -> (list: Vec<ExportSlot>)
    ensures
        lists_slots(list@, kind),
{
    proof {
        lemma_layout(kind);
    }
    let code: usize = match kind {
        PayloadKind::Movement { .. } => 150,
        PayloadKind::Mouse => 51,
        PayloadKind::Chat => 164,
        PayloadKind::ChatSend { .. } => 325,
        PayloadKind::Dance => 52,
    };
    let wanted = build_slots(kind);
    let mut list: Vec<ExportSlot> = Vec::new();
    let mut cursor: usize = code + 5;
    let mut i: usize = 0;
    while i < wanted.len()
        invariant
            i <= wanted@.len(),
            wanted@.len() == slots(kind).len(),
            forall|j: int|
                0 <= j < wanted@.len() ==> (#[trigger] wanted@[j]).0 == slots(kind)[j].0
                    && wanted@[j].1 == slots(kind)[j].1,
            cursor == slot_offset(kind, i as int),
            list@.len() == i,
            forall|j: int|
                0 <= j < i ==> {
                    &&& (#[trigger] list@[j]).export == slots(kind)[j].0
                    &&& list@[j].offset == slot_offset(kind, j)
                    &&& list@[j].size == slots(kind)[j].1
                },
            forall|j: int|
                0 <= j < slots(kind).len() ==> #[trigger] slot_offset(kind, j) + slots(kind)[j].1
                    <= slots_end(kind),
            slots_end(kind) <= 700,
        decreases wanted@.len() - i,
    {
        let size: usize = wanted[i].1;
        assert(slot_offset(kind, i as int) + slots(kind)[i as int].1 <= slots_end(kind));
        list.push(ExportSlot { export: wanted[i].0, offset: cursor, size });
        cursor = cursor + size;
        i += 1;
    }
    list
}

/// Where the counter of a payload is.
pub(crate) fn find_counter(kind: PayloadKind) -> (offset: usize)
    ensures
        offset == counter_offset(kind),
        offset + 8 == payload_len(kind),
        payload_len(kind) <= 900,
{
    proof {
        lemma_layout(kind);
    }
    let list = lay_out(kind);
    let last = &list[list.len() - 1];
    let end: usize = last.offset + last.size;
    match kind {
        PayloadKind::ChatSend { .. } => end + CHAT_BUFFER_BYTES,
        _ => end,
    }
}

/// Builds a feature hook's code and memory for the place where it will be.
pub fn build_payload(kind: PayloadKind, allocation: usize) -> (built: (
    Vec<u8>,
    Vec<ExportSlot>,
    usize,
))
    requires
        allocation + payload_len(kind) <= usize::MAX,
    ensures
        built.0@ == payload(kind, allocation),
        built.0@.len() == payload_len(kind),
        lists_slots(built.1@, kind),
        built.2 == counter_offset(kind),
{
    proof {
        lemma_layout(kind);
    }
    let list = lay_out(kind);
    let last = &list[list.len() - 1];
    let end: usize = last.offset + last.size;
    let counter: usize = find_counter(kind);
    let total: usize = counter + 8;
    let mut code = quiescence_counter_code(allocation + counter, true);
    let middle = match kind {
        PayloadKind::Movement { first_je, second_je, first_original, second_original } => {
            movement_code(
                allocation + list[0].offset,
                first_je,
                second_je,
                &first_original,
                &second_original,
            )
        },
        PayloadKind::Mouse => mouse_code(allocation + list[0].offset),
        PayloadKind::Chat => chat_code(
            allocation + list[0].offset,
            allocation + list[1].offset,
            allocation + list[3].offset,
            allocation + list[2].offset,
            allocation + list[4].offset,
        ),
        PayloadKind::ChatSend { send, buddy, operator_new } => {
            let mut both = send_code(
                allocation + list[0].offset,
                allocation + list[1].offset,
                allocation + end,
                send,
                operator_new,
            );
            let other = buddy_code(
                allocation + list[2].offset,
                allocation + list[3].offset,
                buddy,
            );
            push_all(&mut both, other.as_slice());
            both
        },
        PayloadKind::Dance => dance_code(allocation + list[0].offset),
    };
    proof {
        assert(middle@ == body(kind, allocation));
    }
    push_all(&mut code, middle.as_slice());
    let leave = quiescence_counter_code(allocation + counter, false);
    push_all(&mut code, leave.as_slice());
    if let PayloadKind::Mouse = kind {
        code.push(0xc3);
    }
    proof {
        assert(code@ =~= payload_bytes(kind, allocation));
        assert(code@.len() == code_len(kind));
    }
    let storage: usize = total - code.len() - 5;
    code.push(0xe9);
    push_i32(&mut code, storage as i32);
    let memory = zeros(storage);
    push_all(&mut code, memory.as_slice());
    proof {
        lemma_le_bytes_len(wrap32(storage as int), 4);
        assert(code@ =~= payload(kind, allocation));
    }
    (code, list, counter)
}

pub(crate) proof fn lemma_code_len(kind: PayloadKind, allocation: usize)
    ensures
        payload_bytes(kind, allocation).len() == code_len(kind),
{
    lemma_le_bytes_len(at(allocation, counter_offset(kind)) as nat, 8);
    lemma_le_bytes_len(slot_at(kind, allocation, 0) as nat, 8);
    lemma_le_bytes_len(slot_at(kind, allocation, 1) as nat, 8);
    lemma_le_bytes_len(slot_at(kind, allocation, 2) as nat, 8);
    lemma_le_bytes_len(slot_at(kind, allocation, 3) as nat, 8);
    lemma_le_bytes_len(slot_at(kind, allocation, 4) as nat, 8);
    match kind {
        PayloadKind::Movement { first_je, second_je, first_original, second_original } => {
            lemma_movement(
                slot_at(kind, allocation, 0),
                first_je,
                second_je,
                first_original@,
                second_original@,
            );
        },
        PayloadKind::ChatSend { send, buddy, operator_new } => {
            lemma_send(
                slot_at(kind, allocation, 0),
                slot_at(kind, allocation, 1),
                at(allocation, slots_end(kind)),
                send,
                operator_new,
            );
            lemma_buddy(
                slot_at(kind, allocation, 2),
                slot_at(kind, allocation, 3),
                buddy,
            );
        },
        _ => {},
    }
}

/// The memory of a feature hook is behind its code, all zero, and inside the
/// payload; its slots do not overlap; and the code jumps over it.
pub proof fn memory_is_clear_and_skipped(kind: PayloadKind, allocation: usize)
    ensures
        ({
            let code = payload(kind, allocation);
            let end = code_len(kind) as int;
            &&& code.len() == payload_len(kind)
            &&& code[end] == 0xe9
            &&& end + 5 + signed32(le_value(code.subrange(end + 1, end + 5))) == code.len()
            &&& forall|i: int| end + 5 <= i < code.len() ==> #[trigger] code[i] == 0
            &&& forall|i: int|
                0 <= i < slots(kind).len() ==> end + 5 <= #[trigger] slot_offset(kind, i)
                    && slot_offset(kind, i) + slots(kind)[i].1 == slot_offset(kind, i + 1)
                    && slot_offset(kind, i) + slots(kind)[i].1 <= counter_offset(kind)
        }),
{
    let code = payload(kind, allocation);
    let end = code_len(kind) as int;
    let storage = payload_len(kind) - code_len(kind) - 5;
    lemma_layout(kind);
    lemma_code_len(kind, allocation);
    lemma_le_bytes_len(wrap32(storage), 4);
    lemma_pow256();
    assert(code.subrange(end + 1, end + 5) =~= le_bytes(wrap32(storage), 4));
    written_value_reads_back(wrap32(storage), 4);
}

}
