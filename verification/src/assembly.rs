//! Machine code with branches to labels.

use vstd::prelude::*;

use crate::codec::{
    copy_bytes, le_bytes, le_value, lemma_le_bytes_len, lemma_pow256, push_all, push_i32, push_u64,
    signed32, wrap32, written_value_reads_back,
};
use crate::machine::{lemma_bytes_stand, lemma_part_stands, reach32, stands};

verus! {

/// The places that branches lead to.
#[derive(Clone, Copy, Debug, PartialEq, Eq, Structural)]
pub enum Label {
    Done,
    ChatReady,
    CopyLoop,
}

/// A piece of code.
#[verifier::ext_equal]
pub ghost enum Piece {
    Bytes { bytes: Seq<u8> },
    /// A conditional branch with a wide displacement.
    Branch { condition: u8, label: Label },
    Mark { label: Label },
}

/// Eight bytes of code that hold a number.
pub open spec fn qword(value: usize) -> Piece {
    Piece::Bytes { bytes: le_bytes(value as nat, 8) }
}

/// Given bytes.
pub open spec fn raw(bytes: Seq<u8>) -> Piece {
    Piece::Bytes { bytes }
}

/// The length of a piece.
pub open spec fn piece_len(piece: Piece) -> nat {
    match piece {
        Piece::Bytes { bytes } => bytes.len(),
        Piece::Branch { condition, label } => 6,
        Piece::Mark { label } => 0,
    }
}

/// Where a piece begins.
pub open spec fn offset(pieces: Seq<Piece>, n: int) -> nat
    decreases n,
{
    if n <= 0 {
        0
    } else {
        offset(pieces, n - 1) + piece_len(pieces[n - 1])
    }
}

/// Where a label is, among the first pieces.
pub open spec fn place(pieces: Seq<Piece>, label: Label, n: int) -> Option<nat>
    decreases n,
{
    if n <= 0 {
        None
    } else if pieces[n - 1] == (Piece::Mark { label }) {
        Some(offset(pieces, n - 1))
    } else {
        place(pieces, label, n - 1)
    }
}

/// Where a label is.
pub open spec fn target(pieces: Seq<Piece>, label: Label) -> int {
    place(pieces, label, pieces.len() as int)->Some_0 as int
}

/// The code of one piece.
pub open spec fn piece_code(pieces: Seq<Piece>, i: int) -> Seq<u8> {
    match pieces[i] {
        Piece::Bytes { bytes } => bytes,
        Piece::Branch { condition, label } => seq![0x0fu8, condition] + le_bytes(
            wrap32(target(pieces, label) - (offset(pieces, i) + 6)),
            4,
        ),
        Piece::Mark { label } => Seq::empty(),
    }
}

/// The code of the first pieces.
pub open spec fn assembled(pieces: Seq<Piece>, n: int) -> Seq<u8>
    decreases n,
{
    if n <= 0 {
        Seq::empty()
    } else {
        assembled(pieces, n - 1) + piece_code(pieces, n - 1)
    }
}

/// The code of all pieces.
pub open spec fn assembly(pieces: Seq<Piece>) -> Seq<u8> {
    assembled(pieces, pieces.len() as int)
}

/// Every branch has its label, and none is too far.
pub open spec fn well_branched(pieces: Seq<Piece>) -> bool {
    &&& offset(pieces, pieces.len() as int) <= i32::MAX
    &&& forall|i: int|
        0 <= i < pieces.len() ==> (#[trigger] pieces[i] matches Piece::Branch {
            condition,
            label,
        } ==> place(pieces, label, pieces.len() as int) is Some)
}

/// Code is as long as its pieces.
pub proof fn lemma_assembled_len(pieces: Seq<Piece>, n: int)
    requires
        0 <= n <= pieces.len(),
    ensures
        assembled(pieces, n).len() == offset(pieces, n),
    decreases n,
{
    if n > 0 {
        lemma_assembled_len(pieces, n - 1);
        if let Piece::Branch { condition, label } = pieces[n - 1] {
            lemma_le_bytes_len(wrap32(target(pieces, label) - (offset(pieces, n - 1) + 6)), 4);
        }
    }
}

proof fn lemma_offset_grows(pieces: Seq<Piece>, m: int, n: int)
    requires
        0 <= m <= n <= pieces.len(),
    ensures
        offset(pieces, m) <= offset(pieces, n),
    decreases n - m,
{
    if m < n {
        lemma_offset_grows(pieces, m, n - 1);
    }
}

proof fn lemma_place(pieces: Seq<Piece>, label: Label, n: int)
    requires
        0 <= n <= pieces.len(),
        place(pieces, label, n) is Some,
    ensures
        place(pieces, label, n)->Some_0 <= offset(pieces, n),
    decreases n,
{
    if n > 0 && pieces[n - 1] != (Piece::Mark { label }) {
        lemma_place(pieces, label, n - 1);
    }
}

proof fn lemma_assembled_part(pieces: Seq<Piece>, i: int, n: int)
    requires
        0 <= i < n <= pieces.len(),
    ensures
        assembled(pieces, n).subrange(
            offset(pieces, i) as int,
            offset(pieces, i + 1) as int,
        ) == piece_code(pieces, i),
    decreases n - i,
{
    lemma_assembled_len(pieces, i);
    lemma_assembled_len(pieces, i + 1);
    lemma_assembled_len(pieces, n - 1);
    lemma_assembled_len(pieces, n);
    lemma_offset_grows(pieces, i + 1, n);
    if i == n - 1 {
        assert(assembled(pieces, n).subrange(
            offset(pieces, i) as int,
            offset(pieces, i + 1) as int,
        ) =~= piece_code(pieces, i));
    } else {
        lemma_assembled_part(pieces, i, n - 1);
        lemma_offset_grows(pieces, i + 1, n - 1);
        assert(assembled(pieces, n).subrange(
            offset(pieces, i) as int,
            offset(pieces, i + 1) as int,
        ) =~= assembled(pieces, n - 1).subrange(
            offset(pieces, i) as int,
            offset(pieces, i + 1) as int,
        ));
    }
}

/// A branch leads to its label: the displacement in the code, added to where the
/// branch ends, is where the label is.
pub proof fn branches_lead_to_their_labels(pieces: Seq<Piece>, i: int)
    requires
        well_branched(pieces),
        0 <= i < pieces.len(),
        pieces[i] is Branch,
    ensures
        ({
            let start = offset(pieces, i) as int;
            let code = assembly(pieces);
            &&& start + 6 <= code.len()
            &&& code[start] == 0x0f
            &&& code[start + 1] == pieces[i]->condition
            &&& start + 6 + signed32(le_value(code.subrange(start + 2, start + 6))) == target(
                pieces,
                pieces[i]->Branch_label,
            )
        }),
{
    let n = pieces.len() as int;
    let start = offset(pieces, i) as int;
    let label = pieces[i]->Branch_label;
    let code = assembly(pieces);
    lemma_assembled_len(pieces, n);
    lemma_offset_grows(pieces, i + 1, n);
    lemma_offset_grows(pieces, i, n);
    lemma_assembled_part(pieces, i, n);
    lemma_place(pieces, label, n);
    let reach = target(pieces, label) - (start + 6);
    let part = piece_code(pieces, i);
    lemma_le_bytes_len(wrap32(reach), 4);
    lemma_pow256();
    assert(part == code.subrange(start, start + 6));
    assert(code[start] == part[0]);
    assert(code[start + 1] == part[1]);
    assert(code.subrange(start + 2, start + 6) =~= part.subrange(2, 6));
    assert(part.subrange(2, 6) =~= le_bytes(wrap32(reach), 4));
    written_value_reads_back(wrap32(reach), 4);
}

/// A label is where its only mark is.
pub(crate) proof fn lemma_place_at(pieces: Seq<Piece>, label: Label, k: int, n: int)
    requires
        0 <= k < n <= pieces.len(),
        pieces[k] == (Piece::Mark { label }),
        forall|j: int| k < j < n ==> #[trigger] pieces[j] != (Piece::Mark { label }),
    ensures
        place(pieces, label, n) == Some(offset(pieces, k)),
    decreases n,
{
    if k < n - 1 {
        lemma_place_at(pieces, label, k, n - 1);
    }
}

/// Where the code of all pieces stands, that of each one stands.
pub(crate) proof fn lemma_piece_stands(code: Seq<u8>, o: int, pieces: Seq<Piece>, k: int)
    requires
        stands(code, o, assembly(pieces)),
        0 <= k < pieces.len(),
    ensures
        stands(code, o + offset(pieces, k), piece_code(pieces, k)),
{
    let n = pieces.len() as int;
    lemma_assembled_len(pieces, n);
    lemma_assembled_len(pieces, k);
    lemma_assembled_len(pieces, k + 1);
    lemma_offset_grows(pieces, k + 1, n);
    lemma_assembled_part(pieces, k, n);
    if let Piece::Branch { condition, label } = pieces[k] {
        lemma_le_bytes_len(wrap32(target(pieces, label) - (offset(pieces, k) + 6)), 4);
    }
    lemma_part_stands(
        code,
        o,
        assembly(pieces),
        offset(pieces, k) as int,
        piece_code(pieces, k),
    );
}

/// Where the code of all pieces stands, a branch in it reaches its label.
pub(crate) proof fn lemma_branch_stands(code: Seq<u8>, o: int, pieces: Seq<Piece>, k: int)
    requires
        stands(code, o, assembly(pieces)),
        well_branched(pieces),
        0 <= k < pieces.len(),
        pieces[k] is Branch,
    ensures
        ({
            let i = o + offset(pieces, k);
            &&& code[i] == 0x0f
            &&& code[i + 1] == pieces[k]->condition
            &&& reach32(code, i + 2) == target(pieces, pieces[k]->Branch_label) - offset(pieces, k)
                - 6
        }),
{
    let part = assembly(pieces);
    let i = offset(pieces, k) as int;
    branches_lead_to_their_labels(pieces, k);
    lemma_bytes_stand(code, o, part);
    assert(code[o + i] == part[i]);
    assert(code[o + (i + 1)] == part[i + 1]);
    assert(code.subrange(o + i + 2, o + i + 6) =~= part.subrange(i + 2, i + 6)) by {
        assert(part[i + 2] == code[o + (i + 2)]);
        assert(part[i + 3] == code[o + (i + 3)]);
        assert(part[i + 4] == code[o + (i + 4)]);
        assert(part[i + 5] == code[o + (i + 5)]);
    }
}

enum CodePiece {
    Bytes(Vec<u8>),
    Branch(u8, Label),
    Mark(Label),
}

impl CodePiece {
    spec fn piece(&self) -> Piece {
        match self {
            CodePiece::Bytes(bytes) => Piece::Bytes { bytes: bytes@ },
            CodePiece::Branch(condition, label) => Piece::Branch {
                condition: *condition,
                label: *label,
            },
            CodePiece::Mark(label) => Piece::Mark { label: *label },
        }
    }
}

/// Code that is put together piece by piece.
pub struct BranchCode {
    pieces: Vec<CodePiece>,
}

impl View for BranchCode {
    type V = Seq<Piece>;

    closed spec fn view(&self) -> Seq<Piece> {
        self.pieces@.map_values(|piece: CodePiece| piece.piece())
    }
}

impl BranchCode {
    /// No code.
    pub fn new() -> (code: Self)
        ensures
            code@ == Seq::<Piece>::empty(),
    {
        let code = BranchCode { pieces: Vec::new() };
        proof {
            assert(code@ =~= Seq::<Piece>::empty());
        }
        code
    }

    /// Adds bytes.
    pub fn bytes(&mut self, bytes: &[u8])
        ensures
            final(self)@ == old(self)@.push(raw(bytes@)),
    {
        self.pieces.push(CodePiece::Bytes(copy_bytes(bytes)));
        proof {
            assert(self@ =~= old(self)@.push(raw(bytes@)));
        }
    }

    /// Adds bytes.
    pub fn put(&mut self, bytes: Vec<u8>)
        ensures
            final(self)@ == old(self)@.push(raw(bytes@)),
    {
        self.bytes(bytes.as_slice());
    }

    /// Adds a number.
    pub fn qword(&mut self, value: usize)
        ensures
            final(self)@ == old(self)@.push(qword(value)),
    {
        let mut bytes: Vec<u8> = Vec::new();
        push_u64(&mut bytes, value as u64);
        proof {
            assert(bytes@ =~= le_bytes(value as nat, 8));
        }
        self.pieces.push(CodePiece::Bytes(bytes));
        proof {
            assert(self@ =~= old(self)@.push(qword(value)));
        }
    }

    /// Names the place that comes next.
    pub fn label(&mut self, label: Label)
        ensures
            final(self)@ == old(self)@.push(Piece::Mark { label }),
    {
        self.pieces.push(CodePiece::Mark(label));
        proof {
            assert(self@ =~= old(self)@.push(Piece::Mark { label }));
        }
    }

    /// Adds a conditional branch.
    pub fn jcc(&mut self, condition: u8, label: Label)
        ensures
            final(self)@ == old(self)@.push(Piece::Branch { condition, label }),
    {
        self.pieces.push(CodePiece::Branch(condition, label));
        proof {
            assert(self@ =~= old(self)@.push(Piece::Branch { condition, label }));
        }
    }

    fn find(&self, label: Label) -> (found: Option<i32>)
        requires
            offset(self@, self@.len() as int) <= i32::MAX,
        ensures
            match found {
                Some(at) => place(self@, label, self@.len() as int) == Some(at as nat) && at >= 0,
                None => place(self@, label, self@.len() as int) is None,
            },
    {
        let mut found: Option<i32> = None;
        let mut at: i32 = 0;
        let mut i: usize = 0;
        while i < self.pieces.len()
            invariant
                i <= self.pieces@.len(),
                self@.len() == self.pieces@.len(),
                offset(self@, self@.len() as int) <= i32::MAX,
                at >= 0,
                at == offset(self@, i as int),
                match found {
                    Some(at) => place(self@, label, i as int) == Some(at as nat) && at >= 0,
                    None => place(self@, label, i as int) is None,
                },
            decreases self.pieces@.len() - i,
        {
            proof {
                assert(self@[i as int] == self.pieces@[i as int].piece());
                lemma_offset_grows(self@, i + 1, self@.len() as int);
            }
            match &self.pieces[i] {
                CodePiece::Bytes(bytes) => {
                    at = at + bytes.len() as i32;
                },
                CodePiece::Branch(_, _) => {
                    at = at + 6;
                },
                CodePiece::Mark(mark) => {
                    if *mark == label {
                        found = Some(at);
                    }
                },
            }
            i += 1;
        }
        found
    }

    /// Puts the code together.
    pub fn finish(&self) -> (code: Vec<u8>)
        requires
            well_branched(self@),
        ensures
            code@ == assembly(self@),
    {
        let mut code: Vec<u8> = Vec::new();
        let mut i: usize = 0;
        while i < self.pieces.len()
            invariant
                i <= self.pieces@.len(),
                self@.len() == self.pieces@.len(),
                well_branched(self@),
                code@ == assembled(self@, i as int),
            decreases self.pieces@.len() - i,
        {
            proof {
                assert(self@[i as int] == self.pieces@[i as int].piece());
                lemma_assembled_len(self@, i as int);
                lemma_offset_grows(self@, i + 1, self@.len() as int);
            }
            match &self.pieces[i] {
                CodePiece::Bytes(bytes) => {
                    push_all(&mut code, bytes.as_slice());
                },
                CodePiece::Branch(condition, label) => {
                    let end: i32 = code.len() as i32 + 6;
                    let goal: i32 = match self.find(*label) {
                        Some(at) => at,
                        None => {
                            proof {
                                assert(false);
                            }
                            0
                        },
                    };
                    let ghost before = code@;
                    code.push(0x0f);
                    code.push(*condition);
                    push_i32(&mut code, goal - end);
                    proof {
                        assert(code@ =~= before + piece_code(self@, i as int));
                    }
                },
                CodePiece::Mark(_) => {
                    proof {
                        assert(code@ =~= code@ + piece_code(self@, i as int));
                    }
                },
            }
            i += 1;
        }
        code
    }
}

}
