//! The plain data the ordering logic reads from a position: move groups as
//! destination bitboards, the opponent's occupancy, and the piece standing on
//! each square.

use vstd::prelude::*;

verus! {

/// A piece kind. The order of the variants is the order the move generator
/// reports them in, and the ranking `ordinal` is derived from it.
#[derive(Clone, Copy, PartialEq, Eq, Structural, Debug)]
pub enum Piece {
    Pawn,
    Knight,
    Bishop,
    Rook,
    Queen,
    King,
}

/// A move: origin square, destination square, optional promotion piece.
/// Squares are indices 0..64, file-major from A1. Equality is structural.
#[derive(Clone, Copy, PartialEq, Eq, Structural, Debug)]
pub struct Move {
    pub from: u8,
    pub to: u8,
    pub promotion: Option<Piece>,
}

/// All legal moves of one piece: its kind, its origin square, and the bitboard
/// of its destination squares.
#[derive(Clone, Copy, PartialEq, Eq, Structural, Debug)]
pub struct MoveGroup {
    pub piece: Piece,
    pub from: u8,
    pub to: u64,
}

/// Everything the ordering reads from a position: the per-origin legal move
/// groups, the squares occupied by the side not to move, and the piece on
/// each square.
pub struct LegalMoves {
    pub groups: Vec<MoveGroup>,
    pub enemy: u64,
    pub occupants: Vec<Option<Piece>>,
}

/// The relative ranking of a piece class: minor pieces share one rank.
pub open spec fn ordinal(p: Piece) -> int {
    match p {
        Piece::Pawn => 0,
        Piece::Knight => 1,
        Piece::Bishop => 1,
        Piece::Rook => 2,
        Piece::Queen => 3,
        Piece::King => 4,
    }
}

/// The capture score: most valuable victim first, least valuable attacker first.
pub open spec fn cap_score(attacker: Piece, victim: Piece) -> int {
    ordinal(victim) * 4 - ordinal(attacker)
}

/// A promotion to a piece other than a queen.
pub open spec fn is_underpromotion(m: Move) -> bool {
    match m.promotion {
        Some(p) => p != Piece::Queen,
        None => false,
    }
}

/// Whether square `i` is set in the bitboard.
pub open spec fn bit(bb: u64, i: int) -> bool {
    0 <= i < 64 && (bb >> (i as u64)) & 1u64 == 1u64
}

/// A square on the first or last rank, where a pawn arriving must promote.
pub open spec fn promo_rank(sq: u8) -> bool {
    sq / 8 == 0 || sq / 8 == 7
}

/// The moves a group yields for one destination square: four promotion moves
/// for a pawn reaching the last rank (knight, bishop, rook, queen, in the
/// generator's order), one plain move otherwise.
pub open spec fn square_moves(piece: Piece, from: u8, to: u8) -> Seq<Move> {
    if piece == Piece::Pawn && promo_rank(to) {
        seq![
            Move { from, to, promotion: Some(Piece::Knight) },
            Move { from, to, promotion: Some(Piece::Bishop) },
            Move { from, to, promotion: Some(Piece::Rook) },
            Move { from, to, promotion: Some(Piece::Queen) },
        ]
    } else {
        seq![Move { from, to, promotion: None }]
    }
}

/// The moves of a destination bitboard restricted to squares below `n`,
/// in ascending square order.
pub open spec fn bb_moves_upto(piece: Piece, from: u8, bb: u64, n: int) -> Seq<Move>
    decreases n,
{
    if n <= 0 {
        Seq::empty()
    } else {
        bb_moves_upto(piece, from, bb, n - 1) + (if bit(bb, n - 1) {
            square_moves(piece, from, (n - 1) as u8)
        } else {
            Seq::empty()
        })
    }
}

/// The full move sequence of a group's destination bitboard, in the order the
/// generator's iterator unpacks it: ascending squares, promotions expanded.
pub open spec fn bb_moves(piece: Piece, from: u8, bb: u64) -> Seq<Move> {
    bb_moves_upto(piece, from, bb, 64)
}

/// A well-formed group: the origin is a real square and never among the
/// destinations (a piece cannot move to its own square).
pub open spec fn group_wf(g: MoveGroup) -> bool {
    g.from < 64 && g.to & (1u64 << (g.from as u64)) == 0
}

impl LegalMoves {
    /// Well-formedness: one occupant slot per square, well-formed groups, and
    /// a piece standing on every square the opponent occupies.
    pub open spec fn wf(self) -> bool {
        &&& self.occupants@.len() == 64
        &&& forall|i: int| 0 <= i < self.groups@.len() ==> group_wf(#[trigger] self.groups@[i])
        &&& forall|sq: int|
            0 <= sq < 64 && bit(self.enemy, sq) ==> (#[trigger] self.occupants@[sq]).is_some()
    }
}

/// A hint move whose squares are real squares.
pub open spec fn move_in_range(m: Move) -> bool {
    m.from < 64 && m.to < 64
}

pub fn piece_ordinal(p: Piece) -> (r: i8)
    ensures
        r as int == ordinal(p),
        0 <= r <= 4,
{
    match p {
        Piece::Pawn => 0,
        Piece::Knight => 1,
        Piece::Bishop => 1,
        Piece::Rook => 2,
        Piece::Queen => 3,
        Piece::King => 4,
    }
}

pub fn bit_set(bb: u64, i: u8) -> (r: bool)
    requires
        i < 64,
    ensures
        r == bit(bb, i as int),
{
    (bb >> (i as u64)) & 1u64 == 1u64
}

pub fn underpromotes(m: &Move) -> (r: bool)
    ensures
        r == is_underpromotion(*m),
{
    match m.promotion {
        Some(p) => !(matches!(p, Piece::Queen)),
        None => false,
    }
}

fn push_square_moves(out: &mut Vec<Move>, piece: Piece, from: u8, to: u8)
    ensures
        final(out)@ == old(out)@ + square_moves(piece, from, to),
{
    let promo: bool = matches!(piece, Piece::Pawn) && (to / 8 == 0 || to / 8 == 7);
    if promo {
        out.push(Move { from, to, promotion: Some(Piece::Knight) });
        out.push(Move { from, to, promotion: Some(Piece::Bishop) });
        out.push(Move { from, to, promotion: Some(Piece::Rook) });
        out.push(Move { from, to, promotion: Some(Piece::Queen) });
    } else {
        out.push(Move { from, to, promotion: None });
    }
    proof {
        assert(out@ =~= old(out)@ + square_moves(piece, from, to));
    }
}

/// Unpacks a destination bitboard into its move sequence, in the generator's
/// iteration order.
pub fn expand_group(piece: Piece, from: u8, bb: u64) -> (r: Vec<Move>)
    ensures
        r@ == bb_moves(piece, from, bb),
{
    let mut out: Vec<Move> = Vec::new();
    let mut i: u8 = 0;
    while i < 64
        invariant
            i <= 64,
            out@ == bb_moves_upto(piece, from, bb, i as int),
        decreases 64 - i,
    {
        if bit_set(bb, i) {
            push_square_moves(&mut out, piece, from, i);
        }
        proof {
            assert(out@ =~= bb_moves_upto(piece, from, bb, i as int + 1));
        }
        i = i + 1;
    }
    out
}

/// Every move a bitboard unpacks to starts at the group's origin, lands on a
/// set bit of the bitboard, and promotes exactly when a pawn reaches the last
/// rank.
pub proof fn lemma_bb_moves_all(piece: Piece, from: u8, bb: u64)
    ensures
        forall|k: int|
            0 <= k < bb_moves(piece, from, bb).len() ==> {
                let m = #[trigger] bb_moves(piece, from, bb)[k];
                &&& m.from == from
                &&& m.to < 64
                &&& bit(bb, m.to as int)
                &&& (m.promotion is Some <==> (piece == Piece::Pawn && promo_rank(m.to)))
            },
{
    lemma_bb_moves_props(piece, from, bb, 64);
}

pub proof fn lemma_bb_moves_props(piece: Piece, from: u8, bb: u64, n: int)
    requires
        0 <= n <= 64,
    ensures
        forall|k: int|
            0 <= k < bb_moves_upto(piece, from, bb, n).len() ==> {
                let m = #[trigger] bb_moves_upto(piece, from, bb, n)[k];
                &&& m.from == from
                &&& m.to < n
                &&& bit(bb, m.to as int)
                &&& (m.promotion is Some <==> (piece == Piece::Pawn && promo_rank(m.to)))
            },
    decreases n,
{
    if n > 0 {
        lemma_bb_moves_props(piece, from, bb, n - 1);
    }
}

} // verus!
