//! The bridge to the board and move-generation collaborator (the `cozy_chess`
//! crate): three trusted wrappers read a position into the plain model, and a
//! verified constructor hands that model to the ordering.

use vstd::prelude::*;
use crate::model::{bit, group_wf, move_in_range, LegalMoves, Move, MoveGroup, Piece};
use crate::counting::{hm_mset, norm_killer, pend_all};
use crate::ordering::{MoveOrdering, Stage};

verus! {

#[verifier::external_type_specification]
#[verifier::external_body]
pub struct ExBoard(cozy_chess::Board);

/// The packets the generator reports for a board: a function of the board
/// alone (generation is deterministic).
pub uninterp spec fn board_groups(b: cozy_chess::Board) -> Seq<(u8, u8, u64)>;

/// The occupancy bitboard of the side not to move: a function of the board
/// alone.
pub uninterp spec fn board_enemy(b: cozy_chess::Board) -> u64;

/// The piece kind standing on a square of the board: a function of the board
/// and the square alone.
pub uninterp spec fn board_occupant(b: cozy_chess::Board, sq: u8) -> Option<Piece>;

/// Relies on cozy_chess::Board::generate_moves: it reports every legal move of
/// the position, grouped into packets of one piece kind (coded 0..6 in the
/// order pawn, knight, bishop, rook, queen, king), one origin square (0..64)
/// and one destination bitboard; no packet ever holds a move whose destination
/// equals its origin, and the packets depend on the board alone.
#[verifier::external_body]
fn raw_move_groups(board: &cozy_chess::Board) -> (r: Vec<(u8, u8, u64)>)
    ensures
        r@ == board_groups(*board),
        forall|i: int|
            0 <= i < r@.len() ==> (#[trigger] r@[i]).0 < 6 && r@[i].1 < 64 && r@[i].2 & (1u64
                << (r@[i].1 as u64)) == 0,
{
    let mut v = Vec::new();
    board.generate_moves(|mvs| {
        v.push((mvs.piece as u8, mvs.from as u8, mvs.to.0));
        false
    });
    v
}

/// Relies on cozy_chess::Board::colors and Board::side_to_move: the returned
/// bitboard holds the squares occupied by the side not to move, a function of
/// the board alone.
#[verifier::external_body]
fn enemy_occupancy(board: &cozy_chess::Board) -> (r: u64)
    ensures
        r == board_enemy(*board),
{
    board.colors(!board.side_to_move()).0
}

/// Relies on cozy_chess::Board::piece_on: the kind of the piece standing on
/// the square, if any, a function of the board and the square alone.
#[verifier::external_body]
fn occupant(board: &cozy_chess::Board, sq: u8) -> (r: Option<Piece>)
    requires
        sq < 64,
    ensures
        r == board_occupant(*board, sq),
{
    match board.piece_on(cozy_chess::Square::index(sq as usize)) {
        None => None,
        Some(cozy_chess::Piece::Pawn) => Some(Piece::Pawn),
        Some(cozy_chess::Piece::Knight) => Some(Piece::Knight),
        Some(cozy_chess::Piece::Bishop) => Some(Piece::Bishop),
        Some(cozy_chess::Piece::Rook) => Some(Piece::Rook),
        Some(cozy_chess::Piece::Queen) => Some(Piece::Queen),
        Some(cozy_chess::Piece::King) => Some(Piece::King),
    }
}

/// The piece kind a generator packet's code stands for.
pub open spec fn piece_of_code(c: u8) -> Piece {
    if c == 0 {
        Piece::Pawn
    } else if c == 1 {
        Piece::Knight
    } else if c == 2 {
        Piece::Bishop
    } else if c == 3 {
        Piece::Rook
    } else if c == 4 {
        Piece::Queen
    } else {
        Piece::King
    }
}

fn decode_piece(c: u8) -> (r: Piece)
    ensures
        r == piece_of_code(c),
{
    match c {
        0 => Piece::Pawn,
        1 => Piece::Knight,
        2 => Piece::Bishop,
        3 => Piece::Rook,
        4 => Piece::Queen,
        _ => Piece::King,
    }
}

/// The model groups a packet sequence decodes to.
pub open spec fn decoded_groups(raw: Seq<(u8, u8, u64)>) -> Seq<MoveGroup> {
    Seq::new(
        raw.len(),
        |i: int| MoveGroup { piece: piece_of_code(raw[i].0), from: raw[i].1, to: raw[i].2 },
    )
}

/// The occupant of every square, as the board reports it.
pub open spec fn board_occupants(b: cozy_chess::Board) -> Seq<Option<Piece>> {
    Seq::new(64, |i: int| board_occupant(b, i as u8))
}

/// Reads one position into the plain model the verified ordering consumes:
/// the decoded generator packets, the board's occupants, and the enemy
/// occupancy restricted to squares a piece was actually found on — which is
/// what makes the model well-formed without further trust.
pub fn snapshot(board: &cozy_chess::Board) -> (r: LegalMoves)
    ensures
        r.wf(),
        r.groups@ == decoded_groups(board_groups(*board)),
        r.occupants@ == board_occupants(*board),
        forall|t: int|
            0 <= t < 64 ==> (bit(r.enemy, t) <==> (bit(board_enemy(*board), t) && board_occupant(
                *board,
                t as u8,
            ).is_some())),
{
    let raw = raw_move_groups(board);
    let mut groups: Vec<MoveGroup> = Vec::new();
    let mut i: usize = 0;
    while i < raw.len()
        invariant
            i <= raw@.len(),
            forall|t: int|
                0 <= t < raw@.len() ==> (#[trigger] raw@[t]).0 < 6 && raw@[t].1 < 64
                    && raw@[t].2 & (1u64 << (raw@[t].1 as u64)) == 0,
            groups@.len() == i,
            forall|t: int| 0 <= t < i ==> group_wf(#[trigger] groups@[t]),
            forall|t: int|
                0 <= t < i ==> #[trigger] groups@[t] == (MoveGroup {
                    piece: piece_of_code(raw@[t].0),
                    from: raw@[t].1,
                    to: raw@[t].2,
                }),
        decreases raw@.len() - i,
    {
        let entry = raw[i];
        let piece = decode_piece(entry.0);
        groups.push(MoveGroup { piece, from: entry.1, to: entry.2 });
        i = i + 1;
    }
    let enemy_raw = enemy_occupancy(board);
    let mut occupants: Vec<Option<Piece>> = Vec::new();
    let mut mask: u64 = 0;
    let mut sq: u8 = 0;
    proof {
        assert forall|t: int| 0 <= t < 64 implies !bit(0u64, t) by {
            let tt = t as u64;
            assert(((0u64 >> tt) & 1u64) == 0u64) by (bit_vector);
        }
    }
    while sq < 64
        invariant
            sq <= 64,
            occupants@.len() == sq as int,
            forall|t: int| 0 <= t < sq as int ==> (bit(mask, t) <==> (#[trigger] occupants@[t]).is_some()),
            forall|t: int| sq as int <= t < 64 ==> !bit(mask, t),
            forall|t: int|
                0 <= t < sq as int ==> #[trigger] occupants@[t] == board_occupant(
                    *board,
                    t as u8,
                ),
        decreases 64 - sq,
    {
        let o = occupant(board, sq);
        occupants.push(o);
        if o.is_some() {
            let ghost mask0 = mask;
            let ghost s = sq as u64;
            mask = mask | (1u64 << (sq as u64));
            proof {
                assert forall|t: int| 0 <= t < 64 implies (bit(mask, t) <==> (bit(mask0, t) || t
                    == sq as int)) by {
                    let tt = t as u64;
                    assert(s < 64 && tt < 64 ==> ((((mask0 | (1u64 << s)) >> tt) & 1u64 == 1u64)
                        <==> (((mask0 >> tt) & 1u64 == 1u64) || tt == s))) by (bit_vector);
                }
            }
        }
        sq = sq + 1;
    }
    let enemy = enemy_raw & mask;
    proof {
        assert forall|t: int| 0 <= t < 64 implies (bit(enemy, t) <==> (bit(enemy_raw, t) && bit(
            mask,
            t,
        ))) by {
            let tt = t as u64;
            assert((((enemy_raw & mask) >> tt) & 1u64 == 1u64) <==> (((enemy_raw >> tt) & 1u64
                == 1u64) && ((mask >> tt) & 1u64 == 1u64))) by (bit_vector);
        }
        assert(groups@ =~= decoded_groups(board_groups(*board)));
        assert(occupants@ =~= board_occupants(*board));
        assert forall|t: int| 0 <= t < 64 implies (bit(enemy, t) <==> (bit(
            board_enemy(*board),
            t,
        ) && board_occupant(*board, t as u8).is_some())) by {
            assert(occupants@[t] == board_occupant(*board, t as u8));
            assert(bit(mask, t) <==> occupants@[t].is_some());
            assert(bit(enemy, t) <==> (bit(enemy_raw, t) && bit(mask, t)));
        }
    }
    LegalMoves { groups, enemy, occupants }
}

impl MoveOrdering {
    /// Builds the stream straight from a board, as the search driver uses it:
    /// one generation snapshot is taken here and handed to `new`.
    pub fn from_board(board: &cozy_chess::Board, hashmove: Option<Move>, killer: Move) -> (r:
        MoveOrdering)
        requires
            move_in_range(killer),
        ensures
            r.wf(),
            r.hashmove == hashmove,
            r.killer == norm_killer(hashmove, killer),
            r.stage == (if hashmove is Some {
                Stage::Hashmove
            } else {
                Stage::PrepareCaptures
            }),
            r.pending@ == decoded_groups(board_groups(*board)),
            r.occupants@ == board_occupants(*board),
            forall|t: int|
                0 <= t < 64 ==> (bit(r.enemy, t) <==> (bit(board_enemy(*board), t)
                    && board_occupant(*board, t as u8).is_some())),
            r.remaining() == hm_mset(hashmove).add(
                pend_all(
                    decoded_groups(board_groups(*board)),
                    r.enemy,
                    board_occupants(*board),
                    hashmove,
                    norm_killer(hashmove, killer),
                ),
            ),
    {
        let legal = snapshot(board);
        MoveOrdering::new(legal, hashmove, killer)
    }
}

} // verus!
