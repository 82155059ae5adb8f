//! Tests of the ordering over hand-built move models, independent of any
//! board: the same plain data the snapshot produces.

use move_ordering::model::{LegalMoves, Move, MoveGroup, Piece};
use move_ordering::ordering::MoveOrdering;

fn mv(from: u8, to: u8) -> Move {
    Move { from, to, promotion: None }
}

fn board_with(groups: Vec<MoveGroup>, enemy_squares: &[(u8, Piece)]) -> LegalMoves {
    let mut enemy: u64 = 0;
    let mut occupants: Vec<Option<Piece>> = vec![None; 64];
    for (sq, p) in enemy_squares {
        enemy |= 1u64 << sq;
        occupants[*sq as usize] = Some(*p);
    }
    LegalMoves { groups, enemy, occupants }
}

#[test]
fn hand_built_group_splits_captures_from_quiets() {
    // A rook on a1 may go to b1 (empty) or a2 (enemy pawn).
    let groups = vec![MoveGroup { piece: Piece::Rook, from: 0, to: (1u64 << 1) | (1u64 << 8) }];
    let legal = board_with(groups, &[(8, Piece::Pawn)]);
    let mut ordering = MoveOrdering::new(legal, None, mv(0, 0));
    let stream = ordering.drain();
    assert_eq!(stream, vec![mv(0, 8), mv(0, 1)]);
}

#[test]
fn scores_break_ties_by_attacker_value() {
    // A pawn on b2 and a queen on c4 can both take the knight on c3: the pawn
    // (cheaper attacker) must come first.
    let groups = vec![
        MoveGroup { piece: Piece::Queen, from: 26, to: 1u64 << 18 },
        MoveGroup { piece: Piece::Pawn, from: 9, to: 1u64 << 18 },
    ];
    let legal = board_with(groups, &[(18, Piece::Knight)]);
    let mut ordering = MoveOrdering::new(legal, None, mv(0, 0));
    let stream = ordering.drain();
    assert_eq!(stream, vec![mv(9, 18), mv(26, 18)]);
}

#[test]
fn quiet_groups_drain_last_in_first_out() {
    // Two quiet groups: the later group's moves come first.
    let groups = vec![
        MoveGroup { piece: Piece::Knight, from: 1, to: (1u64 << 16) | (1u64 << 18) },
        MoveGroup { piece: Piece::King, from: 4, to: (1u64 << 11) | (1u64 << 12) },
    ];
    let legal = board_with(groups, &[]);
    let mut ordering = MoveOrdering::new(legal, None, mv(0, 0));
    let stream = ordering.drain();
    assert_eq!(stream, vec![mv(4, 11), mv(4, 12), mv(1, 16), mv(1, 18)]);
}

#[test]
fn hash_move_is_excluded_from_later_stages() {
    let groups = vec![MoveGroup { piece: Piece::King, from: 4, to: (1u64 << 11) | (1u64 << 12) }];
    let legal = board_with(groups, &[]);
    let hash = mv(4, 12);
    let mut ordering = MoveOrdering::new(legal, Some(hash), mv(0, 0));
    let stream = ordering.drain();
    assert_eq!(stream, vec![hash, mv(4, 11)]);
}

#[test]
fn pulls_after_exhaustion_keep_returning_nothing() {
    let legal = board_with(vec![], &[]);
    let mut ordering = MoveOrdering::new(legal, None, mv(0, 0));
    assert_eq!(ordering.next(), None);
    assert_eq!(ordering.next(), None);
}

#[test]
fn single_pulls_follow_the_stage_order() {
    // One capture and one quiet: the capture must come out of the first pull.
    let groups = vec![MoveGroup { piece: Piece::Bishop, from: 2, to: (1u64 << 11) | (1u64 << 20) }];
    let legal = board_with(groups, &[(20, Piece::Rook)]);
    let mut ordering = MoveOrdering::new(legal, None, mv(0, 0));
    assert_eq!(ordering.next(), Some(mv(2, 20)));
    assert_eq!(ordering.next(), Some(mv(2, 11)));
    assert_eq!(ordering.next(), None);
}
