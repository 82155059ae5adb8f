//! Behavioural tests of the staged stream against real positions.

use move_ordering::model::{Move, Piece};
use move_ordering::ordering::MoveOrdering;

/// Square index from file (0 = a) and rank (0 = first rank).
fn sq(file: u8, rank: u8) -> u8 {
    rank * 8 + file
}

fn mv(from: u8, to: u8) -> Move {
    Move { from, to, promotion: None }
}

fn promo(from: u8, to: u8, p: Piece) -> Move {
    Move { from, to, promotion: Some(p) }
}

/// The inert killer used when no killer hint exists.
fn no_killer() -> Move {
    mv(0, 0)
}

fn convert_piece(p: cozy_chess::Piece) -> Piece {
    match p {
        cozy_chess::Piece::Pawn => Piece::Pawn,
        cozy_chess::Piece::Knight => Piece::Knight,
        cozy_chess::Piece::Bishop => Piece::Bishop,
        cozy_chess::Piece::Rook => Piece::Rook,
        cozy_chess::Piece::Queen => Piece::Queen,
        cozy_chess::Piece::King => Piece::King,
    }
}

fn convert_move(m: cozy_chess::Move) -> Move {
    Move {
        from: m.from as u8,
        to: m.to as u8,
        promotion: m.promotion.map(convert_piece),
    }
}

fn drain_board(board: &cozy_chess::Board, hashmove: Option<Move>, killer: Move) -> Vec<Move> {
    assert!(killer.from < 64 && killer.to < 64);
    let mut ordering = MoveOrdering::from_board(board, hashmove, killer);
    ordering.drain()
}

fn legal_moves(board: &cozy_chess::Board) -> Vec<Move> {
    let mut all = Vec::new();
    board.generate_moves(|mvs| {
        for m in mvs {
            all.push(convert_move(m));
        }
        false
    });
    all
}

fn key(m: &Move) -> (u8, u8, u8) {
    let p = match m.promotion {
        None => 0,
        Some(Piece::Pawn) => 1,
        Some(Piece::Knight) => 2,
        Some(Piece::Bishop) => 3,
        Some(Piece::Rook) => 4,
        Some(Piece::Queen) => 5,
        Some(Piece::King) => 6,
    };
    (m.from, m.to, p)
}

fn sorted_keys(moves: &[Move]) -> Vec<(u8, u8, u8)> {
    let mut keys: Vec<(u8, u8, u8)> = moves.iter().map(key).collect();
    keys.sort();
    keys
}

#[test]
fn startpos_drain_is_exactly_the_legal_moves() {
    let board = cozy_chess::Board::default();
    let stream = drain_board(&board, None, no_killer());
    let legal = legal_moves(&board);
    assert_eq!(legal.len(), 20);
    assert_eq!(stream.len(), 20);
    assert_eq!(sorted_keys(&stream), sorted_keys(&legal));
}

#[test]
fn hash_move_is_yielded_first() {
    let board = cozy_chess::Board::default();
    let e2e4 = mv(sq(4, 1), sq(4, 3));
    let stream = drain_board(&board, Some(e2e4), no_killer());
    assert_eq!(stream[0], e2e4);
    assert_eq!(stream.len(), 20);
    assert_eq!(stream.iter().filter(|m| **m == e2e4).count(), 1);
}

#[test]
fn quiet_killer_is_served_before_all_quiets() {
    let board = cozy_chess::Board::default();
    let g1f3 = mv(sq(6, 0), sq(5, 2));
    let stream = drain_board(&board, None, g1f3);
    assert_eq!(stream[0], g1f3);
    assert_eq!(stream.len(), 20);
    assert_eq!(stream.iter().filter(|m| **m == g1f3).count(), 1);
}

#[test]
fn captures_come_highest_victim_first() {
    // White knight on e5 can take the rook on d7 or the pawn on f7.
    let board: cozy_chess::Board = "k7/3r1p2/8/4N3/8/8/8/K7 w - - 0 1".parse().unwrap();
    let nxd7 = mv(sq(4, 4), sq(3, 6));
    let nxf7 = mv(sq(4, 4), sq(5, 6));
    let stream = drain_board(&board, None, no_killer());
    assert_eq!(stream[0], nxd7);
    assert_eq!(stream[1], nxf7);
    assert_eq!(sorted_keys(&stream), sorted_keys(&legal_moves(&board)));
}

#[test]
fn underpromotions_come_last_in_reverse_discovery_order() {
    // White pawn on f7 promotes; the king's one legal quiet comes first, the
    // queen promotion with the quiets, the minor promotions last.
    let board: cozy_chess::Board = "8/5P2/8/8/8/k7/8/K7 w - - 0 1".parse().unwrap();
    let f7 = sq(5, 6);
    let f8 = sq(5, 7);
    let stream = drain_board(&board, None, no_killer());
    let expected = vec![
        mv(sq(0, 0), sq(1, 0)),
        promo(f7, f8, Piece::Queen),
        promo(f7, f8, Piece::Rook),
        promo(f7, f8, Piece::Bishop),
        promo(f7, f8, Piece::Knight),
    ];
    assert_eq!(stream, expected);
}

#[test]
fn killer_equal_to_hash_move_is_not_emitted_twice() {
    let board = cozy_chess::Board::default();
    let e2e4 = mv(sq(4, 1), sq(4, 3));
    let stream = drain_board(&board, Some(e2e4), e2e4);
    assert_eq!(stream.len(), 20);
    assert_eq!(stream.iter().filter(|m| **m == e2e4).count(), 1);
    assert_eq!(sorted_keys(&stream), sorted_keys(&legal_moves(&board)));
}

#[test]
fn checkmate_gives_an_empty_stream() {
    // White is checkmated; no hash move is supplied, the killer is arbitrary.
    let board: cozy_chess::Board =
        "rnb1kbnr/pppp1ppp/8/4p3/6Pq/5P2/PPPPP2P/RNBQKBNR w KQkq - 1 3".parse().unwrap();
    assert_eq!(drain_board(&board, None, no_killer()), Vec::<Move>::new());
    assert_eq!(drain_board(&board, None, mv(sq(4, 1), sq(4, 3))), Vec::<Move>::new());
}

#[test]
fn one_capture_then_quiets_in_generator_order() {
    // Exactly one capture (pawn takes queen) and three quiet king moves.
    let board: cozy_chess::Board = "k7/8/8/3qp3/4P3/8/8/7K w - - 0 1".parse().unwrap();
    let exd5 = mv(sq(4, 3), sq(3, 4));
    let stream = drain_board(&board, None, no_killer());
    let expected = vec![
        exd5,
        mv(sq(7, 0), sq(6, 0)),
        mv(sq(7, 0), sq(6, 1)),
        mv(sq(7, 0), sq(7, 1)),
    ];
    assert_eq!(stream, expected);
}

#[test]
fn quiet_hash_move_then_capturing_killer_then_rest() {
    // Hash move is a quiet king move, the killer is the only capture.
    let board: cozy_chess::Board = "k7/5p2/8/4N3/8/8/8/K7 w - - 0 1".parse().unwrap();
    let hash = mv(sq(0, 0), sq(1, 1));
    let killer = mv(sq(4, 4), sq(5, 6));
    let stream = drain_board(&board, Some(hash), killer);
    assert_eq!(stream[0], hash);
    assert_eq!(stream[1], killer);
    assert_eq!(sorted_keys(&stream), sorted_keys(&legal_moves(&board)));
    assert_eq!(stream.iter().filter(|m| **m == killer).count(), 1);
    assert_eq!(stream.iter().filter(|m| **m == hash).count(), 1);
}

#[test]
fn promoting_killer_may_be_emitted_twice() {
    // The documented tolerated duplicate: a killer that carries a promotion is
    // served with the captures and deliberately left reachable again by the
    // promotion logic, so the same move appears twice.
    let board: cozy_chess::Board = "k7/6P1/8/8/8/8/8/K7 w - - 0 1".parse().unwrap();
    let killer = promo(sq(6, 6), sq(6, 7), Piece::Knight);
    let stream = drain_board(&board, None, killer);
    assert_eq!(stream[0], killer);
    assert_eq!(stream.iter().filter(|m| **m == killer).count(), 2);
}

#[test]
fn illegal_killer_is_silently_dropped() {
    let board = cozy_chess::Board::default();
    // A move no piece can make in the start position.
    let killer = mv(sq(0, 3), sq(7, 3));
    let stream = drain_board(&board, None, killer);
    assert_eq!(stream.len(), 20);
    assert_eq!(stream.iter().filter(|m| **m == killer).count(), 0);
}

#[test]
fn illegal_hash_move_is_still_emitted_first() {
    let board = cozy_chess::Board::default();
    let bogus = mv(sq(0, 3), sq(7, 3));
    let stream = drain_board(&board, Some(bogus), no_killer());
    assert_eq!(stream[0], bogus);
    assert_eq!(stream.len(), 21);
}
