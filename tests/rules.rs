use chessboard::{Board, DrawType, FenError, GameOutcome, Move, Piece, PieceColor, PieceType};

const START: &str = "rnbqkbnr/pppppppp/8/8/8/8/PPPPPPPP/RNBQKBNR w KQkq - 0 1";
const KIWIPETE: &str = "r3k2r/p1ppqpb1/bn2pnp1/3PN3/1p2P3/2N2Q1p/PPPBBPPP/R3K2R w KQkq - 0 1";

fn perft(b: &mut Board, depth: u32) -> u64 {
    let moves = b.legal_moves();
    if depth == 1 {
        return moves.len() as u64;
    }
    let mut n = 0;
    for (r, c, m) in moves {
        b.play_move((r, c), &m);
        n += perft(b, depth - 1);
        b.rollback_move();
    }
    n
}

type Snapshot = (
    Vec<Option<Piece>>,
    PieceColor,
    [bool; 4],
    Option<(u8, u8)>,
    u16,
    u16,
    bool,
    Vec<Vec<u8>>,
    usize,
    (u8, u8),
    (u8, u8),
);

fn snapshot(b: &Board) -> Snapshot {
    (
        b.squares.clone(),
        b.turn,
        [b.wq_castle, b.wk_castle, b.bq_castle, b.bk_castle],
        b.en_passant,
        b.halfmove_clock,
        b.fullmove_number,
        b.is_check,
        b.layouts.clone(),
        b.history.len(),
        b.white_king_pos,
        b.black_king_pos,
    )
}

/// Plays the legal move from `from` to `to` (the first one found, so a queen on promotion).
fn play(b: &mut Board, from: (usize, usize), to: (u8, u8)) -> bool {
    let moves = b.legal_moves();
    let (r, c, m) = moves
        .into_iter()
        .find(|(r, c, m)| (*r, *c) == from && m.to == to)
        .expect("move is legal");
    b.play_move((r, c), &m)
}

#[test]
fn start_position_has_twenty_moves() {
    let mut b = Board::new();
    assert_eq!(perft(&mut b, 1), 20);
}

#[test]
fn perft_start_depth_two() {
    let mut b = Board::new();
    assert_eq!(perft(&mut b, 2), 400);
}

#[test]
fn perft_start_depth_three() {
    let mut b = Board::new();
    assert_eq!(perft(&mut b, 3), 8902);
}

#[test]
fn perft_start_depth_four() {
    let mut b = Board::new();
    assert_eq!(perft(&mut b, 4), 197281);
}

#[test]
fn perft_kiwipete() {
    let mut b = Board::from_fen(KIWIPETE).unwrap();
    assert_eq!(perft(&mut b, 1), 48);
    assert_eq!(perft(&mut b, 2), 2039);
}

#[test]
fn apply_then_undo_restores_everything() {
    for fen in [START, KIWIPETE] {
        let mut b = Board::from_fen(fen).unwrap();
        let before = snapshot(&b);
        for (r, c, m) in b.legal_moves() {
            b.play_move((r, c), &m);
            let mid = snapshot(&b);
            for (r2, c2, m2) in b.legal_moves() {
                b.play_move((r2, c2), &m2);
                b.rollback_move();
                assert_eq!(snapshot(&b), mid);
            }
            b.rollback_move();
            assert_eq!(snapshot(&b), before);
        }
    }
}

#[test]
fn generated_moves_never_leave_own_king_attacked() {
    for fen in [START, KIWIPETE] {
        let mut b = Board::from_fen(fen).unwrap();
        for (r, c, m) in b.legal_moves() {
            let mover = b.turn();
            b.play_move((r, c), &m);
            assert!(!b.is_check(&mover));
            for (r2, c2, m2) in b.legal_moves() {
                let mover2 = b.turn();
                b.play_move((r2, c2), &m2);
                assert!(!b.is_check(&mover2));
                b.rollback_move();
            }
            b.rollback_move();
        }
    }
}

#[test]
fn knight_pinned_on_file_cannot_move() {
    let b = Board::from_fen("4k3/8/8/4n3/8/8/8/K3R3 b - - 0 1").unwrap();
    let knight = b.piece_at(3, 4).unwrap();
    assert_eq!(knight.piece_type, PieceType::Knight);
    assert!(b.col_pin(3, 4, PieceColor::Black));
    assert!(!b.row_pin(3, 4, PieceColor::Black));
    assert!(knight.generate_moves(&b).is_empty());
    assert!(b.legal_moves().iter().all(|(r, c, _)| (*r, *c) != (3, 4)));
}

#[test]
fn en_passant_removes_the_pawn_behind_the_target() {
    let mut b = Board::new();
    play(&mut b, (6, 4), (4, 4)); // e4
    play(&mut b, (1, 0), (2, 0)); // a6
    play(&mut b, (4, 4), (3, 4)); // e5
    play(&mut b, (1, 3), (3, 3)); // d5
    assert_eq!(b.en_passant, Some((2, 3)));
    let before = snapshot(&b);
    let moves = b.legal_moves();
    let (r, c, m) = moves
        .into_iter()
        .find(|(r, c, m)| (*r, *c) == (3, 4) && m.to == (2, 3))
        .expect("en passant is legal");
    let captured = m.capture.unwrap();
    assert_eq!((captured.row, captured.col), (3, 3));
    b.play_move((r, c), &m);
    assert_eq!(b.piece_at(3, 3), None);
    assert_eq!(b.piece_at(2, 3).unwrap().piece_type, PieceType::Pawn);
    assert_eq!(b.piece_at(2, 3).unwrap().color, PieceColor::White);
    b.rollback_move();
    assert_eq!(snapshot(&b), before);
}

#[test]
fn en_passant_target_lasts_one_move() {
    let mut b = Board::new();
    play(&mut b, (6, 4), (4, 4));
    assert_eq!(b.en_passant, Some((5, 4)));
    play(&mut b, (0, 6), (2, 5));
    assert_eq!(b.en_passant, None);
}

#[test]
fn threefold_repetition_on_third_occurrence() {
    let mut b = Board::new();
    let shuffle = [((7, 6), (5, 5)), ((0, 6), (2, 5)), ((5, 5), (7, 6)), ((2, 5), (0, 6))];
    let mut flags = Vec::new();
    for _ in 0..2 {
        for (from, to) in shuffle {
            flags.push(play(&mut b, from, to));
        }
    }
    assert_eq!(flags, vec![false, false, false, false, false, false, false, true]);
    let outcome = b.classify(true, true);
    assert!(matches!(outcome, Some(GameOutcome::Draw(DrawType::ThreefoldRepetition))));
}

#[test]
fn lone_kings_are_insufficient_material() {
    let mut b = Board::from_fen("8/8/8/4k3/8/8/8/4K3 w - - 0 1").unwrap();
    assert_eq!(b.material_count(true), (0, 0));
    let outcome = b.play_indexed_move(0);
    assert!(matches!(outcome, Some(GameOutcome::Draw(DrawType::InsufficientMaterial))));
}

#[test]
fn no_moves_without_check_is_stalemate() {
    let mut b = Board::from_fen("7k/5Q2/6K1/8/8/8/8/8 b - - 0 1").unwrap();
    assert!(!b.in_check());
    assert!(b.legal_moves().is_empty());
    let outcome = b.play_indexed_move(3);
    assert!(matches!(outcome, Some(GameOutcome::Draw(DrawType::Stalemate))));
}

#[test]
fn halfmove_clock_cap_is_fifty_move_rule() {
    let mut b = Board::from_fen("8/8/8/4k3/8/8/3R4/4K3 w - - 99 80").unwrap();
    let outcome = b.play_indexed_move(0);
    assert_eq!(b.halfmove_clock, 100);
    assert!(matches!(outcome, Some(GameOutcome::Draw(DrawType::FiftyMoveRule))));
}

#[test]
fn fools_mate_is_checkmate() {
    let mut b =
        Board::from_fen("rnb1kbnr/pppp1ppp/8/4p3/6Pq/5P2/PPPPP2P/RNBQKBNR w KQkq - 1 3").unwrap();
    assert!(b.in_check());
    assert!(b.legal_moves().is_empty());
    let outcome = b.play_indexed_move(0);
    assert!(matches!(outcome, Some(GameOutcome::Checkmate(PieceColor::Black))));
}

#[test]
fn double_check_allows_only_king_moves() {
    // The white king on e1 is checked by the rook on e8 and the knight on d3.
    let b = Board::from_fen("4r2k/8/8/8/8/3n4/8/R3K2R w KQ - 0 1").unwrap();
    let checkers = b.get_checking_pieces(&PieceColor::White, false);
    assert_eq!(checkers.len(), 2);
    let moves = b.legal_moves();
    assert!(!moves.is_empty());
    assert!(moves.iter().all(|(r, c, m)| (*r, *c) == (7, 4) && !m.castling));
}

#[test]
fn single_check_by_slider_can_be_blocked() {
    let b = Board::from_fen("4r2k/8/8/8/8/8/3B4/4K3 w - - 0 1").unwrap();
    let moves = b.legal_moves();
    let bishop: Vec<_> = moves.iter().filter(|(r, c, _)| (*r, *c) == (6, 3)).collect();
    assert_eq!(bishop.len(), 1);
    assert_eq!(bishop[0].2.to, (5, 4));
}

#[test]
fn castling_moves_king_and_rook_and_undo_restores_rights() {
    let mut b = Board::from_fen("r3k2r/8/8/8/8/8/8/R3K2R w KQkq - 0 1").unwrap();
    let before = snapshot(&b);
    let moves = b.legal_moves();
    let castles: Vec<_> = moves.iter().filter(|(_, _, m)| m.castling).collect();
    assert_eq!(castles.len(), 2);
    let (r, c, m) = *castles.iter().find(|(_, _, m)| m.to == (7, 6)).unwrap();
    b.play_move((*r, *c), m);
    assert_eq!(b.piece_at(7, 6).unwrap().piece_type, PieceType::King);
    assert_eq!(b.piece_at(7, 5).unwrap().piece_type, PieceType::Rook);
    assert_eq!(b.piece_at(7, 7), None);
    assert!(!b.wk_castle && !b.wq_castle && b.bk_castle && b.bq_castle);
    assert_eq!(b.white_king_pos, (7, 6));
    b.rollback_move();
    assert_eq!(snapshot(&b), before);
}

#[test]
fn castling_through_attacked_square_is_refused() {
    let b = Board::from_fen("r3k2r/8/8/8/8/8/5r2/R3K2R w KQkq - 0 1").unwrap();
    assert!(b.legal_moves().iter().all(|(_, _, m)| !m.castling || m.to == (7, 2)));
}

#[test]
fn promotion_offers_four_kinds_and_undo_restores_pawn() {
    let mut b = Board::from_fen("7k/1P6/8/8/8/8/8/K7 w - - 0 1").unwrap();
    let moves: Vec<_> = b.legal_moves().into_iter().filter(|(r, _, _)| *r == 1).collect();
    let kinds: Vec<_> = moves.iter().map(|(_, _, m)| m.promotion.unwrap()).collect();
    assert_eq!(kinds, vec![PieceType::Queen, PieceType::Rook, PieceType::Bishop, PieceType::Knight]);
    let (r, c, m) = moves[0];
    b.play_move((r, c), &m);
    assert_eq!(b.piece_at(0, 1).unwrap().piece_type, PieceType::Queen);
    assert_eq!(b.halfmove_clock, 0);
    b.rollback_move();
    assert_eq!(b.piece_at(1, 1).unwrap().piece_type, PieceType::Pawn);
    assert_eq!(b.piece_at(0, 1), None);
}

#[test]
fn clocks_follow_the_rules() {
    let mut b = Board::new();
    play(&mut b, (7, 6), (5, 5));
    assert_eq!((b.halfmove_clock, b.fullmove_number), (1, 1));
    play(&mut b, (1, 4), (3, 4));
    assert_eq!((b.halfmove_clock, b.fullmove_number), (0, 2));
    assert_eq!(b.turn(), PieceColor::White);
}

#[test]
fn from_fen_reads_all_fields() {
    let b = Board::from_fen("4k3/8/8/8/8/8/8/4K2R b Kq e3 12 34").unwrap();
    assert_eq!(b.turn, PieceColor::Black);
    assert_eq!([b.wq_castle, b.wk_castle, b.bq_castle, b.bk_castle], [false, true, true, false]);
    assert_eq!(b.en_passant, Some((5, 4)));
    assert_eq!((b.halfmove_clock, b.fullmove_number), (12, 34));
    assert_eq!(b.white_king_pos, (7, 4));
    assert_eq!(b.black_king_pos, (0, 4));
    assert_eq!(
        b.piece_at(7, 7),
        Some(Piece::new(PieceType::Rook, PieceColor::White, 7, 7))
    );
}

#[test]
fn from_fen_reports_each_error() {
    assert_eq!(Board::from_fen("8/8/8/8/8/8/8/8 w - -").err(), Some(FenError::FieldCount));
    assert_eq!(Board::from_fen("").err(), Some(FenError::FieldCount));
    assert_eq!(Board::from_fen("4x3/8/8/8/8/8/8/8 w - - 0 1").err(), Some(FenError::Placement));
    assert_eq!(Board::from_fen("9/8/8/8/8/8/8/8 w - - 0 1").err(), Some(FenError::Placement));
    assert_eq!(Board::from_fen("8/8/8/8/8/8/8/8/8 w - - 0 1").err(), Some(FenError::Placement));
    assert_eq!(Board::from_fen("8 w - - 0 1").err(), Some(FenError::Placement));
    assert_eq!(Board::from_fen("7/8/8/8/8/8/8/8 w - - 0 1").err(), Some(FenError::Placement));
    assert_eq!(Board::from_fen("8/8/8/8/8/8/8/7 w - - 0 1").err(), Some(FenError::Placement));
    assert_eq!(Board::from_fen("8/8/8/8/8/8/8/8 x - - 0 1").err(), Some(FenError::Turn));
    assert_eq!(Board::from_fen("8/8/8/8/8/8/8/8 w - z9 0 1").err(), Some(FenError::EnPassant));
    assert_eq!(Board::from_fen("8/8/8/8/8/8/8/8 w - - a 1").err(), Some(FenError::HalfmoveClock));
    assert_eq!(Board::from_fen("8/8/8/8/8/8/8/8 w - - 0 70000").err(), Some(FenError::FullmoveNumber));
    assert_eq!(Board::from_fen("8/8/8/8/8/8/8/8 w - - 0 65535").err(), None);
}

#[test]
fn new_matches_the_starting_record() {
    let a = Board::new();
    let b = Board::from_fen(START).unwrap();
    assert_eq!(snapshot(&a), snapshot(&b));
    assert_eq!(a.to_fen_board(), "rnbqkbnr/pppppppp/8/8/8/8/PPPPPPPP/RNBQKBNR");
}

#[test]
fn placement_written_back() {
    let b = Board::from_fen(KIWIPETE).unwrap();
    assert_eq!(b.to_fen_board(), "r3k2r/p1ppqpb1/bn2pnp1/3PN3/1p2P3/2N2Q1p/PPPBBPPP/R3K2R");
}

#[test]
fn square_names_round_trip() {
    assert_eq!(Board::coords_to_u8("e3"), Some((5, 4)));
    assert_eq!(Board::coords_to_u8("a8"), Some((0, 0)));
    assert_eq!(Board::coords_to_u8("i1"), None);
    assert_eq!(Board::coords_to_u8("e9"), None);
    assert_eq!(Board::coords_to_u8("e"), None);
    assert_eq!(Board::u8_coords_to_str((5, 4)), "e3");
    for r in 0..8u8 {
        for c in 0..8u8 {
            assert_eq!(Board::coords_to_u8(&Board::u8_coords_to_str((r, c))), Some((r, c)));
        }
    }
}

#[test]
fn attackers_are_collected_or_stopped_early() {
    let b = Board::from_fen("4k3/8/8/8/8/5n2/8/r3K2r w - - 0 1").unwrap();
    let all = b.get_attacking_pieces(7, 4, &PieceColor::White, false);
    assert_eq!(all, vec![(5, 5), (7, 7), (7, 0)]);
    let first = b.get_attacking_pieces(7, 4, &PieceColor::White, true);
    assert_eq!(first, vec![(5, 5)]);
    assert!(b.is_attacked(7, 4, &PieceColor::White));
    assert!(!b.is_attacked(0, 0, &PieceColor::Black));
}

#[test]
fn own_king_does_not_block_a_ray() {
    // The king on e1 looks along the first rank at a rook on a1: f1 stays attacked.
    let b = Board::from_fen("4k3/8/8/8/8/8/8/r3K3 w - - 0 1").unwrap();
    assert!(b.is_attacked(7, 5, &PieceColor::White));
    assert!(b.legal_moves().iter().all(|(_, _, m)| m.to != (7, 5) && m.to != (7, 3)));
}

#[test]
fn piece_identity_and_images() {
    let king = Piece::new(PieceType::King, PieceColor::White, 7, 4);
    assert_eq!(king.id(), 96);
    assert!(king.matches(PieceType::King.id() | PieceColor::White.id()));
    assert!(!king.matches(PieceType::King.id() | PieceColor::Black.id()));
    assert_eq!(PieceType::Queen.id(), 16);
    assert_eq!(PieceColor::Black.id(), 128);
    assert_eq!(king.get_png(), "01.png");
    assert_eq!(Piece::new(PieceType::Pawn, PieceColor::Black, 1, 0).get_png(), "15.png");
    assert_eq!(king.to_fen(), 'K');
    assert_eq!(Piece::from_fen('n', 2, 3), Some(Piece::new(PieceType::Knight, PieceColor::Black, 2, 3)));
    assert_eq!(Piece::from_fen('x', 2, 3), None);
    assert_eq!(PieceColor::White.opposite().opposite(), PieceColor::White);
    assert_eq!(Piece::new(PieceType::Pawn, PieceColor::White, 6, 0).get_potential_value(), 9);
    assert_eq!(PieceType::Rook.value(), 5);
}

#[test]
fn move_constructors() {
    let m = Move::castle((7, 6), (7, 5));
    assert!(m.castling);
    assert_eq!(m.rook_to, Some((7, 5)));
    assert_eq!(m.to, (7, 6));
    let n = Move::new((2, 2), None, Some(PieceType::Queen));
    assert!(!n.castling);
    assert_eq!(n.rook_to, None);
    assert_eq!(n.promotion, Some(PieceType::Queen));
}

#[test]
fn random_play_keeps_the_position_consistent() {
    let mut b = Board::new();
    for _ in 0..60 {
        let outcome = b.play_random_move();
        if outcome.is_some() {
            break;
        }
        assert_eq!(b.layouts.len(), b.history.len() + 1);
    }
    while !b.history.is_empty() {
        b.rollback_move();
    }
    assert_eq!(snapshot(&b).0, Board::new().squares);
}

#[test]
fn blocking_squares_answer_a_slider_check() {
    let b = Board::from_fen("4r2k/8/8/8/8/8/3B4/4K3 w - - 0 1").unwrap();
    let bishop = b.piece_at(6, 3).unwrap();
    assert!(bishop.solves_check(&b, (5, 4), (7, 4), &(0, 4)));
    assert!(bishop.solves_check(&b, (0, 4), (7, 4), &(0, 4)));
    assert!(!bishop.solves_check(&b, (5, 2), (7, 4), &(0, 4)));
    let knight_check = Board::from_fen("4k3/8/8/8/8/3n4/8/4K3 w - - 0 1").unwrap();
    let king = knight_check.piece_at(7, 4).unwrap();
    assert!(!king.solves_check(&knight_check, (6, 4), (7, 4), &(5, 3)));
    assert!(king.solves_check(&knight_check, (5, 3), (7, 4), &(5, 3)));
}

#[test]
fn pinned_rook_moves_only_along_the_pin_line() {
    // The black rook on e5 is pinned by the white rook on e1 against its king on e8.
    let b = Board::from_fen("4k3/8/8/4r3/8/8/8/K3R3 b - - 0 1").unwrap();
    let rook = b.piece_at(3, 4).unwrap();
    let moves = rook.generate_moves(&b);
    assert!(!moves.is_empty());
    assert!(moves.iter().all(|m| m.to.1 == 4));
    assert!(moves.iter().any(|m| m.to == (7, 4) && m.capture.is_some()));
}

#[test]
fn en_passant_from_a_setup_record() {
    let mut b = Board::from_fen("4k3/8/8/3pP3/8/8/8/4K3 w - d6 0 1").unwrap();
    assert_eq!(b.en_passant, Some((2, 3)));
    let moves = b.legal_moves();
    let (r, c, m) = moves
        .into_iter()
        .find(|(r, c, m)| (*r, *c) == (3, 4) && m.to == (2, 3))
        .expect("en passant is listed");
    b.play_move((r, c), &m);
    assert_eq!(b.piece_at(3, 3), None);
    assert_eq!(b.piece_at(3, 4), None);
    assert_eq!(b.piece_at(2, 3).unwrap().color, PieceColor::White);
}

#[test]
fn play_indexed_move_plays_exactly_one_move() {
    let mut b = Board::new();
    let outcome = b.play_indexed_move(7);
    assert!(outcome.is_none());
    assert_eq!(b.history.len(), 1);
    assert_eq!(b.turn(), PieceColor::Black);
}
