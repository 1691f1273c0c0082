use chess::engine::bitboard::{Board, Color, Piece, popcount, sq_name, sq_from_name};
use chess::engine::eval::evaluate;
use chess::engine::movegen::{generate_moves, knight_attacks, king_attacks, rook_attacks, bishop_attacks, Move, MoveFlags, QUIET};
use chess::engine::search::{apply_move, in_check, Searcher};
use chess::engine::transposition::{hash, toggle_side, update_piece, Bound, TranspositionTable};
use chess::rng::Rng;

#[test]
fn startpos_piece_counts() {
    let b = Board::startpos();
    assert_eq!(popcount(b.piece_bb(Color::White, Piece::Pawn)), 8);
    assert_eq!(popcount(b.piece_bb(Color::Black, Piece::Pawn)), 8);
    assert_eq!(popcount(b.occupied()), 32);
}

#[test]
fn sq_round_trip() {
    for sq in 0..64u32 {
        let name = sq_name(sq);
        assert_eq!(sq_from_name(&name), Some(sq));
    }
}

#[test]
fn startpos_hash_stable() {
    let b = Board::startpos();
    assert_eq!(hash(&b), hash(&b));
}

#[test]
fn tt_store_and_probe() {
    let mut tt = TranspositionTable::new(1);
    tt.store(0xCAFE_BABE, 4, 100, Bound::Exact, 12, 28);
    let entry = tt.probe(0xCAFE_BABE).expect("entry should exist");
    assert_eq!(entry.score, 100);
    assert_eq!(entry.depth, 4);
}

#[test]
fn square_names_at_the_corners() {
    assert_eq!(sq_name(0), "a1");
    assert_eq!(sq_name(7), "h1");
    assert_eq!(sq_name(63), "h8");
    assert_eq!(sq_from_name("e4"), Some(28));
    assert_eq!(sq_from_name("i1"), None);
    assert_eq!(sq_from_name("a9"), None);
    assert_eq!(sq_from_name("e"), None);
}

#[test]
fn attack_sets_of_single_pieces() {
    // knight on a1: b3 and c2
    assert_eq!(knight_attacks(0), (1u64 << 17) | (1u64 << 10));
    // king on h8: g8, g7, h7
    assert_eq!(king_attacks(63), (1u64 << 62) | (1u64 << 54) | (1u64 << 55));
    // rook on a1 on an empty board: the rest of the a-file and of the first rank
    assert_eq!(rook_attacks(0, 0), 0x0101_0101_0101_01FEu64);
    // a lone rook on d4: the whole d-file and 4th rank but d4 itself
    assert_eq!(rook_attacks(27, 1u64 << 27), 0x0808_0808_F708_0808u64);
    // rook on d4 blocked on d6: the file up to d6, the whole 4th rank
    assert_eq!(
        rook_attacks(27, 1u64 << 43),
        (1u64 << 3) | (1u64 << 11) | (1u64 << 19) | (1u64 << 35) | (1u64 << 43) | (0xF7u64 << 24)
    );
    // rook on h8 blocked on f8 and h5
    assert_eq!(
        rook_attacks(63, (1u64 << 61) | (1u64 << 39)),
        (1u64 << 62) | (1u64 << 61) | (1u64 << 55) | (1u64 << 47) | (1u64 << 39)
    );
    // bishop on a1 blocked on c3
    assert_eq!(bishop_attacks(0, 1u64 << 18), (1u64 << 9) | (1u64 << 18));
    // a lone bishop on d4 sees both whole diagonals
    let diag: u64 = [0u32, 9, 18, 36, 45, 54, 63, 48, 41, 34, 20, 13, 6].iter().map(|&t| 1u64 << t).sum();
    assert_eq!(bishop_attacks(27, 1u64 << 27), diag);
}

#[test]
fn startpos_has_twenty_moves() {
    let b = Board::startpos();
    assert_eq!(generate_moves(&b).len(), 20);
}

#[test]
fn startpos_is_balanced() {
    let b = Board::startpos();
    assert_eq!(evaluate(&b), 0);
}

#[test]
fn applying_a_double_push() {
    let b = Board::startpos();
    let mv = generate_moves(&b)
        .into_iter()
        .find(|m| m.from == 12 && m.to == 28)
        .expect("e2e4 is generated");
    let n = apply_move(&b, mv).expect("e2e4 applies");
    assert_eq!(n.side_to_move, Color::Black);
    assert_eq!(n.en_passant, Some(20));
    assert_eq!(n.piece_on(Color::White, 28), Some(Piece::Pawn));
    assert_eq!(n.piece_on(Color::White, 12), None);
    assert_eq!(n.fullmove_number, 1);
    assert_eq!(n.halfmove_clock, 0);
}

#[test]
fn incremental_hash_keys_undo_themselves() {
    let b = Board::startpos();
    let h0 = hash(&b);
    let mut h = h0;
    toggle_side(&mut h);
    assert_ne!(h, h0);
    toggle_side(&mut h);
    assert_eq!(h, h0);
    update_piece(&mut h, Color::White, Piece::Knight, 6, 21);
    assert_ne!(h, h0);
    update_piece(&mut h, Color::White, Piece::Knight, 21, 6);
    assert_eq!(h, h0);
}

#[test]
fn tt_probe_of_another_key_misses() {
    let mut tt = TranspositionTable::new(1);
    tt.store(0xCAFE_BABE, 4, 100, Bound::Exact, 12, 28);
    assert!(tt.probe(0xCAFE_BABF).is_none());
    assert_eq!(tt.hits(), 0);
    assert!(tt.probe(0xCAFE_BABE).is_some());
    assert_eq!(tt.hits(), 1);
    tt.clear();
    assert!(tt.probe(0xCAFE_BABE).is_none());
}

#[test]
fn search_finds_a_move_from_the_start() {
    let mut searcher = Searcher::new(1);
    let mut b = Board::startpos();
    let (mv, stats) = searcher.best_move(&mut b, 2).expect("a move exists");
    assert!(generate_moves(&Board::startpos()).contains(&mv));
    assert_eq!(stats.depth_reached, 2);
    assert!(stats.nodes > 0);
}

fn board_of(pieces: [[u64; 6]; 2], side: Color) -> Board {
    Board {
        pieces,
        side_to_move: side,
        castling_rights: 0,
        en_passant: None,
        halfmove_clock: 0,
        fullmove_number: 1,
    }
}

fn quiet(from: u32, to: u32) -> Move {
    Move { from, to, flags: MoveFlags { bits: QUIET } }
}

#[test]
fn a_rook_moves_along_its_rank() {
    // White rook a1, kings on e1 and h8
    let b = board_of([[0, 0, 0, 1, 0, 1u64 << 4], [0, 0, 0, 0, 0, 1u64 << 63]], Color::White);
    let moves = generate_moves(&b);
    assert!(moves.contains(&quiet(0, 1)));
    assert!(moves.contains(&quiet(0, 3)));
    assert!(!moves.contains(&quiet(0, 4)));
    assert!(moves.contains(&quiet(0, 56)));
}

#[test]
fn a_pinned_rook_cannot_leave_the_file() {
    // White Ke1 Re2, Black Re8 Kh8: e2-d2 exposes the king, e2-e5 does not
    let b = board_of([[0, 0, 0, 1u64 << 12, 0, 1u64 << 4], [0, 0, 0, 1u64 << 60, 0, 1u64 << 63]], Color::White);
    assert!(apply_move(&b, quiet(12, 11)).is_none());
    let n = apply_move(&b, quiet(12, 36)).expect("the rook may stay on the file");
    assert_eq!(n.side_to_move, Color::Black);
    assert_eq!(n.piece_on(Color::White, 36), Some(Piece::Rook));
}

#[test]
fn a_king_may_not_step_into_check() {
    // White Ke1, Black Re8 Kh8: e1-e2 stays on the rook's file, e1-d1 leaves it
    let b = board_of([[0, 0, 0, 0, 0, 1u64 << 4], [0, 0, 0, 1u64 << 60, 0, 1u64 << 63]], Color::White);
    assert!(apply_move(&b, quiet(4, 12)).is_none());
    assert!(apply_move(&b, quiet(4, 3)).is_some());
}

#[test]
fn check_is_seen_along_lines_and_from_pawns() {
    let b = board_of([[0, 0, 0, 0, 0, 1u64 << 4], [0, 0, 0, 1u64 << 60, 0, 1u64 << 63]], Color::White);
    assert!(in_check(&b, Color::White));
    assert!(!in_check(&b, Color::Black));
    // a White pawn on g7 attacks h8
    let b = board_of([[1u64 << 54, 0, 0, 0, 0, 1u64 << 4], [0, 0, 0, 0, 0, 1u64 << 63]], Color::Black);
    assert!(in_check(&b, Color::Black));
    // a blocker on e4 shields e1 from the rook
    let b = board_of([[1u64 << 28, 0, 0, 0, 0, 1u64 << 4], [0, 0, 0, 1u64 << 60, 0, 1u64 << 63]], Color::White);
    assert!(!in_check(&b, Color::White));
}

#[test]
fn tt_keeps_the_deeper_entry_of_a_slot() {
    // a 1 MB table of 16-byte entries has 65536 slots: both keys share a slot
    let mut tt = TranspositionTable::new(1);
    let a: u64 = 5;
    let b: u64 = 5 + 65536;
    tt.store(a, 8, 40, Bound::Exact, 1, 2);
    tt.store(b, 2, -7, Bound::LowerBound, 3, 4);
    assert!(tt.probe(b).is_none());
    assert_eq!(tt.probe(a).expect("the deeper entry stays").depth, 8);
    assert_eq!(tt.stores, 1);
    tt.store(b, 9, -7, Bound::LowerBound, 3, 4);
    assert!(tt.probe(a).is_none());
    assert_eq!(tt.probe(b).expect("a deeper store replaces").score, -7);
    assert_eq!(tt.stores, 2);
}

#[test]
fn tt_replaces_an_entry_of_equal_depth() {
    let mut tt = TranspositionTable::new(1);
    tt.store(7, 3, 1, Bound::UpperBound, 0, 0);
    tt.store(7, 3, 2, Bound::Exact, 0, 0);
    assert_eq!(tt.probe(7).expect("stored").score, 2);
}

#[test]
fn search_has_no_move_when_none_is_legal() {
    // Black Ka8 against White Kb6 Qc7: stalemate
    let mut b = board_of([[0, 0, 0, 0, 1u64 << 50, 1u64 << 41], [0, 0, 0, 0, 0, 1u64 << 56]], Color::Black);
    assert!(!generate_moves(&b).is_empty());
    let mut searcher = Searcher::new(1);
    assert!(searcher.best_move(&mut b, 3).is_none());
}

#[test]
fn search_takes_a_hanging_queen() {
    // White Kg1 Rd1, Black Kg8 Qd5: Rxd5 wins the queen
    let mut b = board_of(
        [[0, 0, 0, 1u64 << 3, 0, 1u64 << 6], [0, 0, 0, 0, 1u64 << 35, 1u64 << 62]],
        Color::White,
    );
    let mut searcher = Searcher::new(1);
    let (mv, _) = searcher.best_move(&mut b, 2).expect("a move exists");
    assert_eq!((mv.from, mv.to), (3, 35));
}

#[test]
fn rng_seeds_and_steps() {
    assert_eq!(Rng::new(0).0, 0x9E37_79B9_7F4A_7C15);
    let mut r = Rng::new(1);
    assert_eq!(r.next_u64(), 1_082_269_761);
    assert_eq!(r.0, 1_082_269_761);
    let mut r = Rng::new(1);
    assert_eq!(r.next_index(10), 1);
    for _ in 0..100 {
        assert!(r.next_index(7) < 7);
    }
}

#[test]
fn search_prefers_mate_in_one() {
    // White Kg1 Ra1, Black Kh8 with pawns g7 h7: Ra8 mates
    let mut b = board_of(
        [[0, 0, 0, 1, 0, 1u64 << 6], [(1u64 << 54) | (1u64 << 55), 0, 0, 0, 0, 1u64 << 63]],
        Color::White,
    );
    let mut searcher = Searcher::new(1);
    let (mv, stats) = searcher.best_move(&mut b, 2).expect("a move exists");
    assert_eq!((mv.from, mv.to), (0, 56));
    assert!(stats.nodes > 1);
}
