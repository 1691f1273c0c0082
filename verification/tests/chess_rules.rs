use chess::chess::board::Board;
use chess::chess::board_state::{BoardState, CastlingRights, CastlingState};
use chess::chess::logic_base::{ChessLogic, GameResult};
use chess::chess::moves::{Move, MoveFlag, MoveInstruction, Tile};
use chess::chess::piece::{Class, Color, Piece};

fn tile(name: &str) -> Tile {
    Tile::parse(name).expect("a square name")
}

fn play(board: &mut Board, text: &str) -> Move {
    let instr = MoveInstruction::parse_trimmed(text).expect("a move text");
    let mv = board.resolve_move(instr).expect("a legal move");
    board.make_move(mv);
    mv
}

/// An empty board with White to move and no castling rights.
fn empty_board() -> Board {
    let mut b = Board::new();
    for t in Tile::iter() {
        b.set_piece(t, Piece::NoPiece);
    }
    b.set_castling_state(CastlingState::none());
    b
}

#[test]
fn perft_from_the_start() {
    let mut b = Board::new();
    assert_eq!(b.perft(0), 1);
    assert_eq!(b.perft(1), 20);
    assert_eq!(b.perft(2), 400);
    assert_eq!(b.perft(3), 8902);
}

#[test]
fn perft_leaves_the_board_as_it_was() {
    let mut b = Board::new();
    let before = b.render();
    b.perft(2);
    assert_eq!(b.render(), before);
    assert_eq!(b.get_side_to_move(), Color::White);
    assert_eq!(b.get_castling_state().as_u8(), 0b1111);
}

#[test]
fn unmake_restores_every_start_move() {
    let b = Board::new();
    for mv in b.generate_legal_moves() {
        let mut c = b.clone();
        let info = c.make_move(mv);
        assert_ne!(c.render(), b.render());
        c.unmake_move(mv, info);
        assert_eq!(c.render(), b.render());
        assert_eq!(c.get_side_to_move(), b.get_side_to_move());
        assert_eq!(c.get_castling_state(), b.get_castling_state());
        assert_eq!(c.get_en_passant(), b.get_en_passant());
        assert_eq!(c.get_halfmove_clock(), b.get_halfmove_clock());
        assert_eq!(c.get_fullmove_number(), b.get_fullmove_number());
    }
}

#[test]
fn start_board_picture() {
    let b = Board::new();
    let expected = "8 r n b q k b n r \n\
                    7 p p p p p p p p \n\
                    6 . . . . . . . . \n\
                    5 . . . . . . . . \n\
                    4 . . . . . . . . \n\
                    3 . . . . . . . . \n\
                    2 P P P P P P P P \n\
                    1 R N B Q K B N R \n  a b c d e f g h\n";
    assert_eq!(b.render(), expected);
}

#[test]
fn start_position_state() {
    let b = Board::new();
    assert_eq!(b.get_piece(tile("e1")), Piece::WhiteKing);
    assert_eq!(b.get_piece(tile("d8")), Piece::BlackQueen);
    assert_eq!(b.get_piece(tile("e4")), Piece::NoPiece);
    assert_eq!(b.get_side_to_move(), Color::White);
    assert_eq!(b.get_en_passant(), None);
    assert_eq!(b.get_halfmove_clock(), 0);
    assert_eq!(b.get_fullmove_number(), 1);
    assert_eq!(b.get_bitboard(Class::Pawn, Color::White), 0xFF00);
    assert_eq!(b.get_occupied(Color::Black), 0xFFFF_0000_0000_0000);
    assert_eq!(b.get_all_occupied(), 0xFFFF_0000_0000_FFFF);
    assert_eq!(b.king_tile(Color::White), tile("e1"));
    assert_eq!(b.king_tile(Color::Black), tile("e8"));
    assert!(!b.is_in_check(Color::White));
    assert_eq!(b.game_result(), GameResult::Ongoing);
}

#[test]
fn attacks_at_the_start() {
    let b = Board::new();
    // e3 is covered by the pawns on d2 and f2
    assert_eq!(b.get_attackers_of(tile("e3"), Color::White), (1u64 << 11) | (1u64 << 13));
    assert!(b.is_square_attacked(tile("e3"), Color::White));
    assert!(!b.is_square_attacked(tile("e4"), Color::White));
    // f3 is covered by the g1 knight and the e2 and g2 pawns
    assert_eq!(b.get_attackers_of(tile("f3"), Color::White), (1u64 << 6) | (1u64 << 12) | (1u64 << 14));
    assert!(b.is_square_attacked(tile("f6"), Color::Black));
}

#[test]
fn moves_for_one_tile() {
    let b = Board::new();
    let knight = b.generate_moves_for_tile(tile("g1"));
    assert_eq!(knight.len(), 2);
    assert!(knight.iter().all(|m| m.from() == tile("g1")));
    let pawn = b.generate_moves_for_tile(tile("e2"));
    assert_eq!(pawn.len(), 2);
    assert!(b.generate_moves_for_tile(tile("e4")).is_empty());
    assert!(b.generate_moves_for_tile(tile("a1")).is_empty());
}

#[test]
fn double_push_sets_en_passant() {
    let mut b = Board::new();
    let mv = play(&mut b, "e2e4");
    assert_eq!(mv.flag(), MoveFlag::DoublePawnPush);
    assert!(Board::new().is_legal(mv));
    assert_eq!(b.get_en_passant(), Some(tile("e3")));
    assert_eq!(b.get_side_to_move(), Color::Black);
    assert_eq!(b.get_piece(tile("e4")), Piece::WhitePawn);
    assert_eq!(b.get_piece(tile("e2")), Piece::NoPiece);
    assert_eq!(b.get_fullmove_number(), 1);
    play(&mut b, "g8f6");
    assert_eq!(b.get_en_passant(), None);
    assert_eq!(b.get_fullmove_number(), 2);
    assert_eq!(b.get_halfmove_clock(), 1);
}

#[test]
fn en_passant_capture() {
    let mut b = Board::new();
    play(&mut b, "e2e4");
    play(&mut b, "a7a6");
    play(&mut b, "e4e5");
    play(&mut b, "d7d5");
    assert_eq!(b.get_en_passant(), Some(tile("d6")));
    let before = b.clone();
    let mv = play(&mut b, "e5d6");
    assert_eq!(mv.flag(), MoveFlag::EpCapture);
    assert_eq!(b.get_piece(tile("d5")), Piece::NoPiece);
    assert_eq!(b.get_piece(tile("d6")), Piece::WhitePawn);
    assert_eq!(b.get_halfmove_clock(), 0);
    // and back
    let mut c = before.clone();
    let info = c.make_move(mv);
    assert_eq!(info.captured, Piece::BlackPawn);
    assert_eq!(info.captured_ep_tile, Some(tile("d5")));
    c.unmake_move(mv, info);
    assert_eq!(c.render(), before.render());
    assert_eq!(c.get_en_passant(), Some(tile("d6")));
}

#[test]
fn castling_king_side() {
    let mut b = Board::new();
    for text in ["e2e4", "e7e5", "g1f3", "b8c6", "f1c4", "f8c5"] {
        play(&mut b, text);
    }
    let mv = play(&mut b, "e1g1");
    assert_eq!(mv.flag(), MoveFlag::KingCastle);
    assert_eq!(b.get_piece(tile("g1")), Piece::WhiteKing);
    assert_eq!(b.get_piece(tile("f1")), Piece::WhiteRook);
    assert_eq!(b.get_piece(tile("h1")), Piece::NoPiece);
    let rights = b.get_castling_state();
    assert!(!rights.contains(CastlingRights::WhiteKing));
    assert!(!rights.contains(CastlingRights::WhiteQueen));
    assert!(rights.contains(CastlingRights::BlackKing));
    assert!(rights.contains(CastlingRights::BlackQueen));
}

#[test]
fn rook_move_drops_one_right() {
    let mut b = Board::new();
    for text in ["h2h4", "a7a5", "h1h3"] {
        play(&mut b, text);
    }
    let rights = b.get_castling_state();
    assert!(!rights.contains(CastlingRights::WhiteKing));
    assert!(rights.contains(CastlingRights::WhiteQueen));
    play(&mut b, "a8a6");
    assert!(!b.get_castling_state().contains(CastlingRights::BlackQueen));
    assert_eq!(b.get_castling_state().as_u8(), 0b0110);
}

#[test]
fn fools_mate() {
    let mut b = Board::new();
    for text in ["f2f3", "e7e5", "g2g4", "d8h4"] {
        play(&mut b, text);
    }
    assert!(b.is_in_check(Color::White));
    assert!(b.is_checkmate());
    assert!(!b.is_stalemate());
    assert!(b.generate_legal_moves().is_empty());
    assert_eq!(b.game_result(), GameResult::Checkmate(Color::Black));
    assert_eq!(b.perft(1), 0);
}

#[test]
fn stalemate_in_the_corner() {
    let mut b = empty_board();
    b.set_piece(tile("h8"), Piece::BlackKing);
    b.set_piece(tile("g6"), Piece::WhiteQueen);
    b.set_piece(tile("f7"), Piece::WhiteKing);
    b.pass_player_turn();
    assert!(!b.is_in_check(Color::Black));
    assert!(b.generate_legal_moves().is_empty());
    assert!(b.is_stalemate());
    assert!(!b.is_checkmate());
    assert_eq!(b.game_result(), GameResult::Stalemate);
}

#[test]
fn insufficient_material() {
    let mut b = empty_board();
    b.set_piece(tile("e1"), Piece::WhiteKing);
    b.set_piece(tile("e8"), Piece::BlackKing);
    assert!(b.is_draw_by_insufficient_material());
    assert_eq!(b.game_result(), GameResult::DrawByInsufficientMaterial);
    b.set_piece(tile("b1"), Piece::WhiteKnight);
    assert!(b.is_draw_by_insufficient_material());
    b.set_piece(tile("g1"), Piece::WhiteKnight);
    assert!(!b.is_draw_by_insufficient_material());
    b.set_piece(tile("g1"), Piece::NoPiece);
    b.set_piece(tile("c8"), Piece::BlackBishop);
    assert!(!b.is_draw_by_insufficient_material());
    b.set_piece(tile("c8"), Piece::NoPiece);
    b.set_piece(tile("a2"), Piece::WhitePawn);
    assert!(!b.is_draw_by_insufficient_material());
    assert_eq!(b.game_result(), GameResult::Ongoing);
}

#[test]
fn fifty_move_rule() {
    let mut b = Board::new();
    b.set_halfmove_clock(99);
    assert!(!b.is_draw_by_fifty_move_rule());
    b.set_halfmove_clock(100);
    assert!(b.is_draw_by_fifty_move_rule());
    assert_eq!(b.game_result(), GameResult::DrawByFiftyMoveRule);
}

#[test]
fn promotion_moves() {
    let mut b = empty_board();
    b.set_piece(tile("e1"), Piece::WhiteKing);
    b.set_piece(tile("a8"), Piece::BlackKing);
    b.set_piece(tile("g7"), Piece::WhitePawn);
    b.set_piece(tile("h8"), Piece::BlackRook);
    let pawn = b.generate_moves_for_tile(tile("g7"));
    // four promotions straight ahead, four by capturing on h8
    assert_eq!(pawn.len(), 8);
    assert_eq!(pawn[0].flag(), MoveFlag::KnightPromo);
    assert_eq!(pawn[3].flag(), MoveFlag::QueenPromo);
    assert_eq!(pawn[4].flag(), MoveFlag::KnightPromoCapture);
    let mv = play(&mut b, "g7h8q");
    assert_eq!(mv.flag(), MoveFlag::QueenPromoCapture);
    assert_eq!(b.get_piece(tile("h8")), Piece::WhiteQueen);
    assert!(b.is_in_check(Color::Black));
}

#[test]
fn resolve_rejects_illegal_moves() {
    let b = Board::new();
    let instr = MoveInstruction::parse_trimmed("e2e5").unwrap();
    assert_eq!(b.resolve_move(instr).unwrap_err(), "Illegal move: e2e5");
    let instr = MoveInstruction::parse_trimmed("e7e8q").unwrap();
    assert_eq!(b.resolve_move(instr).unwrap_err(), "Illegal move: e7e8Queen");
}

#[test]
fn parse_move_texts() {
    let m = MoveInstruction::parse_trimmed("e7e8n").unwrap();
    assert_eq!(m.from, tile("e7"));
    assert_eq!(m.to, tile("e8"));
    assert_eq!(m.promotion, Some(Class::Knight));
    assert_eq!(
        MoveInstruction::parse_trimmed("e2").err().unwrap(),
        "Expected a move like \"e2e4\" or \"e7e8q\", got \"e2\""
    );
    assert_eq!(MoveInstruction::parse_trimmed("z2e4").err().unwrap(), "Invalid tile string: z2");
    assert_eq!(MoveInstruction::parse_trimmed("e2e9").err().unwrap(), "Invalid tile string: e9");
    assert_eq!(MoveInstruction::parse_trimmed("e7e8k").err().unwrap(), "Cannot promote to King");
    assert_eq!(MoveInstruction::parse_trimmed("e7e8p").err().unwrap(), "Cannot promote to Pawn");
    assert_eq!(
        MoveInstruction::parse_trimmed("e7e8x").err().unwrap(),
        "'x' is not a valid chess piece character"
    );
}

#[test]
fn tiles_and_their_names() {
    assert_eq!(Tile::iter().len(), 64);
    assert_eq!(tile("a1").get_idx(), 0);
    assert_eq!(tile("h8").get_idx(), 63);
    assert_eq!(tile("e4").get_file_rank(), (4, 3));
    assert_eq!(Tile::from_idx(28).name(), "e4");
    assert!(Tile::check_valid_tile("h8"));
    assert!(!Tile::check_valid_tile("h9"));
    assert!(!Tile::check_valid_tile("e44"));
    assert_eq!(Tile::parse("i1").unwrap_err(), "Invalid tile string: i1");
    assert_eq!("c6".parse::<Tile>().unwrap(), tile("c6"));
    assert_eq!("c6".parse::<Tile>().unwrap().get_idx(), 42);
    assert_eq!("c9".parse::<Tile>().unwrap_err(), "Invalid tile string: c9");
}

#[test]
fn pieces_and_letters() {
    assert_eq!(Piece::new(Class::Queen, Color::Black), Piece::BlackQueen);
    assert_eq!(Piece::BlackQueen.class(), Class::Queen);
    assert_eq!(Piece::BlackQueen.color(), Color::Black);
    assert_eq!(Piece::WhiteKnight.to_char(), 'N');
    assert_eq!(Piece::NoPiece.to_char(), ' ');
    assert!(Piece::NoPiece.is_none());
    assert_eq!(Piece::try_from_char('k'), Ok(Piece::BlackKing));
    assert_eq!(Piece::try_from_char(' '), Ok(Piece::NoPiece));
    assert_eq!(Piece::try_from_char('x').unwrap_err(), "'x' is not a valid chess piece character");
    assert_eq!(Class::try_from_char('b'), Ok(Class::Bishop));
    assert_eq!(Class::iter().len(), 6);
    assert_eq!(Piece::iter().len(), 12);
    assert_eq!(Color::White.opposite(), Color::Black);
}

#[test]
fn castling_state_masks() {
    let mut s = CastlingState::new(0xFF);
    assert_eq!(s.as_u8(), 0b1111);
    s.remove(CastlingRights::WhiteQueen);
    assert!(!s.contains(CastlingRights::WhiteQueen));
    assert!(s.contains(CastlingRights::WhiteKing));
    assert_eq!(s.as_u8(), 0b1101);
    s.add(CastlingRights::WhiteQueen);
    assert_eq!(s, CastlingState::all());
    assert_eq!(CastlingState::none().as_u8(), 0);
}

#[test]
fn legal_play_keeps_the_board_playable() {
    let mut b = Board::new();
    for ply in 0..60usize {
        let moves = b.generate_legal_moves();
        if moves.is_empty() {
            break;
        }
        let mv = moves[(ply * 7 + 3) % moves.len()];
        let side = b.get_side_to_move();
        b.make_move(mv);
        // the mover is not left in check, and both kings stay on the board
        assert!(!b.is_in_check(side));
        assert_eq!(b.get_piece(b.king_tile(Color::White)), Piece::WhiteKing);
        assert_eq!(b.get_piece(b.king_tile(Color::Black)), Piece::BlackKing);
        assert_eq!(b.get_side_to_move(), side.opposite());
    }
}

#[test]
fn legal_means_pseudo_legal_and_king_safe() {
    let mut b = Board::new();
    for text in ["e2e4", "d7d5", "f1b5"] {
        play(&mut b, text);
    }
    // Black is in check from the bishop on b5
    assert!(b.is_in_check(Color::Black));
    let side = b.get_side_to_move();
    let pseudo = b.generate_pseudo_legal_moves();
    let legal = b.generate_legal_moves();
    assert!(legal.len() < pseudo.len());
    for mv in pseudo {
        let mut c = b.clone();
        c.make_move(mv);
        assert_eq!(b.is_legal(mv), !c.is_in_check(side));
    }
}

#[test]
fn unmake_restores_after_a_game_fragment() {
    let mut b = Board::new();
    for text in ["e2e4", "e7e5", "g1f3", "b8c6", "f1c4", "f8c5"] {
        play(&mut b, text);
    }
    for mv in b.generate_legal_moves() {
        let mut c = b.clone();
        let info = c.make_move(mv);
        c.unmake_move(mv, info);
        assert_eq!(c.render(), b.render());
        assert_eq!(c.get_castling_state(), b.get_castling_state());
        assert_eq!(c.get_en_passant(), b.get_en_passant());
        assert_eq!(c.get_halfmove_clock(), b.get_halfmove_clock());
        assert_eq!(c.get_fullmove_number(), b.get_fullmove_number());
    }
}
