use chess::engine::bitboard::{Board, Color};
use chess::ws::handler::{board_to_fen, game_state, ClientMsg, ServerMsg, Session};

fn fen_of(msg: &ServerMsg) -> String {
    match msg {
        ServerMsg::GameState { fen, .. } => fen.clone(),
        _ => panic!("expected a game state"),
    }
}

fn error_of(msg: &ServerMsg) -> String {
    match msg {
        ServerMsg::Error { message } => message.clone(),
        _ => panic!("expected an error"),
    }
}

const START_FEN: &str = "rnbqkbnr/pppppppp/8/8/8/8/PPPPPPPP/RNBQKBNR w KQkq -";

#[test]
fn start_fen_text() {
    assert_eq!(board_to_fen(&Board::startpos()), START_FEN);
}

#[test]
fn start_state_lists_twenty_moves() {
    match game_state(&Board::startpos()) {
        ServerMsg::GameState { fen, legal_moves } => {
            assert_eq!(fen, START_FEN);
            assert_eq!(legal_moves.len(), 20);
            assert!(legal_moves.iter().any(|m| m[0] == "e2" && m[1] == "e4"));
            assert!(legal_moves.iter().any(|m| m[0] == "g1" && m[1] == "f3"));
        },
        _ => panic!("expected a game state"),
    }
}

#[test]
fn new_session_starts_at_the_start() {
    let s = Session::new();
    assert_eq!(s.depth, 6);
    assert!(s.history.is_empty());
    assert_eq!(fen_of(&s.state()), START_FEN);
}

#[test]
fn bad_requests_leave_the_game_alone() {
    let mut s = Session::new();
    let out = s.handle(ClientMsg::Undo);
    assert_eq!(out.len(), 1);
    assert_eq!(error_of(&out[0]), "Nothing to undo");
    let out = s.handle(ClientMsg::Move { from: "z9".to_string(), to: "e4".to_string() });
    assert_eq!(error_of(&out[0]), "Invalid square: z9");
    let out = s.handle(ClientMsg::Move { from: "e2".to_string(), to: "e".to_string() });
    assert_eq!(error_of(&out[0]), "Invalid square: e");
    let out = s.handle(ClientMsg::Move { from: "e2".to_string(), to: "e5".to_string() });
    assert_eq!(out.len(), 1);
    assert_eq!(error_of(&out[0]), "Illegal move");
    assert!(s.history.is_empty());
    assert_eq!(fen_of(&s.state()), START_FEN);
}

#[test]
fn new_game_clamps_the_depth() {
    let mut s = Session::new();
    let out = s.handle(ClientMsg::NewGame { difficulty: Some(12) });
    assert_eq!(out.len(), 1);
    assert_eq!(fen_of(&out[0]), START_FEN);
    assert_eq!(s.depth, 8);
    s.handle(ClientMsg::NewGame { difficulty: Some(0) });
    assert_eq!(s.depth, 1);
    s.handle(ClientMsg::NewGame { difficulty: None });
    assert_eq!(s.depth, 6);
}

#[test]
fn a_move_gets_a_reply_and_can_be_undone() {
    let mut s = Session::new();
    s.handle(ClientMsg::NewGame { difficulty: Some(1) });
    let out = s.handle(ClientMsg::Move { from: "e2".to_string(), to: "e4".to_string() });
    assert_eq!(out.len(), 4);
    assert_eq!(fen_of(&out[0]), "rnbqkbnr/pppppppp/8/8/4P3/8/PPPP1PPP/RNBQKBNR b KQkq e3");
    match &out[1] {
        ServerMsg::SearchInfo { depth, nodes, .. } => {
            assert_eq!(*depth, 1);
            assert!(*nodes > 0);
        },
        _ => panic!("expected search info"),
    }
    assert!(matches!(&out[2], ServerMsg::AiMove { .. }));
    assert!(fen_of(&out[3]).contains(" w "));
    assert_eq!(s.history.len(), 2);
    let out = s.handle(ClientMsg::Undo);
    assert_eq!(out.len(), 1);
    assert_eq!(fen_of(&out[0]), START_FEN);
    assert!(s.history.is_empty());
}

fn game_over_of(out: &[ServerMsg]) -> String {
    match out.last() {
        Some(ServerMsg::GameOver { result }) => result.clone(),
        _ => panic!("expected game over"),
    }
}

fn position(pieces: [[u64; 6]; 2]) -> Board {
    Board {
        pieces,
        side_to_move: Color::White,
        castling_rights: 0,
        en_passant: None,
        halfmove_clock: 0,
        fullmove_number: 1,
    }
}

#[test]
fn a_mating_move_ends_in_checkmate() {
    // White Kg1 Ra1, Black Kh8 with pawns g7 h7: Ra8 mates
    let mut s = Session::new();
    s.board = position([[0, 0, 0, 1, 0, 1u64 << 6], [(1u64 << 54) | (1u64 << 55), 0, 0, 0, 0, 1u64 << 63]]);
    let out = s.handle(ClientMsg::Move { from: "a1".to_string(), to: "a8".to_string() });
    assert_eq!(game_over_of(&out), "checkmate");
    assert!(!out.iter().any(|m| matches!(m, ServerMsg::AiMove { .. })));
    assert_eq!(s.history.len(), 1);
}

#[test]
fn a_stalemating_move_ends_in_stalemate() {
    // White Kb6 Qc1, Black Ka8: Qc7 leaves Black no legal move
    let mut s = Session::new();
    s.board = position([[0, 0, 0, 0, 1u64 << 2, 1u64 << 41], [0, 0, 0, 0, 0, 1u64 << 56]]);
    let out = s.handle(ClientMsg::Move { from: "c1".to_string(), to: "c7".to_string() });
    assert_eq!(game_over_of(&out), "stalemate");
    assert!(!out.iter().any(|m| matches!(m, ServerMsg::AiMove { .. })));
}

#[test]
fn a_move_into_check_is_refused() {
    // White Ke1 Re2, Black Re8 Kh8: the pinned rook may not leave the file
    let mut s = Session::new();
    s.board = position([[0, 0, 0, 1u64 << 12, 0, 1u64 << 4], [0, 0, 0, 1u64 << 60, 0, 1u64 << 63]]);
    let out = s.handle(ClientMsg::Move { from: "e2".to_string(), to: "d2".to_string() });
    assert_eq!(out.len(), 1);
    assert_eq!(error_of(&out[0]), "Move application failed");
    assert!(s.history.is_empty());
}
