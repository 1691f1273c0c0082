//! The message logic of one game session: what the server answers to each
//! client message, and the position text (FEN) it reports.
//!
//! The transport (WebSocket upgrade, JSON, sending) lives outside the library;
//! here each client message is a value and the answers are a list of values.

use vstd::prelude::*;
use crate::engine::bitboard::{
    Board, Color, Piece, kind_on, sq_name, sq_from_name, square_name, parse_square,
    start_position,
};
use crate::engine::movegen::{Move, generate_moves, moves_spec, all_facts, lemma_moves_facts, lemma_flags};
use crate::engine::search::{
    apply_move, board_after, Searcher, search_ready, counters_fit, tt_ok, lemma_child, applies,
    exposes_king, king_exposed, in_check,
    lemma_measure_bounds,
};
use crate::engine::eval::{evaluate, eval_spec};
use crate::text::{push_char, push_str, string_of};
use vstd::string::StringSliceAdditionalSpecFns;
use vstd::utf8::encode_utf8;

verus! {

// ── Protocol types ────────────────────────────────────────────────────────────

pub enum ClientMsg {
    Move { from: String, to: String },
    NewGame { difficulty: Option<u8> },
    Undo,
}

pub enum ServerMsg {
    GameState { fen: String, legal_moves: Vec<[String; 2]> },
    AiMove { from: String, to: String, eval: i32 },
    SearchInfo { depth: u8, nodes: u64, tt_hits: u64, elapsed_ms: u64 },
    GameOver { result: String },
    Error { message: String },
}

// ── FEN ───────────────────────────────────────────────────────────────────────

/// The FEN letter of a piece kind (lower case).
pub open spec fn kind_letter(k: Piece) -> char {
    match k {
        Piece::Pawn => 'p',
        Piece::Knight => 'n',
        Piece::Bishop => 'b',
        Piece::Rook => 'r',
        Piece::Queen => 'q',
        Piece::King => 'k',
    }
}

/// The upper-case form of a kind letter.
pub open spec fn upper(c: char) -> char {
    ((c as u32) - 32) as char
}

/// The FEN letter on `sq`: a White piece first (upper case), else a Black one.
pub open spec fn square_letter(b: Board, sq: u64) -> Option<char> {
    match kind_on(b, Color::White, sq) {
        Some(k) => Some(upper(kind_letter(k))),
        None => match kind_on(b, Color::Black, sq) {
            Some(k) => Some(kind_letter(k)),
            None => None,
        },
    }
}

/// A count of empty squares as a digit, when there are any.
pub open spec fn empties(n: nat) -> Seq<char> {
    if n > 0 {
        seq![(48 + n) as char]
    } else {
        Seq::empty()
    }
}

/// The FEN text of `rank` from `file` on, after `empty` empty squares.
pub open spec fn rank_text(b: Board, rank: nat, file: nat, empty: nat) -> Seq<char>
    decreases 8 - file,
{
    if file >= 8 {
        empties(empty)
    } else {
        match square_letter(b, (rank * 8 + file) as u64) {
            Some(ch) => empties(empty) + seq![ch] + rank_text(b, rank, file + 1, 0),
            None => rank_text(b, rank, file + 1, empty + 1),
        }
    }
}

/// The placement field for ranks `rank` down to 1 (index `rank` .. 0).
pub open spec fn placement_from(b: Board, rank: nat) -> Seq<char>
    decreases rank,
{
    if rank == 0 {
        rank_text(b, 0, 0, 0)
    } else {
        rank_text(b, rank, 0, 0) + seq!['/'] + placement_from(b, (rank - 1) as nat)
    }
}

/// The castling field.
pub open spec fn castling_text(cr: u8) -> Seq<char> {
    if cr == 0 {
        seq!['-']
    } else {
        (if cr & 1 != 0 { seq!['K'] } else { Seq::empty() }) + (if cr & 2 != 0 {
            seq!['Q']
        } else {
            Seq::empty()
        }) + (if cr & 4 != 0 { seq!['k'] } else { Seq::empty() }) + (if cr & 8 != 0 {
            seq!['q']
        } else {
            Seq::empty()
        })
    }
}

/// The en passant field.
pub open spec fn ep_text(ep: Option<u32>) -> Seq<char> {
    match ep {
        Some(sq) => square_name(sq),
        None => seq!['-'],
    }
}

/// The minimal FEN: placement, side to move, castling rights, en passant.
pub open spec fn fen_spec(b: Board) -> Seq<char> {
    placement_from(b, 7) + seq![' ', if b.side_to_move == Color::White { 'w' } else { 'b' }, ' ']
        + castling_text(b.castling_rights) + seq![' '] + ep_text(b.en_passant)
}

/// The en passant square, if any, has a name `sq_name` can write.
pub open spec fn ep_nameable(b: Board) -> bool {
    b.en_passant matches Some(sq) ==> (sq / 8) as u8 <= 206
}

fn square_char(board: &Board, sq: u32) -> (r: Option<char>)
    requires
        sq < 64,
    ensures
        r == square_letter(*board, sq as u64),
{
    match board.piece_on(Color::White, sq) {
        Some(k) => Some(upper_char(kind_char(k))),
        None => match board.piece_on(Color::Black, sq) {
            Some(k) => Some(kind_char(k)),
            None => None,
        },
    }
}

fn kind_char(k: Piece) -> (c: char)
    ensures
        c == kind_letter(k),
{
    match k {
        Piece::Pawn => 'p',
        Piece::Knight => 'n',
        Piece::Bishop => 'b',
        Piece::Rook => 'r',
        Piece::Queen => 'q',
        Piece::King => 'k',
    }
}

fn upper_char(c: char) -> (u: char)
    requires
        'a' <= c <= 'z',
    ensures
        u == upper(c),
{
    ((c as u8) - 32) as char
}

/// Appends the FEN text of one rank.
fn push_rank_text(board: &Board, rank: u32, fen: &mut String)
    requires
        rank < 8,
    ensures
        final(fen)@ == old(fen)@ + rank_text(*board, rank as nat, 0, 0),
{
    let mut empty: u32 = 0;
    let mut file: u32 = 0;
    while file < 8
        invariant
            rank < 8,
            file <= 8,
            empty <= file,
            fen@ + rank_text(*board, rank as nat, file as nat, empty as nat) == old(fen)@
                + rank_text(*board, rank as nat, 0, 0),
        decreases 8 - file,
    {
        let sq = rank * 8 + file;
        let ghost f0 = fen@;
        match square_char(board, sq) {
            Some(ch) => {
                if empty > 0 {
                    push_char(fen, (48u8 + empty as u8) as char);
                }
                push_char(fen, ch);
                proof {
                    assert(fen@ =~= f0 + empties(empty as nat) + seq![ch]);
                }
                empty = 0;
            },
            None => {
                empty += 1;
            },
        }
        file += 1;
    }
    let ghost f1 = fen@;
    if empty > 0 {
        push_char(fen, (48u8 + empty as u8) as char);
    }
    proof {
        assert(fen@ =~= f1 + empties(empty as nat));
    }
}

/// Appends the castling field.
fn push_castling_text(cr: u8, fen: &mut String)
    ensures
        final(fen)@ == old(fen)@ + castling_text(cr),
{
    if cr == 0 {
        push_char(fen, '-');
    } else {
        let ghost q = fen@;
        if cr & 1 != 0 {
            push_char(fen, 'K');
        }
        let ghost q1 = fen@;
        if cr & 2 != 0 {
            push_char(fen, 'Q');
        }
        let ghost q2 = fen@;
        if cr & 4 != 0 {
            push_char(fen, 'k');
        }
        let ghost q3 = fen@;
        if cr & 8 != 0 {
            push_char(fen, 'q');
        }
        proof {
            assert(fen@ =~= q + castling_text(cr));
        }
    }
}

/// Minimal FEN serializer (position + side-to-move + castling + ep).
pub fn board_to_fen(board: &Board) -> (fen: String)
    requires
        ep_nameable(*board),
    ensures
        fen@ == fen_spec(*board),
{
    let mut fen = String::new();
    let mut rank: u32 = 8;
    while rank > 0
        invariant
            rank <= 8,
            fen@ + (if rank > 0 { placement_from(*board, (rank - 1) as nat) } else { Seq::empty() })
                == placement_from(*board, 7),
        decreases rank,
    {
        rank -= 1;
        let ghost before = fen@;
        push_rank_text(board, rank, &mut fen);
        if rank > 0 {
            push_char(&mut fen, '/');
        }
        proof {
            if rank > 0 {
                assert(placement_from(*board, rank as nat) == rank_text(*board, rank as nat, 0, 0)
                    + seq!['/'] + placement_from(*board, (rank - 1) as nat));
            }
            assert(fen@ + (if rank > 0 { placement_from(*board, (rank - 1) as nat) } else { Seq::empty() })
                =~= before + placement_from(*board, rank as nat));
        }
    }
    push_char(&mut fen, ' ');
    push_char(
        &mut fen,
        if board.side_to_move == Color::White {
            'w'
        } else {
            'b'
        },
    );
    // Castling
    push_char(&mut fen, ' ');
    push_castling_text(board.castling_rights, &mut fen);
    // En passant
    push_char(&mut fen, ' ');
    let ghost r = fen@;
    match board.en_passant {
        Some(sq) => {
            let name = sq_name(sq);
            push_str(&mut fen, name.as_str());
        },
        None => push_char(&mut fen, '-'),
    }
    proof {
        assert(fen@ =~= r + ep_text(board.en_passant));
        assert(fen@ =~= fen_spec(*board));
    }
    fen
}


// ── Game state message ────────────────────────────────────────────────────────

/// `msg` reports position `b`: its FEN and the names of the squares of each
/// generated move, in generation order.
pub open spec fn state_of(msg: ServerMsg, b: Board) -> bool {
    match msg {
        ServerMsg::GameState { fen, legal_moves } => {
            &&& fen@ == fen_spec(b)
            &&& legal_moves@.len() == moves_spec(b).len()
            &&& forall|i: int|
                0 <= i < legal_moves@.len() ==> (#[trigger] legal_moves@[i])[0]@ == square_name(
                    moves_spec(b)[i].from,
                ) && legal_moves@[i][1]@ == square_name(moves_spec(b)[i].to)
        },
        _ => false,
    }
}

/// The game state message of a position.
pub fn game_state(board: &Board) -> (msg: ServerMsg)
    requires
        search_ready(*board),
    ensures
        state_of(msg, *board),
{
    let moves = generate_moves(board);
    proof {
        lemma_moves_facts(*board);
    }
    let mut legal_moves: Vec<[String; 2]> = Vec::new();
    let mut i: usize = 0;
    while i < moves.len()
        invariant
            i <= moves.len(),
            moves@ == moves_spec(*board),
            all_facts(*board, moves_spec(*board)),
            legal_moves@.len() == i,
            forall|t: int|
                0 <= t < i ==> (#[trigger] legal_moves@[t])[0]@ == square_name(moves@[t].from)
                    && legal_moves@[t][1]@ == square_name(moves@[t].to),
        decreases moves.len() - i,
    {
        let m = moves[i];
        proof {
            assert(crate::engine::movegen::move_facts(*board, moves_spec(*board)[i as int]));
        }
        legal_moves.push([sq_name(m.from), sq_name(m.to)]);
        i += 1;
    }
    ServerMsg::GameState { fen: board_to_fen(board), legal_moves }
}

// ── Session ───────────────────────────────────────────────────────────────────

/// One client's game: the position, the searcher, the positions before each
/// move, and the search depth.
pub struct Session {
    pub board: Board,
    pub searcher: Searcher,
    pub history: Vec<Board>,
    pub depth: u8,
}

/// What every session keeps: positions the search accepts, a sound table,
/// and a depth in 1..=8.
pub open spec fn session_ok(s: Session) -> bool {
    &&& search_ready(s.board)
    &&& forall|i: int| 0 <= i < s.history@.len() ==> search_ready(#[trigger] s.history@[i])
    &&& tt_ok(s.searcher.tt)
    &&& 1 <= s.depth <= 8
}

/// The first generated move from `f` to `t`.
pub open spec fn find_move(s: Seq<Move>, f: u32, t: u32) -> Option<Move>
    decreases s.len(),
{
    if s.len() == 0 {
        None
    } else if s[0].from == f && s[0].to == t {
        Some(s[0])
    } else {
        find_move(s.drop_first(), f, t)
    }
}

pub open spec fn clamp_depth(d: u8) -> u8 {
    if d < 1 {
        1
    } else if d > 8 {
        8
    } else {
        d
    }
}

/// The move counters at which a session stops taking moves (far beyond any
/// game). A search may raise them by four per ply of its depth (at most 8)
/// and once per capture it resolves (at most 1537 by the position's
/// measure), and they must stay below `u32::MAX`: so the limit is
/// `u32::MAX - 1 - 4 * 8 - 1537`.
pub const COUNTER_LIMIT: u32 = u32::MAX - 1 - 4 * 8 - 1537;

pub open spec fn is_error(msg: ServerMsg, text: Seq<char>) -> bool {
    msg matches ServerMsg::Error { message } && message@ == text
}

pub open spec fn is_game_over(msg: ServerMsg, text: Seq<char>) -> bool {
    msg matches ServerMsg::GameOver { result } && result@ == text
}

/// How a game ends when the side to move on `n` has no move: checkmate when
/// its king is attacked, stalemate otherwise.
pub open spec fn game_over_text(n: Board) -> Seq<char> {
    if king_exposed(n, n.side_to_move) {
        "checkmate"@
    } else {
        "stalemate"@
    }
}

/// After the client's move gave position `n`: the answers and the session,
/// including the engine's reply, which comes whenever the engine has a move
/// it can apply.
pub open spec fn after_human(s: Session, s2: Session, n: Board, out: Seq<ServerMsg>) -> bool {
    if moves_spec(n).len() == 0 {
        &&& s2.board == n
        &&& s2.history@ == s.history@.push(s.board)
        &&& out.len() == 1
        &&& is_game_over(out[0], game_over_text(n))
    } else {
        &&& out.len() >= 2
        &&& state_of(out[0], n)
        &&& if exists|i: int| 0 <= i < moves_spec(n).len() && applies(n, #[trigger] moves_spec(n)[i]) {
            &&& out.len() == 4
            &&& out[1] is SearchInfo
            &&& out[1]->SearchInfo_depth == s.depth
            &&& s2.history@ == s.history@.push(s.board).push(n)
            &&& reply(n, s2.board, out[2])
            &&& state_of(out[3], s2.board)
        } else {
            &&& out.len() == 2
            &&& is_game_over(out[1], game_over_text(n))
            &&& s2.board == n
            &&& s2.history@ == s.history@.push(s.board)
        }
    }
}

/// `msg` reports the engine's reply: a generated move of `n` that gives `n2`,
/// by its squares, with the evaluation of `n2`.
pub open spec fn reply(n: Board, n2: Board, msg: ServerMsg) -> bool {
    exists|ai: Move|
        #![trigger moves_spec(n).contains(ai)]
        moves_spec(n).contains(ai) && applies(n, ai) && (kind_on(n, n.side_to_move, ai.from as u64) matches Some(p2)
            && board_after(n, ai, p2, n2)) && (msg matches ServerMsg::AiMove { from: af, to: at, eval }
            && af@ == square_name(ai.from) && at@ == square_name(ai.to) && eval == eval_spec(n2))
}

/// The answer to a move request of the client, and the session after it.
pub open spec fn move_outcome(s: Session, s2: Session, from: String, to: String, out: Seq<ServerMsg>) -> bool {
    let unchanged = s2 == s;
    match (parse_square(encode_utf8(from@)), parse_square(encode_utf8(to@))) {
        (None, _) => unchanged && out.len() == 1 && is_error(out[0], "Invalid square: "@ + from@),
        (Some(_), None) => unchanged && out.len() == 1 && is_error(out[0], "Invalid square: "@ + to@),
        (Some(f), Some(t)) => match find_move(moves_spec(s.board), f, t) {
            None => unchanged && out.len() == 1 && is_error(out[0], "Illegal move"@),
            Some(mv) => {
                if kind_on(s.board, s.board.side_to_move, mv.from as u64) is None {
                    unchanged && out.len() == 1 && is_error(out[0], "Move application failed"@)
                } else if s.board.halfmove_clock >= COUNTER_LIMIT || s.board.fullmove_number >= COUNTER_LIMIT {
                    unchanged && out.len() == 1 && is_error(out[0], "Move counter limit reached"@)
                } else if exposes_king(s.board, mv, kind_on(s.board, s.board.side_to_move, mv.from as u64)->0) {
                    unchanged && out.len() == 1 && is_error(out[0], "Move application failed"@)
                } else {
                    let piece = kind_on(s.board, s.board.side_to_move, mv.from as u64)->0;
                    &&& s2.depth == s.depth
                    &&& s2.history@.len() >= s.history@.len() + 1
                    &&& s2.history@.subrange(0, s.history@.len() + 1int) == s.history@.push(s.board)
                    &&& exists|n: Board| #[trigger] board_after(s.board, mv, piece, n) && after_human(s, s2, n, out)
                }
            },
        },
    }
}

fn find_legal(moves: &Vec<Move>, f: u32, t: u32) -> (r: Option<Move>)
    ensures
        r == find_move(moves@, f, t),
{
    let mut i: usize = 0;
    proof {
        assert(moves@.subrange(0, moves@.len() as int) =~= moves@);
    }
    while i < moves.len()
        invariant
            i <= moves.len(),
            find_move(moves@, f, t) == find_move(moves@.subrange(i as int, moves@.len() as int), f, t),
            moves@.subrange(0, moves@.len() as int) == moves@,
        decreases moves.len() - i,
    {
        proof {
            assert(moves@.subrange(i as int, moves@.len() as int).drop_first() =~= moves@.subrange(i as int + 1, moves@.len() as int));
        }
        if moves[i].from == f && moves[i].to == t {
            return Some(moves[i]);
        }
        i += 1;
    }
    None
}

impl Session {
    /// A new game at the start position with a 64 MB table and depth 6.
    pub fn new() -> (s: Session)
        ensures
            session_ok(s),
            s.board == start_position(),
            s.history@.len() == 0,
            s.depth == 6,
    {
        Session { board: Board::startpos(), searcher: Searcher::new(64), history: Vec::new(), depth: 6 }
    }

    /// The state message of the current position.
    pub fn state(&self) -> (msg: ServerMsg)
        requires
            session_ok(*self),
        ensures
            state_of(msg, self.board),
    {
        game_state(&self.board)
    }

    /// The answers to one client message, in sending order.
    pub fn handle(&mut self, msg: ClientMsg) -> (out: Vec<ServerMsg>)
        requires
            session_ok(*old(self)),
        ensures
            session_ok(*final(self)),
            match msg {
                ClientMsg::NewGame { difficulty } => {
                    &&& final(self).board == start_position()
                    &&& final(self).history@.len() == 0
                    &&& final(self).depth == clamp_depth(
                        match difficulty {
                            Some(d) => d,
                            None => 6u8,
                        },
                    )
                    &&& forall|i: int| 0 <= i < final(self).searcher.tt.cap() ==> #[trigger] final(self).searcher.tt.slots()[i] is None
                    &&& out@.len() == 1
                    &&& state_of(out@[0], start_position())
                },
                ClientMsg::Undo => if old(self).history@.len() >= 2 {
                    &&& final(self).board == old(self).history@[old(self).history@.len() - 2]
                    &&& final(self).history@ == old(self).history@.take(old(self).history@.len() - 2)
                    &&& final(self).depth == old(self).depth
                    &&& out@.len() == 1
                    &&& state_of(out@[0], final(self).board)
                } else {
                    &&& *final(self) == *old(self)
                    &&& out@.len() == 1
                    &&& is_error(out@[0], "Nothing to undo"@)
                },
                ClientMsg::Move { from, to } => move_outcome(*old(self), *final(self), from, to, out@),
            },
    {
        let mut out: Vec<ServerMsg> = Vec::new();
        match msg {
            ClientMsg::NewGame { difficulty } => {
                self.board = Board::startpos();
                self.history.clear();
                self.searcher.tt.clear();
                let d = match difficulty {
                    Some(d) => d,
                    None => 6,
                };
                self.depth = if d < 1 {
                    1
                } else if d > 8 {
                    8
                } else {
                    d
                };
                out.push(game_state(&self.board));
            },
            ClientMsg::Undo => {
                if self.history.len() >= 2 {
                    self.history.pop();  // remove AI move
                    let b = self.history.pop().unwrap();
                    self.board = b;
                    out.push(game_state(&self.board));
                    proof {
                        assert(self.history@ =~= old(self).history@.take(old(self).history@.len() - 2));
                    }
                } else {
                    out.push(ServerMsg::Error { message: string_of("Nothing to undo") });
                }
            },
            ClientMsg::Move { from, to } => {
                out = self.handle_move(from, to);
            },
        }
        out
    }

    fn handle_move(&mut self, from: String, to: String) -> (out: Vec<ServerMsg>)
        requires
            session_ok(*old(self)),
        ensures
            session_ok(*final(self)),
            move_outcome(*old(self), *final(self), from, to, out@),
    {
        let mut out: Vec<ServerMsg> = Vec::new();
        let from_sq = match sq_from_name(from.as_str()) {
            Some(sq) => sq,
            None => {
                let mut message = string_of("Invalid square: ");
                push_str(&mut message, from.as_str());
                out.push(ServerMsg::Error { message });
                return out;
            },
        };
        let to_sq = match sq_from_name(to.as_str()) {
            Some(sq) => sq,
            None => {
                let mut message = string_of("Invalid square: ");
                push_str(&mut message, to.as_str());
                out.push(ServerMsg::Error { message });
                return out;
            },
        };

        // Find matching legal move
        let legal = generate_moves(&self.board);
        let found = find_legal(&legal, from_sq, to_sq);
        let mv = match found {
            None => {
                out.push(ServerMsg::Error { message: string_of("Illegal move") });
                return out;
            },
            Some(mv) => mv,
        };
        proof {
            lemma_moves_facts(self.board);
            lemma_find_move(legal@, from_sq, to_sq);
            lemma_flags(mv.flags.bits);
        }
        if self.board.piece_on(self.board.side_to_move, mv.from).is_none() {
            out.push(ServerMsg::Error { message: string_of("Move application failed") });
            return out;
        }
        if self.board.halfmove_clock >= COUNTER_LIMIT || self.board.fullmove_number >= COUNTER_LIMIT {
            out.push(ServerMsg::Error { message: string_of("Move counter limit reached") });
            return out;
        }
        let new_board = match apply_move(&self.board, mv) {
            Some(b) => b,
            None => {
                out.push(ServerMsg::Error { message: string_of("Move application failed") });
                return out;
            },
        };
        let ghost piece = kind_on(self.board, self.board.side_to_move, mv.from as u64)->0;
        proof {
            lemma_child(self.board, mv, piece, new_board);
        }
        self.history.push(self.board);
        self.board = new_board;

        let ghost s0 = *old(self);
        proof {
            assert(self.history@ == s0.history@.push(s0.board));
            assert(self.history@.subrange(0, s0.history@.len() + 1int) =~= s0.history@.push(s0.board));
            assert(board_after(s0.board, mv, piece, new_board));
        }
        // Check for game over before AI moves
        if generate_moves(&self.board).len() == 0 {
            let result = if in_check(&self.board, self.board.side_to_move) {
                string_of("checkmate")
            } else {
                string_of("stalemate")
            };
            out.push(ServerMsg::GameOver { result });
            proof {
                assert(after_human(s0, *self, new_board, out@));
            }
            return out;
        }
        out.push(game_state(&self.board));

        // AI response
        let mut ai_board = self.board;
        proof {
            lemma_measure_bounds(self.board);
        }
        match self.searcher.best_move(&mut ai_board, self.depth) {
            Some((ai_mv, stats)) => {
                // Emit search telemetry first
                out.push(ServerMsg::SearchInfo {
                    depth: stats.depth_reached,
                    nodes: stats.nodes,
                    tt_hits: stats.tt_hits,
                    elapsed_ms: stats.elapsed_ms,
                });
                proof {
                    lemma_moves_facts(self.board);
                    let t = choose|t: int| 0 <= t < moves_spec(self.board).len() && moves_spec(self.board)[t] == ai_mv;
                    assert(crate::engine::movegen::move_facts(self.board, moves_spec(self.board)[t]));
                    lemma_flags(ai_mv.flags.bits);
                }
                match apply_move(&self.board, ai_mv) {
                    Some(next) => {
                        let ghost p2 = kind_on(self.board, self.board.side_to_move, ai_mv.from as u64)->0;
                        proof {
                            lemma_child(self.board, ai_mv, p2, next);
                        }
                        self.history.push(self.board);
                        self.board = next;
                        let eval = evaluate(&self.board);
                        let ai_from = sq_name(ai_mv.from);
                        let ai_to = sq_name(ai_mv.to);
                        out.push(ServerMsg::AiMove { from: ai_from, to: ai_to, eval });
                        out.push(game_state(&self.board));
                        proof {
                            assert(moves_spec(new_board).contains(ai_mv));
                            assert(reply(new_board, next, out@[2]));
                            assert(self.history@ =~= s0.history@.push(s0.board).push(new_board));
                            assert(self.history@.subrange(0, s0.history@.len() + 1int) =~= s0.history@.push(s0.board));
                            assert(after_human(s0, *self, new_board, out@));
                        }
                    },
                    None => {
                        proof {
                            assert(false);
                        }
                    },
                }
            },
            None => {
                let result = if in_check(&self.board, self.board.side_to_move) {
                    string_of("checkmate")
                } else {
                    string_of("stalemate")
                };
                out.push(ServerMsg::GameOver { result });
                proof {
                    assert(after_human(s0, *self, new_board, out@));
                }
            },
        }
        out
    }
}

/// A found move is a generated move from `f` to `t`.
proof fn lemma_find_move(s: Seq<Move>, f: u32, t: u32)
    ensures
        find_move(s, f, t) matches Some(m) ==> s.contains(m) && m.from == f && m.to == t,
    decreases s.len(),
{
    if s.len() > 0 && !(s[0].from == f && s[0].to == t) {
        lemma_find_move(s.drop_first(), f, t);
        if find_move(s.drop_first(), f, t) is Some {
            let m = find_move(s, f, t)->0;
            let k = choose|k: int| 0 <= k < s.drop_first().len() && s.drop_first()[k] == m;
            assert(s[k + 1] == m);
        }
    } else if s.len() > 0 {
        assert(s[0] == s[0]);
    }
}

} // verus!
