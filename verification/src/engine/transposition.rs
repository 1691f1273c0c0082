//! Zobrist hashing and transposition table.
//!
//! Each board position maps to a 64-bit hash computed by XOR-ing
//! pseudo-random per-piece-per-square values. The transposition table caches
//! search evaluations keyed by this hash.

use vstd::prelude::*;
use vstd::layout::size_of;
use super::bitboard::{
    Board, Color, Piece, bit_set, lowest, without_lowest, pop_lsb, lemma_without_lowest,
    lemma_empty,
};

verus! {

// ── Random tables ─────────────────────────────────────────────────────────────

/// The xorshift step of the key generator.
pub open spec fn xorshift(s: u64) -> u64 {
    let s1 = s ^ (s << 13u64);
    let s2 = s1 ^ (s1 >> 7u64);
    s2 ^ (s2 << 17u64)
}

/// The generator state after `n` steps from the fixed seed; the `n`-th key
/// handed out (counting from 1) is `prng(n)`.
pub open spec fn prng(n: nat) -> u64
    decreases n,
{
    if n == 0 {
        0xDEAD_BEEF_CAFE_1234u64
    } else {
        xorshift(prng((n - 1) as nat))
    }
}

/// Key of a piece of color index `c` and kind index `p` on square `sq`.
pub open spec fn piece_key(c: int, p: int, sq: int) -> u64 {
    prng((1 + c * 384 + p * 64 + sq) as nat)
}

/// Key toggled when Black is to move.
pub open spec fn side_key() -> u64 {
    prng(769)
}

/// Key of a castling-rights value (0..16).
pub open spec fn castling_key(cr: int) -> u64 {
    prng((770 + cr) as nat)
}

/// Key of an en passant file (0..8).
pub open spec fn ep_key(file: int) -> u64 {
    prng((786 + file) as nat)
}

/// The number of keys.
pub const NUM_KEYS: usize = 793;

/// All keys in generation order: pieces by color, kind and square, then the
/// side key, the 16 castling keys and the 8 en passant keys.
struct ZobristKeys {
    table: Vec<u64>,
}

impl ZobristKeys {
    spec fn wf(&self) -> bool {
        &&& self.table@.len() == NUM_KEYS
        &&& forall|i: int| 0 <= i < NUM_KEYS ==> #[trigger] self.table@[i] == prng((i + 1) as nat)
    }
}

fn keys() -> (k: ZobristKeys)
    ensures
        k.wf(),
{
    // Deterministic PRNG seeded with a fixed value for reproducibility.
    let mut state: u64 = 0xDEAD_BEEF_CAFE_1234;
    let mut table: Vec<u64> = Vec::with_capacity(NUM_KEYS);
    while table.len() < NUM_KEYS
        invariant
            table@.len() <= NUM_KEYS,
            state == prng(table@.len() as nat),
            forall|i: int| 0 <= i < table@.len() ==> #[trigger] table@[i] == prng((i + 1) as nat),
        decreases NUM_KEYS - table@.len(),
    {
        state ^= state << 13u64;
        state ^= state >> 7u64;
        state ^= state << 17u64;
        table.push(state);
    }
    ZobristKeys { table }
}

// ── Hash: specification ───────────────────────────────────────────────────────

/// XOR of the keys of the squares below `n` that `bb` holds, for pieces of
/// color index `c` and kind index `p`.
pub open spec fn xor_below(c: int, p: int, bb: u64, n: nat) -> u64
    decreases n,
{
    if n == 0 {
        0
    } else {
        let rest = xor_below(c, p, bb, (n - 1) as nat);
        if bit_set(bb, (n - 1) as u64) {
            rest ^ piece_key(c, p, n - 1)
        } else {
            rest
        }
    }
}

/// XOR of the keys of the first `n` bitboards (in the order color, kind).
pub open spec fn pieces_hash(b: Board, n: nat) -> u64
    decreases n,
{
    if n == 0 {
        0
    } else {
        let m = (n - 1) as int;
        pieces_hash(b, (n - 1) as nat) ^ xor_below(m / 6, m % 6, b.pieces[m / 6][m % 6], 64)
    }
}

/// The Zobrist hash of a position.
#[verifier::opaque]
pub open spec fn hash_spec(b: Board) -> u64 {
    let h0 = pieces_hash(b, 12);
    let h1 = if b.side_to_move == Color::Black {
        h0 ^ side_key()
    } else {
        h0
    };
    let h2 = h1 ^ castling_key(b.castling_rights as int);
    match b.en_passant {
        Some(e) => h2 ^ ep_key((e % 8) as int),
        None => h2,
    }
}

/// XOR is associative and commutative, with 0 as unit and each value its own
/// inverse.
pub proof fn lemma_xor(a: u64, b: u64, c: u64)
    ensures
        (a ^ b) ^ c == a ^ (b ^ c),
        a ^ b == b ^ a,
        a ^ 0 == a,
        a ^ a == 0,
{
    assert((a ^ b) ^ c == a ^ (b ^ c) && a ^ b == b ^ a && a ^ 0 == a && a ^ a == 0)
        by (bit_vector);
}

/// Toggling square `s` of a bitboard toggles its key in the XOR.
pub proof fn lemma_xor_below_toggle(c: int, p: int, bb: u64, bb2: u64, s: u64, n: nat)
    requires
        s < 64,
        n <= 64,
        forall|i: u64| i < 64 && i != s ==> (bit_set(bb, i) <==> bit_set(bb2, i)),
        bit_set(bb, s) != bit_set(bb2, s),
    ensures
        xor_below(c, p, bb2, n) == if s < n {
            xor_below(c, p, bb, n) ^ piece_key(c, p, s as int)
        } else {
            xor_below(c, p, bb, n)
        },
    decreases n,
{
    if n > 0 {
        lemma_xor_below_toggle(c, p, bb, bb2, s, (n - 1) as nat);
        let r1 = xor_below(c, p, bb, (n - 1) as nat);
        let k = piece_key(c, p, (n - 1) as int);
        let ks = piece_key(c, p, s as int);
        lemma_xor(r1, ks, k);
        lemma_xor(r1, k, ks);
        lemma_xor(r1 ^ ks, k, 0);
        lemma_xor(r1, ks, ks);
        lemma_xor(r1, ks ^ ks, 0);
        lemma_xor(r1, 0, 0);
        lemma_xor(ks, ks, 0);
        lemma_xor(k, ks, 0);
    }
}

/// The XOR over a bitboard is the key of its lowest square XOR the rest.
proof fn lemma_xor_below_lowest(c: int, p: int, bb: u64)
    requires
        bb != 0,
    ensures
        xor_below(c, p, bb, 64) == piece_key(c, p, lowest(bb) as int) ^ xor_below(
            c,
            p,
            without_lowest(bb),
            64,
        ),
{
    lemma_without_lowest(bb);
    lemma_xor_below_toggle(c, p, without_lowest(bb), bb, lowest(bb), 64);
    lemma_xor(xor_below(c, p, without_lowest(bb), 64), piece_key(c, p, lowest(bb) as int), 0);
}

proof fn lemma_xor_below_zero(c: int, p: int, n: nat)
    ensures
        xor_below(c, p, 0, n) == 0,
    decreases n,
{
    lemma_empty(0);
    if n > 0 {
        lemma_xor_below_zero(c, p, (n - 1) as nat);
    }
}

// ── Hashing ───────────────────────────────────────────────────────────────────

/// Compute a full Zobrist hash for a board position (O(pieces)).
pub fn hash(board: &Board) -> (h: u64)
    requires
        board.castling_rights < 16,
    ensures
        h == hash_spec(*board),
{
    reveal(hash_spec);
    let k = keys();
    let mut h: u64 = 0;
    let mut n: usize = 0;
    while n < 12
        invariant
            n <= 12,
            k.wf(),
            h == pieces_hash(*board, n as nat),
        decreases 12 - n,
    {
        let c = n / 6;
        let p = n % 6;
        let mut bb = board.pieces[c][p];
        let ghost h0 = h;
        proof {
            lemma_xor(h0, 0, 0);
        }
        while bb != 0
            invariant
                k.wf(),
                c < 2,
                p < 6,
                h0 ^ xor_below(c as int, p as int, board.pieces[c as int][p as int], 64) == h
                    ^ xor_below(c as int, p as int, bb, 64),
            decreases bb,
        {
            let ghost b0 = bb;
            let sq = pop_lsb(&mut bb);
            proof {
                lemma_xor_below_lowest(c as int, p as int, b0);
                lemma_xor(h, piece_key(c as int, p as int, sq as int), xor_below(c as int, p as int, bb, 64));
            }
            h ^= k.table[c * 384 + p * 64 + sq as usize];
        }
        proof {
            lemma_xor_below_zero(c as int, p as int, 64);
            lemma_xor(h, 0, 0);
            assert(n as int / 6 == c && n as int % 6 == p);
        }
        n += 1;
    }
    if board.side_to_move == Color::Black {
        h ^= k.table[768];
    }
    h ^= k.table[769 + board.castling_rights as usize];
    match board.en_passant {
        Some(ep_sq) => {
            h ^= k.table[785 + (ep_sq % 8) as usize];
        },
        None => {},
    }
    h
}

/// Incrementally update a hash after moving a piece from `from` to `to`.
/// Caller supplies the piece and color; captures handled separately.
pub fn update_piece(h: &mut u64, c: Color, p: Piece, from: u32, to: u32)
    requires
        from < 64,
        to < 64,
    ensures
        *final(h) == (*old(h) ^ piece_key(c.idx(), p.idx(), from as int)) ^ piece_key(
            c.idx(),
            p.idx(),
            to as int,
        ),
{
    let k = keys();
    *h ^= k.table[c.index() * 384 + p.index() * 64 + from as usize];
    *h ^= k.table[c.index() * 384 + p.index() * 64 + to as usize];
}

pub fn toggle_side(h: &mut u64)
    ensures
        *final(h) == *old(h) ^ side_key(),
{
    let k = keys();
    *h ^= k.table[768];
}

pub fn update_castling(h: &mut u64, old_rights: u8, new_rights: u8)
    requires
        old_rights < 16,
        new_rights < 16,
    ensures
        *final(h) == (*old(h) ^ castling_key(old_rights as int)) ^ castling_key(new_rights as int),
{
    let k = keys();
    *h ^= k.table[769 + old_rights as usize];
    *h ^= k.table[769 + new_rights as usize];
}


// ── Laws of incremental hashing ───────────────────────────────────────────────

/// XOR-ing a difference `d` into one bitboard's contribution XORs `d` into the
/// running hash of every prefix that contains that bitboard.
proof fn lemma_pieces_hash_delta(b: Board, b2: Board, m: int, d: u64, n: nat)
    requires
        0 <= m < 12,
        n <= 12,
        forall|i: int|
            0 <= i < 12 && i != m ==> #[trigger] b2.pieces[i / 6][i % 6] == b.pieces[i / 6][i % 6],
        xor_below(m / 6, m % 6, b2.pieces[m / 6][m % 6], 64) == xor_below(
            m / 6,
            m % 6,
            b.pieces[m / 6][m % 6],
            64,
        ) ^ d,
    ensures
        pieces_hash(b2, n) == if m < n {
            pieces_hash(b, n) ^ d
        } else {
            pieces_hash(b, n)
        },
    decreases n,
{
    if n > 0 {
        lemma_pieces_hash_delta(b, b2, m, d, (n - 1) as nat);
        let j = n - 1;
        let x = xor_below(j / 6, j % 6, b.pieces[j / 6][j % 6], 64);
        let ph = pieces_hash(b, (n - 1) as nat);
        lemma_xor(ph, d, x);
        lemma_xor(d, x, 0);
        lemma_xor(ph, x, d);
        if j != m {
            assert(b2.pieces[j / 6][j % 6] == b.pieces[j / 6][j % 6]);
        }
    }
}

/// A change `d` of the piece part of the hash is a change `d` of the hash.
proof fn lemma_hash_delta(b: Board, b2: Board, d: u64)
    requires
        pieces_hash(b2, 12) == pieces_hash(b, 12) ^ d,
        b2.side_to_move == b.side_to_move,
        b2.castling_rights == b.castling_rights,
        b2.en_passant == b.en_passant,
    ensures
        hash_spec(b2) == hash_spec(b) ^ d,
{
    reveal(hash_spec);
    let p0 = pieces_hash(b, 12);
    let s = side_key();
    let c = castling_key(b.castling_rights as int);
    lemma_xor(p0, d, s);
    lemma_xor(d, s, 0);
    lemma_xor(p0, s, d);
    let h1 = if b.side_to_move == Color::Black { p0 ^ s } else { p0 };
    lemma_xor(h1, d, c);
    lemma_xor(d, c, 0);
    lemma_xor(h1, c, d);
    let h2 = h1 ^ c;
    match b.en_passant {
        Some(e) => {
            let k = ep_key((e % 8) as int);
            lemma_xor(h2, d, k);
            lemma_xor(d, k, 0);
            lemma_xor(h2, k, d);
        },
        None => {},
    }
}

/// Moving a piece of color `c` and kind `p` from `from` to an empty square
/// `to` changes the hash by the keys of both squares, as `update_piece` does.
pub proof fn law_update_piece(b: Board, b2: Board, c: Color, p: Piece, from: u32, to: u32)
    requires
        from < 64,
        to < 64,
        from != to,
        bit_set(b.pieces[c.idx()][p.idx()], from as u64),
        !bit_set(b.pieces[c.idx()][p.idx()], to as u64),
        b2.pieces[c.idx()][p.idx()] == (b.pieces[c.idx()][p.idx()] & !(1u64 << from as u64)) | (
        1u64 << to as u64),
        forall|ci: int, k: int|
            0 <= ci < 2 && 0 <= k < 6 && (ci != c.idx() || k != p.idx()) ==> #[trigger] b2.pieces[ci][k]
                == b.pieces[ci][k],
        b2.side_to_move == b.side_to_move,
        b2.castling_rights == b.castling_rights,
        b2.en_passant == b.en_passant,
    ensures
        hash_spec(b2) == (hash_spec(b) ^ piece_key(c.idx(), p.idx(), from as int)) ^ piece_key(
            c.idx(),
            p.idx(),
            to as int,
        ),
{
    let ci = c.idx();
    let pi = p.idx();
    let bb = b.pieces[ci][pi];
    let mid = bb & !(1u64 << from as u64);
    let bb2 = b2.pieces[ci][pi];
    assert forall|i: u64| i < 64 && i != from implies (bit_set(bb, i) <==> bit_set(mid, i)) by {
        let f = 1u64 << from as u64;
        crate::engine::bitboard::lemma_bit_ops(bb, !f, i);
        crate::engine::bitboard::lemma_bit_ops(f, 0, i);
        crate::engine::bitboard::lemma_single(from as u64, i);
        assert(!bit_set(f, i));
        assert(bit_set(!f, i));
    }
    let f = 1u64 << from as u64;
    let t = 1u64 << to as u64;
    crate::engine::bitboard::lemma_bit_ops(bb, !f, from as u64);
    crate::engine::bitboard::lemma_bit_ops(f, 0, from as u64);
    crate::engine::bitboard::lemma_single(from as u64, from as u64);
    lemma_xor_below_toggle(ci, pi, bb, mid, from as u64, 64);
    assert forall|i: u64| i < 64 && i != to implies (bit_set(mid, i) <==> bit_set(bb2, i)) by {
        crate::engine::bitboard::lemma_bit_ops(mid, t, i);
        crate::engine::bitboard::lemma_single(to as u64, i);
    }
    crate::engine::bitboard::lemma_bit_ops(mid, t, to as u64);
    crate::engine::bitboard::lemma_bit_ops(bb, !f, to as u64);
    crate::engine::bitboard::lemma_bit_ops(f, 0, to as u64);
    crate::engine::bitboard::lemma_single(to as u64, to as u64);
    crate::engine::bitboard::lemma_single(from as u64, to as u64);
    lemma_xor_below_toggle(ci, pi, mid, bb2, to as u64, 64);
    let kf = piece_key(ci, pi, from as int);
    let kt = piece_key(ci, pi, to as int);
    let x = xor_below(ci, pi, bb, 64);
    lemma_xor(x, kf, kt);
    let m = ci * 6 + pi;
    assert(m / 6 == ci && m % 6 == pi);
    assert forall|i: int| 0 <= i < 12 && i != m implies #[trigger] b2.pieces[i / 6][i % 6]
        == b.pieces[i / 6][i % 6] by {
        assert(i / 6 != ci || i % 6 != pi);
    }
    lemma_pieces_hash_delta(b, b2, m, kf ^ kt, 12);
    lemma_hash_delta(b, b2, kf ^ kt);
    lemma_xor(hash_spec(b), kf, kt);
}

/// Passing the move to the other side changes the hash by the side key, as
/// `toggle_side` does.
pub proof fn law_toggle_side(b: Board, b2: Board)
    requires
        b2.pieces == b.pieces,
        b2.side_to_move == b.side_to_move.flipped(),
        b2.castling_rights == b.castling_rights,
        b2.en_passant == b.en_passant,
    ensures
        hash_spec(b2) == hash_spec(b) ^ side_key(),
{
    reveal(hash_spec);
    assert(pieces_hash(b2, 12) == pieces_hash(b, 12)) by {
        lemma_pieces_hash_same(b, b2, 12);
    }
    let p0 = pieces_hash(b, 12);
    let s = side_key();
    let c = castling_key(b.castling_rights as int);
    lemma_xor(p0, s, s);
    lemma_xor(s, s, 0);
    lemma_xor(p0, 0, 0);
    let h1 = if b.side_to_move == Color::Black { p0 ^ s } else { p0 };
    let g1 = if b2.side_to_move == Color::Black { p0 ^ s } else { p0 };
    assert(g1 == h1 ^ s);
    lemma_xor(h1, s, c);
    lemma_xor(s, c, 0);
    lemma_xor(h1, c, s);
    match b.en_passant {
        Some(e) => {
            let k = ep_key((e % 8) as int);
            lemma_xor(h1 ^ c, s, k);
            lemma_xor(s, k, 0);
            lemma_xor(h1 ^ c, k, s);
        },
        None => {},
    }
}

proof fn lemma_pieces_hash_same(b: Board, b2: Board, n: nat)
    requires
        b2.pieces == b.pieces,
    ensures
        pieces_hash(b2, n) == pieces_hash(b, n),
    decreases n,
{
    if n > 0 {
        lemma_pieces_hash_same(b, b2, (n - 1) as nat);
    }
}

/// Replacing the castling rights changes the hash by the keys of the old and
/// the new rights, as `update_castling` does.
pub proof fn law_update_castling(b: Board, b2: Board)
    requires
        b2.pieces == b.pieces,
        b2.side_to_move == b.side_to_move,
        b2.en_passant == b.en_passant,
    ensures
        hash_spec(b2) == (hash_spec(b) ^ castling_key(b.castling_rights as int)) ^ castling_key(
            b2.castling_rights as int,
        ),
{
    reveal(hash_spec);
    lemma_pieces_hash_same(b, b2, 12);
    let p0 = pieces_hash(b, 12);
    let h1 = if b.side_to_move == Color::Black { p0 ^ side_key() } else { p0 };
    let c = castling_key(b.castling_rights as int);
    let c2 = castling_key(b2.castling_rights as int);
    lemma_xor(h1, c, c);
    lemma_xor(c, c, 0);
    lemma_xor(h1, 0, 0);
    lemma_xor(h1 ^ c, c, c2);
    lemma_xor(h1, c ^ c, c2);
    lemma_xor(0, c2, 0);
    lemma_xor(c2, 0, 0);
    match b.en_passant {
        Some(e) => {
            let k = ep_key((e % 8) as int);
            lemma_xor(h1 ^ c, k, c);
            lemma_xor(k, c, 0);
            lemma_xor((h1 ^ c) ^ c, k, c2);
            lemma_xor(k, c2, 0);
            lemma_xor(h1 ^ c, c, k);
            lemma_xor(((h1 ^ c) ^ k) ^ c, c2, 0);
            lemma_xor((h1 ^ c) ^ k, c, c2);
            lemma_xor((h1 ^ c) ^ c, c2, k);
        },
        None => {},
    }
}


// ── Transposition table ───────────────────────────────────────────────────────

#[derive(Clone, Copy, PartialEq, Eq, Structural, Debug)]
pub enum Bound {
    Exact,
    LowerBound,  // the score is at least this (beta cutoff)
    UpperBound,  // the score is at most this (no move raised alpha)
}

#[derive(Clone, Copy, Debug)]
pub struct TTEntry {
    pub key: u64,
    pub depth: u8,
    pub score: i32,
    pub bound: Bound,
    pub best_from: u8,
    pub best_to: u8,
}

/// The slot that `key` maps to in a table of `cap` slots.
pub open spec fn slot_index(key: u64, cap: nat) -> int {
    (key as usize) as int % (cap as int)
}

/// What a probe for `key` finds: the entry in its slot, if it has that key.
pub open spec fn lookup(slots: Seq<Option<TTEntry>>, cap: nat, key: u64) -> Option<TTEntry> {
    match slots[slot_index(key, cap)] {
        Some(e) => if e.key == key {
            Some(e)
        } else {
            None
        },
        None => None,
    }
}

/// Depth-preference replacement: a store at `depth` overwrites the old entry
/// of its slot when the slot is empty or its entry was searched no deeper,
/// whatever its key.
pub open spec fn replaces(old: Option<TTEntry>, key: u64, depth: u8) -> bool {
    match old {
        None => true,
        Some(e) => depth >= e.depth,
    }
}

/// The slots after storing `entry`.
pub open spec fn stored(slots: Seq<Option<TTEntry>>, cap: nat, entry: TTEntry) -> Seq<
    Option<TTEntry>,
> {
    let i = slot_index(entry.key, cap);
    if replaces(slots[i], entry.key, entry.depth) {
        slots.update(i, Some(entry))
    } else {
        slots
    }
}

/// Whether a table of `size_mb` megabytes can be made: at least one
/// megabyte, and a byte count that fits in a `usize`.
pub open spec fn table_fits(size_mb: usize) -> bool {
    &&& 1 <= size_mb
    &&& size_mb * 1048576 <= usize::MAX
}

/// The number of slots of a table of `size_mb` megabytes: as many entries
/// as fit in its bytes. Should the entry size not divide into a positive
/// count (an entry of no bytes, or larger than the table), the table still
/// gets one slot.
pub open spec fn table_capacity(size_mb: usize) -> int {
    let bytes = size_mb * 1048576;
    let entry = size_of::<Option<TTEntry>>();
    if 0 < entry <= bytes {
        bytes / (entry as int)
    } else {
        1
    }
}

/// Fixed-capacity transposition table. Indexed by `key % capacity`.
/// Entries are overwritten by depth-preference replacement.
pub struct TranspositionTable {
    entries: Vec<Option<TTEntry>>,
    capacity: usize,
    pub hits: u64,
    pub stores: u64,
}

impl TranspositionTable {
    /// The slots of the table.
    pub closed spec fn slots(&self) -> Seq<Option<TTEntry>> {
        self.entries@
    }

    /// The number of probes that found their key.
    pub closed spec fn hit_count(&self) -> u64 {
        self.hits
    }

    /// The number of stores that wrote a slot.
    pub closed spec fn store_count(&self) -> u64 {
        self.stores
    }

    /// The number of slots.
    pub closed spec fn cap(&self) -> nat {
        self.capacity as nat
    }

    /// One slot per unit of capacity, and at least one slot.
    pub closed spec fn wf(&self) -> bool {
        &&& self.entries@.len() == self.capacity
        &&& self.capacity > 0
    }

    /// A well-formed table has one slot per unit of capacity, and some.
    pub proof fn lemma_wf(&self)
        ensures
            self.wf() ==> self.cap() > 0 && self.slots().len() == self.cap(),
    {
    }

    /// The number of probes that found their key.
    pub fn hits(&self) -> (r: u64)
        ensures
            r == self.hit_count(),
    {
        self.hits
    }

    /// Create a table with `size_mb` megabytes of capacity.
    pub fn new(size_mb: usize) -> (r: Self)
        requires
            table_fits(size_mb),
        ensures
            r.wf(),
            r.cap() == table_capacity(size_mb),
            forall|i: int| 0 <= i < r.cap() ==> #[trigger] r.slots()[i] is None,
            r.hit_count() == 0,
            r.store_count() == 0,
    {
        let entry_size = core::mem::size_of::<Option<TTEntry>>();
        let bytes = size_mb * 1024 * 1024;
        let capacity = if 0 < entry_size && entry_size <= bytes {
            proof {
                vstd::arithmetic::div_mod::lemma_div_is_ordered(
                    entry_size as int,
                    bytes as int,
                    entry_size as int,
                );
                vstd::arithmetic::div_mod::lemma_div_by_self(entry_size as int);
            }
            bytes / entry_size
        } else {
            1
        };
        let mut entries: Vec<Option<TTEntry>> = Vec::new();
        while entries.len() < capacity
            invariant
                entries@.len() <= capacity,
                forall|i: int| 0 <= i < entries@.len() ==> #[trigger] entries@[i] is None,
            decreases capacity - entries@.len(),
        {
            entries.push(None);
        }
        TranspositionTable { entries, capacity, hits: 0, stores: 0 }
    }

    /// Look up `key`; a found entry counts as a hit.
    pub fn probe(&mut self, key: u64) -> (r: Option<&TTEntry>)
        requires
            old(self).wf(),
        ensures
            final(self).wf(),
            final(self).slots() == old(self).slots(),
            final(self).cap() == old(self).cap(),
            final(self).store_count() == old(self).store_count(),
            r is Some <==> lookup(old(self).slots(), old(self).cap(), key) is Some,
            r matches Some(e) ==> lookup(old(self).slots(), old(self).cap(), key) == Some(*e),
            final(self).hit_count() == if r is Some {
                old(self).hit_count().wrapping_add(1)
            } else {
                old(self).hit_count()
            },
    {
        let idx = (key as usize) % self.capacity;
        match &self.entries[idx] {
            Some(entry) => {
                if entry.key == key {
                    self.hits = self.hits.wrapping_add(1);
                    return self.entries[idx].as_ref();
                }
            },
            None => {},
        }
        None
    }

    /// Store an entry, preferring entries at greater depth.
    pub fn store(&mut self, key: u64, depth: u8, score: i32, bound: Bound, from: u8, to: u8)
        requires
            old(self).wf(),
        ensures
            final(self).wf(),
            final(self).cap() == old(self).cap(),
            final(self).slots() == stored(
                old(self).slots(),
                old(self).cap(),
                TTEntry { key, depth, score, bound, best_from: from, best_to: to },
            ),
            final(self).hit_count() == old(self).hit_count(),
            final(self).store_count() == if replaces(
                old(self).slots()[slot_index(key, old(self).cap())],
                key,
                depth,
            ) {
                old(self).store_count().wrapping_add(1)
            } else {
                old(self).store_count()
            },
    {
        let idx = (key as usize) % self.capacity;
        let replace = match &self.entries[idx] {
            None => true,
            Some(e) => depth >= e.depth,
        };
        if replace {
            self.stores = self.stores.wrapping_add(1);
            self.entries.set(
                idx,
                Some(TTEntry { key, depth, score, bound, best_from: from, best_to: to }),
            );
        }
    }

    /// Empty every slot and reset the counters.
    pub fn clear(&mut self)
        requires
            old(self).wf(),
        ensures
            final(self).wf(),
            final(self).cap() == old(self).cap(),
            forall|i: int| 0 <= i < final(self).cap() ==> #[trigger] final(self).slots()[i] is None,
            final(self).hit_count() == 0,
            final(self).store_count() == 0,
    {
        let mut i: usize = 0;
        while i < self.entries.len()
            invariant
                self.wf(),
                self.capacity == old(self).capacity,
                0 <= i <= self.entries@.len(),
                forall|j: int| 0 <= j < i ==> #[trigger] self.entries@[j] is None,
            decreases self.entries@.len() - i,
        {
            self.entries.set(i, None);
            i += 1;
        }
        self.hits = 0;
        self.stores = 0;
    }
}

/// What one store leaves for a probe of the same key: the stored entry when
/// the store replaced the slot's entry, else whatever the deeper entry kept
/// in the slot gives.
pub proof fn law_store_then_probe(slots: Seq<Option<TTEntry>>, cap: nat, entry: TTEntry)
    requires
        cap > 0,
        slots.len() == cap,
    ensures
        replaces(slots[slot_index(entry.key, cap)], entry.key, entry.depth) ==> lookup(
            stored(slots, cap, entry),
            cap,
            entry.key,
        ) == Some(entry),
        !replaces(slots[slot_index(entry.key, cap)], entry.key, entry.depth) ==> lookup(
            stored(slots, cap, entry),
            cap,
            entry.key,
        ) == lookup(slots, cap, entry.key) && stored(slots, cap, entry) == slots && (slots[slot_index(
            entry.key,
            cap,
        )] matches Some(e) && e.depth > entry.depth),
{
}

/// A store leaves every other slot as it was, so a probe of a key of another
/// slot finds what it found before.
pub proof fn law_store_keeps_other_slots(
    slots: Seq<Option<TTEntry>>,
    cap: nat,
    entry: TTEntry,
    key: u64,
)
    requires
        cap > 0,
        slots.len() == cap,
        slot_index(key, cap) != slot_index(entry.key, cap),
    ensures
        lookup(stored(slots, cap, entry), cap, key) == lookup(slots, cap, key),
{
}

} // verus!
