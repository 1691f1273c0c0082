//! Rays seen from both ends: a slider on `s` reaches `t` exactly when a
//! slider on `t` reaches `s` in the opposite direction.

use vstd::prelude::*;
use crate::chess::rules::{on_board, sq_at, steps, ray_from, ray_hits, rook_hits, bishop_hits};
use crate::engine::bitboard::bit_set;

verus! {

/// The first `n` squares of the ray from file `f`, rank `r` by `(df, dr)`
/// (the start included) are on the board and empty.
pub open spec fn clear_run(f: int, r: int, df: int, dr: int, occ: u64, n: int) -> bool {
    forall|i: int|
        0 <= i < n ==> on_board(f + #[trigger] steps(i, df), r + steps(i, dr)) && !bit_set(
            occ,
            sq_at(f + steps(i, df), r + steps(i, dr)) as u64,
        )
}

/// Square `t` is `n` steps along the ray, on the board, with the squares
/// before it empty.
pub open spec fn reaches_at(f: int, r: int, df: int, dr: int, occ: u64, t: int, n: int) -> bool {
    &&& 0 <= n
    &&& on_board(f + steps(n, df), r + steps(n, dr))
    &&& sq_at(f + steps(n, df), r + steps(n, dr)) == t
    &&& clear_run(f, r, df, dr, occ, n)
}

/// Where a ray reaches `t`: the number of steps to it.
pub proof fn lemma_ray_witness(f: int, r: int, df: int, dr: int, occ: u64, t: int, fuel: nat) -> (n: int)
    requires
        -1 <= df <= 1,
        -1 <= dr <= 1,
        ray_from(f, r, df, dr, occ, t, fuel),
    ensures
        n < fuel,
        reaches_at(f, r, df, dr, occ, t, n),
    decreases fuel,
{
    if sq_at(f, r) == t {
        assert(steps(0, df) == 0 && steps(0, dr) == 0);
        0
    } else {
        let f1 = f + df;
        let r1 = r + dr;
        let n = lemma_ray_witness(f1, r1, df, dr, occ, t, (fuel - 1) as nat);
        assert forall|i: int| 0 <= i < n + 1 implies on_board(f + #[trigger] steps(i, df), r + steps(i, dr)) && !bit_set(
            occ,
            sq_at(f + steps(i, df), r + steps(i, dr)) as u64,
        ) by {
            if i > 0 {
                assert(steps(i, df) == df + steps(i - 1, df));
                assert(steps(i, dr) == dr + steps(i - 1, dr));
                assert(on_board(f1 + steps(i - 1, df), r1 + steps(i - 1, dr)));
            } else {
                assert(steps(0, df) == 0 && steps(0, dr) == 0);
            }
        }
        assert(steps(n + 1, df) == df + steps(n, df));
        assert(steps(n + 1, dr) == dr + steps(n, dr));
        n + 1
    }
}

/// A ray reaches every square some steps along it, on the board, with the
/// squares before it empty.
pub proof fn lemma_ray_reaches(f: int, r: int, df: int, dr: int, occ: u64, t: int, fuel: nat, n: int)
    requires
        -1 <= df <= 1,
        -1 <= dr <= 1,
        n < fuel,
        reaches_at(f, r, df, dr, occ, t, n),
    ensures
        ray_from(f, r, df, dr, occ, t, fuel),
    decreases n,
{
    assert(steps(0, df) == 0 && steps(0, dr) == 0);
    if n == 0 {
    } else {
        assert(on_board(f + steps(0, df), r + steps(0, dr)));
        let f1 = f + df;
        let r1 = r + dr;
        assert forall|i: int| 0 <= i < n - 1 implies on_board(f1 + #[trigger] steps(i, df), r1 + steps(i, dr)) && !bit_set(
            occ,
            sq_at(f1 + steps(i, df), r1 + steps(i, dr)) as u64,
        ) by {
            assert(steps(i + 1, df) == df + steps(i, df));
            assert(steps(i + 1, dr) == dr + steps(i, dr));
            assert(on_board(f + steps(i + 1, df), r + steps(i + 1, dr)));
        }
        assert(steps(n, df) == df + steps(n - 1, df));
        assert(steps(n, dr) == dr + steps(n - 1, dr));
        lemma_ray_reaches(f1, r1, df, dr, occ, t, (fuel - 1) as nat, n - 1);
    }
}

/// The file and rank of a square of the board.
proof fn lemma_coords(f: int, r: int)
    requires
        on_board(f, r),
    ensures
        sq_at(f, r) % 8 == f,
        sq_at(f, r) / 8 == r,
        0 <= sq_at(f, r) < 64,
{
}

/// A slider on `s` reaches `t` along `(df, dr)` exactly when a slider on `t`
/// reaches `s` along `(-df, -dr)`.
pub proof fn lemma_ray_symmetric(s: int, t: int, df: int, dr: int, occ: u64)
    requires
        0 <= s < 64,
        0 <= t < 64,
        -1 <= df <= 1,
        -1 <= dr <= 1,
        ray_hits(s, df, dr, occ, t),
    ensures
        ray_hits(t, -df, -dr, occ, s),
{
    let fs = s % 8;
    let rs = s / 8;
    let n = lemma_ray_witness(fs + df, rs + dr, df, dr, occ, t, 8);
    let ft = fs + df + steps(n, df);
    let rt = rs + dr + steps(n, dr);
    lemma_coords(ft, rt);
    assert(t % 8 == ft && t / 8 == rt);
    let fb = ft - df;
    let rb = rt - dr;
    assert(steps(n, -df) == -steps(n, df));
    assert(steps(n, -dr) == -steps(n, dr));
    assert(fb + steps(n, -df) == fs && rb + steps(n, -dr) == rs);
    assert(sq_at(fs, rs) == s);
    assert forall|i: int| 0 <= i < n implies on_board(fb + #[trigger] steps(i, -df), rb + steps(i, -dr)) && !bit_set(
        occ,
        sq_at(fb + steps(i, -df), rb + steps(i, -dr)) as u64,
    ) by {
        let j = n - 1 - i;
        assert(steps(i, -df) == -steps(i, df));
        assert(steps(i, -dr) == -steps(i, dr));
        assert(fb + steps(i, -df) == fs + df + steps(j, df));
        assert(rb + steps(i, -dr) == rs + dr + steps(j, dr));
        assert(on_board(fs + df + steps(j, df), rs + dr + steps(j, dr)));
    }
    assert(reaches_at(fb, rb, -df, -dr, occ, s, n));
    lemma_ray_reaches(fb, rb, -df, -dr, occ, s, 8, n);
}

/// A rook on `s` reaching `t` is reached by a rook on `t`.
pub proof fn lemma_rook_symmetric(s: int, t: int, occ: u64)
    requires
        0 <= s < 64,
        0 <= t < 64,
        rook_hits(s, occ, t),
    ensures
        rook_hits(t, occ, s),
{
    if ray_hits(s, 1, 0, occ, t) {
        lemma_ray_symmetric(s, t, 1, 0, occ);
    } else if ray_hits(s, -1, 0, occ, t) {
        lemma_ray_symmetric(s, t, -1, 0, occ);
    } else if ray_hits(s, 0, 1, occ, t) {
        lemma_ray_symmetric(s, t, 0, 1, occ);
    } else {
        lemma_ray_symmetric(s, t, 0, -1, occ);
    }
}

/// A bishop on `s` reaching `t` is reached by a bishop on `t`.
pub proof fn lemma_bishop_symmetric(s: int, t: int, occ: u64)
    requires
        0 <= s < 64,
        0 <= t < 64,
        bishop_hits(s, occ, t),
    ensures
        bishop_hits(t, occ, s),
{
    if ray_hits(s, 1, 1, occ, t) {
        lemma_ray_symmetric(s, t, 1, 1, occ);
    } else if ray_hits(s, 1, -1, occ, t) {
        lemma_ray_symmetric(s, t, 1, -1, occ);
    } else if ray_hits(s, -1, 1, occ, t) {
        lemma_ray_symmetric(s, t, -1, 1, occ);
    } else {
        lemma_ray_symmetric(s, t, -1, -1, occ);
    }
}

} // verus!
