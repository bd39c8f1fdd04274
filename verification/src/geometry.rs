use vstd::prelude::*;

verus! {

pub open spec fn rank_of(s: int) -> int {
    s / 8
}

pub open spec fn file_of(s: int) -> int {
    s % 8
}

pub open spec fn abs(x: int) -> int {
    if x < 0 {
        -x
    } else {
        x
    }
}

pub open spec fn sign(x: int) -> int {
    if x > 0 {
        1
    } else if x < 0 {
        -1
    } else {
        0
    }
}

/// `x * d` for a direction component `d` in `-1..=1`.
pub open spec fn mul_sign(x: int, d: int) -> int {
    if d > 0 {
        x
    } else if d < 0 {
        -x
    } else {
        0
    }
}

pub open spec fn coords_on_board(rank: int, file: int) -> bool {
    0 <= rank < 8 && 0 <= file < 8
}

pub open spec fn is_direction(dr: int, df: int) -> bool {
    -1 <= dr <= 1 && -1 <= df <= 1 && (dr != 0 || df != 0)
}

/// The rank reached from square `from` after `m` steps of `dr` ranks.
pub open spec fn rank_after(from: int, dr: int, m: int) -> int {
    rank_of(from) + mul_sign(m, dr)
}

/// The file reached from square `from` after `m` steps of `df` files.
pub open spec fn file_after(from: int, df: int, m: int) -> int {
    file_of(from) + mul_sign(m, df)
}

/// The square reached from `from` after `m` steps in direction `(dr, df)`.
pub open spec fn point(from: int, dr: int, df: int, m: int) -> int {
    rank_after(from, dr, m) * 8 + file_after(from, df, m)
}

/// The number of steps in direction `(dr, df)` that leads from `from` to `j`, if any does.
pub open spec fn steps(from: int, dr: int, df: int, j: int) -> int {
    if dr != 0 {
        mul_sign(rank_of(j) - rank_of(from), dr)
    } else {
        mul_sign(file_of(j) - file_of(from), df)
    }
}

/// Whether some number of steps in direction `(dr, df)` leads from `from` to `j`.
pub open spec fn on_line(from: int, dr: int, df: int, j: int) -> bool {
    let s = steps(from, dr, df, j);
    rank_of(j) == rank_after(from, dr, s) && file_of(j) == file_after(from, df, s)
}

/// Whether `j` is one of the squares one or more steps from `from` in direction `(dr, df)`.
pub open spec fn beyond(from: int, dr: int, df: int, j: int) -> bool {
    on_line(from, dr, df, j) && steps(from, dr, df, j) >= 1
}

/// Whether none of the squares strictly before step `n` from `from` in direction
/// `(dr, df)` is in `occupied`.
pub open spec fn path_clear(from: int, dr: int, df: int, occupied: u64, n: int) -> bool
    decreases n,
{
    if n <= 1 {
        true
    } else {
        path_clear(from, dr, df, occupied, n - 1) && !crate::bitboard::has_bit(
            occupied,
            point(from, dr, df, n - 1),
        )
    }
}

/// Whether a slider on `from` moving in direction `(dr, df)` reaches `j` when the
/// squares of `occupied` block it (it reaches the first blocker, not beyond).
pub open spec fn slides_to(from: int, dr: int, df: int, occupied: u64, j: int) -> bool {
    beyond(from, dr, df, j) && path_clear(from, dr, df, occupied, steps(from, dr, df, j))
}

/// Whether `j` is one of the squares in direction `(dr, df)` from `from` that have a
/// further square of the board behind them.
pub open spec fn inner_beyond(from: int, dr: int, df: int, j: int) -> bool {
    beyond(from, dr, df, j) && coords_on_board(
        rank_after(from, dr, steps(from, dr, df, j) + 1),
        file_after(from, df, steps(from, dr, df, j) + 1),
    )
}

pub open spec fn is_diagonal(dr: int, df: int) -> bool {
    (dr == 1 || dr == -1) && (df == 1 || df == -1)
}

pub open spec fn is_orthogonal(dr: int, df: int) -> bool {
    (dr == 0 && (df == 1 || df == -1)) || (df == 0 && (dr == 1 || dr == -1))
}

/// The squares a bishop on `from` attacks, given the occupied squares.
pub open spec fn bishop_attack(from: int, occupied: u64, j: int) -> bool {
    exists|dr: int, df: int| is_diagonal(dr, df) && #[trigger] slides_to(from, dr, df, occupied, j)
}

/// The squares a rook on `from` attacks, given the occupied squares.
pub open spec fn rook_attack(from: int, occupied: u64, j: int) -> bool {
    exists|dr: int, df: int|
        is_orthogonal(dr, df) && #[trigger] slides_to(from, dr, df, occupied, j)
}

/// The squares whose occupancy can change a bishop's attacks from `from`.
pub open spec fn bishop_mask(from: int, j: int) -> bool {
    exists|dr: int, df: int| is_diagonal(dr, df) && #[trigger] inner_beyond(from, dr, df, j)
}

/// The squares whose occupancy can change a rook's attacks from `from`.
pub open spec fn rook_mask(from: int, j: int) -> bool {
    exists|dr: int, df: int| is_orthogonal(dr, df) && #[trigger] inner_beyond(from, dr, df, j)
}

pub open spec fn knight_attack(from: int, j: int) -> bool {
    let dr = abs(rank_of(j) - rank_of(from));
    let df = abs(file_of(j) - file_of(from));
    (dr == 1 && df == 2) || (dr == 2 && df == 1)
}

pub open spec fn king_attack(from: int, j: int) -> bool {
    let dr = abs(rank_of(j) - rank_of(from));
    let df = abs(file_of(j) - file_of(from));
    dr <= 1 && df <= 1 && (dr != 0 || df != 0)
}

/// The squares a pawn of `side` (0 white, moving up; 1 black, moving down) on `from`
/// attacks.
pub open spec fn pawn_attack(side: int, from: int, j: int) -> bool {
    (if side == 0 {
        rank_of(j) == rank_of(from) + 1
    } else {
        rank_of(j) == rank_of(from) - 1
    }) && abs(file_of(j) - file_of(from)) == 1
}

/// The squares strictly between `from` and `to` on a shared rank, file or diagonal,
/// and `to` itself; nothing when they share none or are equal.
pub open spec fn ray(from: int, to: int, j: int) -> bool {
    let dr = sign(rank_of(to) - rank_of(from));
    let df = sign(file_of(to) - file_of(from));
    from != to && beyond(from, dr, df, to) && beyond(from, dr, df, j) && steps(from, dr, df, j)
        <= steps(from, dr, df, to)
}


/// A prefix of a clear path is clear.
pub proof fn lemma_path_clear_prefix(from: int, dr: int, df: int, occupied: u64, n: int, m: int)
    requires
        path_clear(from, dr, df, occupied, n),
        m <= n,
    ensures
        path_clear(from, dr, df, occupied, m),
    decreases n - m,
{
    if m < n {
        lemma_path_clear_prefix(from, dr, df, occupied, n - 1, m);
    }
}

/// A path through an occupied square is not clear.
pub proof fn lemma_path_blocked(from: int, dr: int, df: int, occupied: u64, k: int, n: int)
    requires
        crate::bitboard::has_bit(occupied, point(from, dr, df, k)),
        1 <= k < n,
    ensures
        !path_clear(from, dr, df, occupied, n),
    decreases n,
{
    if k < n - 1 {
        lemma_path_blocked(from, dr, df, occupied, k, n - 1);
    }
}


/// A slider's path toward a square of the board only passes squares that have a
/// further square behind them, so only those squares of the occupancy matter.
proof fn lemma_path_clear_masked(
    from: int,
    dr: int,
    df: int,
    occupied: u64,
    mask: u64,
    s: int,
    n: int,
)
    requires
        0 <= from < 64,
        is_direction(dr, df),
        1 <= n <= s,
        coords_on_board(rank_after(from, dr, s), file_after(from, df, s)),
        forall|p: int| 0 <= p < 64 && #[trigger] inner_beyond(from, dr, df, p) ==> crate::bitboard::has_bit(mask, p),
    ensures
        path_clear(from, dr, df, occupied & mask, n) == path_clear(from, dr, df, occupied, n),
    decreases n,
{
    if n > 1 {
        lemma_path_clear_masked(from, dr, df, occupied, mask, s, n - 1);
        let p = point(from, dr, df, n - 1);
        assert(coords_on_board(rank_after(from, dr, n - 1), file_after(from, df, n - 1)));
        assert(rank_of(p) == rank_after(from, dr, n - 1) && file_of(p) == file_after(from, df, n - 1));
        assert(steps(from, dr, df, p) == n - 1);
        assert(inner_beyond(from, dr, df, p));
        crate::bitboard::lemma_bitwise(occupied, mask, p as u64);
    }
}

/// `slides_to` depends on the occupancy only through the squares that have a further
/// square behind them.
pub proof fn lemma_slides_to_masked(from: int, dr: int, df: int, occupied: u64, mask: u64, j: int)
    requires
        0 <= from < 64,
        0 <= j < 64,
        is_direction(dr, df),
        forall|p: int| 0 <= p < 64 && #[trigger] inner_beyond(from, dr, df, p) ==> crate::bitboard::has_bit(mask, p),
    ensures
        slides_to(from, dr, df, occupied & mask, j) == slides_to(from, dr, df, occupied, j),
{
    if beyond(from, dr, df, j) {
        let s = steps(from, dr, df, j);
        lemma_path_clear_masked(from, dr, df, occupied, mask, s, s);
    }
}

/// The attacks of a bishop (`is_bishop`) or a rook.
pub open spec fn slider_attack(is_bishop: bool, from: int, occupied: u64, j: int) -> bool {
    if is_bishop {
        bishop_attack(from, occupied, j)
    } else {
        rook_attack(from, occupied, j)
    }
}

/// The relevant-occupancy squares of a bishop (`is_bishop`) or a rook.
pub open spec fn slider_mask(is_bishop: bool, from: int, j: int) -> bool {
    if is_bishop {
        bishop_mask(from, j)
    } else {
        rook_mask(from, j)
    }
}

/// A slider's attacks depend on the occupancy only through its relevant-occupancy squares.
pub proof fn lemma_slider_attack_masked(is_bishop: bool, from: int, occupied: u64, mask: u64, j: int)
    requires
        0 <= from < 64,
        0 <= j < 64,
        forall|p: int| 0 <= p < 64 ==> (crate::bitboard::has_bit(mask, p) <==> slider_mask(is_bishop, from, p)),
    ensures
        slider_attack(is_bishop, from, occupied & mask, j) == slider_attack(is_bishop, from, occupied, j),
{
    assert forall|dr: int, df: int|
        (if is_bishop { is_diagonal(dr, df) } else { is_orthogonal(dr, df) }) implies
        #[trigger] slides_to(from, dr, df, occupied & mask, j) == slides_to(from, dr, df, occupied, j) by {
        assert forall|p: int| 0 <= p < 64 && #[trigger] inner_beyond(from, dr, df, p) implies crate::bitboard::has_bit(mask, p) by {
            assert(slider_mask(is_bishop, from, p));
        }
        lemma_slides_to_masked(from, dr, df, occupied, mask, j);
    }
    if is_bishop {
        if bishop_attack(from, occupied, j) {
            let (dr, df) = choose|dr: int, df: int| is_diagonal(dr, df) && #[trigger] slides_to(from, dr, df, occupied, j);
            assert(slides_to(from, dr, df, occupied & mask, j));
        }
        if bishop_attack(from, occupied & mask, j) {
            let (dr, df) = choose|dr: int, df: int| is_diagonal(dr, df) && #[trigger] slides_to(from, dr, df, occupied & mask, j);
            assert(slides_to(from, dr, df, occupied, j));
        }
    } else {
        if rook_attack(from, occupied, j) {
            let (dr, df) = choose|dr: int, df: int| is_orthogonal(dr, df) && #[trigger] slides_to(from, dr, df, occupied, j);
            assert(slides_to(from, dr, df, occupied & mask, j));
        }
        if rook_attack(from, occupied & mask, j) {
            let (dr, df) = choose|dr: int, df: int| is_orthogonal(dr, df) && #[trigger] slides_to(from, dr, df, occupied & mask, j);
            assert(slides_to(from, dr, df, occupied, j));
        }
    }
}

} // verus!
