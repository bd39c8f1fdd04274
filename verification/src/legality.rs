use vstd::prelude::*;

use crate::bitboard::{has_bit, lemma_bitwise, lemma_clear_lowest, lemma_one_bit, lemma_single_bit_update};
use crate::board::Board;
use crate::capture_generation::{
    lemma_adjacent_ray, lemma_knight_no_ray, lemma_point_of_steps, lemma_same_steps, lemma_slide_between,
    lemma_slide_direction, lemma_square_coords,
};
use crate::geometry::{
    beyond, file_after, file_of, is_diagonal, is_orthogonal, lemma_path_blocked, on_line, point, rank_after, rank_of, ray,
    sign, slides_to, steps,
};
use crate::bitboard::{lemma_zero_bits, single_bit};
use crate::core_structs::{lemma_flag_words, lemma_move_value_fields, Move};
use crate::king_safety::{
    lemma_path_blocker, lemma_path_free, lemma_evasion_is_safe, lemma_king_step_is_safe, lemma_pinned_move_along_line_is_safe, lemma_point_between, lemma_ray_direction, lemma_unpinned_move_is_safe, plain_move,
};
use crate::movegen::{
    generated_moves, pawn_moves, castle_moves, castle_path_ok, agressive_pawns, agressive_pinned_pawns, en_passant_step, pawn_capture_moves, en_passant_ok, double_push_rank, double_step, double_pushable_pawns, movable_pawns, movable_pinned_pawns, pawn_push, pawn_quiet_moves,
    pawn_set, promotion_rank, pawn_family, pawn_reach, pawn_square_moves, promotions, bishop_moves, bits_of, double_check, evasion_mask, generation_ready, king_captures, king_moves, king_step,
    knight_moves, knight_square_moves, lemma_squares_mask, move_value, moves_over, one_move, piece_moves, ray_mask,
    rook_moves, slider_square_moves,
};
use crate::movegen_laws::{all_moves, lemma_all_concat, lemma_moves_over_all};
use vstd::std_specs::bits::u64_trailing_zeros;

verus! {

/// Two squares of the board with the same rank and file are one square.
proof fn lemma_coords_equal(a: int, c: int)
    requires
        0 <= a < 64,
        0 <= c < 64,
        rank_of(a) == rank_of(c),
        file_of(a) == file_of(c),
    ensures
        a == c,
{
    lemma_square_coords(a);
    lemma_square_coords(c);
}

/// The square `m` steps along `(dr, df)` from `from` has the ranks and files of those
/// steps when they stay on the board.
proof fn lemma_point_coords(from: int, dr: int, df: int, m: int)
    requires
        0 <= from < 64,
        0 <= rank_after(from, dr, m) < 8,
        0 <= file_after(from, df, m) < 8,
    ensures
        0 <= point(from, dr, df, m) < 64,
        rank_of(point(from, dr, df, m)) == rank_after(from, dr, m),
        file_of(point(from, dr, df, m)) == file_after(from, df, m),
{
    lemma_square_coords(from);
}

/// A slider standing between its king and a pinning piece, on the line from the king,
/// that reaches a square lying on some line from the king of its own kind (rank or file
/// for rooks, diagonal for bishops) reaches a square of its own line, between the king
/// and the pinning piece or on the pinning piece: the king and the pinning piece block
/// the way beyond, and a slider leaving the line meets no other line from the king.
pub proof fn lemma_pinned_slide_stays(
    k: int,
    p: int,
    s: int,
    t: int,
    occ: u64,
    p2: int,
    dr: int,
    df: int,
    er: int,
    ef: int,
)
    requires
        0 <= k < 64,
        0 <= p < 64,
        0 <= s < 64,
        0 <= t < 64,
        0 <= p2 < 64,
        ray(k, p, s),
        s != p,
        has_bit(occ, k),
        has_bit(occ, p),
        dr == sign(rank_of(p) - rank_of(k)),
        df == sign(file_of(p) - file_of(k)),
        (is_diagonal(dr, df) && is_diagonal(er, ef) && is_diagonal(
            sign(rank_of(p2) - rank_of(k)),
            sign(file_of(p2) - file_of(k)),
        )) || (is_orthogonal(dr, df) && is_orthogonal(er, ef) && is_orthogonal(
            sign(rank_of(p2) - rank_of(k)),
            sign(file_of(p2) - file_of(k)),
        )),
        slides_to(s, er, ef, occ, t),
        ray(k, p2, t),
    ensures
        ray(k, p, t),
{
    let n1 = steps(k, dr, df, s);
    let np = steps(k, dr, df, p);
    let m = steps(s, er, ef, t);
    let d2r = sign(rank_of(p2) - rank_of(k));
    let d2f = sign(file_of(p2) - file_of(k));
    let n2 = steps(k, d2r, d2f, t);
    lemma_square_coords(k);
    lemma_square_coords(p);
    lemma_square_coords(s);
    lemma_square_coords(t);
    lemma_point_of_steps(k, dr, df, p);
    lemma_point_of_steps(k, dr, df, s);
    lemma_point_of_steps(s, er, ef, t);
    lemma_point_of_steps(k, d2r, d2f, t);
    if n1 == np {
        lemma_same_steps(k, dr, df, s, p);
    }
    assert(1 <= n1 < np);
    if er == dr && ef == df {
        // Along the line away from the king: the pinning piece stops the slider.
        if n1 + m > np {
            let j = np - n1;
            assert(rank_after(s, er, j) == rank_of(p) && file_after(s, ef, j) == file_of(p));
            lemma_point_coords(s, er, ef, j);
            lemma_coords_equal(point(s, er, ef, j), p);
            lemma_path_blocked(s, er, ef, occ, j, m);
        }
        assert(rank_of(t) == rank_after(k, dr, n1 + m) && file_of(t) == file_after(k, df, n1 + m));
        assert(on_line(k, dr, df, t) && steps(k, dr, df, t) == n1 + m);
    } else if er == -dr && ef == -df {
        // Toward the king: the king stops the slider.
        if m > n1 {
            assert(rank_after(s, er, n1) == rank_of(k) && file_after(s, ef, n1) == file_of(k));
            lemma_point_coords(s, er, ef, n1);
            lemma_coords_equal(point(s, er, ef, n1), k);
            lemma_path_blocked(s, er, ef, occ, n1, m);
        }
        if m == n1 {
            lemma_coords_equal(t, k);
        }
        assert(rank_of(t) == rank_after(k, dr, n1 - m) && file_of(t) == file_after(k, df, n1 - m));
        assert(on_line(k, dr, df, t) && steps(k, dr, df, t) == n1 - m);
    } else {
        // Off the line: no other line from the king of the same kind is met.
        assert(rank_of(t) == rank_of(k) + (if dr > 0 { n1 } else if dr < 0 { -n1 } else { 0 }) + (if er > 0 {
            m
        } else if er < 0 {
            -m
        } else {
            0
        }));
        assert(file_of(t) == file_of(k) + (if df > 0 { n1 } else if df < 0 { -n1 } else { 0 }) + (if ef > 0 {
            m
        } else if ef < 0 {
            -m
        } else {
            0
        }));
        assert(false);
    }
}

/// A piece pinned to its king cannot answer a single check: no square of its pin line
/// lies on the line from the king to the checking piece, nor is the checking piece.
#[verifier::spinoff_prover]
#[verifier::rlimit(30)]
proof fn lemma_pinned_piece_cannot_evade(b: Board, orthogonal: bool, p: int, s: int, t: int)
    requires
        b.wf(),
        generation_ready(b),
        b.derived_ok(),
        b.checkers@ != 0,
        !double_check(b),
        0 <= p < 64,
        0 <= s < 64,
        0 <= t < 64,
        b.pin_line(orthogonal, p, s),
        has_bit(b.side_bits(b.side_to_move@), s),
        ray(b.king_square(b.side_to_move@), p, t),
    ensures
        !has_bit(evasion_mask(b, false), t),
{
    if has_bit(evasion_mask(b, false), t) {
        let stm = b.side_to_move@;
        let k = b.king_square(stm);
        let opp = b.side_bits(1 - stm);
        let occ = b.side_bits(0) | b.side_bits(1);
        let c = b.checkers@;
        lemma_clear_lowest(b.piece_bits(6) & b.side_bits(stm));
        lemma_clear_lowest(c);
        lemma_one_bit(c);
        let checker = u64_trailing_zeros(c) as int;
        let i = choose|i: int| 0 <= i < 64 && #[trigger] has_bit(c, i) && forall|jj: int| 0 <= jj < 64 && has_bit(c, jj) ==> jj == i;
        assert(checker == i);
        assert(b.checkers.contains(checker));
        assert(b.is_checker(checker));
        lemma_squares_mask(|jj: int| ray(k, checker, jj), 64, t);
        lemma_single_bit_update(ray_mask(k, checker), checker as u64, t as u64);
        // The pin line runs from the king toward the pinning piece.
        let dr = sign(rank_of(p) - rank_of(k));
        let df = sign(file_of(p) - file_of(k));
        lemma_square_coords(k);
        lemma_square_coords(p);
        lemma_square_coords(s);
        lemma_square_coords(t);
        lemma_square_coords(checker);
        lemma_ray_direction(k, p, t);
        lemma_slide_direction(k, dr, df, t);
        // The checking piece lies the same way from the king.
        if t != checker {
            let er = sign(rank_of(checker) - rank_of(k));
            let ef = sign(file_of(checker) - file_of(k));
            lemma_ray_direction(k, checker, t);
            lemma_slide_direction(k, er, ef, t);
            assert(er == dr && ef == df);
        }
        assert(beyond(k, dr, df, checker));
        lemma_slide_direction(k, dr, df, checker);
        assert(ray(k, checker, checker));
        let nc = steps(k, dr, df, checker);
        let np = steps(k, dr, df, p);
        let ns = steps(k, dr, df, s);
        lemma_point_of_steps(k, dr, df, checker);
        lemma_point_of_steps(k, dr, df, p);
        lemma_point_of_steps(k, dr, df, s);
        assert(b.square_wf(s));
        assert(b.square_wf(p));
        assert(b.square_wf(checker));
        lemma_bitwise(b.side_bits(0), b.side_bits(1), s as u64);
        lemma_bitwise(b.side_bits(0), b.side_bits(1), p as u64);
        lemma_bitwise(b.side_bits(0), b.side_bits(1), checker as u64);
        assert(s != p);
        if ns == np {
            lemma_same_steps(k, dr, df, s, p);
        }
        assert(1 <= ns < np);
        // The pinning piece sees the king past pieces of its own side only.
        let sliders = b.piece_bits(if orthogonal { 4 } else { 3 });
        assert(crate::board::potential_pinner_at(orthogonal, k, opp, sliders, b.piece_bits(5), p));
        let (d2, f2) = if orthogonal {
            choose|d2: int, f2: int| is_orthogonal(d2, f2) && #[trigger] slides_to(k, d2, f2, opp, p)
        } else {
            choose|d2: int, f2: int| is_diagonal(d2, f2) && #[trigger] slides_to(k, d2, f2, opp, p)
        };
        lemma_slide_direction(k, d2, f2, p);
        assert(d2 == dr && f2 == df);
        if has_bit(b.piece_bits(2), checker) && crate::geometry::knight_attack(k, checker) {
            lemma_knight_no_ray(k, checker, checker);
        } else if (has_bit(b.piece_bits(1), checker) && crate::geometry::pawn_attack(stm, k, checker)) || (has_bit(
            b.piece_bits(6),
            checker,
        ) && crate::geometry::king_attack(k, checker)) {
            assert(crate::geometry::king_attack(k, checker));
            if nc > 1 {
                lemma_point_between(k, dr, df, checker, 1);
                lemma_adjacent_ray(k, checker, point(k, dr, df, 1));
            }
            lemma_path_blocked(k, dr, df, opp, nc, np);
        } else {
            let (d3, f3) = if (has_bit(b.piece_bits(3), checker) || has_bit(b.piece_bits(5), checker))
                && crate::geometry::bishop_attack(k, occ, checker) {
                choose|d3: int, f3: int| is_diagonal(d3, f3) && #[trigger] slides_to(k, d3, f3, occ, checker)
            } else {
                choose|d3: int, f3: int| is_orthogonal(d3, f3) && #[trigger] slides_to(k, d3, f3, occ, checker)
            };
            lemma_slide_direction(k, d3, f3, checker);
            assert(d3 == dr && f3 == df);
            if nc < np {
                lemma_path_blocked(k, dr, df, opp, nc, np);
            } else {
                assert(ray(k, checker, s));
                lemma_slide_between(k, dr, df, occ, checker, s);
            }
        }
    }
}

/// The square the king of the side to move stands on once the move of value `v` is
/// played: its target square when the king moves, else the king's square.
pub open spec fn king_square_after(b: Board, v: u16) -> int {
    let mv = Move { value: v };
    if b.piece_at(mv.from_of()) == 6 {
        mv.to_of()
    } else {
        b.king_square(b.side_to_move@)
    }
}

/// Whether every board that playing the move of value `v` on `b` leads to has the king
/// of the side that moved on `king_square_after(b, v)`, where no piece of the other side
/// attacks it.
pub open spec fn leaves_king_safe(b: Board, v: u16) -> bool {
    let stm = b.side_to_move@;
    let sq = king_square_after(b, v);
    forall|next: Board|
        #[trigger] b.moves_to(Move { value: v }, next) ==> has_bit(next.piece_bits(6) & next.side_bits(stm), sq)
            && !next.square_attacked(sq, 1 - stm, next.side_bits(0) | next.side_bits(1))
}

/// In check, the squares the evasion mask of captures holds are squares of the evasion
/// mask of all moves: the one checking piece.
proof fn lemma_capture_mask_within(b: Board, only_captures: bool, t: int)
    requires
        b.checkers@ != 0,
        !double_check(b),
        0 <= t < 64,
        has_bit(evasion_mask(b, only_captures), t),
    ensures
        has_bit(evasion_mask(b, false), t),
{
    let c = b.checkers@;
    lemma_clear_lowest(c);
    lemma_one_bit(c);
    let checker = u64_trailing_zeros(c) as int;
    if only_captures {
        let i = choose|i: int| 0 <= i < 64 && #[trigger] has_bit(c, i) && forall|jj: int| 0 <= jj < 64 && has_bit(c, jj) ==> jj == i;
        assert(t == i && checker == i);
        lemma_single_bit_update(ray_mask(b.king_square(b.side_to_move@), checker), checker as u64, t as u64);
    }
}

/// The move of a piece other than the king from `s` to `t`, with flags other than en
/// passant or castling, leaves the king safe when no line pins the piece and `t` is a square of the evasion
/// mask.
proof fn lemma_unpinned_step_safe(b: Board, only_captures: bool, s: int, t: int, flags: u16)
    requires
        b.wf(),
        generation_ready(b),
        b.derived_ok(),
        !double_check(b),
        0 <= s < 64,
        0 <= t < 64,
        has_bit(b.side_bits(b.side_to_move@), s),
        b.piece_at(s) != 6,
        !has_bit(b.side_bits(b.side_to_move@), t),
        flags & 0x0FFFu16 == 0,
        flags != 0x5000u16,
        flags != 0x2000u16,
        flags != 0x3000u16,
        !b.ortographic_pins.contains(s),
        !b.diagonal_pins.contains(s),
        has_bit(evasion_mask(b, only_captures), t),
    ensures
        leaves_king_safe(b, move_value(s, t, flags)),
{
    let mv = Move { value: move_value(s, t, flags) };
    lemma_flag_words();
    lemma_move_value_fields(s as u16, t as u16, flags);
    assert(mv.from_of() == s && mv.to_of() == t && mv.flags_of() == flags);
    assert forall|next: Board| #[trigger] b.moves_to(mv, next) implies has_bit(
        next.piece_bits(6) & next.side_bits(b.side_to_move@),
        king_square_after(b, mv.value),
    ) && !next.square_attacked(
        king_square_after(b, mv.value),
        1 - b.side_to_move@,
        next.side_bits(0) | next.side_bits(1),
    ) by {
        assert(plain_move(b, mv, next));
        if b.checkers@ == 0 {
            lemma_unpinned_move_is_safe(b, mv, next);
        } else {
            lemma_capture_mask_within(b, only_captures, t);
            lemma_evasion_is_safe(b, mv, next);
        }
    }
}

/// The move of a piece other than the king, pinned along a rank or file (`orthogonal`)
/// or a diagonal, from `s` to a square `t` it reaches as a rook (bishop) would and that
/// lies on a pin line of that kind, leaves the king safe when `t` is a square of the
/// evasion mask: the move stays on the piece's own pin line, and in check no such move
/// reaches the mask.
#[verifier::spinoff_prover]
#[verifier::rlimit(30)]
proof fn lemma_pinned_step_safe(b: Board, only_captures: bool, orthogonal: bool, s: int, t: int, flags: u16)
    requires
        b.wf(),
        generation_ready(b),
        b.derived_ok(),
        !double_check(b),
        0 <= s < 64,
        0 <= t < 64,
        has_bit(b.side_bits(b.side_to_move@), s),
        b.piece_at(s) != 6,
        !has_bit(b.side_bits(b.side_to_move@), t),
        flags & 0x0FFFu16 == 0,
        flags != 0x5000u16,
        flags != 0x2000u16,
        flags != 0x3000u16,
        (if orthogonal { b.ortographic_pins } else { b.diagonal_pins }).contains(s),
        (if orthogonal { b.ortographic_pins } else { b.diagonal_pins }).contains(t),
        crate::geometry::slider_attack(!orthogonal, s, b.side_bits(0) | b.side_bits(1), t),
        has_bit(evasion_mask(b, only_captures), t),
    ensures
        leaves_king_safe(b, move_value(s, t, flags)),
{
    let stm = b.side_to_move@;
    let k = b.king_square(stm);
    let own = b.side_bits(stm);
    let opp = b.side_bits(1 - stm);
    let occ = b.side_bits(0) | b.side_bits(1);
    let sliders = b.piece_bits(if orthogonal { 4 } else { 3 });
    let queens = b.piece_bits(5);
    assert(b.is_pinned_square(orthogonal, s));
    assert(b.is_pinned_square(orthogonal, t));
    let p = choose|p: int| 0 <= p < 64 && #[trigger] crate::board::pin_line_at(orthogonal, k, own, opp, sliders, queens, p, s);
    let p2 = choose|p: int| 0 <= p < 64 && #[trigger] crate::board::pin_line_at(orthogonal, k, own, opp, sliders, queens, p, t);
    assert(b.pin_line(orthogonal, p, s));
    // The directions of the two pinning pieces from the king are of the pin's kind.
    let (d2, f2) = if orthogonal {
        choose|d2: int, f2: int| is_orthogonal(d2, f2) && #[trigger] slides_to(k, d2, f2, opp, p)
    } else {
        choose|d2: int, f2: int| is_diagonal(d2, f2) && #[trigger] slides_to(k, d2, f2, opp, p)
    };
    lemma_slide_direction(k, d2, f2, p);
    let (d4, f4) = if orthogonal {
        choose|d4: int, f4: int| is_orthogonal(d4, f4) && #[trigger] slides_to(k, d4, f4, opp, p2)
    } else {
        choose|d4: int, f4: int| is_diagonal(d4, f4) && #[trigger] slides_to(k, d4, f4, opp, p2)
    };
    lemma_slide_direction(k, d4, f4, p2);
    // The way the piece slides is of the same kind.
    let (er, ef) = if orthogonal {
        choose|er: int, ef: int| is_orthogonal(er, ef) && #[trigger] slides_to(s, er, ef, occ, t)
    } else {
        choose|er: int, ef: int| is_diagonal(er, ef) && #[trigger] slides_to(s, er, ef, occ, t)
    };
    lemma_clear_lowest(b.piece_bits(6) & own);
    lemma_bitwise(b.piece_bits(6), own, k as u64);
    lemma_bitwise(b.side_bits(0), b.side_bits(1), k as u64);
    lemma_bitwise(b.side_bits(0), b.side_bits(1), p as u64);
    lemma_bitwise(b.side_bits(0), b.side_bits(1), s as u64);
    assert(b.square_wf(s));
    assert(s != p);
    lemma_pinned_slide_stays(k, p, s, t, occ, p2, d2, f2, er, ef);
    let mv = Move { value: move_value(s, t, flags) };
    lemma_flag_words();
    lemma_move_value_fields(s as u16, t as u16, flags);
    assert(mv.from_of() == s && mv.to_of() == t && mv.flags_of() == flags);
    assert forall|next: Board| #[trigger] b.moves_to(mv, next) implies has_bit(
        next.piece_bits(6) & next.side_bits(b.side_to_move@),
        king_square_after(b, mv.value),
    ) && !next.square_attacked(
        king_square_after(b, mv.value),
        1 - b.side_to_move@,
        next.side_bits(0) | next.side_bits(1),
    ) by {
        assert(plain_move(b, mv, next));
        if b.checkers@ == 0 {
            lemma_pinned_move_along_line_is_safe(b, mv, next, orthogonal, p);
        } else {
            lemma_capture_mask_within(b, only_captures, t);
            lemma_pinned_piece_cannot_evade(b, orthogonal, p, s, t);
        }
    }
}

/// The king moves and king captures the generator lists leave the king safe.
proof fn lemma_king_part_safe(b: Board)
    requires
        b.wf(),
        generation_ready(b),
    ensures
        all_moves(king_moves(b), |v: u16| leaves_king_safe(b, v)),
        all_moves(king_captures(b), |v: u16| leaves_king_safe(b, v)),
{
    let stm = b.side_to_move@;
    let k = b.king_square(stm);
    let own = b.side_bits(stm);
    let opp = b.side_bits(1 - stm);
    let safe = |v: u16| leaves_king_safe(b, v);
    let f = king_step(b, k);
    lemma_clear_lowest(b.piece_bits(6) & own);
    lemma_bitwise(b.piece_bits(6), own, k as u64);
    assert(b.square_wf(k));
    lemma_flag_words();
    assert forall|t: int| 0 <= t < 64 && crate::geometry::king_attack(k, t) && !has_bit(own, t) implies all_moves(
        #[trigger] f(t),
        safe,
    ) by {
        let flag = if has_bit(opp, t) { 0x4000u16 } else { 0u16 };
        let mv = Move { value: move_value(k, t, flag) };
        lemma_move_value_fields(k as u16, t as u16, flag);
        assert(mv.from_of() == k && mv.to_of() == t);
        if !b.square_attacked(t, 1 - stm, (b.side_bits(0) | b.side_bits(1)) & !single_bit(k)) {
            assert(f(t) == seq![mv.value]);
            assert forall|next: Board| #[trigger] b.moves_to(mv, next) implies has_bit(
                next.piece_bits(6) & next.side_bits(stm),
                king_square_after(b, mv.value),
            ) && !next.square_attacked(
                king_square_after(b, mv.value),
                1 - stm,
                next.side_bits(0) | next.side_bits(1),
            ) by {
                lemma_king_step_is_safe(b, t, next);
            }
            assert(safe(f(t)[0]));
        }
    }
    lemma_moves_over_all(|t: int| crate::geometry::king_attack(k, t) && !has_bit(own, t), f, safe);
    lemma_moves_over_all(
        |t: int| crate::geometry::king_attack(k, t) && !has_bit(own, t) && has_bit(opp, t),
        f,
        safe,
    );
}

/// Whether the quiet move and the capture from `s` to `t` both leave the king safe.
spec fn steps_safe(b: Board, s: int, t: int) -> bool {
    leaves_king_safe(b, move_value(s, t, 0u16)) && leaves_king_safe(b, move_value(s, t, 0x4000u16))
}

/// The moves of the piece on `s` to squares of `targets` leave the king safe when each
/// quiet move and each capture to a target its side does not hold does.
proof fn lemma_piece_targets_safe(b: Board, s: int, targets: spec_fn(int) -> bool)
    requires
        b.wf(),
        0 <= s < 64,
        forall|t: int|
            0 <= t < 64 && #[trigger] targets(t) && !has_bit(b.side_bits(b.side_to_move@), t) ==> steps_safe(b, s, t),
    ensures
        all_moves(piece_moves(b, s, targets), |v: u16| leaves_king_safe(b, v)),
{
    let stm = b.side_to_move@;
    let safe = |v: u16| leaves_king_safe(b, v);
    let quiet = |j: int| targets(j) && !b.occupied(j);
    let captures = |j: int| targets(j) && has_bit(b.side_bits(1 - stm), j);
    assert forall|t: int| 0 <= t < 64 && #[trigger] quiet(t) implies all_moves(one_move(s, 0)(t), safe) by {
        assert(targets(t));
        assert(steps_safe(b, s, t));
        assert(one_move(s, 0)(t)[0] == move_value(s, t, 0u16));
    }
    assert forall|t: int| 0 <= t < 64 && #[trigger] captures(t) implies all_moves(one_move(s, 0x4000)(t), safe) by {
        assert(b.square_wf(t));
        assert(targets(t));
        assert(steps_safe(b, s, t));
        assert(one_move(s, 0x4000)(t)[0] == move_value(s, t, 0x4000u16));
    }
    lemma_moves_over_all(quiet, one_move(s, 0), safe);
    lemma_moves_over_all(captures, one_move(s, 0x4000), safe);
    lemma_all_concat(moves_over(quiet, one_move(s, 0)), moves_over(captures, one_move(s, 0x4000)), safe);
}

/// The knight moves the generator lists leave the king safe.
proof fn lemma_knight_part_safe(b: Board, only_captures: bool)
    requires
        b.wf(),
        generation_ready(b),
        b.derived_ok(),
        !double_check(b),
    ensures
        all_moves(knight_moves(b, evasion_mask(b, only_captures)), |v: u16| leaves_king_safe(b, v)),
{
    let stm = b.side_to_move@;
    let own = b.side_bits(stm);
    let mask = evasion_mask(b, only_captures);
    let safe = |v: u16| leaves_king_safe(b, v);
    let knights = (b.piece_bits(2) & own) & !(b.ortographic_pins@ | b.diagonal_pins@);
    lemma_flag_words();
    let g = knight_square_moves(b, mask);
    assert forall|s: int| 0 <= s < 64 && #[trigger] bits_of(knights)(s) implies all_moves(g(s), safe) by {
        lemma_bitwise(b.piece_bits(2) & own, !(b.ortographic_pins@ | b.diagonal_pins@), s as u64);
        lemma_bitwise(b.piece_bits(2), own, s as u64);
        lemma_bitwise(b.ortographic_pins@, b.diagonal_pins@, s as u64);
        lemma_bitwise(b.ortographic_pins@ | b.diagonal_pins@, 0, s as u64);
        assert(b.square_wf(s));
        let targets = |j: int| crate::geometry::knight_attack(s, j) && has_bit(mask, j);
        assert forall|t: int|
            0 <= t < 64 && #[trigger] targets(t) && !has_bit(b.side_bits(b.side_to_move@), t) implies steps_safe(b, s, t) by {
            lemma_unpinned_step_safe(b, only_captures, s, t, 0u16);
            lemma_unpinned_step_safe(b, only_captures, s, t, 0x4000u16);
        }
        lemma_piece_targets_safe(b, s, targets);
    }
    lemma_moves_over_all(bits_of(knights), g, safe);
}

/// The moves of a bishop (`is_bishop`), rook or queen on `s` that no line pins leave
/// the king safe.
#[verifier::spinoff_prover]
proof fn lemma_free_slider_square_safe(b: Board, only_captures: bool, is_bishop: bool, s: int)
    requires
        b.wf(),
        generation_ready(b),
        b.derived_ok(),
        !double_check(b),
        0 <= s < 64,
        has_bit(b.side_bits(b.side_to_move@), s),
        b.piece_at(s) != 6,
        !b.ortographic_pins.contains(s),
        !b.diagonal_pins.contains(s),
    ensures
        all_moves(slider_square_moves(b, is_bishop, evasion_mask(b, only_captures))(s), |v: u16| leaves_king_safe(b, v)),
{
    let own = b.side_bits(b.side_to_move@);
    let occ = b.side_bits(0) | b.side_bits(1);
    let mask = evasion_mask(b, only_captures);
    let targets = |j: int| crate::geometry::slider_attack(is_bishop, s, occ, j) && has_bit(mask, j);
    lemma_flag_words();
    assert forall|t: int|
        0 <= t < 64 && #[trigger] targets(t) && !has_bit(b.side_bits(b.side_to_move@), t) implies steps_safe(b, s, t) by {
        lemma_unpinned_step_safe(b, only_captures, s, t, 0u16);
        lemma_unpinned_step_safe(b, only_captures, s, t, 0x4000u16);
    }
    lemma_piece_targets_safe(b, s, targets);
}

/// The moves of a bishop (`is_bishop`), rook or queen on `s` that a line of the kind it
/// moves along pins, to squares of the pin lines of that kind, leave the king safe.
#[verifier::spinoff_prover]
proof fn lemma_pinned_slider_square_safe(b: Board, only_captures: bool, is_bishop: bool, s: int)
    requires
        b.wf(),
        generation_ready(b),
        b.derived_ok(),
        !double_check(b),
        0 <= s < 64,
        has_bit(b.side_bits(b.side_to_move@), s),
        b.piece_at(s) != 6,
        (if is_bishop { b.diagonal_pins } else { b.ortographic_pins }).contains(s),
    ensures
        all_moves(
            slider_square_moves(
                b,
                is_bishop,
                evasion_mask(b, only_captures) & (if is_bishop { b.diagonal_pins@ } else { b.ortographic_pins@ }),
            )(s),
            |v: u16| leaves_king_safe(b, v),
        ),
{
    let own = b.side_bits(b.side_to_move@);
    let occ = b.side_bits(0) | b.side_bits(1);
    let mask = evasion_mask(b, only_captures);
    let line_pins = if is_bishop { b.diagonal_pins@ } else { b.ortographic_pins@ };
    let targets = |j: int| crate::geometry::slider_attack(is_bishop, s, occ, j) && has_bit(mask & line_pins, j);
    lemma_flag_words();
    assert forall|t: int|
        0 <= t < 64 && #[trigger] targets(t) && !has_bit(b.side_bits(b.side_to_move@), t) implies steps_safe(b, s, t) by {
        lemma_bitwise(mask, line_pins, t as u64);
        lemma_pinned_step_safe(b, only_captures, !is_bishop, s, t, 0u16);
        lemma_pinned_step_safe(b, only_captures, !is_bishop, s, t, 0x4000u16);
    }
    lemma_piece_targets_safe(b, s, targets);
}

/// The bishop moves (`is_bishop`) or rook moves the generator lists, queens included,
/// leave the king safe.
#[verifier::spinoff_prover]
proof fn lemma_slider_part_safe(b: Board, only_captures: bool, is_bishop: bool)
    requires
        b.wf(),
        generation_ready(b),
        b.derived_ok(),
        !double_check(b),
    ensures
        all_moves(
            if is_bishop {
                bishop_moves(b, evasion_mask(b, only_captures))
            } else {
                rook_moves(b, evasion_mask(b, only_captures))
            },
            |v: u16| leaves_king_safe(b, v),
        ),
{
    let stm = b.side_to_move@;
    let own = b.side_bits(stm);
    let mask = evasion_mask(b, only_captures);
    let safe = |v: u16| leaves_king_safe(b, v);
    let line_pins = if is_bishop { b.diagonal_pins@ } else { b.ortographic_pins@ };
    let cross_pins = if is_bishop { b.ortographic_pins@ } else { b.diagonal_pins@ };
    let kind = if is_bishop { 3int } else { 4int };
    let pieces = (b.piece_bits(kind) & own) | (b.piece_bits(5) & own);
    let movable = pieces & !cross_pins;
    let pinned = movable & line_pins;
    let free_moves = slider_square_moves(b, is_bishop, mask);
    let line_moves = slider_square_moves(b, is_bishop, mask & line_pins);
    assert forall|s: int| 0 <= s < 64 && #[trigger] has_bit(movable, s) implies has_bit(own, s) && b.piece_at(s)
        != 6 && !has_bit(cross_pins, s) by {
        lemma_bitwise(pieces, !cross_pins, s as u64);
        lemma_bitwise(b.piece_bits(kind) & own, b.piece_bits(5) & own, s as u64);
        lemma_bitwise(b.piece_bits(kind), own, s as u64);
        lemma_bitwise(b.piece_bits(5), own, s as u64);
        lemma_bitwise(cross_pins, 0, s as u64);
        assert(b.square_wf(s));
        assert(has_bit(b.piece_bits(kind), s) ==> b.piece_at(s) == kind);
    }
    assert forall|s: int| 0 <= s < 64 && #[trigger] bits_of(movable & !pinned)(s) implies all_moves(free_moves(s), safe) by {
        lemma_bitwise(movable, !pinned, s as u64);
        lemma_bitwise(movable, line_pins, s as u64);
        lemma_bitwise(pinned, 0, s as u64);
        assert(has_bit(movable, s));
        lemma_free_slider_square_safe(b, only_captures, is_bishop, s);
    }
    assert forall|s: int| 0 <= s < 64 && #[trigger] bits_of(pinned)(s) implies all_moves(line_moves(s), safe) by {
        lemma_bitwise(movable, line_pins, s as u64);
        assert(has_bit(movable, s));
        lemma_pinned_slider_square_safe(b, only_captures, is_bishop, s);
    }
    lemma_moves_over_all(bits_of(movable & !pinned), free_moves, safe);
    lemma_moves_over_all(bits_of(pinned), line_moves, safe);
    lemma_all_concat(moves_over(bits_of(movable & !pinned), free_moves), moves_over(bits_of(pinned), line_moves), safe);
}

/// No move the generator lists for the king, a knight, a bishop, a rook or a queen
/// exposes the king of the side to move: once such a move is played, the king (on its
/// target square when it moved) is attacked by no piece of the other side. These are all
/// the moves of `generated_moves` but the castling moves and the pawn moves; beyond the
/// king moves, they are listed only when at most one piece gives check.
pub proof fn lemma_piece_moves_leave_king_safe(b: Board, only_captures: bool)
    requires
        b.wf(),
        generation_ready(b),
        b.derived_ok(),
    ensures
        all_moves(king_moves(b), |v: u16| leaves_king_safe(b, v)),
        all_moves(king_captures(b), |v: u16| leaves_king_safe(b, v)),
        !double_check(b) ==> all_moves(knight_moves(b, evasion_mask(b, only_captures)), |v: u16| leaves_king_safe(b, v)),
        !double_check(b) ==> all_moves(bishop_moves(b, evasion_mask(b, only_captures)), |v: u16| leaves_king_safe(b, v)),
        !double_check(b) ==> all_moves(rook_moves(b, evasion_mask(b, only_captures)), |v: u16| leaves_king_safe(b, v)),
{
    lemma_king_part_safe(b);
    if !double_check(b) {
        lemma_knight_part_safe(b, only_captures);
        lemma_slider_part_safe(b, only_captures, true);
        lemma_slider_part_safe(b, only_captures, false);
    }
}

/// A square of the evasion mask never holds a piece of the side to move; in check, it
/// is the checking piece's square or an empty one.
pub(crate) proof fn lemma_mask_free_of_own(b: Board, only_captures: bool, t: int)
    requires
        b.wf(),
        generation_ready(b),
        b.derived_ok(),
        !double_check(b),
        0 <= t < 64,
        has_bit(evasion_mask(b, only_captures), t),
    ensures
        !has_bit(b.side_bits(b.side_to_move@), t),
        b.checkers@ != 0 ==> t == u64_trailing_zeros(b.checkers@) || !b.occupied(t),
{
    let stm = b.side_to_move@;
    let own = b.side_bits(stm);
    let opp = b.side_bits(1 - stm);
    assert(b.square_wf(t));
    lemma_bitwise(own, 0, t as u64);
    if b.checkers@ != 0 {
        lemma_capture_mask_within(b, only_captures, t);
        let k = b.king_square(stm);
        let occ = b.side_bits(0) | b.side_bits(1);
        let c = b.checkers@;
        lemma_clear_lowest(b.piece_bits(6) & own);
        lemma_clear_lowest(c);
        let checker = u64_trailing_zeros(c) as int;
        assert(b.checkers.contains(checker));
        assert(b.is_checker(checker));
        lemma_squares_mask(|jj: int| ray(k, checker, jj), 64, t);
        lemma_single_bit_update(ray_mask(k, checker), checker as u64, t as u64);
        if t != checker {
            assert(ray(k, checker, t));
            if has_bit(b.piece_bits(2), checker) && crate::geometry::knight_attack(k, checker) {
                lemma_knight_no_ray(k, checker, t);
            } else if (has_bit(b.piece_bits(1), checker) && crate::geometry::pawn_attack(stm, k, checker)) || (has_bit(
                b.piece_bits(6),
                checker,
            ) && crate::geometry::king_attack(k, checker)) {
                lemma_adjacent_ray(k, checker, t);
            } else if (has_bit(b.piece_bits(3), checker) || has_bit(b.piece_bits(5), checker))
                && crate::geometry::bishop_attack(k, occ, checker) {
                let (d3, f3) = choose|d3: int, f3: int| is_diagonal(d3, f3) && #[trigger] slides_to(k, d3, f3, occ, checker);
                lemma_slide_between(k, d3, f3, occ, checker, t);
                lemma_bitwise(b.side_bits(0), b.side_bits(1), t as u64);
            } else {
                assert((has_bit(b.piece_bits(4), checker) || has_bit(b.piece_bits(5), checker))
                    && crate::geometry::rook_attack(k, occ, checker));
                let (d3, f3) = choose|d3: int, f3: int| is_orthogonal(d3, f3) && #[trigger] slides_to(k, d3, f3, occ, checker);
                lemma_slide_between(k, d3, f3, occ, checker, t);
                lemma_bitwise(b.side_bits(0), b.side_bits(1), t as u64);
            }
        }
    } else if only_captures {
        assert(evasion_mask(b, only_captures) == opp);
    }
}

/// The square a pawn attacks is one a bishop on the pawn's square reaches, one step
/// along a diagonal.
proof fn lemma_pawn_attack_line(side: int, s: int, t: int, occ: u64)
    requires
        0 <= s < 64,
        0 <= t < 64,
        crate::geometry::pawn_attack(side, s, t),
    ensures
        crate::geometry::bishop_attack(s, occ, t),
{
    lemma_square_coords(s);
    lemma_square_coords(t);
    let dr = sign(rank_of(t) - rank_of(s));
    let df = sign(file_of(t) - file_of(s));
    assert(steps(s, dr, df, t) == 1);
    assert(slides_to(s, dr, df, occ, t));
}

/// The square in front of a pawn is one a rook on the pawn's square reaches, one step
/// along its file.
proof fn lemma_pawn_push_line(side: int, s: int, t: int, occ: u64)
    requires
        side == 0 || side == 1,
        0 <= s < 64,
        0 <= t < 64,
        has_bit(crate::movegen::pawn_push(side, s), t),
    ensures
        crate::geometry::rook_attack(s, occ, t),
        t == if side == 0 { s + 8 } else { s - 8 },
{
    crate::bitboard::lemma_pawn_step_bits(s as u64, t as u64);
    lemma_square_coords(s);
    lemma_square_coords(t);
    let dr = if side == 0 { 1int } else { -1int };
    assert(rank_of(t) == rank_of(s) + dr && file_of(t) == file_of(s));
    assert(steps(s, dr, 0, t) == 1);
    assert(slides_to(s, dr, 0, occ, t));
}

/// The double step of a pawn on its starting rank, past an empty square in front, is a
/// square a rook on the pawn's square reaches two steps along its file.
proof fn lemma_pawn_double_line(side: int, s: int, t: int, occ: u64)
    requires
        side == 0 || side == 1,
        0 <= s < 64,
        0 <= t < 64,
        has_bit(crate::movegen::double_push_rank(side), s),
        !has_bit(occ, ((s as usize) ^ 24usize) as int),
        has_bit(crate::movegen::pawn_push(side, ((s as usize) ^ 24usize) as int), t),
    ensures
        crate::geometry::rook_attack(s, occ, t),
{
    crate::bitboard::lemma_pawn_step_bits(s as u64, t as u64);
    let m = ((s as usize) ^ 24usize) as int;
    assert(m == if side == 0 { s + 8 } else { s - 8 });
    crate::bitboard::lemma_pawn_step_bits(m as u64, t as u64);
    lemma_square_coords(s);
    lemma_square_coords(t);
    lemma_square_coords(m);
    let dr = if side == 0 { 1int } else { -1int };
    assert(rank_of(t) == rank_of(s) + 2 * dr && file_of(t) == file_of(s));
    assert(steps(s, dr, 0, t) == 2);
    assert(point(s, dr, 0, 1) == m);
    assert(crate::geometry::path_clear(s, dr, 0, occ, 1));
    assert(crate::geometry::path_clear(s, dr, 0, occ, 2));
    assert(slides_to(s, dr, 0, occ, t));
}

/// The move of a pawn of the side to move from `s` to a square `t` of the evasion mask,
/// with flags other than en passant or castling, leaves the king safe when no line pins
/// the pawn, or when a line of the kind `orthogonal` pins it, `t` lies on a pin line of
/// that kind and the pawn reaches `t` along such a line.
proof fn lemma_pawn_step_safe(
    b: Board,
    only_captures: bool,
    s: int,
    t: int,
    flags: u16,
    pinned: bool,
    orthogonal: bool,
)
    requires
        b.wf(),
        generation_ready(b),
        b.derived_ok(),
        !double_check(b),
        0 <= s < 64,
        0 <= t < 64,
        has_bit(b.side_bits(b.side_to_move@), s),
        has_bit(b.piece_bits(1), s),
        flags & 0x0FFFu16 == 0,
        flags != 0x5000u16,
        flags != 0x2000u16,
        flags != 0x3000u16,
        has_bit(evasion_mask(b, only_captures), t),
        pinned ==> (if orthogonal { b.ortographic_pins } else { b.diagonal_pins }).contains(s),
        pinned ==> (if orthogonal { b.ortographic_pins } else { b.diagonal_pins }).contains(t),
        pinned ==> crate::geometry::slider_attack(!orthogonal, s, b.side_bits(0) | b.side_bits(1), t),
        !pinned ==> !b.ortographic_pins.contains(s) && !b.diagonal_pins.contains(s),
    ensures
        leaves_king_safe(b, move_value(s, t, flags)),
{
    assert(b.square_wf(s));
    lemma_mask_free_of_own(b, only_captures, t);
    if pinned {
        lemma_pinned_step_safe(b, only_captures, orthogonal, s, t, flags);
    } else {
        lemma_unpinned_step_safe(b, only_captures, s, t, flags);
    }
}

/// The pawn moves of one family (steps or captures, plain or promotions) leave the king
/// safe when its pawns are of the side to move and either no line pins them, or a line
/// of the kind they move along (diagonals for captures) pins them and the targets keep
/// to pin lines of that kind; the targets being squares of the evasion mask.
proof fn lemma_pawn_family_safe(
    b: Board,
    only_captures: bool,
    sources: u64,
    capture: bool,
    restrict: u64,
    flags: u16,
    promote: bool,
    pinned: bool,
)
    requires
        b.wf(),
        generation_ready(b),
        b.derived_ok(),
        !double_check(b),
        flags == 0u16 || flags == 0x4000u16,
        forall|s: int|
            0 <= s < 64 && #[trigger] has_bit(sources, s) ==> has_bit(b.side_bits(b.side_to_move@), s) && has_bit(
                b.piece_bits(1),
                s,
            ) && (pinned ==> (if capture { b.diagonal_pins } else { b.ortographic_pins }).contains(s)) && (!pinned
                ==> !b.ortographic_pins.contains(s) && !b.diagonal_pins.contains(s)),
        forall|t: int|
            0 <= t < 64 && #[trigger] has_bit(restrict, t) ==> has_bit(evasion_mask(b, only_captures), t) && (pinned
                ==> (if capture { b.diagonal_pins } else { b.ortographic_pins }).contains(t)),
    ensures
        all_moves(pawn_family(b, sources, capture, restrict, flags, promote), |v: u16| leaves_king_safe(b, v)),
{
    let stm = b.side_to_move@;
    let occ = b.side_bits(0) | b.side_bits(1);
    let safe = |v: u16| leaves_king_safe(b, v);
    let g = pawn_square_moves(b, capture, restrict, flags, promote);
    lemma_flag_words();
    assert forall|s: int| 0 <= s < 64 && #[trigger] bits_of(sources)(s) implies all_moves(g(s), safe) by {
        let targets = |t: int| pawn_reach(b, capture, s, t) && has_bit(restrict, t);
        let h = if promote { promotions(s, flags) } else { one_move(s, flags) };
        assert forall|t: int| 0 <= t < 64 && #[trigger] targets(t) implies all_moves(h(t), safe) by {
            if pinned {
                if capture {
                    lemma_pawn_attack_line(stm, s, t, occ);
                } else {
                    lemma_pawn_push_line(stm, s, t, occ);
                }
            }
            lemma_move_value_fields(s as u16, t as u16, flags);
            if promote {
                lemma_pawn_step_safe(b, only_captures, s, t, 0x8000u16 | flags, pinned, !capture);
                lemma_pawn_step_safe(b, only_captures, s, t, 0x9000u16 | flags, pinned, !capture);
                lemma_pawn_step_safe(b, only_captures, s, t, 0xA000u16 | flags, pinned, !capture);
                lemma_pawn_step_safe(b, only_captures, s, t, 0xB000u16 | flags, pinned, !capture);
                assert(h(t) == promotions(s, flags)(t));
            } else {
                lemma_pawn_step_safe(b, only_captures, s, t, flags, pinned, !capture);
                assert(h(t) == one_move(s, flags)(t));
            }
        }
        lemma_moves_over_all(targets, h, safe);
    }
    lemma_moves_over_all(bits_of(sources), g, safe);
}

/// The single and double steps of pawns on their starting rank leave the king safe,
/// under the same conditions as for a family of pawn moves.
proof fn lemma_double_steps_safe(b: Board, only_captures: bool, sources: u64, restrict: u64, pinned: bool)
    requires
        b.wf(),
        generation_ready(b),
        b.derived_ok(),
        !double_check(b),
        forall|s: int|
            0 <= s < 64 && #[trigger] has_bit(sources, s) ==> has_bit(b.side_bits(b.side_to_move@), s) && has_bit(
                b.piece_bits(1),
                s,
            ) && has_bit(double_push_rank(b.side_to_move@), s) && (pinned ==> b.ortographic_pins.contains(s)) && (
            !pinned ==> !b.ortographic_pins.contains(s) && !b.diagonal_pins.contains(s)),
        forall|t: int|
            0 <= t < 64 && #[trigger] has_bit(restrict, t) ==> has_bit(evasion_mask(b, only_captures), t) && (pinned
                ==> b.ortographic_pins.contains(t)),
    ensures
        all_moves(moves_over(bits_of(sources), double_step(b, restrict)), |v: u16| leaves_king_safe(b, v)),
{
    let stm = b.side_to_move@;
    let opp = b.side_bits(1 - stm);
    let occ = b.side_bits(0) | b.side_bits(1);
    let safe = |v: u16| leaves_king_safe(b, v);
    let g = double_step(b, restrict);
    lemma_flag_words();
    assert forall|s: int| 0 <= s < 64 && #[trigger] bits_of(sources)(s) implies all_moves(g(s), safe) by {
        let m = (s as usize ^ 24usize) as int;
        crate::bitboard::lemma_pawn_step_bits(s as u64, 0);
        assert(0 <= m < 64);
        if !b.occupied(m) {
            lemma_bitwise(b.side_bits(0), b.side_bits(1), m as u64);
            let t1 = |t: int| has_bit(pawn_push(stm, s), t) && !has_bit(opp, t) && has_bit(restrict, t);
            let t2 = |t: int| has_bit(pawn_push(stm, m), t) && !has_bit(opp, t) && has_bit(restrict, t);
            assert forall|t: int| 0 <= t < 64 && #[trigger] t1(t) implies all_moves(one_move(s, 0)(t), safe) by {
                if pinned {
                    lemma_pawn_push_line(stm, s, t, occ);
                }
                lemma_move_value_fields(s as u16, t as u16, 0u16);
                lemma_pawn_step_safe(b, only_captures, s, t, 0u16, pinned, true);
                assert(one_move(s, 0)(t)[0] == move_value(s, t, 0u16));
            }
            assert forall|t: int| 0 <= t < 64 && #[trigger] t2(t) implies all_moves(one_move(s, 0x1000)(t), safe) by {
                if pinned {
                    lemma_pawn_double_line(stm, s, t, occ);
                }
                lemma_move_value_fields(s as u16, t as u16, 0x1000u16);
                lemma_pawn_step_safe(b, only_captures, s, t, 0x1000u16, pinned, true);
                assert(one_move(s, 0x1000)(t)[0] == move_value(s, t, 0x1000u16));
            }
            lemma_moves_over_all(t1, one_move(s, 0), safe);
            lemma_moves_over_all(t2, one_move(s, 0x1000), safe);
            lemma_all_concat(moves_over(t1, one_move(s, 0)), moves_over(t2, one_move(s, 0x1000)), safe);
        }
    }
    lemma_moves_over_all(bits_of(sources), g, safe);
}

/// The pawn steps the generator lists leave the king safe.
#[verifier::spinoff_prover]
#[verifier::rlimit(30)]
proof fn lemma_pawn_quiet_safe(b: Board, only_captures: bool)
    requires
        b.wf(),
        generation_ready(b),
        b.derived_ok(),
        !double_check(b),
    ensures
        all_moves(pawn_quiet_moves(b, evasion_mask(b, only_captures)), |v: u16| leaves_king_safe(b, v)),
{
    let stm = b.side_to_move@;
    let mask = evasion_mask(b, only_captures);
    let safe = |v: u16| leaves_king_safe(b, v);
    let pawns = pawn_set(b);
    let promo = promotion_rank(stm);
    let movable = movable_pawns(b);
    let pinned = movable_pinned_pawns(b);
    let double = double_pushable_pawns(b);
    let orth = b.ortographic_pins@;
    let diag = b.diagonal_pins@;
    let s1 = ((movable & !double) & !pinned) & !promo;
    let s2 = (pinned & !double) & !promo;
    let s3 = (movable & !pinned) & promo;
    let s4 = double & !pinned;
    let s5 = double & pinned;
    assert forall|s: int|
        #![trigger has_bit(movable, s)]
        #![trigger has_bit(s1, s)]
        #![trigger has_bit(s2, s)]
        #![trigger has_bit(s3, s)]
        #![trigger has_bit(s4, s)]
        #![trigger has_bit(s5, s)]
        0 <= s < 64 implies {
        &&& has_bit(movable, s) == (has_bit(b.side_bits(stm), s) && has_bit(b.piece_bits(1), s)
            && !has_bit(diag, s))
        &&& has_bit(pinned, s) == (has_bit(movable, s) && has_bit(orth, s))
        &&& has_bit(double, s) == (has_bit(movable, s) && has_bit(double_push_rank(stm), s))
        &&& has_bit(s1, s) == (has_bit(movable, s) && !has_bit(double, s) && !has_bit(pinned, s) && !has_bit(promo, s))
        &&& has_bit(s2, s) == (has_bit(pinned, s) && !has_bit(double, s) && !has_bit(promo, s))
        &&& has_bit(s3, s) == (has_bit(movable, s) && !has_bit(pinned, s) && has_bit(promo, s))
        &&& has_bit(s4, s) == (has_bit(double, s) && !has_bit(pinned, s))
        &&& has_bit(s5, s) == (has_bit(double, s) && has_bit(pinned, s))
    } by {
        let j = s as u64;
        lemma_bitwise(b.piece_bits(1), b.side_bits(stm), j);
        lemma_bitwise(pawns, !diag, j);
        lemma_bitwise(diag, 0, j);
        lemma_bitwise(movable, orth, j);
        lemma_bitwise(movable, double_push_rank(stm), j);
        lemma_bitwise(movable, !double, j);
        lemma_bitwise(double, 0, j);
        lemma_bitwise(movable & !double, !pinned, j);
        lemma_bitwise(pinned, 0, j);
        lemma_bitwise((movable & !double) & !pinned, !promo, j);
        lemma_bitwise(promo, 0, j);
        lemma_bitwise(pinned, !double, j);
        lemma_bitwise(pinned & !double, !promo, j);
        lemma_bitwise(movable, !pinned, j);
        lemma_bitwise(movable & !pinned, promo, j);
        lemma_bitwise(double, !pinned, j);
        lemma_bitwise(double, pinned, j);
    }
    assert forall|t: int| 0 <= t < 64 && #[trigger] has_bit(mask & orth, t) implies has_bit(mask, t) && has_bit(orth, t) by {
        lemma_bitwise(mask, orth, t as u64);
    }
    lemma_pawn_family_safe(b, only_captures, s1, false, mask, 0, false, false);
    lemma_pawn_family_safe(b, only_captures, s2, false, mask & orth, 0, false, true);
    lemma_pawn_family_safe(b, only_captures, s3, false, mask, 0, true, false);
    lemma_double_steps_safe(b, only_captures, s4, mask, false);
    lemma_double_steps_safe(b, only_captures, s5, mask & orth, true);
    let f1 = pawn_family(b, s1, false, mask, 0, false);
    let f2 = pawn_family(b, s2, false, mask & orth, 0, false);
    let f3 = pawn_family(b, s3, false, mask, 0, true);
    let f4 = moves_over(bits_of(s4), double_step(b, mask));
    let f5 = moves_over(bits_of(s5), double_step(b, mask & orth));
    lemma_all_concat(f1, f2, safe);
    lemma_all_concat(f1 + f2, f3, safe);
    lemma_all_concat(f1 + f2 + f3, f4, safe);
    lemma_all_concat(f1 + f2 + f3 + f4, f5, safe);
}

/// What an en passant capture by the pawn on `s` changes: the king of the side to move
/// stays; the other side keeps its pieces but the taken one, each of its kind; and the
/// occupied squares are those before, without the taken pawn and the capturing pawn's
/// square, with the en passant square.
#[verifier::spinoff_prover]
#[verifier::rlimit(30)]
pub(crate) proof fn lemma_en_passant_after(b: Board, s: int, next: Board)
    requires
        b.wf(),
        generation_ready(b),
        b.en_passant@ < 64,
        !b.occupied(b.en_passant@),
        0 <= s < 64,
        has_bit(b.side_bits(b.side_to_move@), s),
        has_bit(b.piece_bits(1), s),
        b.occupied(((b.en_passant@ as usize) ^ 8usize) as int),
        !has_bit(b.side_bits(b.side_to_move@), ((b.en_passant@ as usize) ^ 8usize) as int),
        b.moves_to(Move { value: move_value(s, b.en_passant@, 0x5000u16) }, next),
    ensures
        ({
            let stm = b.side_to_move@;
            let ep = b.en_passant@;
            let target = ((ep as usize) ^ 8usize) as int;
            &&& 0 <= target < 64
            &&& has_bit(next.piece_bits(6) & next.side_bits(stm), b.king_square(stm))
            &&& forall|a: int|
                0 <= a < 64 && #[trigger] has_bit(next.side_bits(1 - stm), a) ==> a != target && a != s && a != ep
                    && has_bit(b.side_bits(1 - stm), a)
            &&& forall|p: int, a: int|
                1 <= p <= 6 && 0 <= a < 64 && a != target && a != s && a != ep ==> #[trigger] has_bit(
                    next.piece_bits(p),
                    a,
                ) == has_bit(b.piece_bits(p), a)
            &&& next.side_bits(0) | next.side_bits(1) == (((b.side_bits(0) | b.side_bits(1)) & !single_bit(target))
                & !single_bit(s)) | single_bit(ep)
            &&& next.side_bits(1 - stm) == b.side_bits(1 - stm) & !single_bit(target)
        }),
{
    let stm = b.side_to_move@;
    let opp = 1 - stm;
    let own = b.side_bits(stm);
    let ep = b.en_passant@;
    let target = ((ep as usize) ^ 8usize) as int;
    let k = b.king_square(stm);
    let mv = Move { value: move_value(s, ep, 0x5000u16) };
    b.en_passant.lemma_index_nonnegative();
    crate::bitboard::lemma_pawn_step_bits(ep as u64, 0);
    lemma_flag_words();
    lemma_move_value_fields(s as u16, ep as u16, 0x5000u16);
    assert(mv.from_of() == s && mv.to_of() == ep && mv.flags_of() == 0x5000u16);
    assert(crate::board::captured_square(mv) == target);
    lemma_clear_lowest(b.piece_bits(6) & own);
    lemma_bitwise(b.piece_bits(6), own, k as u64);
    assert(b.square_wf(s));
    assert(b.square_wf(k));
    assert(b.square_wf(target));
    assert(b.square_wf(ep));
    lemma_bitwise(b.side_bits(0), b.side_bits(1), s as u64);
    lemma_bitwise(b.side_bits(0), b.side_bits(1), k as u64);
    lemma_bitwise(b.side_bits(0), b.side_bits(1), target as u64);
    lemma_bitwise(b.side_bits(0), b.side_bits(1), ep as u64);
    assert(b.mover_kind(mv) == 1);
    assert(b.mover_color(mv) == stm);
    assert(b.arrival_kind(mv) == 1);
    assert(b.piece_at(target) != 0);
    assert(b.color_at(target) == opp);
    assert(!crate::board::is_castle(mv));
    assert(k != s && k != target && k != ep);
    assert forall|p: int, a: int| 1 <= p <= 6 && 0 <= a < 64 && a != target && a != s && a != ep implies #[trigger] has_bit(
        next.piece_bits(p),
        a,
    ) == has_bit(b.piece_bits(p), a) by {
        assert(next.piece_bits(p) == b.moved_piece_bits(mv, p));
        let x0 = b.piece_bits(p);
        lemma_single_bit_update(x0, s as u64, a as u64);
        lemma_single_bit_update(x0 & !single_bit(s), target as u64, a as u64);
        lemma_single_bit_update(x0, target as u64, a as u64);
        lemma_single_bit_update((x0 & !single_bit(s)) & !single_bit(target), ep as u64, a as u64);
        lemma_single_bit_update(x0 & !single_bit(s), ep as u64, a as u64);
        lemma_single_bit_update(x0 & !single_bit(target), ep as u64, a as u64);
        lemma_single_bit_update(x0, ep as u64, a as u64);
    }
    assert(next.side_bits(opp) == b.side_bits(opp) & !single_bit(target));
    assert(next.side_bits(stm) == (own & !single_bit(s)) | single_bit(ep));
    assert forall|a: int| 0 <= a < 64 && #[trigger] has_bit(next.side_bits(opp), a) implies a != target && a != s && a
        != ep && has_bit(b.side_bits(opp), a) by {
        lemma_single_bit_update(b.side_bits(opp), target as u64, a as u64);
        assert(b.square_wf(a));
    }
    assert(has_bit(next.piece_bits(6), k));
    assert(has_bit(next.side_bits(stm), k)) by {
        lemma_single_bit_update(own, s as u64, k as u64);
        lemma_single_bit_update(own & !single_bit(s), ep as u64, k as u64);
    }
    lemma_bitwise(next.piece_bits(6), next.side_bits(stm), k as u64);
    let occ = b.side_bits(0) | b.side_bits(1);
    let occ_next = next.side_bits(0) | next.side_bits(1);
    let occ_ep = ((occ & !single_bit(target)) & !single_bit(s)) | single_bit(ep);
    assert forall|j: int| 0 <= j < 64 implies has_bit(occ_next, j) == has_bit(occ_ep, j) by {
        let jj = j as u64;
        assert(b.square_wf(j));
        lemma_bitwise(next.side_bits(0), next.side_bits(1), jj);
        lemma_bitwise(b.side_bits(0), b.side_bits(1), jj);
        lemma_single_bit_update(b.side_bits(opp), target as u64, jj);
        lemma_single_bit_update(own, s as u64, jj);
        lemma_single_bit_update(own & !single_bit(s), ep as u64, jj);
        lemma_single_bit_update(occ, target as u64, jj);
        lemma_single_bit_update(occ & !single_bit(target), s as u64, jj);
        lemma_single_bit_update((occ & !single_bit(target)) & !single_bit(s), ep as u64, jj);
    }
    crate::bitboard::lemma_bits_ext(occ_next, occ_ep);
}

/// Whether a slider on `k` moving along the rank, file or diagonal direction `(d, f)`
/// reaches the square `a` past the blockers `occ`, both squares on the board.
spec fn opens_toward(k: int, d: int, f: int, occ: u64, a: int) -> bool {
    &&& 0 <= k < 64
    &&& 0 <= a < 64
    &&& is_diagonal(d, f) || is_orthogonal(d, f)
    &&& slides_to(k, d, f, occ, a)
}

/// When a line from the king to a slider of the other side runs through the square of
/// the pawn taken en passant and is clear once both pawns have moved, the generator's
/// test refuses the capture.
proof fn lemma_en_passant_line_through_target(b: Board, s: int, mask: u64, a: int, d: int, f: int, m2: int)
    requires
        b.side_to_move.valid(),
        b.en_passant@ < 64,
        has_bit(b.side_bits(1 - b.side_to_move@), a),
        ({
            let occ_ep = (((b.side_bits(0) | b.side_bits(1)) & !single_bit(((b.en_passant@ as usize) ^ 8usize) as int))
                & !single_bit(s)) | single_bit(b.en_passant@);
            opens_toward(b.king_square(b.side_to_move@), d, f, occ_ep, a)
        }),
        is_diagonal(d, f) ==> has_bit(b.piece_bits(3), a) || has_bit(b.piece_bits(5), a),
        is_orthogonal(d, f) ==> has_bit(b.piece_bits(4), a) || has_bit(b.piece_bits(5), a),
        1 <= m2 < steps(b.king_square(b.side_to_move@), d, f, a),
        point(b.king_square(b.side_to_move@), d, f, m2) == ((b.en_passant@ as usize) ^ 8usize) as int,
    ensures
        !en_passant_ok(b, s, mask),
{
    let stm = b.side_to_move@;
    let opps = b.side_bits(1 - stm);
    let k = b.king_square(stm);
    let ep = b.en_passant@;
    let target = ((ep as usize) ^ 8usize) as int;
    let occ_ep = (((b.side_bits(0) | b.side_bits(1)) & !single_bit(target)) & !single_bit(s)) | single_bit(ep);
    let na = steps(k, d, f, a);
    lemma_square_coords(k);
    lemma_square_coords(a);
    lemma_point_of_steps(k, d, f, a);
    lemma_point_between(k, d, f, a, m2);
    crate::geometry::lemma_path_clear_prefix(k, d, f, occ_ep, na, m2);
    assert(slides_to(k, d, f, occ_ep, target));
    let bq = (b.piece_bits(3) & opps) | (b.piece_bits(5) & opps);
    let rq = (b.piece_bits(4) & opps) | (b.piece_bits(5) & opps);
    if is_diagonal(d, f) {
        lemma_bitwise(b.piece_bits(3) & opps, b.piece_bits(5) & opps, a as u64);
        lemma_bitwise(b.piece_bits(3), opps, a as u64);
        lemma_bitwise(b.piece_bits(5), opps, a as u64);
        assert(crate::geometry::bishop_attack(k, occ_ep, target));
        assert(crate::geometry::bishop_attack(k, occ_ep, a) && has_bit(bq, a));
    } else {
        lemma_bitwise(b.piece_bits(4) & opps, b.piece_bits(5) & opps, a as u64);
        lemma_bitwise(b.piece_bits(4), opps, a as u64);
        lemma_bitwise(b.piece_bits(5), opps, a as u64);
        assert(crate::geometry::rook_attack(k, occ_ep, target));
        assert(crate::geometry::rook_attack(k, occ_ep, a) && has_bit(rq, a));
    }
}

/// When a line from the king to a slider of the other side is clear once both pawns
/// have moved, was not before, and does not run through the taken pawn's square, the
/// capturing pawn alone stood on it: the slider pins that pawn along the line.
#[verifier::spinoff_prover]
#[verifier::rlimit(30)]
proof fn lemma_en_passant_line_through_pawn(b: Board, s: int, a: int, d: int, f: int)
    requires
        b.wf(),
        generation_ready(b),
        b.en_passant@ < 64,
        0 <= s < 64,
        has_bit(b.side_bits(b.side_to_move@), s),
        has_bit(b.side_bits(1 - b.side_to_move@), a),
        ({
            let occ_ep = (((b.side_bits(0) | b.side_bits(1)) & !single_bit(((b.en_passant@ as usize) ^ 8usize) as int))
                & !single_bit(s)) | single_bit(b.en_passant@);
            opens_toward(b.king_square(b.side_to_move@), d, f, occ_ep, a)
        }),
        !slides_to(b.king_square(b.side_to_move@), d, f, b.side_bits(0) | b.side_bits(1), a),
        forall|m2: int|
            1 <= m2 < steps(b.king_square(b.side_to_move@), d, f, a) ==> #[trigger] point(
                b.king_square(b.side_to_move@),
                d,
                f,
                m2,
            ) != ((b.en_passant@ as usize) ^ 8usize) as int,
        is_diagonal(d, f) ==> has_bit(b.piece_bits(3), a) || has_bit(b.piece_bits(5), a),
        is_orthogonal(d, f) ==> has_bit(b.piece_bits(4), a) || has_bit(b.piece_bits(5), a),
    ensures
        b.pin_line(is_orthogonal(d, f), a, s),
        ray(b.king_square(b.side_to_move@), a, s),
{
    let stm = b.side_to_move@;
    let own = b.side_bits(stm);
    let opps = b.side_bits(1 - stm);
    let k = b.king_square(stm);
    let ep = b.en_passant@;
    let target = ((ep as usize) ^ 8usize) as int;
    let occ = b.side_bits(0) | b.side_bits(1);
    let occ_ep = ((occ & !single_bit(target)) & !single_bit(s)) | single_bit(ep);
    let na = steps(k, d, f, a);
    b.en_passant.lemma_index_nonnegative();
    crate::bitboard::lemma_pawn_step_bits(ep as u64, 0);
    lemma_square_coords(k);
    lemma_square_coords(a);
    lemma_slide_direction(k, d, f, a);
    lemma_point_of_steps(k, d, f, a);
    // Every blocker on the way before was the capturing pawn.
    lemma_path_blocker(k, d, f, occ, na);
    let m = choose|m: int| 1 <= m < na && #[trigger] has_bit(occ, point(k, d, f, m));
    assert forall|m3: int| 1 <= m3 < na && #[trigger] has_bit(occ, point(k, d, f, m3)) implies point(k, d, f, m3) == s by {
        lemma_point_between(k, d, f, a, m3);
        crate::geometry::lemma_path_clear_prefix(k, d, f, occ_ep, na, m3 + 1);
        let x = point(k, d, f, m3);
        lemma_single_bit_update(occ, target as u64, x as u64);
        lemma_single_bit_update(occ & !single_bit(target), s as u64, x as u64);
        lemma_single_bit_update((occ & !single_bit(target)) & !single_bit(s), ep as u64, x as u64);
    }
    lemma_point_between(k, d, f, a, m);
    assert(point(k, d, f, m) == s);
    assert forall|m3: int| 1 <= m3 < na implies !#[trigger] has_bit(opps, point(k, d, f, m3)) by {
        lemma_point_between(k, d, f, a, m3);
        lemma_bitwise(b.side_bits(0), b.side_bits(1), point(k, d, f, m3) as u64);
        lemma_bitwise(b.side_bits(0), b.side_bits(1), s as u64);
        assert(b.square_wf(s));
        if has_bit(opps, point(k, d, f, m3)) {
            assert(has_bit(occ, point(k, d, f, m3)));
        }
    }
    lemma_path_free(k, d, f, opps, na);
    assert(slides_to(k, d, f, opps, a));
    let orthogonal = is_orthogonal(d, f);
    let sliders = b.piece_bits(if orthogonal { 4 } else { 3 });
    assert(crate::board::potential_pinner_at(orthogonal, k, opps, sliders, b.piece_bits(5), a));
    assert(ray(k, a, s));
    assert forall|j: int| 0 <= j < 64 && ray(k, a, j) && has_bit(own, j) implies j == s by {
        lemma_square_coords(j);
        lemma_slide_direction(k, d, f, j);
        lemma_point_of_steps(k, d, f, j);
        lemma_bitwise(b.side_bits(0), b.side_bits(1), j as u64);
        assert(b.square_wf(a));
        if j != a {
            if steps(k, d, f, j) == na {
                lemma_same_steps(k, d, f, j, a);
            }
            assert(has_bit(occ, point(k, d, f, steps(k, d, f, j))));
        }
    }
    assert(crate::board::one_allied_on_ray_at(k, own, a));
}

/// A piece that gives check when an en passant capture the generator lists is played is
/// the taken pawn.
proof fn lemma_en_passant_checker(b: Board, only_captures: bool, s: int, a: int)
    requires
        b.wf(),
        generation_ready(b),
        b.derived_ok(),
        crate::capture_generation::en_passant_backed(b),
        b.en_passant@ < 64,
        !double_check(b),
        0 <= a < 64,
        b.is_checker(a),
        en_passant_ok(b, s, evasion_mask(b, only_captures)),
    ensures
        a == ((b.en_passant@ as usize) ^ 8usize) as int,
{
    let ep = b.en_passant@;
    let target = ((ep as usize) ^ 8usize) as int;
    let c = b.checkers@;
    b.en_passant.lemma_index_nonnegative();
    crate::bitboard::lemma_pawn_step_bits(ep as u64, 0);
    lemma_zero_bits();
    assert(b.checkers.contains(a));
    lemma_clear_lowest(c);
    lemma_one_bit(c);
    let i = choose|i: int| 0 <= i < 64 && #[trigger] has_bit(c, i) && forall|jj: int| 0 <= jj < 64 && has_bit(c, jj) ==> jj == i;
    assert(a == i && u64_trailing_zeros(c) == i);
    lemma_mask_free_of_own(b, only_captures, target);
}

/// An en passant capture the generator lists leaves the king safe: the pawn on `s`
/// takes en passant, no rank or file pins it, a diagonal pins it only when `pinned` and
/// then the en passant square lies on a pin line too, and the capture passes the
/// generator's test. Once both pawns have left their squares, a line to the king that
/// opens runs through the taken pawn's square, which the test looks along, or through the
/// capturing pawn's square alone, which would pin it; and the capture keeps a pinned pawn
/// on its pin line.
#[verifier::spinoff_prover]
#[verifier::rlimit(40)]
proof fn lemma_en_passant_step_safe(b: Board, only_captures: bool, s: int, pinned: bool)
    requires
        b.wf(),
        generation_ready(b),
        b.derived_ok(),
        crate::capture_generation::en_passant_backed(b),
        b.en_passant@ < 64,
        !b.occupied(b.en_passant@),
        !double_check(b),
        0 <= s < 64,
        has_bit(b.side_bits(b.side_to_move@), s),
        has_bit(b.piece_bits(1), s),
        !b.ortographic_pins.contains(s),
        pinned ==> b.diagonal_pins.contains(s) && b.diagonal_pins.contains(b.en_passant@),
        !pinned ==> !b.diagonal_pins.contains(s),
        crate::geometry::pawn_attack(b.side_to_move@, s, b.en_passant@),
        en_passant_ok(b, s, evasion_mask(b, only_captures)),
    ensures
        leaves_king_safe(b, move_value(s, b.en_passant@, 0x5000u16)),
{
    let stm = b.side_to_move@;
    let opp = 1 - stm;
    let own = b.side_bits(stm);
    let opps = b.side_bits(opp);
    let ep = b.en_passant@;
    let target = ((ep as usize) ^ 8usize) as int;
    let k = b.king_square(stm);
    let occ = b.side_bits(0) | b.side_bits(1);
    let occ_ep = ((occ & !single_bit(target)) & !single_bit(s)) | single_bit(ep);
    let mask = evasion_mask(b, only_captures);
    let mv = Move { value: move_value(s, ep, 0x5000u16) };
    b.en_passant.lemma_index_nonnegative();
    crate::bitboard::lemma_pawn_step_bits(ep as u64, 0);
    lemma_flag_words();
    lemma_move_value_fields(s as u16, ep as u16, 0x5000u16);
    assert(mv.from_of() == s);
    assert(b.square_wf(s));
    assert(has_bit(mask, target));
    lemma_mask_free_of_own(b, only_captures, target);
    lemma_clear_lowest(b.piece_bits(6) & own);
    lemma_bitwise(b.piece_bits(6), own, k as u64);
    lemma_bitwise(b.side_bits(0), b.side_bits(1), k as u64);
    lemma_square_coords(k);
    assert forall|next: Board| #[trigger] b.moves_to(mv, next) implies has_bit(
        next.piece_bits(6) & next.side_bits(stm),
        king_square_after(b, mv.value),
    ) && !next.square_attacked(king_square_after(b, mv.value), opp, next.side_bits(0) | next.side_bits(1)) by {
        lemma_en_passant_after(b, s, next);
        let occ_next = next.side_bits(0) | next.side_bits(1);
        if next.square_attacked(k, opp, occ_next) {
            let a = choose|a: int| 0 <= a < 64 && #[trigger] next.attacks_square_from(a, k, opp, occ_next);
            assert(has_bit(next.side_bits(opp), a));
            assert(a != target && a != s && a != ep && has_bit(opps, a));
            assert(forall|p: int| 1 <= p <= 6 ==> #[trigger] has_bit(next.piece_bits(p), a) == has_bit(b.piece_bits(p), a));
            if b.is_checker(a) {
                lemma_en_passant_checker(b, only_captures, s, a);
            }
            let diagonal = (has_bit(b.piece_bits(3), a) || has_bit(b.piece_bits(5), a)) && crate::geometry::bishop_attack(
                k,
                occ_next,
                a,
            );
            let (d, f) = if diagonal {
                choose|d: int, f: int| is_diagonal(d, f) && #[trigger] slides_to(k, d, f, occ_next, a)
            } else {
                choose|d: int, f: int| is_orthogonal(d, f) && #[trigger] slides_to(k, d, f, occ_next, a)
            };
            assert(opens_toward(k, d, f, occ_ep, a));
            assert(!slides_to(k, d, f, occ, a));
            let na = steps(k, d, f, a);
            if exists|m2: int| 1 <= m2 < na && #[trigger] point(k, d, f, m2) == target {
                let m2 = choose|m2: int| 1 <= m2 < na && #[trigger] point(k, d, f, m2) == target;
                lemma_en_passant_line_through_target(b, s, mask, a, d, f, m2);
            } else {
                lemma_en_passant_line_through_pawn(b, s, a, d, f);
                assert(b.is_pinned_square(!diagonal, s));
                if diagonal {
                    // The capture keeps the pawn on its pin line, which stays blocked.
                    let p2 = choose|p: int|
                        0 <= p < 64 && #[trigger] crate::board::pin_line_at(false, k, own, opps, b.piece_bits(3), b.piece_bits(5), p, ep);
                    let (d4, f4) = choose|d4: int, f4: int| is_diagonal(d4, f4) && #[trigger] slides_to(k, d4, f4, opps, p2);
                    lemma_slide_direction(k, d4, f4, p2);
                    lemma_pawn_attack_line(stm, s, ep, occ);
                    let (er, ef) = choose|er: int, ef: int| is_diagonal(er, ef) && #[trigger] slides_to(s, er, ef, occ, ep);
                    lemma_bitwise(b.side_bits(0), b.side_bits(1), a as u64);
                    lemma_square_coords(a);
                    lemma_slide_direction(k, d, f, a);
                    lemma_pinned_slide_stays(k, a, s, ep, occ, p2, d, f, er, ef);
                    lemma_square_coords(ep);
                    lemma_slide_direction(k, d, f, ep);
                    lemma_point_of_steps(k, d, f, ep);
                    lemma_point_of_steps(k, d, f, a);
                    if steps(k, d, f, ep) == na {
                        lemma_same_steps(k, d, f, ep, a);
                    }
                    lemma_single_bit_update((occ & !single_bit(target)) & !single_bit(s), ep as u64, ep as u64);
                    lemma_path_blocked(k, d, f, occ_ep, steps(k, d, f, ep), na);
                }
            }
        }
    }
}

/// Whether the en passant square, when there is one, is empty.
pub open spec fn en_passant_square_empty(b: Board) -> bool {
    b.en_passant@ < 64 ==> !b.occupied(b.en_passant@)
}

/// The en passant captures of the pawns of `sources` leave the king safe, under the
/// conditions of `lemma_en_passant_step_safe` for each pawn.
proof fn lemma_en_passant_part_safe(b: Board, only_captures: bool, sources: u64, restrict: u64, pinned: bool)
    requires
        b.wf(),
        generation_ready(b),
        b.derived_ok(),
        crate::capture_generation::en_passant_backed(b),
        en_passant_square_empty(b),
        b.en_passant@ < 64,
        !double_check(b),
        forall|s: int|
            0 <= s < 64 && #[trigger] has_bit(sources, s) ==> has_bit(b.side_bits(b.side_to_move@), s) && has_bit(
                b.piece_bits(1),
                s,
            ) && !b.ortographic_pins.contains(s) && (pinned ==> b.diagonal_pins.contains(s)) && (!pinned
                ==> !b.diagonal_pins.contains(s)),
        forall|t: int|
            0 <= t < 64 && #[trigger] has_bit(restrict, t) ==> t == b.en_passant@ && (pinned
                ==> b.diagonal_pins.contains(t)),
    ensures
        all_moves(
            moves_over(bits_of(sources), en_passant_step(b, evasion_mask(b, only_captures), restrict)),
            |v: u16| leaves_king_safe(b, v),
        ),
{
    let stm = b.side_to_move@;
    let mask = evasion_mask(b, only_captures);
    let safe = |v: u16| leaves_king_safe(b, v);
    let g = en_passant_step(b, mask, restrict);
    assert forall|s: int| 0 <= s < 64 && #[trigger] bits_of(sources)(s) implies all_moves(g(s), safe) by {
        if en_passant_ok(b, s, mask) {
            let targets = |t: int| crate::geometry::pawn_attack(stm, s, t) && has_bit(restrict, t);
            assert forall|t: int| 0 <= t < 64 && #[trigger] targets(t) implies all_moves(one_move(s, 0x5000)(t), safe) by {
                lemma_en_passant_step_safe(b, only_captures, s, pinned);
                assert(one_move(s, 0x5000)(t)[0] == move_value(s, t, 0x5000u16));
            }
            lemma_moves_over_all(targets, one_move(s, 0x5000), safe);
        }
    }
    lemma_moves_over_all(bits_of(sources), g, safe);
}

/// The pawn captures the generator lists, en passant included, leave the king safe.
#[verifier::spinoff_prover]
#[verifier::rlimit(30)]
proof fn lemma_pawn_capture_safe(b: Board, only_captures: bool)
    requires
        b.wf(),
        generation_ready(b),
        b.derived_ok(),
        crate::capture_generation::en_passant_backed(b),
        en_passant_square_empty(b),
        !double_check(b),
    ensures
        all_moves(pawn_capture_moves(b, evasion_mask(b, only_captures)), |v: u16| leaves_king_safe(b, v)),
{
    let stm = b.side_to_move@;
    let mask = evasion_mask(b, only_captures);
    let safe = |v: u16| leaves_king_safe(b, v);
    let promo = promotion_rank(stm);
    let agressive = agressive_pawns(b);
    let pinned = agressive_pinned_pawns(b);
    let orth = b.ortographic_pins@;
    let diag = b.diagonal_pins@;
    let ep = b.en_passant@;
    let s1 = (agressive & !pinned) & !promo;
    let s2 = pinned & !promo;
    let s3 = (agressive & !pinned) & promo;
    let s4 = pinned & promo;
    assert forall|s: int|
        #![trigger has_bit(agressive, s)]
        #![trigger has_bit(pinned, s)]
        #![trigger has_bit(agressive & !pinned, s)]
        #![trigger has_bit(s1, s)]
        #![trigger has_bit(s2, s)]
        #![trigger has_bit(s3, s)]
        #![trigger has_bit(s4, s)]
        0 <= s < 64 implies {
        &&& has_bit(agressive, s) == (has_bit(b.side_bits(stm), s) && has_bit(b.piece_bits(1), s) && !has_bit(orth, s))
        &&& has_bit(pinned, s) == (has_bit(agressive, s) && has_bit(diag, s))
        &&& has_bit(agressive & !pinned, s) == (has_bit(agressive, s) && !has_bit(pinned, s))
        &&& has_bit(s1, s) == (has_bit(agressive, s) && !has_bit(pinned, s) && !has_bit(promo, s))
        &&& has_bit(s2, s) == (has_bit(pinned, s) && !has_bit(promo, s))
        &&& has_bit(s3, s) == (has_bit(agressive, s) && !has_bit(pinned, s) && has_bit(promo, s))
        &&& has_bit(s4, s) == (has_bit(pinned, s) && has_bit(promo, s))
    } by {
        let j = s as u64;
        lemma_bitwise(b.piece_bits(1), b.side_bits(stm), j);
        lemma_bitwise(crate::movegen::pawn_set(b), !orth, j);
        lemma_bitwise(orth, 0, j);
        lemma_bitwise(agressive, diag, j);
        lemma_bitwise(agressive, !pinned, j);
        lemma_bitwise(pinned, 0, j);
        lemma_bitwise(agressive & !pinned, !promo, j);
        lemma_bitwise(promo, 0, j);
        lemma_bitwise(agressive & !pinned, promo, j);
        lemma_bitwise(pinned, !promo, j);
        lemma_bitwise(pinned, promo, j);
    }
    assert forall|t: int| 0 <= t < 64 && #[trigger] has_bit(mask & diag, t) implies has_bit(mask, t) && has_bit(diag, t) by {
        lemma_bitwise(mask, diag, t as u64);
    }
    lemma_pawn_family_safe(b, only_captures, s1, true, mask, 0x4000, false, false);
    lemma_pawn_family_safe(b, only_captures, s2, true, mask & diag, 0x4000, false, true);
    lemma_pawn_family_safe(b, only_captures, s3, true, mask, 0x4000, true, false);
    lemma_pawn_family_safe(b, only_captures, s4, true, mask & diag, 0x4000, true, true);
    let f1 = pawn_family(b, s1, true, mask, 0x4000, false);
    let f2 = pawn_family(b, s2, true, mask & diag, 0x4000, false);
    let f3 = pawn_family(b, s3, true, mask, 0x4000, true);
    let f4 = pawn_family(b, s4, true, mask & diag, 0x4000, true);
    lemma_all_concat(f1, f2, safe);
    lemma_all_concat(f1 + f2, f3, safe);
    lemma_all_concat(f1 + f2 + f3, f4, safe);
    if ep != 64 {
        b.en_passant.lemma_index_nonnegative();
        assert forall|t: int| 0 <= t < 64 && #[trigger] has_bit(single_bit(ep), t) implies t == ep by {
            lemma_single_bit_update(0, ep as u64, t as u64);
        }
        assert forall|t: int| 0 <= t < 64 && #[trigger] has_bit(single_bit(ep) & diag, t) implies t == ep && has_bit(diag, t) by {
            lemma_bitwise(single_bit(ep), diag, t as u64);
            lemma_single_bit_update(0, ep as u64, t as u64);
        }
        lemma_en_passant_part_safe(b, only_captures, agressive & !pinned, single_bit(ep), false);
        lemma_en_passant_part_safe(b, only_captures, pinned, single_bit(ep) & diag, true);
        let e1 = moves_over(bits_of(agressive & !pinned), en_passant_step(b, mask, single_bit(ep)));
        let e2 = moves_over(bits_of(pinned), en_passant_step(b, mask, single_bit(ep) & diag));
        lemma_all_concat(e1, e2, safe);
        lemma_all_concat(f1 + f2 + f3 + f4, e1 + e2, safe);
    } else {
        lemma_all_concat(f1 + f2 + f3 + f4, Seq::empty(), safe);
    }
}

/// A castling move the generator lists, the king on its starting square, leaves the king
/// safe: the king arrives on a square no piece of the other side attacked, and the only
/// squares that empty are the king's and the rook's, behind the rook's new square or at the
/// board's edge.
#[verifier::spinoff_prover]
#[verifier::rlimit(40)]
proof fn lemma_castle_step_safe(b: Board, king_side: bool)
    requires
        b.wf(),
        generation_ready(b),
        b.king_square(b.side_to_move@) == 4 + 56 * b.side_to_move@,
        ({
            let off = 56 * b.side_to_move@;
            if king_side {
                castle_path_ok(b, 6 + off, 7 + off)
            } else {
                castle_path_ok(b, 2 + off, off)
            }
        }),
    ensures
        ({
            let off = 56 * b.side_to_move@;
            leaves_king_safe(
                b,
                move_value(4 + off, if king_side { 6 + off } else { 2 + off }, if king_side { 0x2000u16 } else { 0x3000u16 }),
            )
        }),
{
    let stm = b.side_to_move@;
    let opp = 1 - stm;
    let off = 56 * stm;
    let k = 4 + off;
    let dest = if king_side { 6 + off } else { 2 + off };
    let rook = if king_side { 7 + off } else { off };
    let rook_to = if king_side { 5 + off } else { 3 + off };
    let flag = if king_side { 0x2000u16 } else { 0x3000u16 };
    let own = b.side_bits(stm);
    let opps = b.side_bits(opp);
    let occ = b.side_bits(0) | b.side_bits(1);
    let mv = Move { value: move_value(k, dest, flag) };
    lemma_flag_words();
    lemma_move_value_fields(k as u16, dest as u16, flag);
    assert(mv.from_of() == k && mv.to_of() == dest && mv.flags_of() == flag);
    lemma_clear_lowest(b.piece_bits(6) & own);
    lemma_bitwise(b.piece_bits(6), own, k as u64);
    lemma_square_coords(k);
    lemma_square_coords(dest);
    lemma_square_coords(rook);
    lemma_square_coords(rook_to);
    assert(b.square_wf(k));
    assert(b.square_wf(dest));
    assert(b.square_wf(rook_to));
    lemma_bitwise(b.side_bits(0), b.side_bits(1), k as u64);
    // The king's target and the rook's new square are empty.
    assert(ray(k, dest, dest) || dest == dest);
    assert(!b.occupied(dest));
    assert(ray(k, rook, rook_to));
    assert(!b.occupied(rook_to));
    lemma_bitwise(b.side_bits(0), b.side_bits(1), dest as u64);
    lemma_bitwise(b.side_bits(0), b.side_bits(1), rook_to as u64);
    assert(b.mover_kind(mv) == 6);
    assert(b.mover_color(mv) == stm);
    assert(b.arrival_kind(mv) == 6);
    assert(crate::board::captured_square(mv) == dest);
    assert(b.piece_at(dest) == 0);
    assert(crate::board::is_castle(mv));
    assert(crate::board::castle_rook_from(mv, stm) == rook);
    assert(crate::board::castle_rook_to(mv, stm) == rook_to);
    assert(!b.square_attacked(dest, opp, occ));
    assert forall|next: Board| #[trigger] b.moves_to(mv, next) implies has_bit(
        next.piece_bits(6) & next.side_bits(stm),
        king_square_after(b, mv.value),
    ) && !next.square_attacked(king_square_after(b, mv.value), opp, next.side_bits(0) | next.side_bits(1)) by {
        assert(king_square_after(b, mv.value) == dest);
        assert(next.piece_bits(6) == b.moved_piece_bits(mv, 6));
        assert(next.side_bits(stm) == b.moved_side_bits(mv, stm));
        assert(next.side_bits(opp) == b.moved_side_bits(mv, opp));
        assert(next.side_bits(opp) == opps);
        let x3 = (own & !single_bit(k)) | single_bit(dest);
        assert(next.side_bits(stm) == (x3 & !single_bit(rook)) | single_bit(rook_to));
        assert(has_bit(next.piece_bits(6) & next.side_bits(stm), dest)) by {
            lemma_single_bit_update(b.piece_bits(6) & !single_bit(k), dest as u64, dest as u64);
            lemma_single_bit_update(own & !single_bit(k), dest as u64, dest as u64);
            lemma_single_bit_update(x3, rook as u64, dest as u64);
            lemma_single_bit_update(x3 & !single_bit(rook), rook_to as u64, dest as u64);
            lemma_bitwise(next.piece_bits(6), next.side_bits(stm), dest as u64);
        }
        let occ_next = next.side_bits(0) | next.side_bits(1);
        // A square occupied before and empty now is the king's or the rook's.
        assert forall|x: int| 0 <= x < 64 && has_bit(occ, x) && !#[trigger] has_bit(occ_next, x) implies x == k || x == rook by {
            lemma_bitwise(b.side_bits(0), b.side_bits(1), x as u64);
            lemma_bitwise(next.side_bits(0), next.side_bits(1), x as u64);
            lemma_single_bit_update(own, k as u64, x as u64);
            lemma_single_bit_update(own & !single_bit(k), dest as u64, x as u64);
            lemma_single_bit_update(x3, rook as u64, x as u64);
            lemma_single_bit_update(x3 & !single_bit(rook), rook_to as u64, x as u64);
        }
        assert(has_bit(occ_next, rook_to)) by {
            lemma_single_bit_update(x3 & !single_bit(rook), rook_to as u64, rook_to as u64);
            lemma_bitwise(next.side_bits(0), next.side_bits(1), rook_to as u64);
        }
        if next.square_attacked(dest, opp, occ_next) {
            let a = choose|a: int| 0 <= a < 64 && #[trigger] next.attacks_square_from(a, dest, opp, occ_next);
            assert(has_bit(opps, a));
            assert(b.square_wf(a));
            assert(a != k && a != dest && a != rook_to);
            assert forall|p: int| 1 <= p <= 6 && #[trigger] has_bit(next.piece_bits(p), a) implies has_bit(b.piece_bits(p), a) by {
                assert(next.piece_bits(p) == b.moved_piece_bits(mv, p));
                let x0 = b.piece_bits(p);
                lemma_single_bit_update(x0, k as u64, a as u64);
                lemma_single_bit_update(x0 & !single_bit(k), dest as u64, a as u64);
                lemma_single_bit_update(x0, dest as u64, a as u64);
                lemma_single_bit_update(x0, rook as u64, a as u64);
                lemma_single_bit_update(x0 & !single_bit(rook), rook_to as u64, a as u64);
            }
            assert(!b.attacks_square_from(a, dest, opp, occ));
            let diagonal = (has_bit(next.piece_bits(3), a) || has_bit(next.piece_bits(5), a))
                && crate::geometry::bishop_attack(dest, occ_next, a);
            let (d, f) = if diagonal {
                choose|d: int, f: int| is_diagonal(d, f) && #[trigger] slides_to(dest, d, f, occ_next, a)
            } else {
                choose|d: int, f: int| is_orthogonal(d, f) && #[trigger] slides_to(dest, d, f, occ_next, a)
            };
            let na = steps(dest, d, f, a);
            assert(!slides_to(dest, d, f, occ, a));
            lemma_path_blocker(dest, d, f, occ, na);
            let m = choose|m: int| 1 <= m < na && #[trigger] has_bit(occ, point(dest, d, f, m));
            lemma_square_coords(a);
            lemma_point_of_steps(dest, d, f, a);
            lemma_point_between(dest, d, f, a, m);
            crate::geometry::lemma_path_clear_prefix(dest, d, f, occ_next, na, m + 1);
            let x = point(dest, d, f, m);
            assert(!has_bit(occ_next, x));
            assert(x == k || x == rook);
            if x == k {
                // Toward the king's square, the rook's new square comes first.
                assert(d == 0 && m == 2);
                lemma_point_between(dest, d, f, a, 1);
                assert(point(dest, d, f, 1) == rook_to);
                lemma_path_blocked(dest, d, f, occ_next, 1, na);
            } else {
                // Past the rook's corner, the board ends.
                assert(d == 0 && m == if king_side { 1int } else { 2int });
                assert(file_of(a) == file_after(dest, f, na));
            }
        }
    }
}

/// The castling moves the generator lists leave the king safe when the king stands on
/// its starting square.
proof fn lemma_castle_part_safe(b: Board)
    requires
        b.wf(),
        generation_ready(b),
        b.king_square(b.side_to_move@) == 4 + 56 * b.side_to_move@,
    ensures
        all_moves(castle_moves(b), |v: u16| leaves_king_safe(b, v)),
{
    let stm = b.side_to_move@;
    let off = 56 * stm;
    let safe = |v: u16| leaves_king_safe(b, v);
    let first: Seq<u16> = if b.castle_rights.has(2 * stm) && castle_path_ok(b, 6 + off, 7 + off) {
        seq![move_value(4 + off, 6 + off, 0x2000u16)]
    } else {
        Seq::empty()
    };
    let second: Seq<u16> = if b.castle_rights.has(2 * stm + 1) && castle_path_ok(b, 2 + off, off) {
        seq![move_value(4 + off, 2 + off, 0x3000u16)]
    } else {
        Seq::empty()
    };
    assert(castle_moves(b) == first + second);
    if first.len() > 0 {
        lemma_castle_step_safe(b, true);
        assert(safe(first[0]));
    }
    if second.len() > 0 {
        lemma_castle_step_safe(b, false);
        assert(safe(second[0]));
    }
    lemma_all_concat(first, second, safe);
}

/// Whether a castling right of the side to move is held only while its king stands on
/// its starting square.
pub open spec fn castling_consistent(b: Board) -> bool {
    let stm = b.side_to_move@;
    b.castle_rights.has(2 * stm) || b.castle_rights.has(2 * stm + 1) ==> b.king_square(stm) == 4 + 56 * stm
}

/// The generator lists legal moves only: once any move it lists (all moves, or the
/// captures only) is played, the king of the side that moved stands on its square (its
/// target square when the king moved) and no piece of the other side attacks it. This
/// holds of boards whose checkers and pins are their own, whose en passant square is
/// empty with a piece behind it, and whose castling rights agree with the king's square.
pub proof fn lemma_generated_moves_leave_king_safe(b: Board, only_captures: bool)
    requires
        b.wf(),
        generation_ready(b),
        b.derived_ok(),
        crate::capture_generation::en_passant_backed(b),
        en_passant_square_empty(b),
        castling_consistent(b),
    ensures
        all_moves(generated_moves(b, only_captures), |v: u16| leaves_king_safe(b, v)),
{
    let safe = |v: u16| leaves_king_safe(b, v);
    lemma_king_part_safe(b);
    let king_part = if only_captures {
        king_captures(b)
    } else {
        king_moves(b)
    };
    if !double_check(b) {
        let mask = evasion_mask(b, only_captures);
        let castle_part = if !only_captures && b.checkers@ == 0 {
            castle_moves(b)
        } else {
            Seq::empty()
        };
        if castle_part.len() > 0 {
            lemma_castle_part_safe(b);
        }
        let pawn_part = if only_captures {
            pawn_capture_moves(b, mask)
        } else {
            pawn_moves(b, mask)
        };
        lemma_pawn_capture_safe(b, only_captures);
        if !only_captures {
            lemma_pawn_quiet_safe(b, only_captures);
            lemma_all_concat(pawn_quiet_moves(b, mask), pawn_capture_moves(b, mask), safe);
        }
        lemma_knight_part_safe(b, only_captures);
        lemma_slider_part_safe(b, only_captures, true);
        lemma_slider_part_safe(b, only_captures, false);
        lemma_all_concat(king_part, castle_part, safe);
        lemma_all_concat(king_part + castle_part, pawn_part, safe);
        lemma_all_concat(king_part + castle_part + pawn_part, knight_moves(b, mask), safe);
        lemma_all_concat(king_part + castle_part + pawn_part + knight_moves(b, mask), bishop_moves(b, mask), safe);
        lemma_all_concat(
            king_part + castle_part + pawn_part + knight_moves(b, mask) + bishop_moves(b, mask),
            rook_moves(b, mask),
            safe,
        );
    }
}

} // verus!
