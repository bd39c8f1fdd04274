use vstd::prelude::*;

use crate::bitboard::{has_bit, lemma_bitwise, lemma_clear_lowest, lemma_one_bit, lemma_single_bit_update, lemma_zero_bits, single_bit};
use crate::board::{captured_square, is_castle};
use crate::board::Board;
use crate::core_structs::{lemma_flag_words, lemma_move_value_fields, Move};
use vstd::std_specs::bits::u64_trailing_zeros;

use crate::capture_generation::{
    lemma_adjacent_ray, lemma_knight_no_ray, lemma_point_of_steps, lemma_same_steps, lemma_slide_between,
    lemma_slide_direction, lemma_square_coords,
};
use crate::geometry::{
    beyond, bishop_attack, file_after, file_of, is_diagonal, is_orthogonal, lemma_path_blocked, on_line, path_clear, point,
    rank_after, rank_of, ray, rook_attack, sign, slides_to, steps,
};
use crate::movegen::{
    double_check, evasion_mask, generation_ready, king_moves, king_step, lemma_squares_mask, move_value, moves_from,
    moves_over, ray_mask,
};

verus! {

/// A path clear of some blockers is clear of fewer.
proof fn lemma_path_clear_fewer(from: int, dr: int, df: int, big: u64, small: u64, n: int)
    requires
        path_clear(from, dr, df, big, n),
        forall|j: int| #[trigger] has_bit(small, j) ==> has_bit(big, j),
    ensures
        path_clear(from, dr, df, small, n),
    decreases n,
{
    if n > 1 {
        lemma_path_clear_fewer(from, dr, df, big, small, n - 1);
    }
}

/// A slider that reaches a square past some blockers reaches it past fewer.
proof fn lemma_slides_fewer(from: int, big: u64, small: u64, j: int)
    requires
        forall|i: int| #[trigger] has_bit(small, i) ==> has_bit(big, i),
    ensures
        bishop_attack(from, big, j) ==> bishop_attack(from, small, j),
        rook_attack(from, big, j) ==> rook_attack(from, small, j),
{
    if bishop_attack(from, big, j) {
        let (dr, df) = choose|dr: int, df: int| is_diagonal(dr, df) && #[trigger] slides_to(from, dr, df, big, j);
        lemma_path_clear_fewer(from, dr, df, big, small, steps(from, dr, df, j));
        assert(slides_to(from, dr, df, small, j));
    }
    if rook_attack(from, big, j) {
        let (dr, df) = choose|dr: int, df: int| is_orthogonal(dr, df) && #[trigger] slides_to(from, dr, df, big, j);
        lemma_path_clear_fewer(from, dr, df, big, small, steps(from, dr, df, j));
        assert(slides_to(from, dr, df, small, j));
    }
}

/// Every move of a walk comes from a square the walk takes.
proof fn lemma_moves_from_element(pred: spec_fn(int) -> bool, f: spec_fn(int) -> Seq<u16>, start: int, i: int)
    requires
        0 <= i < moves_from(pred, f, start).len(),
    ensures
        exists|s: int, k: int|
            start <= s < 64 && pred(s) && 0 <= k < f(s).len() && #[trigger] f(s)[k] == moves_from(pred, f, start)[i],
    decreases 64 - start,
{
    if 0 <= start < 64 {
        let head: Seq<u16> = if pred(start) { f(start) } else { Seq::empty() };
        let rest = moves_from(pred, f, start + 1);
        assert(moves_from(pred, f, start) == head + rest);
        if i < head.len() {
            assert(f(start)[i] == moves_from(pred, f, start)[i]);
        } else {
            lemma_moves_from_element(pred, f, start + 1, i - head.len());
            let (s, k) = choose|s: int, k: int|
                start + 1 <= s < 64 && pred(s) && 0 <= k < f(s).len() && #[trigger] f(s)[k] == rest[i - head.len()];
            assert(f(s)[k] == moves_from(pred, f, start)[i]);
        }
    }
}

/// The king steps safely: once it moves to a square next to it that its side does not
/// hold and that no piece of the other side attacks with the king gone from its square,
/// it stands on that square and no piece of the other side attacks it.
#[verifier::spinoff_prover]
#[verifier::rlimit(30)]
pub(crate) proof fn lemma_king_step_is_safe(b: Board, t: int, next: Board)
    requires
        b.wf(),
        generation_ready(b),
        0 <= t < 64,
        crate::geometry::king_attack(b.king_square(b.side_to_move@), t),
        !has_bit(b.side_bits(b.side_to_move@), t),
        !b.square_attacked(
            t,
            1 - b.side_to_move@,
            (b.side_bits(0) | b.side_bits(1)) & !single_bit(b.king_square(b.side_to_move@)),
        ),
        b.moves_to(
            Move {
                value: move_value(
                    b.king_square(b.side_to_move@),
                    t,
                    if has_bit(b.side_bits(1 - b.side_to_move@), t) { 0x4000u16 } else { 0u16 },
                ),
            },
            next,
        ),
    ensures
        has_bit(next.piece_bits(6) & next.side_bits(b.side_to_move@), t),
        !next.square_attacked(t, 1 - b.side_to_move@, next.side_bits(0) | next.side_bits(1)),
{
    let stm = b.side_to_move@;
    let opp = 1 - stm;
    let k = b.king_square(stm);
    let own = b.side_bits(stm);
    let occ = b.side_bits(0) | b.side_bits(1);
    let occ_mask = occ & !single_bit(k);
    let flag = if has_bit(b.side_bits(opp), t) { 0x4000u16 } else { 0u16 };
    let mv = Move { value: move_value(k, t, flag) };
    lemma_clear_lowest(b.piece_bits(6) & own);
    lemma_flag_words();
    lemma_move_value_fields(k as u16, t as u16, flag);
    assert(mv.from_of() == k && mv.to_of() == t);
    lemma_bitwise(b.piece_bits(6), own, k as u64);
    lemma_bitwise(b.side_bits(0), b.side_bits(1), k as u64);
    assert(b.square_wf(k));
    assert(b.mover_kind(mv) == 6);
    assert(b.mover_color(mv) == stm);
    assert(b.square_wf(t));
    lemma_bitwise(b.side_bits(0), b.side_bits(1), t as u64);
    // What the other side holds after the move: its pieces before, but the one taken.
    assert forall|a: int| 0 <= a < 64 implies #[trigger] has_bit(next.side_bits(opp), a) == (a != t && has_bit(b.side_bits(opp), a)) by {
        assert(next.side_bits(opp) == b.moved_side_bits(mv, opp));
        lemma_single_bit_update(b.side_bits(opp), t as u64, a as u64);
        assert(b.square_wf(a));
    }
    // The kinds of the pieces elsewhere are unchanged.
    assert forall|p: int, a: int| 1 <= p <= 6 && 0 <= a < 64 && a != k && a != t implies #[trigger] has_bit(next.piece_bits(p), a)
        == has_bit(b.piece_bits(p), a) by {
        assert(next.piece_bits(p) == b.moved_piece_bits(mv, p));
        lemma_single_bit_update(b.piece_bits(p), k as u64, a as u64);
        lemma_single_bit_update(b.piece_bits(p) & !single_bit(k), t as u64, a as u64);
        lemma_single_bit_update(b.piece_bits(p), t as u64, a as u64);
        lemma_single_bit_update((b.piece_bits(p) & !single_bit(k)) & !single_bit(t), t as u64, a as u64);
        lemma_single_bit_update(b.piece_bits(p) & !single_bit(t), t as u64, a as u64);
    }
    // The king arrives on its target square.
    assert(has_bit(next.piece_bits(6) & next.side_bits(stm), t)) by {
        assert(next.piece_bits(6) == b.moved_piece_bits(mv, 6));
        assert(next.side_bits(stm) == b.moved_side_bits(mv, stm));
        lemma_single_bit_update(b.piece_bits(6) & !single_bit(k), t as u64, t as u64);
        lemma_single_bit_update((b.piece_bits(6) & !single_bit(k)) & !single_bit(t), t as u64, t as u64);
        lemma_single_bit_update(own & !single_bit(k), t as u64, t as u64);
        lemma_single_bit_update((own & !single_bit(k)) & !single_bit(t), t as u64, t as u64);
        lemma_bitwise(next.piece_bits(6), next.side_bits(stm), t as u64);
    }
    // The board before the move, without the king, has no more blockers than after it.
    let occ_next = next.side_bits(0) | next.side_bits(1);
    assert forall|a: int| #[trigger] has_bit(occ_mask, a) implies has_bit(occ_next, a) by {
        lemma_bitwise(occ, !single_bit(k), a as u64);
        lemma_bitwise(next.side_bits(0), next.side_bits(1), a as u64);
        lemma_bitwise(b.side_bits(0), b.side_bits(1), a as u64);
        lemma_bitwise(single_bit(k), 0, a as u64);
        lemma_single_bit_update(0, k as u64, a as u64);
        assert(next.side_bits(stm) == b.moved_side_bits(mv, stm));
        lemma_single_bit_update(own, k as u64, a as u64);
        lemma_single_bit_update(own & !single_bit(k), t as u64, a as u64);
        lemma_single_bit_update((own & !single_bit(k)) & !single_bit(t), t as u64, a as u64);
        if a != t {
            assert(has_bit(next.side_bits(opp), a) == has_bit(b.side_bits(opp), a));
        }
    }
    if next.square_attacked(t, opp, occ_next) {
        let a = choose|a: int| 0 <= a < 64 && #[trigger] next.attacks_square_from(a, t, opp, occ_next);
        assert(a != t);
        assert(a != k) by {
            lemma_bitwise(b.side_bits(0), b.side_bits(1), k as u64);
        }
        lemma_slides_fewer(t, occ_next, occ_mask, a);
        assert(b.attacks_square_from(a, t, opp, occ_mask));
    }
}

/// The king never moves into check: once a king move the generator lists is played,
/// the king stands on its target square and no piece of the other side attacks it.
pub proof fn lemma_king_moves_are_safe(b: Board, i: int, next: Board)
    requires
        b.wf(),
        generation_ready(b),
        0 <= i < king_moves(b).len(),
        b.moves_to(Move { value: king_moves(b)[i] }, next),
    ensures
        has_bit(next.piece_bits(6) & next.side_bits(b.side_to_move@), (Move { value: king_moves(b)[i] }).to_of()),
        !next.square_attacked(
            (Move { value: king_moves(b)[i] }).to_of(),
            1 - b.side_to_move@,
            next.side_bits(0) | next.side_bits(1),
        ),
{
    let stm = b.side_to_move@;
    let opp = 1 - stm;
    let k = b.king_square(stm);
    let own = b.side_bits(stm);
    let occ = b.side_bits(0) | b.side_bits(1);
    let pred = |t: int| crate::geometry::king_attack(k, t) && !has_bit(own, t);
    let f = king_step(b, k);
    assert(king_moves(b) == moves_over(pred, f));
    lemma_moves_from_element(pred, f, 0, i);
    let (t, j) = choose|t: int, j: int| 0 <= t < 64 && pred(t) && 0 <= j < f(t).len() && #[trigger] f(t)[j] == moves_over(pred, f)[i];
    let occ_mask = occ & !single_bit(k);
    assert(!b.square_attacked(t, opp, occ_mask));
    let flag = if has_bit(b.side_bits(opp), t) { 0x4000u16 } else { 0u16 };
    assert(f(t) == seq![move_value(k, t, flag)]);
    let mv = Move { value: move_value(k, t, flag) };
    assert(king_moves(b)[i] == mv.value);
    lemma_flag_words();
    lemma_move_value_fields(k as u16, t as u16, flag);
    lemma_clear_lowest(b.piece_bits(6) & own);
    assert(mv.to_of() == t);
    lemma_king_step_is_safe(b, t, next);
}

/// A path that is not clear has an occupied square on it.
pub(crate) proof fn lemma_path_blocker(from: int, dr: int, df: int, occ: u64, n: int)
    requires
        !path_clear(from, dr, df, occ, n),
    ensures
        exists|m: int| 1 <= m < n && #[trigger] has_bit(occ, point(from, dr, df, m)),
    decreases n,
{
    if n > 1 {
        if path_clear(from, dr, df, occ, n - 1) {
            assert(has_bit(occ, point(from, dr, df, n - 1)));
        } else {
            lemma_path_blocker(from, dr, df, occ, n - 1);
            let m = choose|m: int| 1 <= m < n - 1 && #[trigger] has_bit(occ, point(from, dr, df, m));
            assert(has_bit(occ, point(from, dr, df, m)));
        }
    }
}

/// A path with no occupied square on it is clear.
pub(crate) proof fn lemma_path_free(from: int, dr: int, df: int, occ: u64, n: int)
    requires
        forall|m: int| 1 <= m < n ==> !#[trigger] has_bit(occ, point(from, dr, df, m)),
    ensures
        path_clear(from, dr, df, occ, n),
    decreases n,
{
    if n > 1 {
        lemma_path_free(from, dr, df, occ, n - 1);
        assert(!has_bit(occ, point(from, dr, df, n - 1)));
    }
}

/// The squares a line passes on its way to a square of the board are squares of the
/// board on that line, each at its own number of steps.
#[verifier::spinoff_prover]
pub(crate) proof fn lemma_point_between(from: int, dr: int, df: int, a: int, m: int)
    requires
        0 <= from < 64,
        0 <= a < 64,
        is_diagonal(dr, df) || is_orthogonal(dr, df),
        beyond(from, dr, df, a),
        1 <= m <= steps(from, dr, df, a),
    ensures
        0 <= point(from, dr, df, m) < 64,
        on_line(from, dr, df, point(from, dr, df, m)),
        steps(from, dr, df, point(from, dr, df, m)) == m,
        beyond(from, dr, df, point(from, dr, df, m)),
        rank_of(point(from, dr, df, m)) == rank_after(from, dr, m),
        file_of(point(from, dr, df, m)) == file_after(from, df, m),
{
    lemma_square_coords(from);
    lemma_square_coords(a);
    let n = steps(from, dr, df, a);
    let r = rank_after(from, dr, m);
    let f = file_after(from, df, m);
    assert(0 <= r < 8 && 0 <= f < 8) by {
        if dr == 1 {
            assert(r == rank_of(from) + m && rank_of(a) == rank_of(from) + n);
        } else if dr == -1 {
            assert(r == rank_of(from) - m && rank_of(a) == rank_of(from) - n);
        } else {
            assert(r == rank_of(from));
        }
        if df == 1 {
            assert(f == file_of(from) + m && file_of(a) == file_of(from) + n);
        } else if df == -1 {
            assert(f == file_of(from) - m && file_of(a) == file_of(from) - n);
        } else {
            assert(f == file_of(from));
        }
    }
    let q = point(from, dr, df, m);
    assert(q == r * 8 + f);
    assert(rank_of(q) == r && file_of(q) == f);
}

/// When a slider reaches `a` past the blockers `occ2` but not past `occ`, and only the
/// square `from` may be free in `occ2` that is taken in `occ`, then `from` lies between:
/// the only square of `occ` on the way.
proof fn lemma_uncovered(k: int, dr: int, df: int, occ: u64, occ2: u64, a: int, from: int)
    requires
        0 <= k < 64,
        0 <= a < 64,
        is_diagonal(dr, df) || is_orthogonal(dr, df),
        slides_to(k, dr, df, occ2, a),
        !path_clear(k, dr, df, occ, steps(k, dr, df, a)),
        forall|j: int| j != from && #[trigger] has_bit(occ, j) ==> has_bit(occ2, j),
    ensures
        exists|m: int| 1 <= m < steps(k, dr, df, a) && #[trigger] point(k, dr, df, m) == from,
        forall|m: int|
            1 <= m < steps(k, dr, df, a) && #[trigger] point(k, dr, df, m) != from ==> !has_bit(occ, point(k, dr, df, m)),
{
    let n = steps(k, dr, df, a);
    lemma_path_blocker(k, dr, df, occ, n);
    let m0 = choose|m: int| 1 <= m < n && #[trigger] has_bit(occ, point(k, dr, df, m));
    if point(k, dr, df, m0) != from {
        assert(has_bit(occ2, point(k, dr, df, m0)));
        lemma_path_blocked(k, dr, df, occ2, m0, n);
    }
    assert forall|m: int| 1 <= m < n && #[trigger] point(k, dr, df, m) != from implies !has_bit(occ, point(k, dr, df, m)) by {
        if has_bit(occ, point(k, dr, df, m)) {
            assert(has_bit(occ2, point(k, dr, df, m)));
            lemma_path_blocked(k, dr, df, occ2, m, n);
        }
    }
}

/// A rook or queen (`orthogonal`), or a bishop or queen, of the other side that one
/// piece of the side to move alone hides from the king pins that piece: the piece's
/// square is on a pin line.
proof fn lemma_hidden_slider_pins(b: Board, orthogonal: bool, dr: int, df: int, a: int, from: int)
    requires
        b.wf(),
        0 <= b.king_square(b.side_to_move@) < 64,
        0 <= a < 64,
        0 <= from < 64,
        if orthogonal { is_orthogonal(dr, df) } else { is_diagonal(dr, df) },
        beyond(b.king_square(b.side_to_move@), dr, df, a),
        has_bit(b.side_bits(1 - b.side_to_move@), a),
        has_bit(b.piece_bits(if orthogonal { 4 } else { 3 }), a) || has_bit(b.piece_bits(5), a),
        has_bit(b.side_bits(b.side_to_move@), from),
        exists|m: int|
            1 <= m < steps(b.king_square(b.side_to_move@), dr, df, a) && #[trigger] point(
                b.king_square(b.side_to_move@),
                dr,
                df,
                m,
            ) == from,
        forall|m: int|
            1 <= m < steps(b.king_square(b.side_to_move@), dr, df, a) && #[trigger] point(
                b.king_square(b.side_to_move@),
                dr,
                df,
                m,
            ) != from ==> !b.occupied(point(b.king_square(b.side_to_move@), dr, df, m)),
    ensures
        b.is_pinned_square(orthogonal, from),
{
    let stm = b.side_to_move@;
    let k = b.king_square(stm);
    let own = b.side_bits(stm);
    let opp = b.side_bits(1 - stm);
    let n = steps(k, dr, df, a);
    let m0 = choose|m: int| 1 <= m < n && #[trigger] point(k, dr, df, m) == from;
    lemma_point_between(k, dr, df, a, m0);
    lemma_point_between(k, dr, df, a, n);
    lemma_point_of_steps(k, dr, df, a);
    lemma_slide_direction(k, dr, df, a);
    lemma_square_coords(k);
    assert(b.square_wf(from));
    assert(b.square_wf(a));
    // The other side's pieces leave the way free.
    assert forall|m: int| 1 <= m < n implies !#[trigger] has_bit(opp, point(k, dr, df, m)) by {
        lemma_point_between(k, dr, df, a, m);
        let q = point(k, dr, df, m);
        assert(b.square_wf(q));
    }
    lemma_path_free(k, dr, df, opp, n);
    assert(slides_to(k, dr, df, opp, a));
    // The piece on `from` is the only piece of the side to move on the ray.
    assert(ray(k, a, from));
    assert forall|j: int| 0 <= j < 64 && ray(k, a, j) && has_bit(own, j) implies j == from by {
        let mj = steps(k, dr, df, j);
        lemma_point_of_steps(k, dr, df, j);
        assert(b.square_wf(j));
        if mj == n {
            lemma_same_steps(k, dr, df, j, a);
        } else if point(k, dr, df, mj) != from {
            assert(!b.occupied(point(k, dr, df, mj)));
        }
    }
    let sliders = b.piece_bits(if orthogonal { 4 } else { 3 });
    assert(crate::board::one_allied_on_ray_at(k, own, a));
    assert(crate::board::potential_pinner_at(orthogonal, k, opp, sliders, b.piece_bits(5), a));
    assert(crate::board::pin_line_at(orthogonal, k, own, opp, sliders, b.piece_bits(5), a, from));
}

/// Whether `mv` moves a piece of the side to move other than the king from its square to
/// one its side does not hold, without taking en passant or castling, and `next` is the
/// board it leads to.
pub open spec fn plain_move(b: Board, mv: Move, next: Board) -> bool {
    &&& has_bit(b.side_bits(b.side_to_move@), mv.from_of())
    &&& b.piece_at(mv.from_of()) != 6
    &&& !has_bit(b.side_bits(b.side_to_move@), mv.to_of())
    &&& mv.flags_of() != 0x5000u16
    &&& !is_castle(mv)
    &&& b.moves_to(mv, next)
}

/// Whether a slider on `a`, reaching the king's square `k` from direction `(dr, df)`
/// once `from` is left, was hidden by the piece on `from` alone: `from` lies on the way,
/// and nothing else stood there.
pub open spec fn uncovered_along(b: Board, k: int, dr: int, df: int, a: int, from: int) -> bool {
    &&& is_diagonal(dr, df) || is_orthogonal(dr, df)
    &&& beyond(k, dr, df, a)
    &&& exists|m: int| 1 <= m < steps(k, dr, df, a) && #[trigger] point(k, dr, df, m) == from
    &&& forall|m: int|
        1 <= m < steps(k, dr, df, a) && #[trigger] point(k, dr, df, m) != from ==> !b.occupied(point(k, dr, df, m))
}

/// What a plain move changes: the king stays, the target square is taken, the square
/// left is free, and elsewhere the pieces stay as they were; so a piece of the other side
/// that attacks the king afterwards stood on its square before, and either gave check
/// already or was hidden by the moved piece, which a line then pins.
#[verifier::spinoff_prover]
#[verifier::rlimit(30)]
proof fn lemma_attack_after_move(b: Board, mv: Move, next: Board, a: int)
    requires
        b.wf(),
        generation_ready(b),
        b.derived_ok(),
        plain_move(b, mv, next),
        0 <= a < 64,
        next.attacks_square_from(
            a,
            b.king_square(b.side_to_move@),
            1 - b.side_to_move@,
            next.side_bits(0) | next.side_bits(1),
        ),
    ensures
        a != mv.to_of(),
        has_bit(next.piece_bits(6) & next.side_bits(b.side_to_move@), b.king_square(b.side_to_move@)),
        b.is_checker(a) || b.ortographic_pins.contains(mv.from_of()) || b.diagonal_pins.contains(mv.from_of()),
        forall|p: int| 1 <= p <= 6 ==> #[trigger] has_bit(next.piece_bits(p), a) == has_bit(b.piece_bits(p), a),
        has_bit(next.side_bits(0) | next.side_bits(1), mv.to_of()),
        0 <= mv.to_of() < 64,
        !b.is_checker(a) ==> exists|dr: int, df: int| #[trigger] uncovered_along(b, b.king_square(b.side_to_move@), dr, df, a, mv.from_of()),
{
    let stm = b.side_to_move@;
    let opp = 1 - stm;
    let k = b.king_square(stm);
    let own = b.side_bits(stm);
    let occ = b.side_bits(0) | b.side_bits(1);
    let occ_next = next.side_bits(0) | next.side_bits(1);
    let from = mv.from_of();
    let to = mv.to_of();
    lemma_clear_lowest(b.piece_bits(6) & own);
    lemma_flag_words();
    assert(0 <= to < 64) by {
        assert(((mv.value >> 6u16) & 63u16) < 64u16);
    }
    lemma_bitwise(b.piece_bits(6), own, k as u64);
    lemma_bitwise(b.side_bits(0), b.side_bits(1), k as u64);
    lemma_bitwise(b.side_bits(0), b.side_bits(1), from as u64);
    lemma_bitwise(b.side_bits(0), b.side_bits(1), to as u64);
    assert(b.square_wf(k));
    assert(b.square_wf(from));
    assert(b.square_wf(to));
    assert(from != k);
    assert(to != k);
    assert(from != to);
    assert(b.mover_color(mv) == stm);
    assert(captured_square(mv) == to);
    assert forall|x: int| 0 <= x < 64 && x != from && x != to implies #[trigger] has_bit(next.side_bits(0), x) == has_bit(
        b.side_bits(0),
        x,
    ) && has_bit(next.side_bits(1), x) == has_bit(b.side_bits(1), x) by {
        assert(next.side_bits(0) == b.moved_side_bits(mv, 0));
        assert(next.side_bits(1) == b.moved_side_bits(mv, 1));
        lemma_single_bit_update(b.side_bits(0), from as u64, x as u64);
        lemma_single_bit_update(b.side_bits(1), from as u64, x as u64);
        lemma_single_bit_update(b.side_bits(0), to as u64, x as u64);
        lemma_single_bit_update(b.side_bits(1), to as u64, x as u64);
        lemma_single_bit_update(b.side_bits(0) & !single_bit(from), to as u64, x as u64);
        lemma_single_bit_update(b.side_bits(1) & !single_bit(from), to as u64, x as u64);
        lemma_single_bit_update((b.side_bits(0) & !single_bit(from)) & !single_bit(to), to as u64, x as u64);
        lemma_single_bit_update((b.side_bits(1) & !single_bit(from)) & !single_bit(to), to as u64, x as u64);
    }
    assert forall|p: int, x: int| 1 <= p <= 6 && 0 <= x < 64 && x != from && x != to implies #[trigger] has_bit(
        next.piece_bits(p),
        x,
    ) == has_bit(b.piece_bits(p), x) by {
        assert(next.piece_bits(p) == b.moved_piece_bits(mv, p));
        lemma_single_bit_update(b.piece_bits(p), from as u64, x as u64);
        lemma_single_bit_update(b.piece_bits(p), to as u64, x as u64);
        lemma_single_bit_update(b.piece_bits(p) & !single_bit(from), to as u64, x as u64);
        lemma_single_bit_update((b.piece_bits(p) & !single_bit(from)) & !single_bit(to), to as u64, x as u64);
        lemma_single_bit_update(b.piece_bits(p) & !single_bit(to), to as u64, x as u64);
    }
    assert(!has_bit(next.side_bits(opp), to) && !has_bit(next.side_bits(opp), from)) by {
        assert(next.side_bits(opp) == b.moved_side_bits(mv, opp));
        lemma_single_bit_update(b.side_bits(opp), to as u64, to as u64);
        lemma_single_bit_update(b.side_bits(opp), to as u64, from as u64);
    }
    assert(has_bit(next.side_bits(stm), to)) by {
        assert(next.side_bits(stm) == b.moved_side_bits(mv, stm));
        lemma_single_bit_update(own & !single_bit(from), to as u64, to as u64);
        lemma_single_bit_update((own & !single_bit(from)) & !single_bit(to), to as u64, to as u64);
    }
    lemma_bitwise(next.side_bits(0), next.side_bits(1), to as u64);
    assert(has_bit(next.piece_bits(6) & next.side_bits(stm), k)) by {
        lemma_bitwise(next.piece_bits(6), next.side_bits(stm), k as u64);
        assert(has_bit(next.piece_bits(6), k) == has_bit(b.piece_bits(6), k));
        assert(has_bit(next.side_bits(0), k) == has_bit(b.side_bits(0), k));
        assert(has_bit(next.side_bits(1), k) == has_bit(b.side_bits(1), k));
    }
    assert forall|j: int| j != from && #[trigger] has_bit(occ, j) implies has_bit(occ_next, j) by {
        if 0 <= j < 64 {
            lemma_bitwise(b.side_bits(0), b.side_bits(1), j as u64);
            lemma_bitwise(next.side_bits(0), next.side_bits(1), j as u64);
        }
    }
    assert(a != to && a != from);
    assert(has_bit(next.side_bits(0), a) == has_bit(b.side_bits(0), a));
    assert(has_bit(next.side_bits(1), a) == has_bit(b.side_bits(1), a));
    assert(has_bit(b.side_bits(opp), a));
    assert(has_bit(next.piece_bits(1), a) == has_bit(b.piece_bits(1), a));
    assert(has_bit(next.piece_bits(2), a) == has_bit(b.piece_bits(2), a));
    assert(has_bit(next.piece_bits(3), a) == has_bit(b.piece_bits(3), a));
    assert(has_bit(next.piece_bits(4), a) == has_bit(b.piece_bits(4), a));
    assert(has_bit(next.piece_bits(5), a) == has_bit(b.piece_bits(5), a));
    assert(has_bit(next.piece_bits(6), a) == has_bit(b.piece_bits(6), a));
    if b.attacks_square_from(a, k, opp, occ) {
        assert(b.is_checker(a));
    } else if (has_bit(next.piece_bits(3), a) || has_bit(next.piece_bits(5), a)) && bishop_attack(k, occ_next, a) {
        let (dr, df) = choose|dr: int, df: int| is_diagonal(dr, df) && #[trigger] slides_to(k, dr, df, occ_next, a);
        if slides_to(k, dr, df, occ, a) {
            assert(bishop_attack(k, occ, a));
        }
        lemma_uncovered(k, dr, df, occ, occ_next, a, from);
        assert forall|m: int|
            1 <= m < steps(k, dr, df, a) && #[trigger] point(k, dr, df, m) != from implies !b.occupied(point(k, dr, df, m)) by {
            lemma_point_between(k, dr, df, a, m);
            lemma_bitwise(b.side_bits(0), b.side_bits(1), point(k, dr, df, m) as u64);
        }
        lemma_hidden_slider_pins(b, false, dr, df, a, from);
        assert(b.diagonal_pins.contains(from));
        assert(uncovered_along(b, k, dr, df, a, from));
    } else {
        assert((has_bit(next.piece_bits(4), a) || has_bit(next.piece_bits(5), a)) && rook_attack(k, occ_next, a));
        let (dr, df) = choose|dr: int, df: int| is_orthogonal(dr, df) && #[trigger] slides_to(k, dr, df, occ_next, a);
        if slides_to(k, dr, df, occ, a) {
            assert(rook_attack(k, occ, a));
        }
        lemma_uncovered(k, dr, df, occ, occ_next, a, from);
        assert forall|m: int|
            1 <= m < steps(k, dr, df, a) && #[trigger] point(k, dr, df, m) != from implies !b.occupied(point(k, dr, df, m)) by {
            lemma_point_between(k, dr, df, a, m);
            lemma_bitwise(b.side_bits(0), b.side_bits(1), point(k, dr, df, m) as u64);
        }
        lemma_hidden_slider_pins(b, true, dr, df, a, from);
        assert(b.ortographic_pins.contains(from));
        assert(uncovered_along(b, k, dr, df, a, from));
    }
}

/// A piece that no line pins may move without exposing its king: when the side to move
/// is not in check, after a plain move of such a piece its king still stands where it
/// stood and no piece of the other side attacks it.
pub proof fn lemma_unpinned_move_is_safe(b: Board, mv: Move, next: Board)
    requires
        b.wf(),
        generation_ready(b),
        b.derived_ok(),
        b.checkers@ == 0,
        !b.ortographic_pins.contains(mv.from_of()),
        !b.diagonal_pins.contains(mv.from_of()),
        plain_move(b, mv, next),
    ensures
        has_bit(next.piece_bits(6) & next.side_bits(b.side_to_move@), b.king_square(b.side_to_move@)),
        !next.square_attacked(b.king_square(b.side_to_move@), 1 - b.side_to_move@, next.side_bits(0) | next.side_bits(1)),
{
    let stm = b.side_to_move@;
    let k = b.king_square(stm);
    let occ_next = next.side_bits(0) | next.side_bits(1);
    lemma_zero_bits();
    lemma_move_keeps_king(b, mv, next);
    if next.square_attacked(k, 1 - stm, occ_next) {
        let a = choose|a: int| 0 <= a < 64 && #[trigger] next.attacks_square_from(a, k, 1 - stm, occ_next);
        lemma_attack_after_move(b, mv, next, a);
        assert(b.checkers.contains(a));
    }
}

/// A plain move leaves the king of the side to move on its square.
pub(crate) proof fn lemma_move_keeps_king(b: Board, mv: Move, next: Board)
    requires
        b.wf(),
        generation_ready(b),
        plain_move(b, mv, next),
    ensures
        has_bit(next.piece_bits(6) & next.side_bits(b.side_to_move@), b.king_square(b.side_to_move@)),
{
    let stm = b.side_to_move@;
    let k = b.king_square(stm);
    let own = b.side_bits(stm);
    let from = mv.from_of();
    let to = mv.to_of();
    lemma_clear_lowest(b.piece_bits(6) & own);
    lemma_flag_words();
    assert(0 <= to < 64) by {
        assert(((mv.value >> 6u16) & 63u16) < 64u16);
    }
    lemma_bitwise(b.piece_bits(6), own, k as u64);
    lemma_bitwise(b.side_bits(0), b.side_bits(1), k as u64);
    lemma_bitwise(b.side_bits(0), b.side_bits(1), from as u64);
    lemma_bitwise(b.side_bits(0), b.side_bits(1), to as u64);
    assert(b.square_wf(k));
    assert(b.square_wf(from));
    assert(from != k);
    assert(to != k);
    assert(b.mover_color(mv) == stm);
    assert(captured_square(mv) == to);
    assert(next.piece_bits(6) == b.moved_piece_bits(mv, 6));
    assert(next.side_bits(stm) == b.moved_side_bits(mv, stm));
    lemma_single_bit_update(b.piece_bits(6), from as u64, k as u64);
    lemma_single_bit_update(b.piece_bits(6), to as u64, k as u64);
    lemma_single_bit_update(b.piece_bits(6) & !single_bit(from), to as u64, k as u64);
    lemma_single_bit_update((b.piece_bits(6) & !single_bit(from)) & !single_bit(to), to as u64, k as u64);
    lemma_single_bit_update(b.piece_bits(6) & !single_bit(to), to as u64, k as u64);
    lemma_single_bit_update(own, from as u64, k as u64);
    lemma_single_bit_update(own & !single_bit(from), to as u64, k as u64);
    lemma_single_bit_update((own & !single_bit(from)) & !single_bit(to), to as u64, k as u64);
    lemma_bitwise(next.piece_bits(6), next.side_bits(stm), k as u64);
}

/// A piece that no line pins may answer a single check by taking the checking piece or
/// by stepping between it and the king: after such a plain move the king still stands
/// where it stood and no piece of the other side attacks it.
#[verifier::spinoff_prover]
#[verifier::rlimit(30)]
pub proof fn lemma_evasion_is_safe(b: Board, mv: Move, next: Board)
    requires
        b.wf(),
        generation_ready(b),
        b.derived_ok(),
        b.checkers@ != 0,
        !double_check(b),
        !b.ortographic_pins.contains(mv.from_of()),
        !b.diagonal_pins.contains(mv.from_of()),
        has_bit(evasion_mask(b, false), mv.to_of()),
        plain_move(b, mv, next),
    ensures
        has_bit(next.piece_bits(6) & next.side_bits(b.side_to_move@), b.king_square(b.side_to_move@)),
        !next.square_attacked(b.king_square(b.side_to_move@), 1 - b.side_to_move@, next.side_bits(0) | next.side_bits(1)),
{
    let stm = b.side_to_move@;
    let k = b.king_square(stm);
    let c = b.checkers@;
    let to = mv.to_of();
    let occ_next = next.side_bits(0) | next.side_bits(1);
    lemma_move_keeps_king(b, mv, next);
    lemma_clear_lowest(b.piece_bits(6) & b.side_bits(stm));
    lemma_clear_lowest(c);
    lemma_one_bit(c);
    let checker = u64_trailing_zeros(c) as int;
    if next.square_attacked(k, 1 - stm, occ_next) {
        let a = choose|a: int| 0 <= a < 64 && #[trigger] next.attacks_square_from(a, k, 1 - stm, occ_next);
        lemma_attack_after_move(b, mv, next, a);
        assert(b.checkers.contains(a));
        let i = choose|i: int| 0 <= i < 64 && #[trigger] has_bit(c, i) && forall|jj: int| 0 <= jj < 64 && has_bit(c, jj) ==> jj == i;
        assert(a == i && checker == i);
        // The move lands on the line from the king to the checking piece, short of it.
        lemma_squares_mask(|jj: int| ray(k, checker, jj), 64, to);
        lemma_single_bit_update(ray_mask(k, checker), checker as u64, to as u64);
        assert(ray(k, checker, to));
        assert(b.square_wf(a));
        if has_bit(b.piece_bits(2), a) {
            lemma_knight_no_ray(k, a, to);
        } else if has_bit(b.piece_bits(1), a) || has_bit(b.piece_bits(6), a) {
            assert(crate::geometry::king_attack(k, a));
            lemma_adjacent_ray(k, a, to);
        } else if (has_bit(b.piece_bits(3), a) || has_bit(b.piece_bits(5), a)) && bishop_attack(k, occ_next, a) {
            let (dr, df) = choose|dr: int, df: int| is_diagonal(dr, df) && #[trigger] slides_to(k, dr, df, occ_next, a);
            lemma_slide_between(k, dr, df, occ_next, a, to);
        } else {
            let (dr, df) = choose|dr: int, df: int| is_orthogonal(dr, df) && #[trigger] slides_to(k, dr, df, occ_next, a);
            lemma_slide_between(k, dr, df, occ_next, a, to);
        }
    }
}

/// The direction of a ray from `k` is a rank, file or diagonal direction, and any square
/// beyond `k` along a slider's direction has that direction as its ray direction.
pub(crate) proof fn lemma_ray_direction(k: int, p: int, j: int)
    requires
        0 <= k < 64,
        0 <= p < 64,
        ray(k, p, j),
    ensures
        is_diagonal(sign(rank_of(p) - rank_of(k)), sign(file_of(p) - file_of(k))) || is_orthogonal(
            sign(rank_of(p) - rank_of(k)),
            sign(file_of(p) - file_of(k)),
        ),
{
    lemma_square_coords(k);
    lemma_square_coords(p);
}

/// A piece pinned to its king may move along the line of its pin: when the side to move
/// is not in check, after a plain move of a piece on the line from the king to a pinning
/// piece, to a square of that line (the pinning piece's square included), the king still
/// stands where it stood and no piece of the other side attacks it.
#[verifier::spinoff_prover]
#[verifier::rlimit(30)]
pub proof fn lemma_pinned_move_along_line_is_safe(b: Board, mv: Move, next: Board, orthogonal: bool, pinner: int)
    requires
        b.wf(),
        generation_ready(b),
        b.derived_ok(),
        b.checkers@ == 0,
        0 <= pinner < 64,
        b.pin_line(orthogonal, pinner, mv.from_of()),
        ray(b.king_square(b.side_to_move@), pinner, mv.to_of()),
        plain_move(b, mv, next),
    ensures
        has_bit(next.piece_bits(6) & next.side_bits(b.side_to_move@), b.king_square(b.side_to_move@)),
        !next.square_attacked(b.king_square(b.side_to_move@), 1 - b.side_to_move@, next.side_bits(0) | next.side_bits(1)),
{
    let stm = b.side_to_move@;
    let k = b.king_square(stm);
    let from = mv.from_of();
    let to = mv.to_of();
    let opp = b.side_bits(1 - stm);
    let occ_next = next.side_bits(0) | next.side_bits(1);
    lemma_move_keeps_king(b, mv, next);
    lemma_clear_lowest(b.piece_bits(6) & b.side_bits(stm));
    lemma_zero_bits();
    if next.square_attacked(k, 1 - stm, occ_next) {
        let a = choose|a: int| 0 <= a < 64 && #[trigger] next.attacks_square_from(a, k, 1 - stm, occ_next);
        lemma_attack_after_move(b, mv, next, a);
        if b.is_checker(a) {
            assert(b.checkers.contains(a));
        } else {
            let (dr, df) = choose|dr: int, df: int| #[trigger] uncovered_along(b, k, dr, df, a, from);
            let na = steps(k, dr, df, a);
            let m0 = choose|m: int| 1 <= m < na && #[trigger] point(k, dr, df, m) == from;
            lemma_point_between(k, dr, df, a, m0);
            lemma_point_of_steps(k, dr, df, a);
            lemma_slide_direction(k, dr, df, from);
            lemma_slide_direction(k, dr, df, a);
            // The pinning piece lies the same way from the king.
            lemma_ray_direction(k, pinner, from);
            let dp = sign(rank_of(pinner) - rank_of(k));
            let fp = sign(file_of(pinner) - file_of(k));
            assert(beyond(k, dp, fp, from));
            lemma_slide_direction(k, dp, fp, from);
            assert(dp == dr && fp == df);
            let np = steps(k, dr, df, pinner);
            lemma_point_of_steps(k, dr, df, pinner);
            lemma_point_between(k, dr, df, pinner, 1);
            // No piece of the other side stands between the king and the pinning piece.
            let sliders = b.piece_bits(if orthogonal { 4 } else { 3 });
            assert(crate::board::potential_pinner_at(orthogonal, k, opp, sliders, b.piece_bits(5), pinner));
            let (d2, f2) = if orthogonal {
                choose|d2: int, f2: int| is_orthogonal(d2, f2) && #[trigger] slides_to(k, d2, f2, opp, pinner)
            } else {
                choose|d2: int, f2: int| is_diagonal(d2, f2) && #[trigger] slides_to(k, d2, f2, opp, pinner)
            };
            lemma_slide_direction(k, d2, f2, pinner);
            assert(d2 == dr && f2 == df);
            assert(b.square_wf(a));
            assert(b.square_wf(pinner));
            assert(b.square_wf(from));
            if na < np {
                lemma_path_blocked(k, dr, df, opp, na, np);
            } else if np < na {
                assert(point(k, dr, df, np) != from);
                lemma_bitwise(b.side_bits(0), b.side_bits(1), pinner as u64);
            } else {
                lemma_same_steps(k, dr, df, a, pinner);
                assert(a == pinner);
                assert(to != pinner);
                lemma_point_of_steps(k, dr, df, to);
                if (has_bit(b.piece_bits(3), a) || has_bit(b.piece_bits(5), a)) && bishop_attack(k, occ_next, a) {
                    let (d3, f3) = choose|d3: int, f3: int| is_diagonal(d3, f3) && #[trigger] slides_to(k, d3, f3, occ_next, a);
                    lemma_slide_between(k, d3, f3, occ_next, a, to);
                } else if (has_bit(b.piece_bits(4), a) || has_bit(b.piece_bits(5), a)) && rook_attack(k, occ_next, a) {
                    let (d3, f3) = choose|d3: int, f3: int| is_orthogonal(d3, f3) && #[trigger] slides_to(k, d3, f3, occ_next, a);
                    lemma_slide_between(k, d3, f3, occ_next, a, to);
                } else {
                    assert(b.attacks_square_from(a, k, 1 - stm, b.side_bits(0) | b.side_bits(1)));
                }
            }
        }
    }
}

} // verus!
