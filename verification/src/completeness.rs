use vstd::prelude::*;

use crate::bitboard::{has_bit, lemma_bitwise, lemma_clear_lowest, lemma_single_bit_update, single_bit};
use crate::board::captured_square;
use crate::board::Board;
use crate::capture_generation::lemma_square_coords;
use crate::core_structs::{lemma_flag_words, lemma_move_value_fields, Move};
use crate::geometry::{is_diagonal, is_orthogonal, king_attack, path_clear, point, slides_to, steps};
use crate::capture_generation::{
    lemma_adjacent_ray, lemma_knight_no_ray, lemma_same_steps, lemma_slide_between, lemma_slide_direction,
};
use crate::geometry::{bishop_attack, file_of, knight_attack, pawn_attack, rank_of, ray, rook_attack, sign, slider_attack};
use crate::bitboard::lemma_pawn_step_bits;
use crate::king_safety::{lemma_move_keeps_king, lemma_path_free, lemma_point_between, plain_move};
use crate::movegen::{
    bits_of, castle_path_ok, double_check, evasion_mask, generated_moves, generation_ready, king_moves, king_step, knight_moves,
    knight_square_moves, lemma_squares_mask, move_value, moves_from, one_move, pawn_push, piece_moves, ray_mask,
    slider_square_moves, pawn_family, pawn_reach, pawn_square_moves, promotion_rank, double_push_rank, double_step,
    pawn_quiet_moves, pawn_capture_moves, pawn_moves, promotions,
};
use crate::bitboard::lemma_nonzero;
use vstd::std_specs::bits::u64_trailing_zeros;

verus! {

/// A move `f` gives for a square `pred` holds of is among the moves of the walk.
proof fn lemma_moves_from_contains(pred: spec_fn(int) -> bool, f: spec_fn(int) -> Seq<u16>, start: int, s: int, v: u16)
    requires
        0 <= start <= s < 64,
        pred(s),
        f(s).contains(v),
    ensures
        moves_from(pred, f, start).contains(v),
    decreases s - start,
{
    let head: Seq<u16> = if pred(start) { f(start) } else { Seq::empty() };
    let rest = moves_from(pred, f, start + 1);
    assert(moves_from(pred, f, start) == head + rest);
    if s == start {
        let k = choose|k: int| 0 <= k < f(s).len() && #[trigger] f(s)[k] == v;
        assert((head + rest)[k] == v);
    } else {
        lemma_moves_from_contains(pred, f, start + 1, s, v);
        let k = choose|k: int| 0 <= k < rest.len() && #[trigger] rest[k] == v;
        assert((head + rest)[head.len() + k] == v);
    }
}

/// Every king step the king survives is listed: a step to a square next to the king that
/// its side does not hold, after which no piece of the other side attacks the king on
/// that square, is among the king moves the generator lists.
#[verifier::spinoff_prover]
#[verifier::rlimit(40)]
proof fn lemma_safe_king_step_in_king_moves(b: Board, t: int, next: Board)
    requires
        b.wf(),
        generation_ready(b),
        0 <= t < 64,
        king_attack(b.king_square(b.side_to_move@), t),
        !has_bit(b.side_bits(b.side_to_move@), t),
        b.moves_to(step_move(b, b.king_square(b.side_to_move@), t), next),
        !next.square_attacked(t, 1 - b.side_to_move@, next.side_bits(0) | next.side_bits(1)),
    ensures
        king_moves(b).contains(step_value(b, b.king_square(b.side_to_move@), t)),
{
    let stm = b.side_to_move@;
    let opp = 1 - stm;
    let k = b.king_square(stm);
    let own = b.side_bits(stm);
    let occ = b.side_bits(0) | b.side_bits(1);
    let occ_mask = occ & !single_bit(k);
    let occ_next = next.side_bits(0) | next.side_bits(1);
    let flag = if has_bit(b.side_bits(opp), t) { 0x4000u16 } else { 0u16 };
    let mv = step_move(b, k, t);
    lemma_clear_lowest(b.piece_bits(6) & own);
    lemma_bitwise(b.piece_bits(6), own, k as u64);
    lemma_flag_words();
    lemma_move_value_fields(k as u16, t as u16, flag);
    assert(mv.from_of() == k && mv.to_of() == t && mv.flags_of() == flag);
    assert(b.square_wf(k));
    assert(b.square_wf(t));
    lemma_bitwise(b.side_bits(0), b.side_bits(1), k as u64);
    lemma_bitwise(b.side_bits(0), b.side_bits(1), t as u64);
    assert(b.mover_kind(mv) == 6);
    assert(b.mover_color(mv) == stm);
    // The other side's pieces but the one taken stay, each of its kind.
    assert forall|a: int| 0 <= a < 64 && a != t && a != k implies #[trigger] has_bit(next.side_bits(opp), a) == has_bit(
        b.side_bits(opp),
        a,
    ) && forall|p: int| 1 <= p <= 6 ==> #[trigger] has_bit(next.piece_bits(p), a) == has_bit(b.piece_bits(p), a) by {
        assert(next.side_bits(opp) == b.moved_side_bits(mv, opp));
        lemma_single_bit_update(b.side_bits(opp), t as u64, a as u64);
        assert forall|p: int| 1 <= p <= 6 implies #[trigger] has_bit(next.piece_bits(p), a) == has_bit(b.piece_bits(p), a) by {
            assert(next.piece_bits(p) == b.moved_piece_bits(mv, p));
            lemma_single_bit_update(b.piece_bits(p), k as u64, a as u64);
            lemma_single_bit_update(b.piece_bits(p) & !single_bit(k), t as u64, a as u64);
            lemma_single_bit_update(b.piece_bits(p), t as u64, a as u64);
            lemma_single_bit_update((b.piece_bits(p) & !single_bit(k)) & !single_bit(t), t as u64, a as u64);
            lemma_single_bit_update(b.piece_bits(p) & !single_bit(t), t as u64, a as u64);
        }
    }
    // After the step, the squares held are those held before without the king's, with
    // the target square.
    assert forall|j: int| 0 <= j < 64 && j != t implies #[trigger] has_bit(occ_next, j) == has_bit(occ_mask, j) by {
        lemma_bitwise(next.side_bits(0), next.side_bits(1), j as u64);
        lemma_bitwise(occ, !single_bit(k), j as u64);
        lemma_bitwise(b.side_bits(0), b.side_bits(1), j as u64);
        lemma_single_bit_update(0, k as u64, j as u64);
        lemma_bitwise(single_bit(k), 0, j as u64);
        assert(next.side_bits(stm) == b.moved_side_bits(mv, stm));
        assert(next.side_bits(opp) == b.moved_side_bits(mv, opp));
        lemma_single_bit_update(own, k as u64, j as u64);
        lemma_single_bit_update(own & !single_bit(k), t as u64, j as u64);
        lemma_single_bit_update((own & !single_bit(k)) & !single_bit(t), t as u64, j as u64);
        lemma_single_bit_update(b.side_bits(opp), t as u64, j as u64);
        assert(b.square_wf(j));
    }
    // A piece that attacked the square with the king gone still attacks it after the step.
    if b.square_attacked(t, opp, occ_mask) {
        let a = choose|a: int| 0 <= a < 64 && #[trigger] b.attacks_square_from(a, t, opp, occ_mask);
        assert(a != t);
        assert(a != k);
        assert(b.square_wf(a));
        if (has_bit(b.piece_bits(3), a) || has_bit(b.piece_bits(5), a)) && crate::geometry::bishop_attack(t, occ_mask, a) {
            let (d, f) = choose|d: int, f: int| is_diagonal(d, f) && #[trigger] slides_to(t, d, f, occ_mask, a);
            lemma_slide_keeps(t, d, f, occ_mask, occ_next, a);
            assert(crate::geometry::bishop_attack(t, occ_next, a));
        } else if (has_bit(b.piece_bits(4), a) || has_bit(b.piece_bits(5), a)) && crate::geometry::rook_attack(
            t,
            occ_mask,
            a,
        ) {
            let (d, f) = choose|d: int, f: int| is_orthogonal(d, f) && #[trigger] slides_to(t, d, f, occ_mask, a);
            lemma_slide_keeps(t, d, f, occ_mask, occ_next, a);
            assert(crate::geometry::rook_attack(t, occ_next, a));
        }
        assert(has_bit(next.side_bits(opp), a));
        assert(has_bit(next.piece_bits(1), a) == has_bit(b.piece_bits(1), a));
        assert(has_bit(next.piece_bits(2), a) == has_bit(b.piece_bits(2), a));
        assert(has_bit(next.piece_bits(3), a) == has_bit(b.piece_bits(3), a));
        assert(has_bit(next.piece_bits(4), a) == has_bit(b.piece_bits(4), a));
        assert(has_bit(next.piece_bits(5), a) == has_bit(b.piece_bits(5), a));
        assert(has_bit(next.piece_bits(6), a) == has_bit(b.piece_bits(6), a));
        assert(next.attacks_square_from(a, t, opp, occ_next));
    }
    let pred = |x: int| king_attack(k, x) && !has_bit(own, x);
    assert(king_step(b, k)(t) == seq![mv.value]);
    assert(king_step(b, k)(t)[0] == mv.value);
    lemma_moves_from_contains(pred, king_step(b, k), 0, t, mv.value);
}

/// A slider that reaches `a` from `from` past the blockers `x` still does past blockers
/// `y` that agree with `x` away from `from`.
proof fn lemma_slide_keeps(from: int, d: int, f: int, x: u64, y: u64, a: int)
    requires
        0 <= from < 64,
        0 <= a < 64,
        is_diagonal(d, f) || is_orthogonal(d, f),
        slides_to(from, d, f, x, a),
        forall|j: int| 0 <= j < 64 && j != from ==> #[trigger] has_bit(y, j) == has_bit(x, j),
    ensures
        slides_to(from, d, f, y, a),
{
    let n = steps(from, d, f, a);
    lemma_square_coords(from);
    lemma_square_coords(a);
    assert forall|m: int| 1 <= m < n implies !#[trigger] has_bit(y, point(from, d, f, m)) by {
        crate::king_safety::lemma_point_between(from, d, f, a, m);
        crate::geometry::lemma_path_clear_prefix(from, d, f, x, n, m + 1);
        assert(path_clear(from, d, f, x, m + 1));
        assert(point(from, d, f, m) != from);
    }
    lemma_path_free(from, d, f, y, n);
}

/// What a plain move changes on the board: the target square now holds the moved piece
/// of the side to move and no piece of the other side, the square left holds nothing,
/// and every other square holds what it held.
#[verifier::spinoff_prover]
#[verifier::rlimit(30)]
proof fn lemma_plain_move_squares(b: Board, mv: Move, next: Board)
    requires
        b.wf(),
        generation_ready(b),
        plain_move(b, mv, next),
    ensures
        0 <= mv.from_of() < 64,
        0 <= mv.to_of() < 64,
        mv.from_of() != mv.to_of(),
        mv.from_of() != b.king_square(b.side_to_move@),
        mv.to_of() != b.king_square(b.side_to_move@),
        0 <= b.king_square(b.side_to_move@) < 64,
        has_bit(next.piece_bits(6) & next.side_bits(b.side_to_move@), b.king_square(b.side_to_move@)),
        has_bit(next.side_bits(b.side_to_move@), mv.to_of()),
        !has_bit(next.side_bits(1 - b.side_to_move@), mv.to_of()),
        !has_bit(next.side_bits(0), mv.from_of()),
        !has_bit(next.side_bits(1), mv.from_of()),
        forall|x: int|
            0 <= x < 64 && x != mv.from_of() && x != mv.to_of() ==> #[trigger] has_bit(next.side_bits(0), x)
                == has_bit(b.side_bits(0), x) && has_bit(next.side_bits(1), x) == has_bit(b.side_bits(1), x),
        forall|p: int, x: int|
            1 <= p <= 6 && 0 <= x < 64 && x != mv.from_of() && x != mv.to_of() ==> #[trigger] has_bit(
                next.piece_bits(p),
                x,
            ) == has_bit(b.piece_bits(p), x),
{
    let stm = b.side_to_move@;
    let opp = 1 - stm;
    let k = b.king_square(stm);
    let own = b.side_bits(stm);
    let from = mv.from_of();
    let to = mv.to_of();
    lemma_clear_lowest(b.piece_bits(6) & own);
    lemma_flag_words();
    let v = mv.value;
    assert((v & 63u16) < 64u16);
    assert(((v >> 6u16) & 63u16) < 64u16);
    lemma_move_keeps_king(b, mv, next);
    lemma_bitwise(b.piece_bits(6), own, k as u64);
    lemma_bitwise(b.side_bits(0), b.side_bits(1), k as u64);
    lemma_bitwise(b.side_bits(0), b.side_bits(1), from as u64);
    lemma_bitwise(b.side_bits(0), b.side_bits(1), to as u64);
    assert(b.square_wf(k));
    assert(b.square_wf(from));
    assert(b.square_wf(to));
    assert(b.mover_color(mv) == stm);
    assert(captured_square(mv) == to);
    assert forall|x: int| 0 <= x < 64 && x != from && x != to implies #[trigger] has_bit(next.side_bits(0), x) == has_bit(
        b.side_bits(0),
        x,
    ) && has_bit(next.side_bits(1), x) == has_bit(b.side_bits(1), x) by {
        assert(next.side_bits(0) == b.moved_side_bits(mv, 0));
        assert(next.side_bits(1) == b.moved_side_bits(mv, 1));
        lemma_single_bit_update(b.side_bits(0), from as u64, x as u64);
        lemma_single_bit_update(b.side_bits(1), from as u64, x as u64);
        lemma_single_bit_update(b.side_bits(0), to as u64, x as u64);
        lemma_single_bit_update(b.side_bits(1), to as u64, x as u64);
        lemma_single_bit_update(b.side_bits(0) & !single_bit(from), to as u64, x as u64);
        lemma_single_bit_update(b.side_bits(1) & !single_bit(from), to as u64, x as u64);
        lemma_single_bit_update((b.side_bits(0) & !single_bit(from)) & !single_bit(to), to as u64, x as u64);
        lemma_single_bit_update((b.side_bits(1) & !single_bit(from)) & !single_bit(to), to as u64, x as u64);
    }
    assert forall|p: int, x: int| 1 <= p <= 6 && 0 <= x < 64 && x != from && x != to implies #[trigger] has_bit(
        next.piece_bits(p),
        x,
    ) == has_bit(b.piece_bits(p), x) by {
        assert(next.piece_bits(p) == b.moved_piece_bits(mv, p));
        lemma_single_bit_update(b.piece_bits(p), from as u64, x as u64);
        lemma_single_bit_update(b.piece_bits(p), to as u64, x as u64);
        lemma_single_bit_update(b.piece_bits(p) & !single_bit(from), to as u64, x as u64);
        lemma_single_bit_update((b.piece_bits(p) & !single_bit(from)) & !single_bit(to), to as u64, x as u64);
        lemma_single_bit_update(b.piece_bits(p) & !single_bit(to), to as u64, x as u64);
    }
    assert(!has_bit(next.side_bits(opp), to) && !has_bit(next.side_bits(opp), from)) by {
        assert(next.side_bits(opp) == b.moved_side_bits(mv, opp));
        lemma_single_bit_update(b.side_bits(opp), to as u64, to as u64);
        lemma_single_bit_update(b.side_bits(opp), to as u64, from as u64);
    }
    assert(has_bit(next.side_bits(stm), to) && !has_bit(next.side_bits(stm), from)) by {
        assert(next.side_bits(stm) == b.moved_side_bits(mv, stm));
        lemma_single_bit_update(own, from as u64, from as u64);
        lemma_single_bit_update(own & !single_bit(from), to as u64, to as u64);
        lemma_single_bit_update(own & !single_bit(from), to as u64, from as u64);
        lemma_single_bit_update((own & !single_bit(from)) & !single_bit(to), to as u64, to as u64);
        lemma_single_bit_update((own & !single_bit(from)) & !single_bit(to), to as u64, from as u64);
        lemma_single_bit_update(own & !single_bit(to), to as u64, from as u64);
        lemma_single_bit_update(own & !single_bit(to), to as u64, to as u64);
    }
}

/// After a plain move the squares held are those held before, but for the square left,
/// which is free, and the target square.
proof fn lemma_plain_move_occupancy(b: Board, mv: Move, next: Board)
    requires
        b.wf(),
        generation_ready(b),
        plain_move(b, mv, next),
    ensures
        forall|j: int|
            0 <= j < 64 && j != mv.to_of() && #[trigger] has_bit(next.side_bits(0) | next.side_bits(1), j) ==> j
                != mv.from_of() && has_bit(b.side_bits(0) | b.side_bits(1), j),
{
    lemma_plain_move_squares(b, mv, next);
    assert forall|j: int|
        0 <= j < 64 && j != mv.to_of() && #[trigger] has_bit(next.side_bits(0) | next.side_bits(1), j) implies j
            != mv.from_of() && has_bit(b.side_bits(0) | b.side_bits(1), j) by {
        lemma_bitwise(next.side_bits(0), next.side_bits(1), j as u64);
        lemma_bitwise(b.side_bits(0), b.side_bits(1), j as u64);
    }
}

/// A piece that gives check keeps giving it after a plain move that neither takes it nor
/// lands between it and the king.
#[verifier::spinoff_prover]
proof fn lemma_checker_stays(b: Board, mv: Move, next: Board, c: int)
    requires
        b.wf(),
        generation_ready(b),
        plain_move(b, mv, next),
        0 <= c < 64,
        b.is_checker(c),
        c != mv.to_of(),
        !ray(b.king_square(b.side_to_move@), c, mv.to_of()),
    ensures
        next.attacks_square_from(
            c,
            b.king_square(b.side_to_move@),
            1 - b.side_to_move@,
            next.side_bits(0) | next.side_bits(1),
        ),
{
    let stm = b.side_to_move@;
    let opp = 1 - stm;
    let k = b.king_square(stm);
    let occ = b.side_bits(0) | b.side_bits(1);
    let occ_next = next.side_bits(0) | next.side_bits(1);
    let from = mv.from_of();
    let to = mv.to_of();
    lemma_plain_move_squares(b, mv, next);
    lemma_plain_move_occupancy(b, mv, next);
    assert(b.square_wf(c));
    assert(b.square_wf(from));
    assert(c != from);
    assert(has_bit(next.piece_bits(1), c) == has_bit(b.piece_bits(1), c));
    assert(has_bit(next.piece_bits(2), c) == has_bit(b.piece_bits(2), c));
    assert(has_bit(next.piece_bits(3), c) == has_bit(b.piece_bits(3), c));
    assert(has_bit(next.piece_bits(4), c) == has_bit(b.piece_bits(4), c));
    assert(has_bit(next.piece_bits(5), c) == has_bit(b.piece_bits(5), c));
    assert(has_bit(next.piece_bits(6), c) == has_bit(b.piece_bits(6), c));
    assert(has_bit(next.side_bits(0), c) == has_bit(b.side_bits(0), c));
    assert(has_bit(next.side_bits(1), c) == has_bit(b.side_bits(1), c));
    assert(has_bit(next.side_bits(opp), c));
    if (has_bit(b.piece_bits(3), c) || has_bit(b.piece_bits(5), c)) && bishop_attack(k, occ, c) {
        let (d, f) = choose|d: int, f: int| is_diagonal(d, f) && #[trigger] slides_to(k, d, f, occ, c);
        lemma_slide_stays(b, k, d, f, occ, occ_next, c, to);
        assert(bishop_attack(k, occ_next, c));
    } else if (has_bit(b.piece_bits(4), c) || has_bit(b.piece_bits(5), c)) && rook_attack(k, occ, c) {
        let (d, f) = choose|d: int, f: int| is_orthogonal(d, f) && #[trigger] slides_to(k, d, f, occ, c);
        lemma_slide_stays(b, k, d, f, occ, occ_next, c, to);
        assert(rook_attack(k, occ_next, c));
    }
}

/// A slider that reaches `c` from `k` past the blockers `x` still does past blockers `y`
/// that hold no more squares than `x`, but for `to`, which does not lie between.
proof fn lemma_slide_stays(b: Board, k: int, d: int, f: int, x: u64, y: u64, c: int, to: int)
    requires
        0 <= k < 64,
        0 <= c < 64,
        is_diagonal(d, f) || is_orthogonal(d, f),
        slides_to(k, d, f, x, c),
        !ray(k, c, to),
        forall|j: int| 0 <= j < 64 && j != to && #[trigger] has_bit(y, j) ==> has_bit(x, j),
    ensures
        slides_to(k, d, f, y, c),
{
    let n = steps(k, d, f, c);
    lemma_slide_direction(k, d, f, c);
    assert forall|m: int| 1 <= m < n implies !#[trigger] has_bit(y, point(k, d, f, m)) by {
        let j = point(k, d, f, m);
        lemma_point_between(k, d, f, c, m);
        assert(ray(k, c, j));
        lemma_slide_between(k, d, f, x, c, j);
    }
    lemma_path_free(k, d, f, y, n);
}

/// A piece that a line pins exposes its king when it leaves that line: after a plain
/// move from the pinned square to a square off the line from the king to the pinning
/// piece, that piece attacks the king.
#[verifier::spinoff_prover]
#[verifier::rlimit(20)]
proof fn lemma_pinner_exposed(b: Board, mv: Move, next: Board, orthogonal: bool, p: int)
    requires
        b.wf(),
        generation_ready(b),
        plain_move(b, mv, next),
        0 <= p < 64,
        b.pin_line(orthogonal, p, mv.from_of()),
        !ray(b.king_square(b.side_to_move@), p, mv.to_of()),
    ensures
        next.attacks_square_from(
            p,
            b.king_square(b.side_to_move@),
            1 - b.side_to_move@,
            next.side_bits(0) | next.side_bits(1),
        ),
{
    let stm = b.side_to_move@;
    let opp = 1 - stm;
    let k = b.king_square(stm);
    let own = b.side_bits(stm);
    let opp_occ = b.side_bits(opp);
    let occ_next = next.side_bits(0) | next.side_bits(1);
    let from = mv.from_of();
    let to = mv.to_of();
    lemma_plain_move_squares(b, mv, next);
    assert(b.square_wf(p));
    assert(b.square_wf(from));
    assert(p != from);
    assert(ray(k, p, p));
    assert(p != to);
    let i = choose|i: int|
        0 <= i < 64 && #[trigger] ray(k, p, i) && has_bit(own, i) && forall|j: int|
            0 <= j < 64 && ray(k, p, j) && has_bit(own, j) ==> j == i;
    assert(i == from);
    if orthogonal {
        let (d, f) = choose|d: int, f: int| is_orthogonal(d, f) && #[trigger] slides_to(k, d, f, opp_occ, p);
        lemma_pin_path_clears(b, mv, next, p, d, f);
    } else {
        let (d, f) = choose|d: int, f: int| is_diagonal(d, f) && #[trigger] slides_to(k, d, f, opp_occ, p);
        lemma_pin_path_clears(b, mv, next, p, d, f);
    }
    assert(has_bit(next.piece_bits(4), p) == has_bit(b.piece_bits(4), p));
    assert(has_bit(next.piece_bits(3), p) == has_bit(b.piece_bits(3), p));
    assert(has_bit(next.piece_bits(5), p) == has_bit(b.piece_bits(5), p));
    assert(has_bit(next.side_bits(0), p) == has_bit(b.side_bits(0), p));
    assert(has_bit(next.side_bits(1), p) == has_bit(b.side_bits(1), p));
    assert(has_bit(next.side_bits(opp), p));
    if orthogonal {
        assert(rook_attack(k, occ_next, p));
    } else {
        assert(bishop_attack(k, occ_next, p));
    }
}

/// The line from the king to a pinning piece holds nothing once the pinned piece has
/// left it for a square off the line.
proof fn lemma_pin_path_clears(b: Board, mv: Move, next: Board, p: int, d: int, f: int)
    requires
        b.wf(),
        generation_ready(b),
        plain_move(b, mv, next),
        0 <= p < 64,
        is_orthogonal(d, f) || is_diagonal(d, f),
        slides_to(b.king_square(b.side_to_move@), d, f, b.side_bits(1 - b.side_to_move@), p),
        ray(b.king_square(b.side_to_move@), p, mv.from_of()),
        !ray(b.king_square(b.side_to_move@), p, mv.to_of()),
        forall|j: int|
            0 <= j < 64 && ray(b.king_square(b.side_to_move@), p, j) && #[trigger] has_bit(
                b.side_bits(b.side_to_move@),
                j,
            ) ==> j == mv.from_of(),
    ensures
        slides_to(b.king_square(b.side_to_move@), d, f, next.side_bits(0) | next.side_bits(1), p),
{
    let stm = b.side_to_move@;
    let opp = 1 - stm;
    let k = b.king_square(stm);
    let own = b.side_bits(stm);
    let opp_occ = b.side_bits(opp);
    let occ_next = next.side_bits(0) | next.side_bits(1);
    let from = mv.from_of();
    let to = mv.to_of();
    lemma_plain_move_squares(b, mv, next);
    let n = steps(k, d, f, p);
    lemma_slide_direction(k, d, f, p);
    assert forall|m: int| 1 <= m < n implies !#[trigger] has_bit(occ_next, point(k, d, f, m)) by {
        let j = point(k, d, f, m);
        lemma_point_between(k, d, f, p, m);
        assert(ray(k, p, j));
        lemma_slide_between(k, d, f, opp_occ, p, j);
        lemma_bitwise(next.side_bits(0), next.side_bits(1), j as u64);
        if j != from {
            assert(j != to);
            assert(!has_bit(own, j));
            assert(has_bit(next.side_bits(0), j) == has_bit(b.side_bits(0), j));
            assert(has_bit(next.side_bits(1), j) == has_bit(b.side_bits(1), j));
        }
    }
    lemma_path_free(k, d, f, occ_next, n);
}

/// A knight's step never stays on a line through its square: when `s` lies on the ray
/// from `k` to `p`, no square a knight on `s` attacks does.
proof fn lemma_knight_leaves_line(k: int, p: int, s: int, t: int)
    requires
        0 <= k < 64,
        0 <= p < 64,
        0 <= s < 64,
        0 <= t < 64,
        ray(k, p, s),
        knight_attack(s, t),
    ensures
        !ray(k, p, t),
{
    lemma_square_coords(k);
    lemma_square_coords(p);
    lemma_square_coords(s);
    lemma_square_coords(t);
}

/// Two rays from `k` that pass through one square run in one direction, so the nearer of
/// their ends lies on the ray to the farther.
proof fn lemma_rays_meet(k: int, c1: int, c2: int, t: int)
    requires
        0 <= k < 64,
        0 <= c1 < 64,
        0 <= c2 < 64,
        0 <= t < 64,
        ray(k, c1, t),
        ray(k, c2, t),
    ensures
        ray(k, c1, c2) || ray(k, c2, c1),
{
    lemma_square_coords(k);
    lemma_square_coords(c1);
    lemma_square_coords(c2);
    lemma_square_coords(t);
}

/// Of two pieces that give check, neither stands on the ray from the king to the other.
#[verifier::spinoff_prover]
proof fn lemma_checker_not_behind(b: Board, c1: int, c2: int)
    requires
        b.wf(),
        generation_ready(b),
        0 <= c1 < 64,
        0 <= c2 < 64,
        c1 != c2,
        b.is_checker(c1),
        b.is_checker(c2),
    ensures
        !ray(b.king_square(b.side_to_move@), c2, c1),
{
    let stm = b.side_to_move@;
    let k = b.king_square(stm);
    let occ = b.side_bits(0) | b.side_bits(1);
    lemma_clear_lowest(b.piece_bits(6) & b.side_bits(stm));
    lemma_bitwise(b.side_bits(0), b.side_bits(1), c1 as u64);
    assert(has_bit(occ, c1));
    if ray(k, c2, c1) {
        if (has_bit(b.piece_bits(3), c2) || has_bit(b.piece_bits(5), c2)) && bishop_attack(k, occ, c2) {
            let (d, f) = choose|d: int, f: int| is_diagonal(d, f) && #[trigger] slides_to(k, d, f, occ, c2);
            lemma_slide_between(k, d, f, occ, c2, c1);
        } else if (has_bit(b.piece_bits(4), c2) || has_bit(b.piece_bits(5), c2)) && rook_attack(k, occ, c2) {
            let (d, f) = choose|d: int, f: int| is_orthogonal(d, f) && #[trigger] slides_to(k, d, f, occ, c2);
            lemma_slide_between(k, d, f, occ, c2, c1);
        } else if has_bit(b.piece_bits(2), c2) && knight_attack(k, c2) {
            lemma_knight_no_ray(k, c2, c1);
        } else {
            assert(king_attack(k, c2));
            lemma_adjacent_ray(k, c2, c1);
        }
    }
}

/// A plain move after which no piece of the other side attacks the king answers every
/// check and keeps every pin: the side to move is not in double check, in check the move
/// takes the checking piece or lands between it and the king, and a pinned piece stays
/// on the line from the king to the piece that pins it.
#[verifier::spinoff_prover]
#[verifier::rlimit(20)]
proof fn lemma_safe_move_answers(b: Board, mv: Move, next: Board)
    requires
        b.wf(),
        generation_ready(b),
        b.derived_ok(),
        plain_move(b, mv, next),
        !next.square_attacked(b.king_square(b.side_to_move@), 1 - b.side_to_move@, next.side_bits(0) | next.side_bits(1)),
    ensures
        !double_check(b),
        b.checkers@ != 0 ==> has_bit(evasion_mask(b, false), mv.to_of()),
        forall|p: int|
            0 <= p < 64 && #[trigger] b.pin_line(true, p, mv.from_of()) ==> ray(
                b.king_square(b.side_to_move@),
                p,
                mv.to_of(),
            ),
        forall|p: int|
            0 <= p < 64 && #[trigger] b.pin_line(false, p, mv.from_of()) ==> ray(
                b.king_square(b.side_to_move@),
                p,
                mv.to_of(),
            ),
{
    let stm = b.side_to_move@;
    let opp = 1 - stm;
    let k = b.king_square(stm);
    let occ_next = next.side_bits(0) | next.side_bits(1);
    let to = mv.to_of();
    let c = b.checkers@;
    lemma_plain_move_squares(b, mv, next);
    assert forall|x: int| 0 <= x < 64 && #[trigger] b.is_checker(x) implies x == to || ray(k, x, to) by {
        if x != to && !ray(k, x, to) {
            lemma_checker_stays(b, mv, next, x);
        }
    }
    assert forall|p: int| 0 <= p < 64 && #[trigger] b.pin_line(true, p, mv.from_of()) implies ray(k, p, to) by {
        if !ray(k, p, to) {
            lemma_pinner_exposed(b, mv, next, true, p);
        }
    }
    assert forall|p: int| 0 <= p < 64 && #[trigger] b.pin_line(false, p, mv.from_of()) implies ray(k, p, to) by {
        if !ray(k, p, to) {
            lemma_pinner_exposed(b, mv, next, false, p);
        }
    }
    if c != 0 {
        lemma_clear_lowest(c);
        let c1 = u64_trailing_zeros(c) as int;
        assert(b.checkers.contains(c1));
        assert(b.is_checker(c1));
        if double_check(b) {
            let rest = c & ((c - 1) as u64);
            lemma_nonzero(rest);
            let c2 = choose|j: int| 0 <= j < 64 && #[trigger] has_bit(rest, j);
            lemma_single_bit_update(c, c1 as u64, c2 as u64);
            assert(c2 != c1 && has_bit(c, c2));
            assert(b.checkers.contains(c2));
            assert(b.is_checker(c2));
            assert(c1 == to || ray(k, c1, to));
            assert(c2 == to || ray(k, c2, to));
            if c1 == to {
                lemma_checker_not_behind(b, c1, c2);
            } else if c2 == to {
                lemma_checker_not_behind(b, c2, c1);
            } else {
                lemma_rays_meet(k, c1, c2, to);
                lemma_checker_not_behind(b, c1, c2);
                lemma_checker_not_behind(b, c2, c1);
            }
        }
        assert(c1 == to || ray(k, c1, to));
        lemma_squares_mask(|jj: int| ray(k, c1, jj), 64, to);
        lemma_single_bit_update(0, c1 as u64, to as u64);
        lemma_bitwise(ray_mask(k, c1), single_bit(c1), to as u64);
    }
}

/// The move of the piece on `s` to `t`, flagged a capture when `t` holds a piece of the
/// side not to move.
pub open spec fn step_value(b: Board, s: int, t: int) -> u16 {
    move_value(s, t, if has_bit(b.side_bits(1 - b.side_to_move@), t) { 0x4000u16 } else { 0u16 })
}

/// The move of the piece on `s` to `t`, as `step_value` gives it.
pub open spec fn step_move(b: Board, s: int, t: int) -> Move {
    Move { value: step_value(b, s, t) }
}

/// A value in one of two sequences is in their concatenation.
proof fn lemma_concat_contains(a: Seq<u16>, c: Seq<u16>, v: u16)
    requires
        a.contains(v) || c.contains(v),
    ensures
        (a + c).contains(v),
{
    if a.contains(v) {
        let i = choose|i: int| 0 <= i < a.len() && #[trigger] a[i] == v;
        assert((a + c)[i] == v);
    } else {
        let i = choose|i: int| 0 <= i < c.len() && #[trigger] c[i] == v;
        assert((a + c)[a.len() + i] == v);
    }
}

/// The moves of a piece to the squares `targets` holds of include its move to any such
/// square its side does not hold.
proof fn lemma_piece_moves_contains(b: Board, s: int, targets: spec_fn(int) -> bool, t: int)
    requires
        b.wf(),
        0 <= s < 64,
        0 <= t < 64,
        targets(t),
        !has_bit(b.side_bits(b.side_to_move@), t),
    ensures
        piece_moves(b, s, targets).contains(step_value(b, s, t)),
{
    let opp = 1 - b.side_to_move@;
    let v = step_value(b, s, t);
    let quiet = |j: int| targets(j) && !b.occupied(j);
    let takes = |j: int| targets(j) && has_bit(b.side_bits(opp), j);
    if has_bit(b.side_bits(opp), t) {
        assert(one_move(s, 0x4000)(t)[0] == v);
        lemma_moves_from_contains(takes, one_move(s, 0x4000), 0, t, v);
    } else {
        assert(one_move(s, 0)(t)[0] == v);
        lemma_moves_from_contains(quiet, one_move(s, 0), 0, t, v);
    }
    lemma_concat_contains(
        crate::movegen::moves_over(quiet, one_move(s, 0)),
        crate::movegen::moves_over(takes, one_move(s, 0x4000)),
        v,
    );
}

/// The step of a piece of the side to move from `s` to `t` is a plain move, and reads
/// back its squares and its capture flag.
proof fn lemma_step_is_plain(b: Board, s: int, t: int, next: Board)
    requires
        b.wf(),
        generation_ready(b),
        0 <= s < 64,
        0 <= t < 64,
        has_bit(b.side_bits(b.side_to_move@), s),
        !has_bit(b.piece_bits(6), s),
        !has_bit(b.side_bits(b.side_to_move@), t),
        b.moves_to(step_move(b, s, t), next),
    ensures
        plain_move(b, step_move(b, s, t), next),
        step_move(b, s, t).from_of() == s,
        step_move(b, s, t).to_of() == t,
{
    let flag = if has_bit(b.side_bits(1 - b.side_to_move@), t) { 0x4000u16 } else { 0u16 };
    let mv = Move { value: step_value(b, s, t) };
    lemma_flag_words();
    lemma_move_value_fields(s as u16, t as u16, flag);
    assert(mv.from_of() == s && mv.to_of() == t && mv.flags_of() == flag);
    assert(b.square_wf(s));
    assert(b.piece_at(s) != 6);
}

/// Every knight move that leaves the king safe is listed: the move of a knight of the
/// side to move to a square it attacks that its side does not hold, after which no piece
/// of the other side attacks the king, is among the moves the generator lists.
#[verifier::spinoff_prover]
#[verifier::rlimit(30)]
pub proof fn lemma_safe_knight_moves_listed(b: Board, s: int, t: int, next: Board)
    requires
        b.wf(),
        generation_ready(b),
        b.derived_ok(),
        0 <= s < 64,
        0 <= t < 64,
        has_bit(b.piece_bits(2), s),
        has_bit(b.side_bits(b.side_to_move@), s),
        knight_attack(s, t),
        !has_bit(b.side_bits(b.side_to_move@), t),
        b.moves_to(step_move(b, s, t), next),
        !next.square_attacked(b.king_square(b.side_to_move@), 1 - b.side_to_move@, next.side_bits(0) | next.side_bits(1)),
    ensures
        generated_moves(b, false).contains(step_value(b, s, t)),
{
    let stm = b.side_to_move@;
    let k = b.king_square(stm);
    let own = b.side_bits(stm);
    let mv = step_move(b, s, t);
    let v = mv.value;
    assert(b.square_wf(s));
    lemma_step_is_plain(b, s, t, next);
    lemma_safe_move_answers(b, mv, next);
    lemma_clear_lowest(b.piece_bits(6) & own);
    lemma_bitwise(b.piece_bits(6), own, k as u64);
    assert(b.square_wf(k));
    assert(!b.ortographic_pins.contains(s)) by {
        if b.ortographic_pins.contains(s) {
            assert(b.is_pinned_square(true, s));
            let p = choose|p: int|
                0 <= p < 64 && #[trigger] crate::board::pin_line_at(
                    true,
                    k,
                    own,
                    b.side_bits(1 - stm),
                    b.piece_bits(4),
                    b.piece_bits(5),
                    p,
                    s,
                );
            assert(b.pin_line(true, p, s));
            lemma_knight_leaves_line(k, p, s, t);
        }
    }
    assert(!b.diagonal_pins.contains(s)) by {
        if b.diagonal_pins.contains(s) {
            assert(b.is_pinned_square(false, s));
            let p = choose|p: int|
                0 <= p < 64 && #[trigger] crate::board::pin_line_at(
                    false,
                    k,
                    own,
                    b.side_bits(1 - stm),
                    b.piece_bits(3),
                    b.piece_bits(5),
                    p,
                    s,
                );
            assert(b.pin_line(false, p, s));
            lemma_knight_leaves_line(k, p, s, t);
        }
    }
    let mask = evasion_mask(b, false);
    assert(has_bit(mask, t)) by {
        if b.checkers@ == 0 {
            lemma_bitwise(own, own, t as u64);
        }
    }
    let pins = b.ortographic_pins@ | b.diagonal_pins@;
    let knights = (b.piece_bits(2) & own) & !pins;
    assert(bits_of(knights)(s)) by {
        lemma_bitwise(b.ortographic_pins@, b.diagonal_pins@, s as u64);
        lemma_bitwise(b.piece_bits(2), own, s as u64);
        lemma_bitwise(b.piece_bits(2) & own, !pins, s as u64);
        lemma_bitwise(pins, pins, s as u64);
    }
    let targets = |j: int| knight_attack(s, j) && has_bit(mask, j);
    lemma_piece_moves_contains(b, s, targets, t);
    assert(knight_square_moves(b, mask)(s) == piece_moves(b, s, targets));
    lemma_moves_from_contains(bits_of(knights), knight_square_moves(b, mask), 0, s, v);
    assert(knight_moves(b, mask).contains(v));
    lemma_generated_moves_contains_knight(b, v);
}

/// A knight move listed for the evasion mask of all moves is among the moves the
/// generator lists, when the side to move is not in double check.
proof fn lemma_generated_moves_contains_knight(b: Board, v: u16)
    requires
        !double_check(b),
        knight_moves(b, evasion_mask(b, false)).contains(v),
    ensures
        generated_moves(b, false).contains(v),
{
    let mask = evasion_mask(b, false);
    let castle_part = if b.checkers@ == 0 {
        crate::movegen::castle_moves(b)
    } else {
        Seq::empty()
    };
    let head = king_moves(b) + castle_part + crate::movegen::pawn_moves(b, mask);
    lemma_concat_contains(head, knight_moves(b, mask), v);
    lemma_concat_contains(head + knight_moves(b, mask), crate::movegen::bishop_moves(b, mask), v);
    lemma_concat_contains(
        head + knight_moves(b, mask) + crate::movegen::bishop_moves(b, mask),
        crate::movegen::rook_moves(b, mask),
        v,
    );
}

/// A slider that moves across the line of a pin leaves it: when `s` lies on a ray from
/// `k` along a rank or file (`orthogonal`) or a diagonal, no square a bishop (for a rank
/// or file) or a rook (for a diagonal) on `s` reaches lies on that ray.
proof fn lemma_cross_slide_leaves_line(k: int, p: int, s: int, t: int, occ: u64, orthogonal: bool)
    requires
        0 <= k < 64,
        0 <= p < 64,
        0 <= s < 64,
        0 <= t < 64,
        ray(k, p, s),
        if orthogonal {
            is_orthogonal(sign(rank_of(p) - rank_of(k)), sign(file_of(p) - file_of(k)))
        } else {
            is_diagonal(sign(rank_of(p) - rank_of(k)), sign(file_of(p) - file_of(k)))
        },
        slider_attack(orthogonal, s, occ, t),
    ensures
        !ray(k, p, t),
{
    lemma_square_coords(k);
    lemma_square_coords(p);
    lemma_square_coords(s);
    lemma_square_coords(t);
    if orthogonal {
        let (d, f) = choose|d: int, f: int| is_diagonal(d, f) && #[trigger] slides_to(s, d, f, occ, t);
        assert(slides_to(s, d, f, occ, t));
    } else {
        let (d, f) = choose|d: int, f: int| is_orthogonal(d, f) && #[trigger] slides_to(s, d, f, occ, t);
        assert(slides_to(s, d, f, occ, t));
    }
}

/// A piece that pins along a rank or file (`orthogonal`) or a diagonal lies in that
/// direction from the king.
proof fn lemma_pinner_direction(b: Board, orthogonal: bool, p: int, j: int)
    requires
        b.pin_line(orthogonal, p, j),
    ensures
        if orthogonal {
            is_orthogonal(
                sign(rank_of(p) - rank_of(b.king_square(b.side_to_move@))),
                sign(file_of(p) - file_of(b.king_square(b.side_to_move@))),
            )
        } else {
            is_diagonal(
                sign(rank_of(p) - rank_of(b.king_square(b.side_to_move@))),
                sign(file_of(p) - file_of(b.king_square(b.side_to_move@))),
            )
        },
{
    let k = b.king_square(b.side_to_move@);
    let opp_occ = b.side_bits(1 - b.side_to_move@);
    if orthogonal {
        let (d, f) = choose|d: int, f: int| is_orthogonal(d, f) && #[trigger] slides_to(k, d, f, opp_occ, p);
        lemma_slide_direction(k, d, f, p);
    } else {
        let (d, f) = choose|d: int, f: int| is_diagonal(d, f) && #[trigger] slides_to(k, d, f, opp_occ, p);
        lemma_slide_direction(k, d, f, p);
    }
}

/// The pin masks in the board's fields, read as pins: a square of the mask of rank and
/// file pins (`orthogonal`) or of diagonal pins lies on the line of some pin.
proof fn lemma_pin_of_square(b: Board, orthogonal: bool, j: int) -> (p: int)
    requires
        b.derived_ok(),
        0 <= j < 64,
        if orthogonal { b.ortographic_pins.contains(j) } else { b.diagonal_pins.contains(j) },
    ensures
        0 <= p < 64,
        b.pin_line(orthogonal, p, j),
{
    let stm = b.side_to_move@;
    let k = b.king_square(stm);
    let own = b.side_bits(stm);
    let opp_occ = b.side_bits(1 - stm);
    assert(b.is_pinned_square(orthogonal, j));
    if orthogonal {
        choose|p: int|
            0 <= p < 64 && #[trigger] crate::board::pin_line_at(true, k, own, opp_occ, b.piece_bits(4), b.piece_bits(5), p, j)
    } else {
        choose|p: int|
            0 <= p < 64 && #[trigger] crate::board::pin_line_at(false, k, own, opp_occ, b.piece_bits(3), b.piece_bits(5), p, j)
    }
}

/// Every slider move that leaves the king safe is listed: the move of a bishop or queen
/// along a diagonal (`is_bishop`), or of a rook or queen along a rank or file, of the side
/// to move, to a square it attacks that its side does not hold, after which no piece of
/// the other side attacks the king, is among the moves the generator lists.
#[verifier::spinoff_prover]
#[verifier::rlimit(40)]
pub proof fn lemma_safe_slider_moves_listed(b: Board, is_bishop: bool, s: int, t: int, next: Board)
    requires
        b.wf(),
        generation_ready(b),
        b.derived_ok(),
        0 <= s < 64,
        0 <= t < 64,
        has_bit(b.piece_bits(if is_bishop { 3 } else { 4 }), s) || has_bit(b.piece_bits(5), s),
        has_bit(b.side_bits(b.side_to_move@), s),
        slider_attack(is_bishop, s, b.side_bits(0) | b.side_bits(1), t),
        !has_bit(b.side_bits(b.side_to_move@), t),
        b.moves_to(step_move(b, s, t), next),
        !next.square_attacked(b.king_square(b.side_to_move@), 1 - b.side_to_move@, next.side_bits(0) | next.side_bits(1)),
    ensures
        generated_moves(b, false).contains(step_value(b, s, t)),
{
    let stm = b.side_to_move@;
    let k = b.king_square(stm);
    let own = b.side_bits(stm);
    let occ = b.side_bits(0) | b.side_bits(1);
    let mv = step_move(b, s, t);
    let v = mv.value;
    assert(b.square_wf(s));
    assert(!has_bit(b.piece_bits(6), s));
    lemma_step_is_plain(b, s, t, next);
    lemma_safe_move_answers(b, mv, next);
    lemma_clear_lowest(b.piece_bits(6) & own);
    lemma_bitwise(b.piece_bits(6), own, k as u64);
    assert(b.square_wf(k));
    lemma_pins_of_safe_move(b, mv, next, is_bishop);
    let mask = evasion_mask(b, false);
    assert(has_bit(mask, t)) by {
        if b.checkers@ == 0 {
            lemma_bitwise(own, own, t as u64);
        }
    }
    lemma_slider_part_contains(b, is_bishop, s, t, mask);
    lemma_generated_moves_contains_slider(b, is_bishop, v);
}

/// The slider part of the moves, for a piece on `s` that the pins allow to reach `t`.
proof fn lemma_slider_part_contains(b: Board, is_bishop: bool, s: int, t: int, mask: u64)
    requires
        b.wf(),
        0 <= s < 64,
        0 <= t < 64,
        has_bit(b.piece_bits(if is_bishop { 3 } else { 4 }), s) || has_bit(b.piece_bits(5), s),
        has_bit(b.side_bits(b.side_to_move@), s),
        slider_attack(is_bishop, s, b.side_bits(0) | b.side_bits(1), t),
        !has_bit(b.side_bits(b.side_to_move@), t),
        has_bit(mask, t),
        !has_bit(if is_bishop { b.ortographic_pins@ } else { b.diagonal_pins@ }, s),
        has_bit(if is_bishop { b.diagonal_pins@ } else { b.ortographic_pins@ }, s) ==> has_bit(
            if is_bishop { b.diagonal_pins@ } else { b.ortographic_pins@ },
            t,
        ),
    ensures
        (if is_bishop { crate::movegen::bishop_moves(b, mask) } else { crate::movegen::rook_moves(b, mask) }).contains(
            step_value(b, s, t),
        ),
{
    let stm = b.side_to_move@;
    let own = b.side_bits(stm);
    let occ = b.side_bits(0) | b.side_bits(1);
    let v = step_value(b, s, t);
    let cross = if is_bishop { b.ortographic_pins@ } else { b.diagonal_pins@ };
    let same = if is_bishop { b.diagonal_pins@ } else { b.ortographic_pins@ };
    let kind = b.piece_bits(if is_bishop { 3 } else { 4 });
    let pieces = (kind & own) | (b.piece_bits(5) & own);
    let movable = pieces & !cross;
    let pinned = movable & same;
    lemma_bitwise(kind, own, s as u64);
    lemma_bitwise(b.piece_bits(5), own, s as u64);
    lemma_bitwise(kind & own, b.piece_bits(5) & own, s as u64);
    lemma_bitwise(pieces, !cross, s as u64);
    lemma_bitwise(cross, cross, s as u64);
    lemma_bitwise(movable, same, s as u64);
    lemma_bitwise(movable, !pinned, s as u64);
    lemma_bitwise(pinned, pinned, s as u64);
    let free_part = crate::movegen::moves_over(bits_of(movable & !pinned), slider_square_moves(b, is_bishop, mask));
    let pinned_part = crate::movegen::moves_over(bits_of(pinned), slider_square_moves(b, is_bishop, mask & same));
    if has_bit(same, s) {
        lemma_bitwise(mask, same, t as u64);
        let targets = |j: int| slider_attack(is_bishop, s, occ, j) && has_bit(mask & same, j);
        lemma_piece_moves_contains(b, s, targets, t);
        assert(slider_square_moves(b, is_bishop, mask & same)(s) == piece_moves(b, s, targets));
        lemma_moves_from_contains(bits_of(pinned), slider_square_moves(b, is_bishop, mask & same), 0, s, v);
    } else {
        let targets = |j: int| slider_attack(is_bishop, s, occ, j) && has_bit(mask, j);
        lemma_piece_moves_contains(b, s, targets, t);
        assert(slider_square_moves(b, is_bishop, mask)(s) == piece_moves(b, s, targets));
        lemma_moves_from_contains(bits_of(movable & !pinned), slider_square_moves(b, is_bishop, mask), 0, s, v);
    }
    lemma_concat_contains(free_part, pinned_part, v);
}

/// A bishop or rook move listed for the evasion mask of all moves is among the moves the
/// generator lists, when the side to move is not in double check.
proof fn lemma_generated_moves_contains_slider(b: Board, is_bishop: bool, v: u16)
    requires
        !double_check(b),
        (if is_bishop {
            crate::movegen::bishop_moves(b, evasion_mask(b, false))
        } else {
            crate::movegen::rook_moves(b, evasion_mask(b, false))
        }).contains(v),
    ensures
        generated_moves(b, false).contains(v),
{
    let mask = evasion_mask(b, false);
    let castle_part = if b.checkers@ == 0 {
        crate::movegen::castle_moves(b)
    } else {
        Seq::empty()
    };
    let head = king_moves(b) + castle_part + crate::movegen::pawn_moves(b, mask) + knight_moves(b, mask);
    let bishops = crate::movegen::bishop_moves(b, mask);
    let rooks = crate::movegen::rook_moves(b, mask);
    if is_bishop {
        lemma_concat_contains(head, bishops, v);
    }
    lemma_concat_contains(head + bishops, rooks, v);
}

/// A pawn's step straight ahead is a rook's step of one square.
proof fn lemma_push_slides(side: int, s: int, t: int, occ: u64)
    requires
        0 <= side <= 1,
        0 <= s < 64,
        0 <= t < 64,
        has_bit(pawn_push(side, s), t),
    ensures
        rook_attack(s, occ, t),
{
    lemma_pawn_step_bits(s as u64, t as u64);
    lemma_square_coords(s);
    lemma_square_coords(t);
    if side == 0 {
        assert(t == s + 8);
        assert(slides_to(s, 1, 0, occ, t));
    } else {
        assert(t == s - 8);
        assert(slides_to(s, -1, 0, occ, t));
    }
}

/// A pawn's capture is a bishop's step of one square.
proof fn lemma_pawn_attack_slides(side: int, s: int, t: int, occ: u64)
    requires
        0 <= s < 64,
        0 <= t < 64,
        pawn_attack(side, s, t),
    ensures
        bishop_attack(s, occ, t),
{
    lemma_square_coords(s);
    lemma_square_coords(t);
    let d = sign(rank_of(t) - rank_of(s));
    let f = sign(file_of(t) - file_of(s));
    assert(slides_to(s, d, f, occ, t));
}

/// What the pins say of a plain move after which the king is safe, for a move along a
/// diagonal (`diagonal`) or a rank or file: no pin across that kind of line holds the
/// piece, and a pin along it keeps the target square on the pin mask.
proof fn lemma_pins_of_safe_move(b: Board, mv: Move, next: Board, diagonal: bool)
    requires
        b.wf(),
        generation_ready(b),
        b.derived_ok(),
        plain_move(b, mv, next),
        !next.square_attacked(b.king_square(b.side_to_move@), 1 - b.side_to_move@, next.side_bits(0) | next.side_bits(1)),
        slider_attack(diagonal, mv.from_of(), b.side_bits(0) | b.side_bits(1), mv.to_of()),
    ensures
        !has_bit(if diagonal { b.ortographic_pins@ } else { b.diagonal_pins@ }, mv.from_of()),
        has_bit(if diagonal { b.diagonal_pins@ } else { b.ortographic_pins@ }, mv.from_of()) ==> has_bit(
            if diagonal { b.diagonal_pins@ } else { b.ortographic_pins@ },
            mv.to_of(),
        ),
{
    let stm = b.side_to_move@;
    let k = b.king_square(stm);
    let own = b.side_bits(stm);
    let occ = b.side_bits(0) | b.side_bits(1);
    let s = mv.from_of();
    let t = mv.to_of();
    let is_bishop = diagonal;
    lemma_plain_move_squares(b, mv, next);
    lemma_safe_move_answers(b, mv, next);
    // No pin across the slider's own lines holds it.
    let cross = if is_bishop { b.ortographic_pins@ } else { b.diagonal_pins@ };
    let same = if is_bishop { b.diagonal_pins@ } else { b.ortographic_pins@ };
    assert(!has_bit(cross, s)) by {
        if has_bit(cross, s) {
            let p = lemma_pin_of_square(b, is_bishop, s);
            lemma_pinner_direction(b, is_bishop, p, s);
            lemma_cross_slide_leaves_line(k, p, s, t, occ, is_bishop);
        }
    }
    // A pin along its own line keeps it on that line.
    assert(has_bit(same, s) ==> has_bit(same, t)) by {
        if has_bit(same, s) {
            let p = lemma_pin_of_square(b, !is_bishop, s);
            if is_bishop {
                assert(b.pin_line(false, p, mv.from_of()));
                assert(ray(k, p, t));
                assert(crate::board::pin_line_at(false, k, own, b.side_bits(1 - stm), b.piece_bits(3), b.piece_bits(5), p, t));
                assert(b.is_pinned_square(false, t));
                assert(b.diagonal_pins.contains(t));
            } else {
                assert(b.pin_line(true, p, mv.from_of()));
                assert(ray(k, p, t));
                assert(crate::board::pin_line_at(true, k, own, b.side_bits(1 - stm), b.piece_bits(4), b.piece_bits(5), p, t));
                assert(b.is_pinned_square(true, t));
                assert(b.ortographic_pins.contains(t));
            }
        }
    }
}

/// A pawn move to `t` that `pawn_reach` allows is among the moves of a pawn family whose
/// sources hold its square and whose restriction holds `t`.
proof fn lemma_pawn_family_contains(
    b: Board,
    sources: u64,
    capture: bool,
    restrict: u64,
    flags: u16,
    s: int,
    t: int,
)
    requires
        0 <= s < 64,
        0 <= t < 64,
        has_bit(sources, s),
        pawn_reach(b, capture, s, t),
        has_bit(restrict, t),
    ensures
        pawn_family(b, sources, capture, restrict, flags, false).contains(move_value(s, t, flags)),
{
    let v = move_value(s, t, flags);
    let pred = |j: int| pawn_reach(b, capture, s, j) && has_bit(restrict, j);
    assert(one_move(s, flags)(t)[0] == v);
    lemma_moves_from_contains(pred, one_move(s, flags), 0, t, v);
    assert(pawn_square_moves(b, capture, restrict, flags, false)(s) == crate::movegen::moves_over(pred, one_move(s, flags)));
    lemma_moves_from_contains(bits_of(sources), pawn_square_moves(b, capture, restrict, flags, false), 0, s, v);
}

/// A pawn's single step to an empty square ahead, off the promotion rank, is among the
/// pawn steps for a mask that holds its target, when no diagonal pins the pawn and a rank
/// or file pin keeps the target on the pin mask.
#[verifier::spinoff_prover]
#[verifier::rlimit(30)]
proof fn lemma_pawn_push_contains(b: Board, s: int, t: int, mask: u64)
    requires
        b.wf(),
        0 <= s < 64,
        0 <= t < 64,
        has_bit(b.piece_bits(1), s),
        has_bit(b.side_bits(b.side_to_move@), s),
        !has_bit(promotion_rank(b.side_to_move@), s),
        has_bit(pawn_push(b.side_to_move@, s), t),
        !b.occupied(t),
        has_bit(mask, t),
        !has_bit(b.diagonal_pins@, s),
        has_bit(b.ortographic_pins@, s) ==> has_bit(b.ortographic_pins@, t),
    ensures
        pawn_quiet_moves(b, mask).contains(move_value(s, t, 0)),
{
    let stm = b.side_to_move@;
    let own = b.side_bits(stm);
    let orth = b.ortographic_pins@;
    let diag = b.diagonal_pins@;
    let promo = promotion_rank(stm);
    let pawns = crate::movegen::pawn_set(b);
    let movable = crate::movegen::movable_pawns(b);
    let pinned = crate::movegen::movable_pinned_pawns(b);
    let double = crate::movegen::double_pushable_pawns(b);
    let v = move_value(s, t, 0);
    let su = s as u64;
    lemma_bitwise(b.piece_bits(1), own, su);
    lemma_bitwise(pawns, !diag, su);
    lemma_bitwise(diag, diag, su);
    lemma_bitwise(movable, orth, su);
    lemma_bitwise(movable, double_push_rank(stm), su);
    lemma_bitwise(movable, !double, su);
    lemma_bitwise(double, double, su);
    lemma_bitwise(movable & !double, !pinned, su);
    lemma_bitwise(pinned, pinned, su);
    lemma_bitwise((movable & !double) & !pinned, !promo, su);
    lemma_bitwise(promo, promo, su);
    lemma_bitwise(pinned, !double, su);
    lemma_bitwise(pinned & !double, !promo, su);
    lemma_bitwise(double, !pinned, su);
    lemma_bitwise(double, pinned, su);
    lemma_bitwise(mask, orth, t as u64);
    assert(!has_bit(b.side_bits(1 - stm), t));
    assert(pawn_reach(b, false, s, t));
    let f1 = pawn_family(b, ((movable & !double) & !pinned) & !promo, false, mask, 0, false);
    let f2 = pawn_family(b, (pinned & !double) & !promo, false, mask & orth, 0, false);
    let f3 = pawn_family(b, (movable & !pinned) & promo, false, mask, 0, true);
    let f4 = crate::movegen::moves_over(bits_of(double & !pinned), double_step(b, mask));
    let f5 = crate::movegen::moves_over(bits_of(double & pinned), double_step(b, mask & orth));
    assert(pawn_quiet_moves(b, mask) == f1 + f2 + f3 + f4 + f5);
    if has_bit(double, s) {
        let r = if has_bit(orth, s) { mask & orth } else { mask };
        let m = (s as usize ^ 24usize) as int;
        lemma_pawn_step_bits(su, t as u64);
        assert(m == t);
        let first = |j: int| has_bit(pawn_push(stm, s), j) && !has_bit(b.side_bits(1 - stm), j) && has_bit(r, j);
        assert(one_move(s, 0)(t)[0] == v);
        lemma_moves_from_contains(first, one_move(s, 0), 0, t, v);
        let second = |j: int| has_bit(pawn_push(stm, m), j) && !has_bit(b.side_bits(1 - stm), j) && has_bit(r, j);
        lemma_concat_contains(
            crate::movegen::moves_over(first, one_move(s, 0)),
            crate::movegen::moves_over(second, one_move(s, 0x1000)),
            v,
        );
        assert(double_step(b, r)(s).contains(v));
        if has_bit(orth, s) {
            lemma_moves_from_contains(bits_of(double & pinned), double_step(b, mask & orth), 0, s, v);
            lemma_concat_contains(f1 + f2 + f3 + f4, f5, v);
        } else {
            lemma_moves_from_contains(bits_of(double & !pinned), double_step(b, mask), 0, s, v);
            lemma_concat_contains(f1 + f2 + f3, f4, v);
            lemma_concat_contains(f1 + f2 + f3 + f4, f5, v);
        }
    } else {
        if has_bit(orth, s) {
            lemma_pawn_family_contains(b, (pinned & !double) & !promo, false, mask & orth, 0, s, t);
            lemma_concat_contains(f1, f2, v);
        } else {
            lemma_pawn_family_contains(b, ((movable & !double) & !pinned) & !promo, false, mask, 0, s, t);
            lemma_concat_contains(f1, f2, v);
        }
        lemma_concat_contains(f1 + f2, f3, v);
        lemma_concat_contains(f1 + f2 + f3, f4, v);
        lemma_concat_contains(f1 + f2 + f3 + f4, f5, v);
    }
}

/// A pawn's capture off the promotion rank is among the pawn captures for a mask that
/// holds its target, when no rank or file pins the pawn and a diagonal pin keeps the
/// target on the pin mask.
#[verifier::spinoff_prover]
#[verifier::rlimit(30)]
proof fn lemma_pawn_capture_contains(b: Board, s: int, t: int, mask: u64)
    requires
        0 <= s < 64,
        0 <= t < 64,
        has_bit(b.piece_bits(1), s),
        has_bit(b.side_bits(b.side_to_move@), s),
        !has_bit(promotion_rank(b.side_to_move@), s),
        pawn_attack(b.side_to_move@, s, t),
        has_bit(b.side_bits(1 - b.side_to_move@), t),
        has_bit(mask, t),
        !has_bit(b.ortographic_pins@, s),
        has_bit(b.diagonal_pins@, s) ==> has_bit(b.diagonal_pins@, t),
    ensures
        pawn_capture_moves(b, mask).contains(move_value(s, t, 0x4000)),
{
    let stm = b.side_to_move@;
    let own = b.side_bits(stm);
    let orth = b.ortographic_pins@;
    let diag = b.diagonal_pins@;
    let promo = promotion_rank(stm);
    let pawns = crate::movegen::pawn_set(b);
    let agressive = crate::movegen::agressive_pawns(b);
    let pinned = crate::movegen::agressive_pinned_pawns(b);
    let v = move_value(s, t, 0x4000);
    let su = s as u64;
    lemma_bitwise(b.piece_bits(1), own, su);
    lemma_bitwise(pawns, !orth, su);
    lemma_bitwise(orth, orth, su);
    lemma_bitwise(agressive, diag, su);
    lemma_bitwise(agressive, !pinned, su);
    lemma_bitwise(pinned, pinned, su);
    lemma_bitwise(agressive & !pinned, !promo, su);
    lemma_bitwise(pinned, !promo, su);
    lemma_bitwise(promo, promo, su);
    lemma_bitwise(mask, diag, t as u64);
    assert(pawn_reach(b, true, s, t));
    let ep = b.en_passant@;
    let c1 = pawn_family(b, (agressive & !pinned) & !promo, true, mask, 0x4000, false);
    let c2 = pawn_family(b, pinned & !promo, true, mask & diag, 0x4000, false);
    let c3 = pawn_family(b, (agressive & !pinned) & promo, true, mask, 0x4000, true);
    let c4 = pawn_family(b, pinned & promo, true, mask & diag, 0x4000, true);
    let c5: Seq<u16> = if ep == 64 {
        Seq::empty()
    } else {
        crate::movegen::moves_over(bits_of(agressive & !pinned), crate::movegen::en_passant_step(b, mask, single_bit(ep)))
            + crate::movegen::moves_over(
            bits_of(pinned),
            crate::movegen::en_passant_step(b, mask, single_bit(ep) & diag),
        )
    };
    assert(pawn_capture_moves(b, mask) == c1 + c2 + c3 + c4 + c5);
    if has_bit(diag, s) {
        lemma_pawn_family_contains(b, pinned & !promo, true, mask & diag, 0x4000, s, t);
    } else {
        lemma_pawn_family_contains(b, (agressive & !pinned) & !promo, true, mask, 0x4000, s, t);
    }
    lemma_concat_contains(c1, c2, v);
    lemma_concat_contains(c1 + c2, c3, v);
    lemma_concat_contains(c1 + c2 + c3, c4, v);
    lemma_concat_contains(c1 + c2 + c3 + c4, c5, v);
}

/// Whether a pawn of the side to move on `s` reaches `t` by a single step: straight ahead
/// to an empty square, or diagonally ahead onto a piece of the other side.
pub open spec fn pawn_single_step(b: Board, s: int, t: int) -> bool {
    let stm = b.side_to_move@;
    (has_bit(pawn_push(stm, s), t) && !b.occupied(t)) || (pawn_attack(stm, s, t) && has_bit(b.side_bits(1 - stm), t))
}

/// Every pawn step off the promotion rank that leaves the king safe is listed: the single
/// step of a pawn of the side to move, straight ahead to an empty square or diagonally
/// ahead onto a piece of the other side, after which no piece of the other side attacks
/// the king, is among the moves the generator lists.
#[verifier::spinoff_prover]
#[verifier::rlimit(30)]
pub proof fn lemma_safe_pawn_steps_listed(b: Board, s: int, t: int, next: Board)
    requires
        b.wf(),
        generation_ready(b),
        b.derived_ok(),
        0 <= s < 64,
        0 <= t < 64,
        has_bit(b.piece_bits(1), s),
        has_bit(b.side_bits(b.side_to_move@), s),
        !has_bit(promotion_rank(b.side_to_move@), s),
        pawn_single_step(b, s, t),
        b.moves_to(step_move(b, s, t), next),
        !next.square_attacked(b.king_square(b.side_to_move@), 1 - b.side_to_move@, next.side_bits(0) | next.side_bits(1)),
    ensures
        generated_moves(b, false).contains(step_value(b, s, t)),
{
    let stm = b.side_to_move@;
    let own = b.side_bits(stm);
    let occ = b.side_bits(0) | b.side_bits(1);
    let mv = step_move(b, s, t);
    let v = mv.value;
    assert(b.square_wf(s));
    assert(b.square_wf(t));
    assert(!has_bit(b.piece_bits(6), s));
    assert(!has_bit(own, t));
    lemma_step_is_plain(b, s, t, next);
    lemma_safe_move_answers(b, mv, next);
    let mask = evasion_mask(b, false);
    assert(has_bit(mask, t)) by {
        if b.checkers@ == 0 {
            lemma_bitwise(own, own, t as u64);
        }
    }
    if has_bit(pawn_push(stm, s), t) && !b.occupied(t) {
        lemma_push_slides(stm, s, t, occ);
        lemma_pins_of_safe_move(b, mv, next, false);
        lemma_pawn_push_contains(b, s, t, mask);
        lemma_concat_contains(pawn_quiet_moves(b, mask), pawn_capture_moves(b, mask), v);
    } else {
        lemma_pawn_attack_slides(stm, s, t, occ);
        lemma_pins_of_safe_move(b, mv, next, true);
        lemma_pawn_capture_contains(b, s, t, mask);
        lemma_concat_contains(pawn_quiet_moves(b, mask), pawn_capture_moves(b, mask), v);
    }
    lemma_generated_moves_contains_pawn(b, v);
}

/// A pawn move listed for the evasion mask of all moves is among the moves the generator
/// lists, when the side to move is not in double check.
proof fn lemma_generated_moves_contains_pawn(b: Board, v: u16)
    requires
        !double_check(b),
        pawn_moves(b, evasion_mask(b, false)).contains(v),
    ensures
        generated_moves(b, false).contains(v),
{
    let mask = evasion_mask(b, false);
    let castle_part = if b.checkers@ == 0 {
        crate::movegen::castle_moves(b)
    } else {
        Seq::empty()
    };
    let head = king_moves(b) + castle_part;
    let pawns = pawn_moves(b, mask);
    lemma_concat_contains(head, pawns, v);
    lemma_concat_contains(head + pawns, knight_moves(b, mask), v);
    lemma_concat_contains(head + pawns + knight_moves(b, mask), crate::movegen::bishop_moves(b, mask), v);
    lemma_concat_contains(
        head + pawns + knight_moves(b, mask) + crate::movegen::bishop_moves(b, mask),
        crate::movegen::rook_moves(b, mask),
        v,
    );
}

/// The move from `s` to `t` with the flags `flags`.
pub open spec fn flagged_move(s: int, t: int, flags: u16) -> Move {
    Move { value: move_value(s, t, flags) }
}

/// A move of a piece of the side to move other than the king, with flags that neither
/// castle nor take en passant, is a plain move, and reads back its squares.
proof fn lemma_flagged_is_plain(b: Board, s: int, t: int, flags: u16, next: Board)
    requires
        b.wf(),
        generation_ready(b),
        0 <= s < 64,
        0 <= t < 64,
        has_bit(b.side_bits(b.side_to_move@), s),
        !has_bit(b.piece_bits(6), s),
        !has_bit(b.side_bits(b.side_to_move@), t),
        flags & 0x0FFFu16 == 0,
        flags != 0x2000u16,
        flags != 0x3000u16,
        flags != 0x5000u16,
        b.moves_to(flagged_move(s, t, flags), next),
    ensures
        plain_move(b, flagged_move(s, t, flags), next),
        flagged_move(s, t, flags).from_of() == s,
        flagged_move(s, t, flags).to_of() == t,
{
    let mv = flagged_move(s, t, flags);
    lemma_move_value_fields(s as u16, t as u16, flags);
    assert(mv.from_of() == s && mv.to_of() == t && mv.flags_of() == flags);
    assert(b.square_wf(s));
    assert(b.piece_at(s) != 6);
}

/// A pawn's double step over an empty square is a rook's step of two squares.
proof fn lemma_double_push_slides(side: int, s: int, m: int, t: int, occ: u64)
    requires
        0 <= side <= 1,
        0 <= s < 64,
        0 <= m < 64,
        0 <= t < 64,
        has_bit(pawn_push(side, s), m),
        has_bit(pawn_push(side, m), t),
        !has_bit(occ, m),
    ensures
        rook_attack(s, occ, t),
{
    lemma_pawn_step_bits(s as u64, m as u64);
    lemma_pawn_step_bits(m as u64, t as u64);
    lemma_square_coords(s);
    lemma_square_coords(m);
    lemma_square_coords(t);
    let d: int = if side == 0 { 1 } else { -1 };
    assert(point(s, d, 0, 1) == m);
    assert(path_clear(s, d, 0, occ, 2)) by {
        reveal_with_fuel(path_clear, 2);
    }
    assert(slides_to(s, d, 0, occ, t));
}

/// A pawn's double step is among the pawn steps for a mask that holds its target, when
/// no diagonal pins the pawn and a rank or file pin keeps the target on the pin mask.
#[verifier::spinoff_prover]
#[verifier::rlimit(30)]
proof fn lemma_pawn_double_contains(b: Board, s: int, m: int, t: int, mask: u64)
    requires
        b.side_to_move.valid(),
        0 <= s < 64,
        0 <= m < 64,
        0 <= t < 64,
        has_bit(b.piece_bits(1), s),
        has_bit(b.side_bits(b.side_to_move@), s),
        has_bit(double_push_rank(b.side_to_move@), s),
        has_bit(pawn_push(b.side_to_move@, s), m),
        has_bit(pawn_push(b.side_to_move@, m), t),
        !b.occupied(m),
        !b.occupied(t),
        has_bit(mask, t),
        !has_bit(b.diagonal_pins@, s),
        has_bit(b.ortographic_pins@, s) ==> has_bit(b.ortographic_pins@, t),
    ensures
        pawn_quiet_moves(b, mask).contains(move_value(s, t, 0x1000)),
{
    let stm = b.side_to_move@;
    let own = b.side_bits(stm);
    let orth = b.ortographic_pins@;
    let diag = b.diagonal_pins@;
    let promo = promotion_rank(stm);
    let pawns = crate::movegen::pawn_set(b);
    let movable = crate::movegen::movable_pawns(b);
    let pinned = crate::movegen::movable_pinned_pawns(b);
    let double = crate::movegen::double_pushable_pawns(b);
    let v = move_value(s, t, 0x1000);
    let su = s as u64;
    lemma_bitwise(b.piece_bits(1), own, su);
    lemma_bitwise(pawns, !diag, su);
    lemma_bitwise(diag, diag, su);
    lemma_bitwise(movable, orth, su);
    lemma_bitwise(movable, double_push_rank(stm), su);
    lemma_bitwise(double, !pinned, su);
    lemma_bitwise(double, pinned, su);
    lemma_bitwise(pinned, pinned, su);
    lemma_bitwise(mask, orth, t as u64);
    lemma_pawn_step_bits(su, m as u64);
    let mm = (s as usize ^ 24usize) as int;
    assert(mm == m);
    let r = if has_bit(orth, s) { mask & orth } else { mask };
    let first = |j: int| has_bit(pawn_push(stm, s), j) && !has_bit(b.side_bits(1 - stm), j) && has_bit(r, j);
    let second = |j: int| has_bit(pawn_push(stm, mm), j) && !has_bit(b.side_bits(1 - stm), j) && has_bit(r, j);
    assert(one_move(s, 0x1000)(t)[0] == v);
    lemma_moves_from_contains(second, one_move(s, 0x1000), 0, t, v);
    lemma_concat_contains(
        crate::movegen::moves_over(first, one_move(s, 0)),
        crate::movegen::moves_over(second, one_move(s, 0x1000)),
        v,
    );
    assert(double_step(b, r)(s).contains(v));
    let f1 = pawn_family(b, ((movable & !double) & !pinned) & !promo, false, mask, 0, false);
    let f2 = pawn_family(b, (pinned & !double) & !promo, false, mask & orth, 0, false);
    let f3 = pawn_family(b, (movable & !pinned) & promo, false, mask, 0, true);
    let f4 = crate::movegen::moves_over(bits_of(double & !pinned), double_step(b, mask));
    let f5 = crate::movegen::moves_over(bits_of(double & pinned), double_step(b, mask & orth));
    assert(pawn_quiet_moves(b, mask) == f1 + f2 + f3 + f4 + f5);
    if has_bit(orth, s) {
        lemma_moves_from_contains(bits_of(double & pinned), double_step(b, mask & orth), 0, s, v);
    } else {
        lemma_moves_from_contains(bits_of(double & !pinned), double_step(b, mask), 0, s, v);
        lemma_concat_contains(f1 + f2 + f3, f4, v);
    }
    lemma_concat_contains(f1 + f2 + f3 + f4, f5, v);
}

/// Every double step that leaves the king safe is listed: the move of a pawn of the side
/// to move from its starting rank two squares ahead, over an empty square to an empty
/// square, after which no piece of the other side attacks the king, is among the moves the
/// generator lists.
#[verifier::spinoff_prover]
#[verifier::rlimit(30)]
pub proof fn lemma_safe_double_steps_listed(b: Board, s: int, m: int, t: int, next: Board)
    requires
        b.wf(),
        generation_ready(b),
        b.derived_ok(),
        0 <= s < 64,
        0 <= m < 64,
        0 <= t < 64,
        has_bit(b.piece_bits(1), s),
        has_bit(b.side_bits(b.side_to_move@), s),
        has_bit(double_push_rank(b.side_to_move@), s),
        has_bit(pawn_push(b.side_to_move@, s), m),
        has_bit(pawn_push(b.side_to_move@, m), t),
        !b.occupied(m),
        !b.occupied(t),
        b.moves_to(flagged_move(s, t, 0x1000), next),
        !next.square_attacked(b.king_square(b.side_to_move@), 1 - b.side_to_move@, next.side_bits(0) | next.side_bits(1)),
    ensures
        generated_moves(b, false).contains(move_value(s, t, 0x1000)),
{
    let stm = b.side_to_move@;
    let own = b.side_bits(stm);
    let occ = b.side_bits(0) | b.side_bits(1);
    let mv = flagged_move(s, t, 0x1000);
    let v = mv.value;
    assert(b.square_wf(s));
    assert(b.square_wf(t));
    assert(!has_bit(b.piece_bits(6), s));
    lemma_flag_words();
    lemma_flagged_is_plain(b, s, t, 0x1000, next);
    lemma_safe_move_answers(b, mv, next);
    let mask = evasion_mask(b, false);
    assert(has_bit(mask, t)) by {
        if b.checkers@ == 0 {
            lemma_bitwise(own, own, t as u64);
        }
    }
    lemma_bitwise(b.side_bits(0), b.side_bits(1), m as u64);
    lemma_double_push_slides(stm, s, m, t, occ);
    lemma_pins_of_safe_move(b, mv, next, false);
    lemma_pawn_double_contains(b, s, m, t, mask);
    lemma_concat_contains(pawn_quiet_moves(b, mask), pawn_capture_moves(b, mask), v);
    lemma_generated_moves_contains_pawn(b, v);
}

/// Whether `pr` is the flag word of a promotion: to a knight, bishop, rook or queen.
pub open spec fn promotion_kind(pr: u16) -> bool {
    pr == 0x8000u16 || pr == 0x9000u16 || pr == 0xA000u16 || pr == 0xB000u16
}

/// The promotion of the pawn on `s` on reaching `t`, with the promotion flag word `pr`,
/// flagged a capture when `t` holds a piece of the side not to move.
pub open spec fn promotion_value(b: Board, s: int, t: int, pr: u16) -> u16 {
    move_value(s, t, pr | if has_bit(b.side_bits(1 - b.side_to_move@), t) { 0x4000u16 } else { 0u16 })
}

/// A pawn on the rank before the last cannot move along a rank or file pin onto the last
/// rank: the piece that pins it would stand beyond the edge of the board.
proof fn lemma_last_rank_pin(k: int, p: int, s: int, t: int)
    requires
        0 <= k < 64,
        0 <= p < 64,
        0 <= s < 64,
        0 <= t < 64,
        ray(k, p, s),
        t != p,
        (t == s + 8 && 56 <= t) || (t + 8 == s && t < 8),
    ensures
        !ray(k, p, t),
{
    lemma_square_coords(k);
    lemma_square_coords(p);
    lemma_square_coords(s);
    lemma_square_coords(t);
    let dr = sign(rank_of(p) - rank_of(k));
    let df = sign(file_of(p) - file_of(k));
    if ray(k, p, t) && steps(k, dr, df, t) == steps(k, dr, df, p) {
        lemma_same_steps(k, dr, df, t, p);
    }
}

/// The four promotions of a pawn move to `t` that `pawn_reach` allows are among the moves
/// of a promoting pawn family whose sources hold its square and whose restriction holds
/// `t`.
proof fn lemma_pawn_family_promotes(
    b: Board,
    sources: u64,
    capture: bool,
    restrict: u64,
    flags: u16,
    s: int,
    t: int,
    pr: u16,
)
    requires
        0 <= s < 64,
        0 <= t < 64,
        has_bit(sources, s),
        pawn_reach(b, capture, s, t),
        has_bit(restrict, t),
        promotion_kind(pr),
    ensures
        pawn_family(b, sources, capture, restrict, flags, true).contains(move_value(s, t, pr | flags)),
{
    let v = move_value(s, t, pr | flags);
    let pred = |j: int| pawn_reach(b, capture, s, j) && has_bit(restrict, j);
    let four = promotions(s, flags)(t);
    if pr == 0x8000u16 {
        assert(four[0] == v);
    } else if pr == 0x9000u16 {
        assert(four[1] == v);
    } else if pr == 0xA000u16 {
        assert(four[2] == v);
    } else {
        assert(four[3] == v);
    }
    lemma_moves_from_contains(pred, promotions(s, flags), 0, t, v);
    assert(pawn_square_moves(b, capture, restrict, flags, true)(s) == crate::movegen::moves_over(pred, promotions(s, flags)));
    lemma_moves_from_contains(bits_of(sources), pawn_square_moves(b, capture, restrict, flags, true), 0, s, v);
}

/// Every promotion that leaves the king safe is listed: the step of a pawn of the side to
/// move from the rank before the last, straight ahead to an empty square or diagonally
/// ahead onto a piece of the other side, as a promotion to any of the four pieces, after
/// which no piece of the other side attacks the king, is among the moves the generator
/// lists.
#[verifier::spinoff_prover]
#[verifier::rlimit(40)]
pub proof fn lemma_safe_promotions_listed(b: Board, s: int, t: int, pr: u16, next: Board)
    requires
        b.wf(),
        generation_ready(b),
        b.derived_ok(),
        0 <= s < 64,
        0 <= t < 64,
        has_bit(b.piece_bits(1), s),
        has_bit(b.side_bits(b.side_to_move@), s),
        has_bit(promotion_rank(b.side_to_move@), s),
        pawn_single_step(b, s, t),
        promotion_kind(pr),
        b.moves_to(flagged_move(s, t, pr | if has_bit(b.side_bits(1 - b.side_to_move@), t) { 0x4000u16 } else { 0u16 }), next),
        !next.square_attacked(b.king_square(b.side_to_move@), 1 - b.side_to_move@, next.side_bits(0) | next.side_bits(1)),
    ensures
        generated_moves(b, false).contains(promotion_value(b, s, t, pr)),
{
    let stm = b.side_to_move@;
    let k = b.king_square(stm);
    let own = b.side_bits(stm);
    let occ = b.side_bits(0) | b.side_bits(1);
    let fl = if has_bit(b.side_bits(1 - stm), t) { 0x4000u16 } else { 0u16 };
    let flags = pr | fl;
    let mv = flagged_move(s, t, flags);
    let v = mv.value;
    assert(b.square_wf(s));
    assert(b.square_wf(t));
    assert(!has_bit(b.piece_bits(6), s));
    assert(!has_bit(own, t));
    lemma_flag_words();
    crate::core_structs::lemma_promotion_words();
    assert((flags & 0x0FFFu16) == 0);
    assert((flags & 0x8000u16) != 0);
    lemma_flagged_is_plain(b, s, t, flags, next);
    lemma_safe_move_answers(b, mv, next);
    lemma_clear_lowest(b.piece_bits(6) & own);
    lemma_bitwise(b.piece_bits(6), own, k as u64);
    assert(b.square_wf(k));
    let mask = evasion_mask(b, false);
    assert(has_bit(mask, t)) by {
        if b.checkers@ == 0 {
            lemma_bitwise(own, own, t as u64);
        }
    }
    let orth = b.ortographic_pins@;
    let diag = b.diagonal_pins@;
    let promo = promotion_rank(stm);
    let su = s as u64;
    lemma_bitwise(b.piece_bits(1), own, su);
    if has_bit(pawn_push(stm, s), t) && !b.occupied(t) {
        lemma_push_slides(stm, s, t, occ);
        lemma_pins_of_safe_move(b, mv, next, false);
        assert(!has_bit(orth, s)) by {
            if has_bit(orth, s) {
                let p = lemma_pin_of_square(b, true, s);
                assert(b.pin_line(true, p, mv.from_of()));
                assert(ray(k, p, t));
                assert(p != t);
                lemma_pawn_step_bits(su, t as u64);
                lemma_last_rank_pin(k, p, s, t);
            }
        }
        let pawns = crate::movegen::pawn_set(b);
        let movable = crate::movegen::movable_pawns(b);
        let pinned = crate::movegen::movable_pinned_pawns(b);
        let double = crate::movegen::double_pushable_pawns(b);
        lemma_bitwise(pawns, !diag, su);
        lemma_bitwise(diag, diag, su);
        lemma_bitwise(movable, orth, su);
        lemma_bitwise(movable, !pinned, su);
        lemma_bitwise(pinned, pinned, su);
        lemma_bitwise(movable & !pinned, promo, su);
        assert(pawn_reach(b, false, s, t));
        lemma_pawn_family_promotes(b, (movable & !pinned) & promo, false, mask, 0, s, t, pr);
        let f1 = pawn_family(b, ((movable & !double) & !pinned) & !promo, false, mask, 0, false);
        let f2 = pawn_family(b, (pinned & !double) & !promo, false, mask & orth, 0, false);
        let f3 = pawn_family(b, (movable & !pinned) & promo, false, mask, 0, true);
        let f4 = crate::movegen::moves_over(bits_of(double & !pinned), double_step(b, mask));
        let f5 = crate::movegen::moves_over(bits_of(double & pinned), double_step(b, mask & orth));
        assert(pawn_quiet_moves(b, mask) == f1 + f2 + f3 + f4 + f5);
        lemma_concat_contains(f1 + f2, f3, v);
        lemma_concat_contains(f1 + f2 + f3, f4, v);
        lemma_concat_contains(f1 + f2 + f3 + f4, f5, v);
    } else {
        lemma_pawn_attack_slides(stm, s, t, occ);
        lemma_pins_of_safe_move(b, mv, next, true);
        let pawns = crate::movegen::pawn_set(b);
        let agressive = crate::movegen::agressive_pawns(b);
        let pinned = crate::movegen::agressive_pinned_pawns(b);
        lemma_bitwise(pawns, !orth, su);
        lemma_bitwise(orth, orth, su);
        lemma_bitwise(agressive, diag, su);
        lemma_bitwise(agressive, !pinned, su);
        lemma_bitwise(pinned, pinned, su);
        lemma_bitwise(agressive & !pinned, promo, su);
        lemma_bitwise(pinned, promo, su);
        lemma_bitwise(mask, diag, t as u64);
        assert(pawn_reach(b, true, s, t));
        let ep = b.en_passant@;
        let c1 = pawn_family(b, (agressive & !pinned) & !promo, true, mask, 0x4000, false);
        let c2 = pawn_family(b, pinned & !promo, true, mask & diag, 0x4000, false);
        let c3 = pawn_family(b, (agressive & !pinned) & promo, true, mask, 0x4000, true);
        let c4 = pawn_family(b, pinned & promo, true, mask & diag, 0x4000, true);
        let c5: Seq<u16> = if ep == 64 {
            Seq::empty()
        } else {
            crate::movegen::moves_over(bits_of(agressive & !pinned), crate::movegen::en_passant_step(b, mask, single_bit(ep)))
                + crate::movegen::moves_over(
                bits_of(pinned),
                crate::movegen::en_passant_step(b, mask, single_bit(ep) & diag),
            )
        };
        assert(pawn_capture_moves(b, mask) == c1 + c2 + c3 + c4 + c5);
        if has_bit(diag, s) {
            lemma_pawn_family_promotes(b, pinned & promo, true, mask & diag, 0x4000, s, t, pr);
            lemma_concat_contains(c1 + c2 + c3, c4, v);
        } else {
            lemma_pawn_family_promotes(b, (agressive & !pinned) & promo, true, mask, 0x4000, s, t, pr);
            lemma_concat_contains(c1 + c2, c3, v);
            lemma_concat_contains(c1 + c2 + c3, c4, v);
        }
        lemma_concat_contains(c1 + c2 + c3 + c4, c5, v);
    }
    lemma_concat_contains(pawn_quiet_moves(b, mask), pawn_capture_moves(b, mask), v);
    lemma_generated_moves_contains_pawn(b, v);
}

/// Every king step the king survives is listed: a step of the king of the side to move to
/// a square next to it that its side does not hold, after which no piece of the other
/// side attacks the king on that square, is among the moves the generator lists.
pub proof fn lemma_safe_king_steps_listed(b: Board, t: int, next: Board)
    requires
        b.wf(),
        generation_ready(b),
        0 <= t < 64,
        king_attack(b.king_square(b.side_to_move@), t),
        !has_bit(b.side_bits(b.side_to_move@), t),
        b.moves_to(step_move(b, b.king_square(b.side_to_move@), t), next),
        !next.square_attacked(t, 1 - b.side_to_move@, next.side_bits(0) | next.side_bits(1)),
    ensures
        generated_moves(b, false).contains(step_value(b, b.king_square(b.side_to_move@), t)),
{
    let v = step_value(b, b.king_square(b.side_to_move@), t);
    lemma_safe_king_step_in_king_moves(b, t, next);
    if !double_check(b) {
        let mask = evasion_mask(b, false);
        let castle_part = if b.checkers@ == 0 {
            crate::movegen::castle_moves(b)
        } else {
            Seq::empty()
        };
        let whole = king_moves(b) + castle_part + pawn_moves(b, mask) + knight_moves(b, mask)
            + crate::movegen::bishop_moves(b, mask) + crate::movegen::rook_moves(b, mask);
        let i = choose|i: int| 0 <= i < king_moves(b).len() && #[trigger] king_moves(b)[i] == v;
        assert(whole[i] == v);
    }
}

/// The squares on the ray from the king's starting square to a square of its side's first
/// rank (`off` is 0 or 56) lie on that rank between the two squares.
proof fn lemma_home_rank_ray(off: int, to: int, j: int)
    requires
        off == 0 || off == 56,
        off <= to < off + 8,
        to != 4 + off,
        0 <= j < 64,
        ray(4 + off, to, j),
    ensures
        off <= j < off + 8,
        to > 4 + off ==> 4 + off < j <= to,
        to < 4 + off ==> to <= j < 4 + off,
{
    lemma_square_coords(j);
    lemma_square_coords(to);
    lemma_square_coords(4 + off);
}

/// Every castle the rules allow is listed: when the side to move holds the right to castle
/// on the king side (`king_side`) or the queen side, its king stands on its starting
/// square, the squares between the king and the rook's corner are empty, and no piece of
/// the other side attacks the king's square or the squares it crosses and reaches, the
/// castle is among the moves the generator lists.
#[verifier::spinoff_prover]
#[verifier::rlimit(30)]
pub proof fn lemma_allowed_castles_listed(b: Board, king_side: bool)
    requires
        b.wf(),
        generation_ready(b),
        b.derived_ok(),
        b.castle_rights.has(if king_side { 2 * b.side_to_move@ } else { 2 * b.side_to_move@ + 1 }),
        b.king_square(b.side_to_move@) == 4 + 56 * b.side_to_move@,
        king_side ==> !b.occupied(5 + 56 * b.side_to_move@) && !b.occupied(6 + 56 * b.side_to_move@),
        !king_side ==> !b.occupied(1 + 56 * b.side_to_move@) && !b.occupied(2 + 56 * b.side_to_move@) && !b.occupied(
            3 + 56 * b.side_to_move@,
        ),
        !b.square_attacked(b.king_square(b.side_to_move@), 1 - b.side_to_move@, b.side_bits(0) | b.side_bits(1)),
        king_side ==> !b.square_attacked(5 + 56 * b.side_to_move@, 1 - b.side_to_move@, b.side_bits(0) | b.side_bits(1))
            && !b.square_attacked(6 + 56 * b.side_to_move@, 1 - b.side_to_move@, b.side_bits(0) | b.side_bits(1)),
        !king_side ==> !b.square_attacked(3 + 56 * b.side_to_move@, 1 - b.side_to_move@, b.side_bits(0) | b.side_bits(1))
            && !b.square_attacked(2 + 56 * b.side_to_move@, 1 - b.side_to_move@, b.side_bits(0) | b.side_bits(1)),
    ensures
        generated_moves(b, false).contains(
            move_value(
                4 + 56 * b.side_to_move@,
                if king_side { 6 + 56 * b.side_to_move@ } else { 2 + 56 * b.side_to_move@ },
                if king_side { 0x2000u16 } else { 0x3000u16 },
            ),
        ),
{
    let stm = b.side_to_move@;
    let off = 56 * stm;
    let k = b.king_square(stm);
    let occ = b.side_bits(0) | b.side_bits(1);
    let c = b.checkers@;
    let dest = if king_side { 6 + off } else { 2 + off };
    let rook = if king_side { 7 + off } else { off };
    let v = move_value(k, dest, if king_side { 0x2000u16 } else { 0x3000u16 });
    // Not in check: no piece gives check.
    assert forall|j: int| 0 <= j < 64 implies !#[trigger] has_bit(c, j) by {
        assert(b.checkers.contains(j) == b.is_checker(j));
    }
    lemma_nonzero(c);
    assert(c == 0);
    crate::bitboard::lemma_zero_bits();
    assert(!double_check(b));
    assert(castle_path_ok(b, dest, rook)) by {
        assert forall|j: int|
            0 <= j < 64 && (ray(k, dest, j) || j == dest || ray(k, rook, j)) && j != rook implies !#[trigger] b.occupied(
            j,
        ) by {
            if ray(k, dest, j) {
                lemma_home_rank_ray(off, dest, j);
            }
            if ray(k, rook, j) {
                lemma_home_rank_ray(off, rook, j);
            }
        }
        assert forall|j: int| 0 <= j < 64 && (ray(k, dest, j) || j == dest) implies !#[trigger] b.square_attacked(
            j,
            1 - stm,
            occ,
        ) by {
            if ray(k, dest, j) {
                lemma_home_rank_ray(off, dest, j);
            }
        }
    }
    let first: Seq<u16> = if b.castle_rights.has(2 * stm) && castle_path_ok(b, 6 + off, 7 + off) {
        seq![move_value(k, 6 + off, 0x2000u16)]
    } else {
        Seq::empty()
    };
    let second: Seq<u16> = if b.castle_rights.has(2 * stm + 1) && castle_path_ok(b, 2 + off, off) {
        seq![move_value(k, 2 + off, 0x3000u16)]
    } else {
        Seq::empty()
    };
    assert(crate::movegen::castle_moves(b) == first + second);
    if king_side {
        assert(first[0] == v);
    } else {
        assert(second[0] == v);
    }
    lemma_concat_contains(first, second, v);
    let mask = evasion_mask(b, false);
    let head = king_moves(b) + crate::movegen::castle_moves(b);
    lemma_concat_contains(king_moves(b), crate::movegen::castle_moves(b), v);
    lemma_concat_contains(head, pawn_moves(b, mask), v);
    lemma_concat_contains(head + pawn_moves(b, mask), knight_moves(b, mask), v);
    lemma_concat_contains(head + pawn_moves(b, mask) + knight_moves(b, mask), crate::movegen::bishop_moves(b, mask), v);
    lemma_concat_contains(
        head + pawn_moves(b, mask) + knight_moves(b, mask) + crate::movegen::bishop_moves(b, mask),
        crate::movegen::rook_moves(b, mask),
        v,
    );
}

/// The square of the pawn an en passant capture takes.
pub open spec fn en_passant_target(b: Board) -> int {
    ((b.en_passant@ as usize) ^ 8usize) as int
}

/// A pawn that a line pins exposes its king when it takes en passant off that line: the
/// piece that pins it then attacks the king.
#[verifier::spinoff_prover]
#[verifier::rlimit(30)]
proof fn lemma_en_passant_pinner_exposed(b: Board, s: int, next: Board, orthogonal: bool, p: int)
    requires
        b.wf(),
        generation_ready(b),
        b.en_passant@ < 64,
        !b.occupied(b.en_passant@),
        0 <= s < 64,
        has_bit(b.side_bits(b.side_to_move@), s),
        has_bit(b.piece_bits(1), s),
        has_bit(b.piece_bits(1), en_passant_target(b)),
        has_bit(b.side_bits(1 - b.side_to_move@), en_passant_target(b)),
        b.moves_to(flagged_move(s, b.en_passant@, 0x5000), next),
        0 <= p < 64,
        b.pin_line(orthogonal, p, s),
        !ray(b.king_square(b.side_to_move@), p, b.en_passant@),
    ensures
        next.attacks_square_from(
            p,
            b.king_square(b.side_to_move@),
            1 - b.side_to_move@,
            next.side_bits(0) | next.side_bits(1),
        ),
{
    let stm = b.side_to_move@;
    let opp = 1 - stm;
    let k = b.king_square(stm);
    let own = b.side_bits(stm);
    let opp_occ = b.side_bits(opp);
    let occ = b.side_bits(0) | b.side_bits(1);
    let occ_next = next.side_bits(0) | next.side_bits(1);
    let ep = b.en_passant@;
    let target = en_passant_target(b);
    b.en_passant.lemma_index_nonnegative();
    assert(b.square_wf(target));
    assert(!has_bit(own, target));
    crate::legality::lemma_en_passant_after(b, s, next);
    assert(b.square_wf(p));
    assert(b.square_wf(ep));
    assert(b.square_wf(s));
    lemma_bitwise(b.side_bits(0), b.side_bits(1), ep as u64);
    assert(p != s && p != ep && p != target);
    let i = choose|i: int|
        0 <= i < 64 && #[trigger] ray(k, p, i) && has_bit(own, i) && forall|j: int|
            0 <= j < 64 && ray(k, p, j) && has_bit(own, j) ==> j == i;
    assert(i == s);
    if orthogonal {
        let (d, f) = choose|d: int, f: int| is_orthogonal(d, f) && #[trigger] slides_to(k, d, f, opp_occ, p);
        lemma_en_passant_pin_path(b, s, next, p, d, f);
    } else {
        let (d, f) = choose|d: int, f: int| is_diagonal(d, f) && #[trigger] slides_to(k, d, f, opp_occ, p);
        lemma_en_passant_pin_path(b, s, next, p, d, f);
    }
    lemma_single_bit_update(opp_occ, target as u64, p as u64);
    assert(has_bit(next.side_bits(opp), p));
    assert(has_bit(next.piece_bits(3), p) == has_bit(b.piece_bits(3), p));
    assert(has_bit(next.piece_bits(4), p) == has_bit(b.piece_bits(4), p));
    assert(has_bit(next.piece_bits(5), p) == has_bit(b.piece_bits(5), p));
    if orthogonal {
        assert(rook_attack(k, occ_next, p));
    } else {
        assert(bishop_attack(k, occ_next, p));
    }
}

/// The line from the king to a piece that pins a pawn holds nothing once the pawn has
/// taken en passant off that line.
proof fn lemma_en_passant_pin_path(b: Board, s: int, next: Board, p: int, d: int, f: int)
    requires
        b.wf(),
        generation_ready(b),
        b.en_passant@ < 64,
        !b.occupied(b.en_passant@),
        0 <= s < 64,
        0 <= p < 64,
        has_bit(b.side_bits(b.side_to_move@), s),
        has_bit(b.side_bits(1 - b.side_to_move@), en_passant_target(b)),
        next.side_bits(0) | next.side_bits(1) == (((b.side_bits(0) | b.side_bits(1)) & !single_bit(en_passant_target(b)))
            & !single_bit(s)) | single_bit(b.en_passant@),
        is_orthogonal(d, f) || is_diagonal(d, f),
        slides_to(b.king_square(b.side_to_move@), d, f, b.side_bits(1 - b.side_to_move@), p),
        ray(b.king_square(b.side_to_move@), p, s),
        !ray(b.king_square(b.side_to_move@), p, b.en_passant@),
        forall|j: int|
            0 <= j < 64 && ray(b.king_square(b.side_to_move@), p, j) && #[trigger] has_bit(
                b.side_bits(b.side_to_move@),
                j,
            ) ==> j == s,
    ensures
        slides_to(b.king_square(b.side_to_move@), d, f, next.side_bits(0) | next.side_bits(1), p),
{
    let stm = b.side_to_move@;
    let k = b.king_square(stm);
    let own = b.side_bits(stm);
    let opp_occ = b.side_bits(1 - stm);
    let occ = b.side_bits(0) | b.side_bits(1);
    let occ_next = next.side_bits(0) | next.side_bits(1);
    let ep = b.en_passant@;
    let target = en_passant_target(b);
    b.en_passant.lemma_index_nonnegative();
    let n = steps(k, d, f, p);
    lemma_slide_direction(k, d, f, p);
    assert forall|m: int| 1 <= m < n implies !#[trigger] has_bit(occ_next, point(k, d, f, m)) by {
        let j = point(k, d, f, m);
        lemma_point_between(k, d, f, p, m);
        assert(ray(k, p, j));
        lemma_slide_between(k, d, f, opp_occ, p, j);
        lemma_bitwise(b.side_bits(0), b.side_bits(1), j as u64);
        lemma_single_bit_update(occ, target as u64, j as u64);
        lemma_single_bit_update(occ & !single_bit(target), s as u64, j as u64);
        lemma_single_bit_update((occ & !single_bit(target)) & !single_bit(s), ep as u64, j as u64);
        assert(j != ep);
        if j != s {
            assert(!has_bit(own, j));
        }
    }
    lemma_path_free(k, d, f, occ_next, n);
}

/// Every en passant capture that leaves the king safe is listed, unless the side to move
/// is in check from a piece other than the pawn it takes: the capture by a pawn of the side
/// to move of the pawn of the other side behind the en passant square, landing on that
/// empty square, which it attacks, after which no piece of the other side attacks the
/// king, is among the moves the generator lists when the side to move is not in check or
/// the taken pawn is the one piece that gives check.
#[verifier::spinoff_prover]
#[verifier::rlimit(60)]
pub proof fn lemma_safe_en_passant_listed(b: Board, s: int, next: Board)
    requires
        b.wf(),
        generation_ready(b),
        b.derived_ok(),
        b.en_passant@ < 64,
        !b.occupied(b.en_passant@),
        0 <= s < 64,
        has_bit(b.piece_bits(1), s),
        has_bit(b.side_bits(b.side_to_move@), s),
        pawn_attack(b.side_to_move@, s, b.en_passant@),
        has_bit(b.piece_bits(1), en_passant_target(b)),
        has_bit(b.side_bits(1 - b.side_to_move@), en_passant_target(b)),
        b.checkers@ == 0 || b.checkers@ == single_bit(en_passant_target(b)),
        b.moves_to(flagged_move(s, b.en_passant@, 0x5000), next),
        !next.square_attacked(b.king_square(b.side_to_move@), 1 - b.side_to_move@, next.side_bits(0) | next.side_bits(1)),
    ensures
        generated_moves(b, false).contains(move_value(s, b.en_passant@, 0x5000)),
{
    let stm = b.side_to_move@;
    let opp = 1 - stm;
    let k = b.king_square(stm);
    let own = b.side_bits(stm);
    let occ = b.side_bits(0) | b.side_bits(1);
    let occ_next = next.side_bits(0) | next.side_bits(1);
    let ep = b.en_passant@;
    let target = en_passant_target(b);
    let c = b.checkers@;
    let v = move_value(s, ep, 0x5000);
    b.en_passant.lemma_index_nonnegative();
    assert(b.square_wf(target));
    assert(b.square_wf(s));
    assert(!has_bit(own, target));
    crate::legality::lemma_en_passant_after(b, s, next);
    lemma_clear_lowest(b.piece_bits(6) & own);
    lemma_bitwise(b.piece_bits(6), own, k as u64);
    assert(b.square_wf(k));
    let mask = evasion_mask(b, false);
    // At most the taken pawn gives check.
    if c != 0 {
        lemma_clear_lowest(c);
        let tz = u64_trailing_zeros(c) as int;
        lemma_single_bit_update(0, target as u64, tz as u64);
        assert(tz == target);
        let rest = c & ((c - 1) as u64);
        assert forall|j: int| 0 <= j < 64 implies !has_bit(rest, j) by {
            lemma_single_bit_update(c, tz as u64, j as u64);
            lemma_single_bit_update(0, target as u64, j as u64);
        }
        lemma_nonzero(rest);
        assert(!double_check(b));
        lemma_squares_mask(|jj: int| ray(k, target, jj), 64, target);
        lemma_single_bit_update(0, target as u64, target as u64);
        lemma_bitwise(ray_mask(k, target), single_bit(target), target as u64);
        assert(has_bit(mask, target));
    } else {
        lemma_bitwise(own, own, target as u64);
        assert(has_bit(mask, target));
    }
    lemma_pawn_attack_slides(stm, s, ep, occ);
    // No rank or file pins the pawn.
    assert(!has_bit(b.ortographic_pins@, s)) by {
        if has_bit(b.ortographic_pins@, s) {
            let p = lemma_pin_of_square(b, true, s);
            lemma_pinner_direction(b, true, p, s);
            lemma_cross_slide_leaves_line(k, p, s, ep, occ, true);
            lemma_en_passant_pinner_exposed(b, s, next, true, p);
            assert(next.attacks_square_from(p, k, opp, occ_next));
        }
    }
    // A diagonal pin keeps the pawn on its diagonal.
    assert(has_bit(b.diagonal_pins@, s) ==> has_bit(b.diagonal_pins@, ep)) by {
        if has_bit(b.diagonal_pins@, s) {
            let p = lemma_pin_of_square(b, false, s);
            if !ray(k, p, ep) {
                lemma_en_passant_pinner_exposed(b, s, next, false, p);
                assert(next.attacks_square_from(p, k, opp, occ_next));
            }
            assert(crate::board::pin_line_at(false, k, own, b.side_bits(opp), b.piece_bits(3), b.piece_bits(5), p, ep));
            assert(b.is_pinned_square(false, ep));
            assert(b.diagonal_pins.contains(ep));
        }
    }
    // No slider of the other side sees the king once both pawns have moved.
    let occ_ep = ((occ & !single_bit(target)) & !single_bit(s)) | single_bit(ep);
    assert(occ_ep == occ_next);
    let bq = (b.piece_bits(3) & b.side_bits(opp)) | (b.piece_bits(5) & b.side_bits(opp));
    let rq = (b.piece_bits(4) & b.side_bits(opp)) | (b.piece_bits(5) & b.side_bits(opp));
    assert forall|j: int| 0 <= j < 64 && #[trigger] bishop_attack(k, occ_ep, j) implies !has_bit(bq, j) by {
        if has_bit(bq, j) {
            lemma_bitwise(b.piece_bits(3) & b.side_bits(opp), b.piece_bits(5) & b.side_bits(opp), j as u64);
            lemma_bitwise(b.piece_bits(3), b.side_bits(opp), j as u64);
            lemma_bitwise(b.piece_bits(5), b.side_bits(opp), j as u64);
            assert(b.square_wf(j));
            lemma_bitwise(b.side_bits(0), b.side_bits(1), ep as u64);
            assert(j != target && j != s && j != ep);
            lemma_single_bit_update(b.side_bits(opp), target as u64, j as u64);
            assert(has_bit(next.piece_bits(3), j) == has_bit(b.piece_bits(3), j));
            assert(has_bit(next.piece_bits(5), j) == has_bit(b.piece_bits(5), j));
            assert(next.attacks_square_from(j, k, opp, occ_next));
        }
    }
    assert forall|j: int| 0 <= j < 64 && #[trigger] rook_attack(k, occ_ep, j) implies !has_bit(rq, j) by {
        if has_bit(rq, j) {
            lemma_bitwise(b.piece_bits(4) & b.side_bits(opp), b.piece_bits(5) & b.side_bits(opp), j as u64);
            lemma_bitwise(b.piece_bits(4), b.side_bits(opp), j as u64);
            lemma_bitwise(b.piece_bits(5), b.side_bits(opp), j as u64);
            assert(b.square_wf(j));
            lemma_bitwise(b.side_bits(0), b.side_bits(1), ep as u64);
            assert(j != target && j != s && j != ep);
            lemma_single_bit_update(b.side_bits(opp), target as u64, j as u64);
            assert(has_bit(next.piece_bits(4), j) == has_bit(b.piece_bits(4), j));
            assert(has_bit(next.piece_bits(5), j) == has_bit(b.piece_bits(5), j));
            assert(next.attacks_square_from(j, k, opp, occ_next));
        }
    }
    assert(crate::movegen::en_passant_ok(b, s, mask));
    lemma_en_passant_contains(b, s, mask);
    lemma_concat_contains(pawn_quiet_moves(b, mask), pawn_capture_moves(b, mask), v);
    lemma_generated_moves_contains_pawn(b, v);
}

/// The en passant capture of a pawn that no rank or file pins, and that a diagonal pin
/// keeps on its diagonal, is among the pawn captures for a mask when the capture is
/// allowed.
#[verifier::spinoff_prover]
#[verifier::rlimit(30)]
proof fn lemma_en_passant_contains(b: Board, s: int, mask: u64)
    requires
        b.en_passant@ < 64,
        0 <= s < 64,
        has_bit(b.piece_bits(1), s),
        has_bit(b.side_bits(b.side_to_move@), s),
        pawn_attack(b.side_to_move@, s, b.en_passant@),
        !has_bit(b.ortographic_pins@, s),
        has_bit(b.diagonal_pins@, s) ==> has_bit(b.diagonal_pins@, b.en_passant@),
        crate::movegen::en_passant_ok(b, s, mask),
    ensures
        pawn_capture_moves(b, mask).contains(move_value(s, b.en_passant@, 0x5000)),
{
    let stm = b.side_to_move@;
    let own = b.side_bits(stm);
    let orth = b.ortographic_pins@;
    let diag = b.diagonal_pins@;
    let promo = promotion_rank(stm);
    let pawns = crate::movegen::pawn_set(b);
    let agressive = crate::movegen::agressive_pawns(b);
    let pinned = crate::movegen::agressive_pinned_pawns(b);
    let ep = b.en_passant@;
    let v = move_value(s, ep, 0x5000);
    let su = s as u64;
    b.en_passant.lemma_index_nonnegative();
    lemma_bitwise(b.piece_bits(1), own, su);
    lemma_bitwise(pawns, !orth, su);
    lemma_bitwise(orth, orth, su);
    lemma_bitwise(agressive, diag, su);
    lemma_bitwise(agressive, !pinned, su);
    lemma_bitwise(pinned, pinned, su);
    lemma_single_bit_update(0, ep as u64, ep as u64);
    lemma_bitwise(single_bit(ep), diag, ep as u64);
    let r = if has_bit(diag, s) { single_bit(ep) & diag } else { single_bit(ep) };
    let t = |j: int| pawn_attack(stm, s, j) && has_bit(r, j);
    assert(one_move(s, 0x5000)(ep)[0] == v);
    lemma_moves_from_contains(t, one_move(s, 0x5000), 0, ep, v);
    assert(crate::movegen::en_passant_step(b, mask, r)(s).contains(v));
    let c1 = pawn_family(b, (agressive & !pinned) & !promo, true, mask, 0x4000, false);
    let c2 = pawn_family(b, pinned & !promo, true, mask & diag, 0x4000, false);
    let c3 = pawn_family(b, (agressive & !pinned) & promo, true, mask, 0x4000, true);
    let c4 = pawn_family(b, pinned & promo, true, mask & diag, 0x4000, true);
    let x1 = crate::movegen::moves_over(bits_of(agressive & !pinned), crate::movegen::en_passant_step(b, mask, single_bit(ep)));
    let x2 = crate::movegen::moves_over(bits_of(pinned), crate::movegen::en_passant_step(b, mask, single_bit(ep) & diag));
    assert(pawn_capture_moves(b, mask) == c1 + c2 + c3 + c4 + (x1 + x2));
    if has_bit(diag, s) {
        lemma_moves_from_contains(bits_of(pinned), crate::movegen::en_passant_step(b, mask, single_bit(ep) & diag), 0, s, v);
    } else {
        lemma_moves_from_contains(bits_of(agressive & !pinned), crate::movegen::en_passant_step(b, mask, single_bit(ep)), 0, s, v);
    }
    lemma_concat_contains(x1, x2, v);
    lemma_concat_contains(c1 + c2 + c3 + c4, x1 + x2, v);
}

} // verus!
