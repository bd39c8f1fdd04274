use vstd::prelude::*;

use crate::bitboard::{has_bit, lemma_bitwise, lemma_clear_lowest, single_bit};
use crate::board::Board;
use crate::capture_generation::lemma_square_coords;
use crate::core_structs::{lemma_flag_words, lemma_move_value_fields, Move};
use crate::geometry::{
    bishop_attack, is_diagonal, is_orthogonal, lemma_path_clear_prefix, path_clear, point, rook_attack, slider_attack,
    slides_to, steps,
};
use crate::king_safety::lemma_path_free;
use crate::movegen::{
    agressive_pawns, agressive_pinned_pawns, bishop_moves, bits_of, castle_moves, castle_path_ok, double_check,
    double_pushable_pawns, double_step, en_passant_step, evasion_mask, generated_moves, generation_ready,
    king_captures, king_moves, king_step, knight_moves, knight_square_moves, movable_pawns, movable_pinned_pawns,
    move_value, moves_over, one_move, pawn_capture_moves, pawn_family, pawn_moves, pawn_quiet_moves,
    pawn_square_moves, piece_moves, promotion_rank, promotions, rook_moves, slider_square_moves,
};
use crate::movegen_laws::{all_moves, lemma_all_concat, lemma_moves_over_all};

verus! {

/// A slider that reaches `t` from `s` along `(d, f)` is reached from `t` along the way
/// back: the squares between are the same.
proof fn lemma_slide_reverse(s: int, d: int, f: int, occ: u64, t: int)
    requires
        0 <= s < 64,
        0 <= t < 64,
        is_diagonal(d, f) || is_orthogonal(d, f),
        slides_to(s, d, f, occ, t),
    ensures
        slides_to(t, -d, -f, occ, s),
{
    let n = steps(s, d, f, t);
    lemma_square_coords(s);
    lemma_square_coords(t);
    assert(steps(t, -d, -f, s) == n);
    assert forall|m: int| 1 <= m < n implies !#[trigger] has_bit(occ, point(t, -d, -f, m)) by {
        assert(point(t, -d, -f, m) == point(s, d, f, n - m));
        lemma_path_clear_prefix(s, d, f, occ, n, n - m + 1);
        assert(path_clear(s, d, f, occ, n - m + 1));
    }
    lemma_path_free(t, -d, -f, occ, n);
}

/// Whether the move of value `v` lands on a square its side does not hold, and takes a
/// piece of the other side only on a square its piece attacks, en passant aside.
pub open spec fn capture_seen(b: Board, v: u16) -> bool {
    let mv = Move { value: v };
    let stm = b.side_to_move@;
    &&& !has_bit(b.side_bits(stm), mv.to_of())
    &&& {
        ||| mv.flags_of() == 0x5000u16
        ||| !has_bit(b.side_bits(1 - stm), mv.to_of())
        ||| b.attacks_square_from(mv.from_of(), mv.to_of(), stm, b.side_bits(0) | b.side_bits(1))
    }
}

/// Moves from `s` to squares of `targets` take pieces only on squares the piece on `s`
/// attacks when every target holding a piece of the other side is one.
proof fn lemma_targets_seen(b: Board, s: int, targets: spec_fn(int) -> bool, flags: u16, promote: bool)
    requires
        0 <= s < 64,
        flags & 0x0FFFu16 == 0,
        forall|t: int|
            0 <= t < 64 && #[trigger] targets(t) && has_bit(b.side_bits(1 - b.side_to_move@), t)
                ==> b.attacks_square_from(s, t, b.side_to_move@, b.side_bits(0) | b.side_bits(1)),
        forall|t: int| 0 <= t < 64 && #[trigger] targets(t) ==> !has_bit(b.side_bits(b.side_to_move@), t),
    ensures
        all_moves(
            moves_over(targets, if promote { promotions(s, flags) } else { one_move(s, flags) }),
            |v: u16| capture_seen(b, v),
        ),
{
    let seen = |v: u16| capture_seen(b, v);
    let h = if promote { promotions(s, flags) } else { one_move(s, flags) };
    lemma_flag_words();
    assert forall|t: int| 0 <= t < 64 && #[trigger] targets(t) implies all_moves(h(t), seen) by {
        lemma_move_value_fields(s as u16, t as u16, flags);
        if promote {
            lemma_move_value_fields(s as u16, t as u16, 0x8000u16 | flags);
            lemma_move_value_fields(s as u16, t as u16, 0x9000u16 | flags);
            lemma_move_value_fields(s as u16, t as u16, 0xA000u16 | flags);
            lemma_move_value_fields(s as u16, t as u16, 0xB000u16 | flags);
            assert(h(t) == promotions(s, flags)(t));
        } else {
            assert(h(t) == one_move(s, flags)(t));
        }
    }
    lemma_moves_over_all(targets, h, seen);
}

/// The moves of the piece on `s` to squares of `targets` take pieces only on squares it
/// attacks when every target is one it attacks.
proof fn lemma_piece_moves_seen(b: Board, s: int, targets: spec_fn(int) -> bool)
    requires
        b.wf(),
        0 <= s < 64,
        forall|t: int|
            0 <= t < 64 && #[trigger] targets(t) ==> b.attacks_square_from(
                s,
                t,
                b.side_to_move@,
                b.side_bits(0) | b.side_bits(1),
            ),
    ensures
        all_moves(piece_moves(b, s, targets), |v: u16| capture_seen(b, v)),
{
    let quiet = |j: int| targets(j) && !b.occupied(j);
    let captures = |j: int| targets(j) && has_bit(b.side_bits(1 - b.side_to_move@), j);
    lemma_flag_words();
    assert forall|t: int| 0 <= t < 64 && #[trigger] quiet(t) && has_bit(b.side_bits(1 - b.side_to_move@), t) implies b.attacks_square_from(
        s,
        t,
        b.side_to_move@,
        b.side_bits(0) | b.side_bits(1),
    ) by {
        assert(targets(t));
    }
    assert forall|t: int| 0 <= t < 64 && #[trigger] captures(t) && has_bit(b.side_bits(1 - b.side_to_move@), t) implies b.attacks_square_from(
        s,
        t,
        b.side_to_move@,
        b.side_bits(0) | b.side_bits(1),
    ) by {
        assert(targets(t));
    }
    assert forall|t: int| 0 <= t < 64 && #[trigger] captures(t) implies !has_bit(b.side_bits(b.side_to_move@), t) by {
        assert(b.square_wf(t));
    }
    lemma_targets_seen(b, s, quiet, 0u16, false);
    lemma_targets_seen(b, s, captures, 0x4000u16, false);
    lemma_all_concat(moves_over(quiet, one_move(s, 0)), moves_over(captures, one_move(s, 0x4000)), |v: u16| capture_seen(b, v));
}

/// A bishop (`is_bishop`), rook or queen of the side to move on `s` attacks the squares
/// it reaches.
proof fn lemma_slider_sees(b: Board, is_bishop: bool, s: int, t: int)
    requires
        0 <= s < 64,
        0 <= t < 64,
        has_bit(b.side_bits(b.side_to_move@), s),
        has_bit(b.piece_bits(if is_bishop { 3 } else { 4 }), s) || has_bit(b.piece_bits(5), s),
        slider_attack(is_bishop, s, b.side_bits(0) | b.side_bits(1), t),
    ensures
        b.attacks_square_from(s, t, b.side_to_move@, b.side_bits(0) | b.side_bits(1)),
{
    let occ = b.side_bits(0) | b.side_bits(1);
    if is_bishop {
        let (d, f) = choose|d: int, f: int| is_diagonal(d, f) && #[trigger] slides_to(s, d, f, occ, t);
        lemma_slide_reverse(s, d, f, occ, t);
        assert(is_diagonal(-d, -f));
        assert(bishop_attack(t, occ, s));
    } else {
        let (d, f) = choose|d: int, f: int| is_orthogonal(d, f) && #[trigger] slides_to(s, d, f, occ, t);
        lemma_slide_reverse(s, d, f, occ, t);
        assert(is_orthogonal(-d, -f));
        assert(rook_attack(t, occ, s));
    }
}

/// Squares of `x & y` are squares of `x`.
proof fn lemma_and_left(x: u64, y: u64)
    ensures
        forall|j: int| 0 <= j < 64 && #[trigger] has_bit(x & y, j) ==> has_bit(x, j),
{
    assert forall|j: int| 0 <= j < 64 && #[trigger] has_bit(x & y, j) implies has_bit(x, j) by {
        lemma_bitwise(x, y, j as u64);
    }
}

/// The pawn moves of one family, from pawns of the side to move, take pieces only on
/// squares those pawns attack.
proof fn lemma_pawn_family_seen(b: Board, sources: u64, capture: bool, restrict: u64, flags: u16, promote: bool)
    requires
        b.wf(),
        flags == 0u16 || flags == 0x4000u16,
        forall|s: int| 0 <= s < 64 && #[trigger] has_bit(sources, s) ==> has_bit(crate::movegen::pawn_set(b), s),
        forall|t: int| 0 <= t < 64 && #[trigger] has_bit(restrict, t) ==> !has_bit(b.side_bits(b.side_to_move@), t),
    ensures
        all_moves(pawn_family(b, sources, capture, restrict, flags, promote), |v: u16| capture_seen(b, v)),
{
    let stm = b.side_to_move@;
    let g = pawn_square_moves(b, capture, restrict, flags, promote);
    lemma_flag_words();
    assert forall|s: int| 0 <= s < 64 && #[trigger] bits_of(sources)(s) implies all_moves(g(s), |v: u16| capture_seen(b, v)) by {
        lemma_bitwise(b.piece_bits(1), b.side_bits(stm), s as u64);
        let targets = |t: int| crate::movegen::pawn_reach(b, capture, s, t) && has_bit(restrict, t);
        assert forall|t: int|
            0 <= t < 64 && #[trigger] targets(t) && has_bit(b.side_bits(1 - stm), t) implies b.attacks_square_from(
            s,
            t,
            stm,
            b.side_bits(0) | b.side_bits(1),
        ) by {
            assert(crate::geometry::pawn_attack(stm, s, t));
            assert(crate::geometry::pawn_attack(1 - stm, t, s));
        }
        assert forall|t: int| 0 <= t < 64 && #[trigger] targets(t) implies !has_bit(b.side_bits(stm), t) by {
            assert(b.square_wf(t));
        }
        lemma_targets_seen(b, s, targets, flags, promote);
    }
    lemma_moves_over_all(bits_of(sources), g, |v: u16| capture_seen(b, v));
}

/// The single and double steps take no piece of the other side.
proof fn lemma_double_steps_seen(b: Board, sources: u64, restrict: u64)
    requires
        forall|t: int| 0 <= t < 64 && #[trigger] has_bit(restrict, t) ==> !has_bit(b.side_bits(b.side_to_move@), t),
    ensures
        all_moves(moves_over(bits_of(sources), double_step(b, restrict)), |v: u16| capture_seen(b, v)),
{
    let stm = b.side_to_move@;
    let opp = b.side_bits(1 - stm);
    let g = double_step(b, restrict);
    lemma_flag_words();
    assert forall|s: int| 0 <= s < 64 && #[trigger] bits_of(sources)(s) implies all_moves(g(s), |v: u16| capture_seen(b, v)) by {
        let m = (s as usize ^ 24usize) as int;
        let t1 = |t: int| has_bit(crate::movegen::pawn_push(stm, s), t) && !has_bit(opp, t) && has_bit(restrict, t);
        let t2 = |t: int| has_bit(crate::movegen::pawn_push(stm, m), t) && !has_bit(opp, t) && has_bit(restrict, t);
        if !b.occupied(m) {
            lemma_targets_seen(b, s, t1, 0u16, false);
            lemma_targets_seen(b, s, t2, 0x1000u16, false);
            lemma_all_concat(moves_over(t1, one_move(s, 0)), moves_over(t2, one_move(s, 0x1000)), |v: u16| capture_seen(b, v));
        }
    }
    lemma_moves_over_all(bits_of(sources), g, |v: u16| capture_seen(b, v));
}

/// The en passant captures are en passant moves.
proof fn lemma_en_passant_seen(b: Board, sources: u64, mask: u64, restrict: u64)
    requires
        forall|t: int| 0 <= t < 64 && #[trigger] has_bit(restrict, t) ==> !has_bit(b.side_bits(b.side_to_move@), t),
    ensures
        all_moves(moves_over(bits_of(sources), en_passant_step(b, mask, restrict)), |v: u16| capture_seen(b, v)),
{
    let stm = b.side_to_move@;
    let g = en_passant_step(b, mask, restrict);
    lemma_flag_words();
    assert forall|s: int| 0 <= s < 64 && #[trigger] bits_of(sources)(s) implies all_moves(g(s), |v: u16| capture_seen(b, v)) by {
        if crate::movegen::en_passant_ok(b, s, mask) {
            let targets = |t: int| crate::geometry::pawn_attack(stm, s, t) && has_bit(restrict, t);
            assert forall|t: int| 0 <= t < 64 && #[trigger] targets(t) implies all_moves(one_move(s, 0x5000)(t), |v: u16| capture_seen(b, v)) by {
                assert(has_bit(restrict, t));
                lemma_move_value_fields(s as u16, t as u16, 0x5000u16);
                assert(one_move(s, 0x5000)(t)[0] == move_value(s, t, 0x5000u16));
            }
            lemma_moves_over_all(targets, one_move(s, 0x5000), |v: u16| capture_seen(b, v));
        }
    }
    lemma_moves_over_all(bits_of(sources), g, |v: u16| capture_seen(b, v));
}

/// Every move the generator lists takes a piece of the other side only on a square the
/// moving piece attacks, en passant aside.
#[verifier::spinoff_prover]
#[verifier::rlimit(30)]
pub proof fn lemma_generated_moves_seen(b: Board, only_captures: bool)
    requires
        b.wf(),
        generation_ready(b),
        b.derived_ok(),
        crate::legality::en_passant_square_empty(b),
    ensures
        all_moves(generated_moves(b, only_captures), |v: u16| capture_seen(b, v)),
{
    let seen = |v: u16| capture_seen(b, v);
    let stm = b.side_to_move@;
    let off = 56 * stm;
    let k = b.king_square(stm);
    let own = b.side_bits(stm);
    let opp = b.side_bits(1 - stm);
    let occ = b.side_bits(0) | b.side_bits(1);
    lemma_flag_words();
    lemma_clear_lowest(b.piece_bits(6) & own);
    lemma_bitwise(b.piece_bits(6), own, k as u64);
    // The king's steps.
    assert forall|t: int| 0 <= t < 64 && crate::geometry::king_attack(k, t) && !has_bit(own, t) implies all_moves(
        #[trigger] king_step(b, k)(t),
        seen,
    ) by {
        lemma_move_value_fields(k as u16, t as u16, 0u16);
        lemma_move_value_fields(k as u16, t as u16, 0x4000u16);
        assert(crate::geometry::king_attack(t, k));
    }
    lemma_moves_over_all(|t: int| crate::geometry::king_attack(k, t) && !has_bit(own, t), king_step(b, k), seen);
    lemma_moves_over_all(
        |t: int| crate::geometry::king_attack(k, t) && !has_bit(own, t) && has_bit(opp, t),
        king_step(b, k),
        seen,
    );
    let king_part = if only_captures { king_captures(b) } else { king_moves(b) };
    if !double_check(b) {
        let mask = evasion_mask(b, only_captures);
        assert forall|t: int| 0 <= t < 64 && #[trigger] has_bit(mask, t) implies !has_bit(own, t) by {
            crate::legality::lemma_mask_free_of_own(b, only_captures, t);
        }
        assert forall|t: int| 0 <= t < 64 && #[trigger] has_bit(mask & b.ortographic_pins@, t) implies !has_bit(own, t) by {
            lemma_bitwise(mask, b.ortographic_pins@, t as u64);
        }
        assert forall|t: int| 0 <= t < 64 && #[trigger] has_bit(mask & b.diagonal_pins@, t) implies !has_bit(own, t) by {
            lemma_bitwise(mask, b.diagonal_pins@, t as u64);
        }
        // The castling moves go to empty squares.
        let first: Seq<u16> = if b.castle_rights.has(2 * stm) && castle_path_ok(b, 6 + off, 7 + off) {
            seq![move_value(k, 6 + off, 0x2000u16)]
        } else {
            Seq::empty()
        };
        let second: Seq<u16> = if b.castle_rights.has(2 * stm + 1) && castle_path_ok(b, 2 + off, off) {
            seq![move_value(k, 2 + off, 0x3000u16)]
        } else {
            Seq::empty()
        };
        lemma_move_value_fields(k as u16, (6 + off) as u16, 0x2000u16);
        lemma_move_value_fields(k as u16, (2 + off) as u16, 0x3000u16);
        if first.len() > 0 {
            assert(!b.occupied(6 + off));
            lemma_bitwise(b.side_bits(0), b.side_bits(1), (6 + off) as u64);
            assert(seen(first[0]));
        }
        if second.len() > 0 {
            assert(!b.occupied(2 + off));
            lemma_bitwise(b.side_bits(0), b.side_bits(1), (2 + off) as u64);
            assert(seen(second[0]));
        }
        assert(castle_moves(b) == first + second);
        lemma_all_concat(first, second, seen);
        let castle_part = if !only_captures && b.checkers@ == 0 { castle_moves(b) } else { Seq::empty() };
        // The pawn moves.
        let pawns = crate::movegen::pawn_set(b);
        let promo = promotion_rank(stm);
        let movable = movable_pawns(b);
        let pinned = movable_pinned_pawns(b);
        let double = double_pushable_pawns(b);
        let orth = b.ortographic_pins@;
        let diag = b.diagonal_pins@;
        lemma_and_left(pawns, !diag);
        lemma_and_left(movable, orth);
        lemma_and_left(movable, crate::movegen::double_push_rank(stm));
        lemma_and_left(movable, !double);
        lemma_and_left(movable & !double, !pinned);
        lemma_and_left((movable & !double) & !pinned, !promo);
        lemma_and_left(pinned, !double);
        lemma_and_left(pinned & !double, !promo);
        lemma_and_left(movable, !pinned);
        lemma_and_left(movable & !pinned, promo);
        let q1 = pawn_family(b, ((movable & !double) & !pinned) & !promo, false, mask, 0, false);
        let q2 = pawn_family(b, (pinned & !double) & !promo, false, mask & orth, 0, false);
        let q3 = pawn_family(b, (movable & !pinned) & promo, false, mask, 0, true);
        let q4 = moves_over(bits_of(double & !pinned), double_step(b, mask));
        let q5 = moves_over(bits_of(double & pinned), double_step(b, mask & orth));
        lemma_pawn_family_seen(b, ((movable & !double) & !pinned) & !promo, false, mask, 0, false);
        lemma_pawn_family_seen(b, (pinned & !double) & !promo, false, mask & orth, 0, false);
        lemma_pawn_family_seen(b, (movable & !pinned) & promo, false, mask, 0, true);
        lemma_double_steps_seen(b, double & !pinned, mask);
        lemma_double_steps_seen(b, double & pinned, mask & orth);
        lemma_all_concat(q1, q2, seen);
        lemma_all_concat(q1 + q2, q3, seen);
        lemma_all_concat(q1 + q2 + q3, q4, seen);
        lemma_all_concat(q1 + q2 + q3 + q4, q5, seen);
        assert(pawn_quiet_moves(b, mask) == q1 + q2 + q3 + q4 + q5);
        let agressive = agressive_pawns(b);
        let apinned = agressive_pinned_pawns(b);
        let ep = b.en_passant@;
        lemma_and_left(pawns, !orth);
        lemma_and_left(agressive, diag);
        lemma_and_left(agressive, !apinned);
        lemma_and_left(agressive & !apinned, !promo);
        lemma_and_left(agressive & !apinned, promo);
        lemma_and_left(apinned, !promo);
        lemma_and_left(apinned, promo);
        let c1 = pawn_family(b, (agressive & !apinned) & !promo, true, mask, 0x4000, false);
        let c2 = pawn_family(b, apinned & !promo, true, mask & diag, 0x4000, false);
        let c3 = pawn_family(b, (agressive & !apinned) & promo, true, mask, 0x4000, true);
        let c4 = pawn_family(b, apinned & promo, true, mask & diag, 0x4000, true);
        lemma_pawn_family_seen(b, (agressive & !apinned) & !promo, true, mask, 0x4000, false);
        lemma_pawn_family_seen(b, apinned & !promo, true, mask & diag, 0x4000, false);
        lemma_pawn_family_seen(b, (agressive & !apinned) & promo, true, mask, 0x4000, true);
        lemma_pawn_family_seen(b, apinned & promo, true, mask & diag, 0x4000, true);
        lemma_all_concat(c1, c2, seen);
        lemma_all_concat(c1 + c2, c3, seen);
        lemma_all_concat(c1 + c2 + c3, c4, seen);
        let ep_part: Seq<u16> = if ep == 64 {
            Seq::empty()
        } else {
            moves_over(bits_of(agressive & !apinned), en_passant_step(b, mask, single_bit(ep))) + moves_over(
                bits_of(apinned),
                en_passant_step(b, mask, single_bit(ep) & diag),
            )
        };
        if ep != 64 {
            b.en_passant.lemma_index_nonnegative();
            assert forall|t: int| 0 <= t < 64 && #[trigger] has_bit(single_bit(ep), t) implies !has_bit(own, t) by {
                crate::bitboard::lemma_single_bit_update(0, ep as u64, t as u64);
                lemma_bitwise(b.side_bits(0), b.side_bits(1), t as u64);
            }
            assert forall|t: int| 0 <= t < 64 && #[trigger] has_bit(single_bit(ep) & diag, t) implies !has_bit(own, t) by {
                lemma_bitwise(single_bit(ep), diag, t as u64);
                crate::bitboard::lemma_single_bit_update(0, ep as u64, t as u64);
                lemma_bitwise(b.side_bits(0), b.side_bits(1), t as u64);
            }
            lemma_en_passant_seen(b, agressive & !apinned, mask, single_bit(ep));
            lemma_en_passant_seen(b, apinned, mask, single_bit(ep) & diag);
            lemma_all_concat(
                moves_over(bits_of(agressive & !apinned), en_passant_step(b, mask, single_bit(ep))),
                moves_over(bits_of(apinned), en_passant_step(b, mask, single_bit(ep) & diag)),
                seen,
            );
        }
        lemma_all_concat(c1 + c2 + c3 + c4, ep_part, seen);
        assert(pawn_capture_moves(b, mask) == c1 + c2 + c3 + c4 + ep_part);
        lemma_all_concat(pawn_quiet_moves(b, mask), pawn_capture_moves(b, mask), seen);
        let pawn_part = if only_captures { pawn_capture_moves(b, mask) } else { pawn_moves(b, mask) };
        // The knight moves.
        let knights = (b.piece_bits(2) & own) & !(orth | diag);
        assert forall|s: int| 0 <= s < 64 && #[trigger] bits_of(knights)(s) implies all_moves(knight_square_moves(b, mask)(s), seen) by {
            lemma_bitwise(b.piece_bits(2) & own, !(orth | diag), s as u64);
            lemma_bitwise(b.piece_bits(2), own, s as u64);
            let targets = |j: int| crate::geometry::knight_attack(s, j) && has_bit(mask, j);
            assert forall|t: int| 0 <= t < 64 && #[trigger] targets(t) implies b.attacks_square_from(s, t, stm, occ) by {
                assert(crate::geometry::knight_attack(t, s));
            }
            lemma_piece_moves_seen(b, s, targets);
        }
        lemma_moves_over_all(bits_of(knights), knight_square_moves(b, mask), seen);
        // The bishop and rook moves, queens included.
        assert forall|is_bishop: bool, restrict: u64, s: int|
            0 <= s < 64 && has_bit(own, s) && (has_bit(b.piece_bits(if is_bishop { 3 } else { 4 }), s) || has_bit(
                b.piece_bits(5),
                s,
            )) implies all_moves(#[trigger] slider_square_moves(b, is_bishop, restrict)(s), seen) by {
            let targets = |j: int| slider_attack(is_bishop, s, occ, j) && has_bit(restrict, j);
            assert forall|t: int| 0 <= t < 64 && #[trigger] targets(t) implies b.attacks_square_from(s, t, stm, occ) by {
                lemma_slider_sees(b, is_bishop, s, t);
            }
            lemma_piece_moves_seen(b, s, targets);
        }
        let bpieces = (b.piece_bits(3) & own) | (b.piece_bits(5) & own);
        let bmovable = bpieces & !orth;
        let bpinned = bmovable & diag;
        let rpieces = (b.piece_bits(4) & own) | (b.piece_bits(5) & own);
        let rmovable = rpieces & !diag;
        let rpinned = rmovable & orth;
        assert forall|s: int| 0 <= s < 64 && #[trigger] has_bit(bmovable, s) implies has_bit(own, s) && (has_bit(
            b.piece_bits(3),
            s,
        ) || has_bit(b.piece_bits(5), s)) by {
            lemma_bitwise(bpieces, !orth, s as u64);
            lemma_bitwise(b.piece_bits(3) & own, b.piece_bits(5) & own, s as u64);
            lemma_bitwise(b.piece_bits(3), own, s as u64);
            lemma_bitwise(b.piece_bits(5), own, s as u64);
        }
        assert forall|s: int| 0 <= s < 64 && #[trigger] has_bit(rmovable, s) implies has_bit(own, s) && (has_bit(
            b.piece_bits(4),
            s,
        ) || has_bit(b.piece_bits(5), s)) by {
            lemma_bitwise(rpieces, !diag, s as u64);
            lemma_bitwise(b.piece_bits(4) & own, b.piece_bits(5) & own, s as u64);
            lemma_bitwise(b.piece_bits(4), own, s as u64);
            lemma_bitwise(b.piece_bits(5), own, s as u64);
        }
        lemma_and_left(bmovable, !bpinned);
        lemma_and_left(bmovable, diag);
        lemma_and_left(rmovable, !rpinned);
        lemma_and_left(rmovable, orth);
        assert forall|s: int| 0 <= s < 64 && #[trigger] bits_of(bmovable & !bpinned)(s) implies all_moves(
            slider_square_moves(b, true, mask)(s),
            seen,
        ) by {
            assert(has_bit(bmovable, s));
        }
        assert forall|s: int| 0 <= s < 64 && #[trigger] bits_of(bpinned)(s) implies all_moves(
            slider_square_moves(b, true, mask & diag)(s),
            seen,
        ) by {
            assert(has_bit(bmovable, s));
        }
        assert forall|s: int| 0 <= s < 64 && #[trigger] bits_of(rmovable & !rpinned)(s) implies all_moves(
            slider_square_moves(b, false, mask)(s),
            seen,
        ) by {
            assert(has_bit(rmovable, s));
        }
        assert forall|s: int| 0 <= s < 64 && #[trigger] bits_of(rpinned)(s) implies all_moves(
            slider_square_moves(b, false, mask & orth)(s),
            seen,
        ) by {
            assert(has_bit(rmovable, s));
        }
        lemma_moves_over_all(bits_of(bmovable & !bpinned), slider_square_moves(b, true, mask), seen);
        lemma_moves_over_all(bits_of(bpinned), slider_square_moves(b, true, mask & diag), seen);
        lemma_all_concat(
            moves_over(bits_of(bmovable & !bpinned), slider_square_moves(b, true, mask)),
            moves_over(bits_of(bpinned), slider_square_moves(b, true, mask & diag)),
            seen,
        );
        lemma_moves_over_all(bits_of(rmovable & !rpinned), slider_square_moves(b, false, mask), seen);
        lemma_moves_over_all(bits_of(rpinned), slider_square_moves(b, false, mask & orth), seen);
        lemma_all_concat(
            moves_over(bits_of(rmovable & !rpinned), slider_square_moves(b, false, mask)),
            moves_over(bits_of(rpinned), slider_square_moves(b, false, mask & orth)),
            seen,
        );
        lemma_all_concat(king_part, castle_part, seen);
        lemma_all_concat(king_part + castle_part, pawn_part, seen);
        lemma_all_concat(king_part + castle_part + pawn_part, knight_moves(b, mask), seen);
        lemma_all_concat(king_part + castle_part + pawn_part + knight_moves(b, mask), bishop_moves(b, mask), seen);
        lemma_all_concat(
            king_part + castle_part + pawn_part + knight_moves(b, mask) + bishop_moves(b, mask),
            rook_moves(b, mask),
            seen,
        );
    }
}

/// Whether side `c` has exactly one king.
pub open spec fn single_king(b: Board, c: int) -> bool {
    let x = b.piece_bits(6) & b.side_bits(c);
    x != 0 && x & ((x - 1) as u64) == 0
}

/// Whether each castling right of side `c` is held only while its king stands on its
/// starting square and a rook of that side on the right's corner.
pub open spec fn castling_sound(b: Board, c: int) -> bool {
    let off = 56 * c;
    let kings = b.piece_bits(6) & b.side_bits(c);
    let rooks = b.piece_bits(4) & b.side_bits(c);
    &&& b.castle_rights.has(2 * c) ==> has_bit(kings, 4 + off) && has_bit(rooks, 7 + off)
    &&& b.castle_rights.has(2 * c + 1) ==> has_bit(kings, 4 + off) && has_bit(rooks, off)
}

/// Whether the en passant square, when there is one, is empty, with a pawn of the side
/// not to move on the square behind it.
pub open spec fn en_passant_sound(b: Board) -> bool {
    b.en_passant@ < 64 ==> !b.occupied(b.en_passant@) && has_bit(
        b.piece_bits(1) & b.side_bits(1 - b.side_to_move@),
        ((b.en_passant@ as usize) ^ 8usize) as int,
    )
}

/// Whether `b` is a position play can reach: well formed, with its checkers and pins, one
/// king a side, an en passant square and castling rights that agree with the pieces, and
/// the side not to move out of check.
pub open spec fn sound_position(b: Board) -> bool {
    let stm = b.side_to_move@;
    &&& b.wf()
    &&& generation_ready(b)
    &&& b.derived_ok()
    &&& single_king(b, 0)
    &&& single_king(b, 1)
    &&& en_passant_sound(b)
    &&& castling_sound(b, 0)
    &&& castling_sound(b, 1)
    &&& !b.square_attacked(b.king_square(1 - stm), stm, b.side_bits(0) | b.side_bits(1))
}

/// With one king, the king's square is the square of its bit.
proof fn lemma_single_king_square(b: Board, c: int, j: int)
    requires
        single_king(b, c),
        0 <= j < 64,
        has_bit(b.piece_bits(6) & b.side_bits(c), j),
    ensures
        b.king_square(c) == j,
{
    let x = b.piece_bits(6) & b.side_bits(c);
    crate::bitboard::lemma_one_bit(x);
    lemma_clear_lowest(x);
    let i = choose|i: int| 0 <= i < 64 && #[trigger] has_bit(x, i) && forall|jj: int| 0 <= jj < 64 && has_bit(x, jj) ==> jj == i;
    assert(j == i);
}

/// A word with one set bit, `j`, has exactly one set bit.
proof fn lemma_single_bit_word(x: u64, j: int)
    requires
        0 <= j < 64,
        has_bit(x, j),
        forall|i: int| 0 <= i < 64 && #[trigger] has_bit(x, i) ==> i == j,
    ensures
        x != 0 && x & ((x - 1) as u64) == 0,
{
    crate::bitboard::lemma_one_bit(x);
    crate::bitboard::lemma_zero_bits();
}

/// What a move does to the castling rights: it only takes rights away; a castle or a king
/// move takes both of the mover's; a rook leaving its corner takes that corner's; and a
/// rook taken on its corner takes that corner's right of the other side.
proof fn lemma_rights_after(b: Board, mv: Move)
    requires
        b.side_to_move.valid(),
    ensures
        ({
            let stm = b.side_to_move@;
            let opp = 1 - stm;
            let r = b.moved_rights(mv);
            let r0 = b.castle_rights@;
            let mk = b.mover_kind(mv);
            let tk = b.piece_at(crate::board::captured_square(mv));
            &&& forall|x: int| 0 <= x < 4 && #[trigger] crate::bit_ops::u8_bit(r, x) ==> crate::bit_ops::u8_bit(r0, x)
            &&& (crate::board::is_castle(mv) || mk == 6) ==> !crate::bit_ops::u8_bit(r, 2 * stm)
                && !crate::bit_ops::u8_bit(r, 2 * stm + 1)
            &&& mk == 4 && mv.from_of() == 7 + 56 * stm ==> !crate::bit_ops::u8_bit(r, 2 * stm)
            &&& mk == 4 && mv.from_of() == 56 * stm ==> !crate::bit_ops::u8_bit(r, 2 * stm + 1)
            &&& tk == 4 && mv.to_of() == 7 + 56 * opp ==> !crate::bit_ops::u8_bit(r, 2 * opp)
            &&& tk == 4 && mv.to_of() == 56 * opp ==> !crate::bit_ops::u8_bit(r, 2 * opp + 1)
        }),
{
    let stm = b.side_to_move@;
    let opp = 1 - stm;
    let r0 = b.castle_rights@;
    let mk = b.mover_kind(mv);
    let tk = b.piece_at(crate::board::captured_square(mv));
    let from = mv.from_of();
    let to = mv.to_of();
    let wr = |v: u8, a: int| crate::board::without_right(v, a);
    let r1 = if crate::board::is_castle(mv) {
        wr(wr(r0, 2 * stm), 2 * stm + 1)
    } else {
        r0
    };
    let r2 = if mk == 6 {
        wr(wr(r1, 2 * stm), 2 * stm + 1)
    } else if mk == 4 && from == 7 + 56 * stm {
        wr(r1, 2 * stm)
    } else if mk == 4 && from == 56 * stm {
        wr(r1, 2 * stm + 1)
    } else {
        r1
    };
    assert(b.moved_rights(mv) == if tk == 4 && to == 7 + 56 * opp {
        wr(r2, 2 * opp)
    } else if tk == 4 && to == 56 * opp {
        wr(r2, 2 * opp + 1)
    } else {
        r2
    });
    assert forall|v: u8, a: int, x: int| 0 <= a < 4 && 0 <= x < 4 implies #[trigger] crate::bit_ops::u8_bit(
        crate::board::without_right(v, a),
        x,
    ) == (x != a && crate::bit_ops::u8_bit(v, x)) by {
        crate::bit_ops::lemma_set_bit_to_zero(v, a as u8, x as u8);
    }
}

/// What a move the generator lists on a sound position is: it keeps the board's form,
/// has the generator's shape, leaves from a square of the side to move, lands on a square
/// that side does not hold, takes only what its piece attacks (en passant aside), and
/// leaves the mover's king on a square no piece of the other side attacks.
proof fn lemma_generated_move_facts(b: Board, only_captures: bool, i: int, next: Board)
    requires
        sound_position(b),
        0 <= i < generated_moves(b, only_captures).len(),
        b.moves_to(Move { value: generated_moves(b, only_captures)[i] }, next),
    ensures
        ({
            let v = generated_moves(b, only_captures)[i];
            let mv = Move { value: v };
            let stm = b.side_to_move@;
            let sq = crate::legality::king_square_after(b, v);
            &&& next.wf()
            &&& crate::board_form::move_keeps_form(b, mv)
            &&& crate::board_form::generator_shape(b, v)
            &&& capture_seen(b, v)
            &&& has_bit(b.side_bits(stm), mv.from_of())
            &&& has_bit(next.piece_bits(6) & next.side_bits(stm), sq)
            &&& !next.square_attacked(sq, 1 - stm, next.side_bits(0) | next.side_bits(1))
        }),
{
    let stm = b.side_to_move@;
    let off = 56 * stm;
    let v = generated_moves(b, only_captures)[i];
    let own = b.side_bits(stm);
    // The castling rights of the side to move agree with its king's square.
    if b.castle_rights.has(2 * stm) || b.castle_rights.has(2 * stm + 1) {
        lemma_single_king_square(b, stm, 4 + off);
    }
    assert(crate::legality::castling_consistent(b));
    assert(crate::board_form::castle_rooks_in_place(b));
    assert(crate::capture_generation::en_passant_backed(b)) by {
        if b.en_passant@ < 64 {
            let target = ((b.en_passant@ as usize) ^ 8usize) as int;
            b.en_passant.lemma_index_nonnegative();
            crate::bitboard::lemma_pawn_step_bits(b.en_passant@ as u64, 0);
            lemma_bitwise(b.piece_bits(1), b.side_bits(1 - stm), target as u64);
            lemma_bitwise(b.side_bits(0), b.side_bits(1), target as u64);
        }
    }
    crate::board_form::lemma_generated_moves_keep_board_well_formed(b, only_captures, i, next);
    crate::board_form::lemma_generated_moves_shape(b, only_captures);
    let shape = |x: u16| crate::board_form::generator_shape(b, x);
    assert(shape(v));
    lemma_generated_moves_seen(b, only_captures);
    let seen = |x: u16| capture_seen(b, x);
    assert(seen(v));
    crate::movegen_laws::lemma_generated_moves_leave_allied_squares(b, only_captures);
    assert(crate::movegen_laws::from_in(own)(v));
    crate::legality::lemma_generated_moves_leave_king_safe(b, only_captures);
    let safe = |x: u16| crate::legality::leaves_king_safe(b, x);
    assert(safe(v));
}

/// After a move of a piece of the side to move that keeps the board's form, that side
/// still has one king, on the square the move leaves it on.
#[verifier::spinoff_prover]
#[verifier::rlimit(40)]
proof fn lemma_own_king_after(b: Board, mv: Move, next: Board)
    requires
        b.wf(),
        generation_ready(b),
        single_king(b, b.side_to_move@),
        crate::board_form::move_keeps_form(b, mv),
        b.moves_to(mv, next),
        has_bit(b.side_bits(b.side_to_move@), mv.from_of()),
        has_bit(
            next.piece_bits(6) & next.side_bits(b.side_to_move@),
            crate::legality::king_square_after(b, mv.value),
        ),
    ensures
        single_king(next, b.side_to_move@),
        next.king_square(b.side_to_move@) == crate::legality::king_square_after(b, mv.value),
{
    let stm = b.side_to_move@;
    let own = b.side_bits(stm);
    let from = mv.from_of();
    let to = mv.to_of();
    let sq = crate::legality::king_square_after(b, mv.value);
    let k = b.king_square(stm);
    let kings = b.piece_bits(6) & own;
    let nk = next.piece_bits(6) & next.side_bits(stm);
    lemma_flag_words();
    lemma_clear_lowest(kings);
    lemma_single_king_square(b, stm, k);
    assert(0 <= from < 64 && 0 <= to < 64);
    assert(b.square_wf(from));
    lemma_bitwise(b.side_bits(0), b.side_bits(1), from as u64);
    assert(b.mover_color(mv) == stm);
    if b.piece_at(from) == 6 {
        lemma_bitwise(b.piece_bits(6), own, from as u64);
        lemma_single_king_square(b, stm, from);
    }
    assert forall|j: int| 0 <= j < 64 && #[trigger] has_bit(nk, j) implies j == sq by {
        lemma_bitwise(next.piece_bits(6), next.side_bits(stm), j as u64);
        assert(next.piece_bits(6) == b.moved_piece_bits(mv, 6));
        assert(next.side_bits(stm) == b.moved_side_bits(mv, stm));
        crate::board_form::lemma_moved_piece_at(b, mv, 6, j);
        crate::board_form::lemma_moved_side_at(b, mv, stm, j);
        assert(b.square_wf(j));
        lemma_bitwise(b.piece_bits(6), own, j as u64);
        if j != to && j != from && j != crate::board::captured_square(mv) {
            if has_bit(own, j) {
                lemma_single_king_square(b, stm, j);
            }
        }
    }
    lemma_single_bit_word(nk, sq);
    lemma_single_king_square(next, stm, sq);
}

/// After a move of a piece of the side to move that keeps the board's form and does not
/// take the other side's king, the other side still has its one king on its square.
#[verifier::spinoff_prover]
#[verifier::rlimit(40)]
proof fn lemma_other_king_after(b: Board, mv: Move, next: Board)
    requires
        b.wf(),
        generation_ready(b),
        single_king(b, 1 - b.side_to_move@),
        crate::board_form::move_keeps_form(b, mv),
        b.moves_to(mv, next),
        has_bit(b.side_bits(b.side_to_move@), mv.from_of()),
        mv.to_of() != b.king_square(1 - b.side_to_move@),
        crate::board::captured_square(mv) != b.king_square(1 - b.side_to_move@),
    ensures
        single_king(next, 1 - b.side_to_move@),
        next.king_square(1 - b.side_to_move@) == b.king_square(1 - b.side_to_move@),
{
    let stm = b.side_to_move@;
    let opp = 1 - stm;
    let from = mv.from_of();
    let to = mv.to_of();
    let k2 = b.king_square(opp);
    let kings = b.piece_bits(6) & b.side_bits(opp);
    let nk = next.piece_bits(6) & next.side_bits(opp);
    lemma_flag_words();
    lemma_clear_lowest(kings);
    lemma_bitwise(b.piece_bits(6), b.side_bits(opp), k2 as u64);
    assert(0 <= from < 64 && 0 <= to < 64);
    assert(b.square_wf(from));
    assert(b.square_wf(k2));
    lemma_bitwise(b.side_bits(0), b.side_bits(1), from as u64);
    assert(b.mover_color(mv) == stm);
    assert(next.piece_bits(6) == b.moved_piece_bits(mv, 6));
    assert(next.side_bits(opp) == b.moved_side_bits(mv, opp));
    assert forall|j: int| 0 <= j < 64 && #[trigger] has_bit(nk, j) implies j == k2 by {
        lemma_bitwise(next.piece_bits(6), next.side_bits(opp), j as u64);
        crate::board_form::lemma_moved_piece_at(b, mv, 6, j);
        crate::board_form::lemma_moved_side_at(b, mv, opp, j);
        lemma_bitwise(b.piece_bits(6), b.side_bits(opp), j as u64);
        lemma_single_king_square(b, opp, j);
    }
    assert(has_bit(nk, k2)) by {
        lemma_bitwise(next.piece_bits(6), next.side_bits(opp), k2 as u64);
        crate::board_form::lemma_moved_piece_at(b, mv, 6, k2);
        crate::board_form::lemma_moved_side_at(b, mv, opp, k2);
    }
    lemma_single_bit_word(nk, k2);
    lemma_single_king_square(next, opp, k2);
}

/// After a move shaped as the generator shapes moves, the en passant square, if any, is
/// the empty square a pawn just passed, with that pawn behind it.
#[verifier::spinoff_prover]
#[verifier::rlimit(40)]
proof fn lemma_en_passant_after_move(b: Board, mv: Move, next: Board)
    requires
        b.wf(),
        generation_ready(b),
        crate::board_form::move_keeps_form(b, mv),
        crate::board_form::generator_shape(b, mv.value),
        b.moves_to(mv, next),
        has_bit(b.side_bits(b.side_to_move@), mv.from_of()),
    ensures
        en_passant_sound(next),
{
    let stm = b.side_to_move@;
    let from = mv.from_of();
    let to = mv.to_of();
    lemma_flag_words();
    assert(0 <= from < 64 && 0 <= to < 64);
    if mv.flags_of() == 0x1000u16 {
        let m = ((from as usize) ^ 24usize) as int;
        crate::bitboard::lemma_pawn_step_bits(from as u64, 0);
        assert(next.en_passant@ == m);
        lemma_bitwise(b.piece_bits(1), b.side_bits(stm), from as u64);
        assert(b.square_wf(from));
        lemma_bitwise(b.side_bits(0), b.side_bits(1), from as u64);
        assert(b.mover_color(mv) == stm);
        assert(b.mover_kind(mv) == 1);
        assert(b.arrival_kind(mv) == 1);
        assert(m == if stm == 0 { from + 8 } else { from - 8 });
        crate::bitboard::lemma_pawn_step_bits(m as u64, to as u64);
        assert(to == if stm == 0 { m + 8 } else { m - 8 });
        assert(((m as usize) ^ 8usize) as int == to);
        assert(crate::board::captured_square(mv) == to);
        crate::board_form::lemma_moved_side_at(b, mv, 0, m);
        crate::board_form::lemma_moved_side_at(b, mv, 1, m);
        assert(next.side_bits(0) == b.moved_side_bits(mv, 0));
        assert(next.side_bits(1) == b.moved_side_bits(mv, 1));
        assert(!next.occupied(m));
        crate::board_form::lemma_moved_piece_at(b, mv, 1, to);
        crate::board_form::lemma_moved_side_at(b, mv, stm, to);
        assert(next.piece_bits(1) == b.moved_piece_bits(mv, 1));
        assert(next.side_bits(stm) == b.moved_side_bits(mv, stm));
        lemma_bitwise(next.piece_bits(1), next.side_bits(stm), to as u64);
    }
}

/// The square an en passant capture shaped as the generator shapes it takes from holds
/// a pawn of the other side.
proof fn lemma_en_passant_taken(b: Board, mv: Move)
    requires
        b.side_to_move.valid(),
        en_passant_sound(b),
        crate::board_form::generator_shape(b, mv.value),
        mv.flags_of() == 0x5000u16,
        b.en_passant@ < 64,
    ensures
        has_bit(b.piece_bits(1) & b.side_bits(1 - b.side_to_move@), crate::board::captured_square(mv)),
        !b.occupied(mv.to_of()),
{
    let ep = b.en_passant@;
    b.en_passant.lemma_index_nonnegative();
    crate::bitboard::lemma_pawn_step_bits(ep as u64, 0);
    assert(mv.to_of() == ep);
    assert(((mv.value >> 6u16) & 63u16) == (ep as u64) as u16);
    assert(crate::board::captured_square(mv) == ((ep as usize) ^ 8usize) as int);
}

/// After a move of the side to move that is not a castle or a king move, the castling
/// rights it keeps still agree with its king's and rooks' squares.
#[verifier::spinoff_prover]
#[verifier::rlimit(40)]
proof fn lemma_own_castling_after(b: Board, mv: Move, next: Board)
    requires
        b.wf(),
        generation_ready(b),
        single_king(b, b.side_to_move@),
        castling_sound(b, b.side_to_move@),
        en_passant_sound(b),
        crate::board_form::move_keeps_form(b, mv),
        crate::board_form::generator_shape(b, mv.value),
        capture_seen(b, mv.value),
        b.moves_to(mv, next),
        has_bit(b.side_bits(b.side_to_move@), mv.from_of()),
        single_king(next, b.side_to_move@),
        next.king_square(b.side_to_move@) == crate::legality::king_square_after(b, mv.value),
    ensures
        castling_sound(next, b.side_to_move@),
{
    let stm = b.side_to_move@;
    let off = 56 * stm;
    let own = b.side_bits(stm);
    let from = mv.from_of();
    let to = mv.to_of();
    lemma_flag_words();
    lemma_rights_after(b, mv);
    assert(next.castle_rights@ == b.moved_rights(mv));
    assert(0 <= from < 64 && 0 <= to < 64);
    assert(b.square_wf(from));
    lemma_bitwise(b.side_bits(0), b.side_bits(1), from as u64);
    assert(b.mover_color(mv) == stm);
    if !crate::board::is_castle(mv) && b.piece_at(from) != 6 && (next.castle_rights.has(2 * stm)
        || next.castle_rights.has(2 * stm + 1)) {
        // The king stays on its starting square.
        lemma_bitwise(b.piece_bits(6), own, (4 + off) as u64);
        lemma_single_king_square(b, stm, 4 + off);
        let nk = next.piece_bits(6) & next.side_bits(stm);
        lemma_clear_lowest(nk);
        assert(has_bit(nk, 4 + off));
        // A rook on a corner whose right stays is still there.
        assert forall|q: int| (q == 7 + off && next.castle_rights.has(2 * stm)) || (q == off && next.castle_rights.has(2 * stm + 1)) implies has_bit(
            next.piece_bits(4) & next.side_bits(stm),
            q,
        ) by {
            lemma_bitwise(b.piece_bits(4), own, q as u64);
            assert(b.square_wf(q));
            if mv.flags_of() == 0x5000u16 {
                if b.en_passant@ < 64 {
                    lemma_en_passant_taken(b, mv);
                    lemma_bitwise(b.piece_bits(1), b.side_bits(1 - stm), crate::board::captured_square(mv) as u64);
                } else {
                    assert(mv.to_of() == b.en_passant@);
                }
            }
            crate::board_form::lemma_moved_piece_at(b, mv, 4, q);
            crate::board_form::lemma_moved_side_at(b, mv, stm, q);
            assert(next.piece_bits(4) == b.moved_piece_bits(mv, 4));
            assert(next.side_bits(stm) == b.moved_side_bits(mv, stm));
            lemma_bitwise(next.piece_bits(4), next.side_bits(stm), q as u64);
        }
    }
}

/// After a move of the side to move, the castling rights the other side keeps still agree
/// with its king's and rooks' squares: a rook taken on its corner takes that right away.
#[verifier::spinoff_prover]
#[verifier::rlimit(40)]
proof fn lemma_other_castling_after(b: Board, mv: Move, next: Board)
    requires
        b.wf(),
        generation_ready(b),
        single_king(b, 1 - b.side_to_move@),
        castling_sound(b, 1 - b.side_to_move@),
        en_passant_sound(b),
        crate::board_form::move_keeps_form(b, mv),
        crate::board_form::generator_shape(b, mv.value),
        b.moves_to(mv, next),
        has_bit(b.side_bits(b.side_to_move@), mv.from_of()),
        single_king(next, 1 - b.side_to_move@),
        next.king_square(1 - b.side_to_move@) == b.king_square(1 - b.side_to_move@),
    ensures
        castling_sound(next, 1 - b.side_to_move@),
{
    let stm = b.side_to_move@;
    let opp = 1 - stm;
    let off = 56 * opp;
    let theirs = b.side_bits(opp);
    let from = mv.from_of();
    let to = mv.to_of();
    lemma_flag_words();
    lemma_rights_after(b, mv);
    assert(next.castle_rights@ == b.moved_rights(mv));
    assert(0 <= from < 64 && 0 <= to < 64);
    assert(b.square_wf(from));
    lemma_bitwise(b.side_bits(0), b.side_bits(1), from as u64);
    assert(b.mover_color(mv) == stm);
    if next.castle_rights.has(2 * opp) || next.castle_rights.has(2 * opp + 1) {
        lemma_bitwise(b.piece_bits(6), theirs, (4 + off) as u64);
        lemma_single_king_square(b, opp, 4 + off);
        let nk = next.piece_bits(6) & next.side_bits(opp);
        lemma_clear_lowest(nk);
        assert(has_bit(nk, 4 + off));
        assert forall|q: int| (q == 7 + off && next.castle_rights.has(2 * opp)) || (q == off && next.castle_rights.has(2 * opp + 1)) implies has_bit(
            next.piece_bits(4) & next.side_bits(opp),
            q,
        ) by {
            lemma_bitwise(b.piece_bits(4), theirs, q as u64);
            lemma_bitwise(b.side_bits(0), b.side_bits(1), q as u64);
            assert(b.square_wf(q));
            if mv.flags_of() == 0x5000u16 {
                if b.en_passant@ < 64 {
                    lemma_en_passant_taken(b, mv);
                    let ts = crate::board::captured_square(mv);
                    lemma_bitwise(b.piece_bits(1), b.side_bits(opp), ts as u64);
                    assert(b.square_wf(ts));
                } else {
                    assert(mv.to_of() == b.en_passant@);
                }
            } else {
                assert(crate::board::captured_square(mv) == to);
            }
            crate::board_form::lemma_moved_piece_at(b, mv, 4, q);
            crate::board_form::lemma_moved_side_at(b, mv, opp, q);
            assert(next.piece_bits(4) == b.moved_piece_bits(mv, 4));
            assert(next.side_bits(opp) == b.moved_side_bits(mv, opp));
            lemma_bitwise(next.piece_bits(4), next.side_bits(opp), q as u64);
        }
    }
}

/// Playing any move the generator lists on a position play can reach gives a position
/// play can reach: the board stays well formed with its checkers and pins, each side keeps
/// its one king, the en passant square and the castling rights keep agreeing with the
/// pieces, and the side that moved is not left in check.
pub proof fn lemma_generated_moves_keep_position_sound(b: Board, only_captures: bool, i: int, next: Board)
    requires
        sound_position(b),
        0 <= i < generated_moves(b, only_captures).len(),
        b.moves_to(Move { value: generated_moves(b, only_captures)[i] }, next),
    ensures
        sound_position(next),
{
    let stm = b.side_to_move@;
    let opp = 1 - stm;
    let v = generated_moves(b, only_captures)[i];
    let mv = Move { value: v };
    let to = mv.to_of();
    let k2 = b.king_square(opp);
    lemma_generated_move_facts(b, only_captures, i, next);
    lemma_flag_words();
    lemma_clear_lowest(b.piece_bits(6) & b.side_bits(opp));
    lemma_bitwise(b.piece_bits(6), b.side_bits(opp), k2 as u64);
    lemma_bitwise(b.side_bits(0), b.side_bits(1), k2 as u64);
    assert(b.square_wf(k2));
    // The move does not take the other side's king.
    if mv.flags_of() == 0x5000u16 {
        if b.en_passant@ < 64 {
            lemma_en_passant_taken(b, mv);
            let ts = crate::board::captured_square(mv);
            lemma_bitwise(b.piece_bits(1), b.side_bits(opp), ts as u64);
            assert(b.square_wf(ts));
        } else {
            assert(mv.to_of() == b.en_passant@);
        }
    } else {
        assert(crate::board::captured_square(mv) == to);
        if to == k2 {
            assert(b.attacks_square_from(mv.from_of(), k2, stm, b.side_bits(0) | b.side_bits(1)));
        }
    }
    lemma_own_king_after(b, mv, next);
    lemma_other_king_after(b, mv, next);
    lemma_en_passant_after_move(b, mv, next);
    lemma_own_castling_after(b, mv, next);
    lemma_other_castling_after(b, mv, next);
    lemma_clear_lowest(next.piece_bits(6) & next.side_bits(opp));
    assert(next.side_to_move@ == opp);
    assert(1 - next.side_to_move@ == stm);
}

/// Whether playing `mv` on `b` takes away castling right `r` (0 and 1 for white's king and
/// queen sides, 2 and 3 for black's): both rights of the side to move for a castle or a
/// king move, one of them for its rook leaving that right's corner, and one of the other
/// side's for a rook taken on that right's corner.
pub open spec fn right_cleared(b: Board, mv: Move, r: int) -> bool {
    let stm = b.side_to_move@;
    let opp = 1 - stm;
    let mk = b.mover_kind(mv);
    let tk = b.piece_at(crate::board::captured_square(mv));
    ||| (r == 2 * stm || r == 2 * stm + 1) && (crate::board::is_castle(mv) || mk == 6)
    ||| r == 2 * stm && mk == 4 && mv.from_of() == 7 + 56 * stm
    ||| r == 2 * stm + 1 && mk == 4 && mv.from_of() == 56 * stm
    ||| r == 2 * opp && tk == 4 && mv.to_of() == 7 + 56 * opp
    ||| r == 2 * opp + 1 && tk == 4 && mv.to_of() == 56 * opp
}

/// Castling rights are never regained: after any move a right is held exactly when it was
/// held before and the move does not take it away.
pub proof fn lemma_castle_rights_never_regained(b: Board, mv: Move, next: Board)
    requires
        b.side_to_move.valid(),
        b.moves_to(mv, next),
    ensures
        forall|r: int|
            0 <= r < 4 ==> (#[trigger] next.castle_rights.has(r) == (b.castle_rights.has(r) && !right_cleared(b, mv, r))),
{
    let stm = b.side_to_move@;
    let opp = 1 - stm;
    let r0 = b.castle_rights@;
    let mk = b.mover_kind(mv);
    let tk = b.piece_at(crate::board::captured_square(mv));
    let from = mv.from_of();
    let to = mv.to_of();
    let wr = |v: u8, a: int| crate::board::without_right(v, a);
    assert forall|v: u8, a: int, x: int| 0 <= a < 4 && 0 <= x < 4 implies #[trigger] crate::bit_ops::u8_bit(
        crate::board::without_right(v, a),
        x,
    ) == (x != a && crate::bit_ops::u8_bit(v, x)) by {
        crate::bit_ops::lemma_set_bit_to_zero(v, a as u8, x as u8);
    }
    let r1 = if crate::board::is_castle(mv) {
        wr(wr(r0, 2 * stm), 2 * stm + 1)
    } else {
        r0
    };
    let r2 = if mk == 6 {
        wr(wr(r1, 2 * stm), 2 * stm + 1)
    } else if mk == 4 && from == 7 + 56 * stm {
        wr(r1, 2 * stm)
    } else if mk == 4 && from == 56 * stm {
        wr(r1, 2 * stm + 1)
    } else {
        r1
    };
    assert(next.castle_rights@ == if tk == 4 && to == 7 + 56 * opp {
        wr(r2, 2 * opp)
    } else if tk == 4 && to == 56 * opp {
        wr(r2, 2 * opp + 1)
    } else {
        r2
    });
}

} // verus!
