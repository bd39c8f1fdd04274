use vstd::prelude::*;

use crate::bitboard::{has_bit, lemma_single_bit_update, single_bit};
use crate::board::{captured_square, castle_rook_from, castle_rook_to, is_castle, Board};
use crate::core_structs::{lemma_flag_words, lemma_move_value_fields, Move};
use crate::movegen::{
    agressive_pawns, agressive_pinned_pawns, bishop_moves, bits_of, castle_moves, castle_path_ok, double_check,
    double_pushable_pawns, double_step, en_passant_ok, en_passant_step, evasion_mask, generated_moves,
    generation_ready, king_captures, king_moves, king_step, knight_moves, knight_square_moves, movable_pawns,
    movable_pinned_pawns, move_value, moves_over, one_move, pawn_capture_moves, pawn_family, pawn_moves,
    pawn_quiet_moves, pawn_square_moves, piece_moves, promotion_rank, promotions, rook_moves, slider_square_moves,
};
use crate::movegen_laws::{all_moves, from_in, lemma_all_concat, lemma_moves_over_all};

verus! {

/// Whether playing `mv` on `b` keeps every square holding at most one piece: a piece
/// stands on the square it leaves; an en passant capture lands on an empty square other
/// than that one; and a castling move's rook squares are apart from the king's squares,
/// the rook's new square empty, and its corner empty or holding a rook of the moving side.
pub open spec fn move_keeps_form(b: Board, mv: Move) -> bool {
    let from = mv.from_of();
    let to = mv.to_of();
    let rf = castle_rook_from(mv, b.side_to_move@);
    let rt = castle_rook_to(mv, b.side_to_move@);
    &&& b.occupied(from)
    &&& mv.flags_of() == 0x5000u16 ==> !b.occupied(to) && to != from
    &&& is_castle(mv) ==> {
        &&& rf != from && rf != to && rt != from && rt != to
        &&& !b.occupied(rt)
        &&& b.occupied(rf) ==> b.piece_at(rf) == 4 && b.color_at(rf) == b.color_at(from)
    }
}

/// Where the pieces of kind `p` stand after `mv`: a castling rook on its new square and off
/// its corner, the arriving piece on the target square, nothing on the squares left or
/// taken, and elsewhere as before.
pub(crate) proof fn lemma_moved_piece_at(b: Board, mv: Move, p: int, j: int)
    requires
        b.wf(),
        move_keeps_form(b, mv),
        1 <= p <= 6,
        0 <= j < 64,
    ensures
        has_bit(b.moved_piece_bits(mv, p), j) == if is_castle(mv) && p == 4 && j == castle_rook_to(
            mv,
            b.side_to_move@,
        ) {
            true
        } else if is_castle(mv) && p == 4 && j == castle_rook_from(mv, b.side_to_move@) {
            false
        } else if j == mv.to_of() {
            p == b.arrival_kind(mv)
        } else if j == mv.from_of() || j == captured_square(mv) {
            false
        } else {
            has_bit(b.piece_bits(p), j)
        },
{
    let from = mv.from_of();
    let to = mv.to_of();
    let ts = captured_square(mv);
    let rf = castle_rook_from(mv, b.side_to_move@);
    let rt = castle_rook_to(mv, b.side_to_move@);
    lemma_flag_words();
    assert(0 <= from < 64 && 0 <= to < 64);
    assert(0 <= ts < 64) by {
        crate::bitboard::lemma_pawn_step_bits(to as u64, 0);
    }
    assert(b.square_wf(j));
    assert(b.square_wf(from));
    assert(b.square_wf(to));
    assert(b.square_wf(ts));
    assert(b.square_wf(rf));
    assert(b.square_wf(rt));
    let x0 = b.piece_bits(p);
    let x1 = if p == b.mover_kind(mv) { x0 & !single_bit(from) } else { x0 };
    let x2 = if b.piece_at(ts) != 0 && p == b.piece_at(ts) { x1 & !single_bit(ts) } else { x1 };
    let x3 = if p == b.arrival_kind(mv) { x2 | single_bit(to) } else { x2 };
    lemma_single_bit_update(x0, from as u64, j as u64);
    lemma_single_bit_update(x1, ts as u64, j as u64);
    lemma_single_bit_update(x2, to as u64, j as u64);
    lemma_single_bit_update(x3, rf as u64, j as u64);
    lemma_single_bit_update(x3 & !single_bit(rf), rt as u64, j as u64);
    lemma_single_bit_update(x0, ts as u64, j as u64);
    lemma_single_bit_update(x0, to as u64, j as u64);
    lemma_single_bit_update(x1, to as u64, j as u64);
    lemma_single_bit_update(x0, rf as u64, j as u64);
    lemma_single_bit_update(x0, rt as u64, j as u64);
}

/// Where the pieces of side `s` stand after `mv`, likewise.
pub(crate) proof fn lemma_moved_side_at(b: Board, mv: Move, s: int, j: int)
    requires
        b.wf(),
        move_keeps_form(b, mv),
        0 <= s <= 1,
        0 <= j < 64,
    ensures
        has_bit(b.moved_side_bits(mv, s), j) == if is_castle(mv) && s == b.mover_color(mv) && j == castle_rook_to(
            mv,
            b.side_to_move@,
        ) {
            true
        } else if is_castle(mv) && s == b.mover_color(mv) && j == castle_rook_from(mv, b.side_to_move@) {
            false
        } else if j == mv.to_of() {
            s == b.mover_color(mv)
        } else if j == mv.from_of() || j == captured_square(mv) {
            false
        } else {
            has_bit(b.side_bits(s), j)
        },
{
    let from = mv.from_of();
    let to = mv.to_of();
    let ts = captured_square(mv);
    let rf = castle_rook_from(mv, b.side_to_move@);
    let rt = castle_rook_to(mv, b.side_to_move@);
    let mc = b.mover_color(mv);
    lemma_flag_words();
    assert(0 <= from < 64 && 0 <= to < 64);
    assert(0 <= ts < 64) by {
        crate::bitboard::lemma_pawn_step_bits(to as u64, 0);
    }
    assert(b.square_wf(j));
    assert(b.square_wf(from));
    assert(b.square_wf(to));
    assert(b.square_wf(ts));
    assert(b.square_wf(rf));
    assert(b.square_wf(rt));
    let x0 = b.side_bits(s);
    let x1 = if s == mc { x0 & !single_bit(from) } else { x0 };
    let x2 = if b.piece_at(ts) != 0 && s == b.color_at(ts) { x1 & !single_bit(ts) } else { x1 };
    let x3 = if s == mc { x2 | single_bit(to) } else { x2 };
    lemma_single_bit_update(x0, from as u64, j as u64);
    lemma_single_bit_update(x1, ts as u64, j as u64);
    lemma_single_bit_update(x2, to as u64, j as u64);
    lemma_single_bit_update(x3, rf as u64, j as u64);
    lemma_single_bit_update(x3 & !single_bit(rf), rt as u64, j as u64);
    lemma_single_bit_update(x0, ts as u64, j as u64);
    lemma_single_bit_update(x0, to as u64, j as u64);
    lemma_single_bit_update(x1, to as u64, j as u64);
    lemma_single_bit_update(x0, rf as u64, j as u64);
    lemma_single_bit_update(x0, rt as u64, j as u64);
}

/// Playing a move that keeps the form of the board keeps it well formed: every square
/// holds at most one piece of one side, the turn passes to a side, and the en passant
/// square is a square of the board or none.
pub proof fn lemma_move_keeps_well_formed(b: Board, mv: Move, next: Board)
    requires
        b.wf(),
        move_keeps_form(b, mv),
        b.moves_to(mv, next),
    ensures
        next.wf(),
{
    let from = mv.from_of();
    lemma_flag_words();
    assert(0 <= from < 64);
    crate::bitboard::lemma_pawn_step_bits(from as u64, 0);
    assert(b.square_wf(from));
    assert(1 <= b.mover_kind(mv) <= 6);
    assert(2 <= b.arrival_kind(mv) <= 6 || b.arrival_kind(mv) == 1);
    assert forall|j: int| 0 <= j < 64 implies #[trigger] next.square_wf(j) by {
        assert forall|p: int| 1 <= p <= 6 implies #[trigger] has_bit(next.piece_bits(p), j) == has_bit(
            b.moved_piece_bits(mv, p),
            j,
        ) by {
            lemma_moved_piece_at(b, mv, p, j);
        }
        lemma_moved_side_at(b, mv, 0, j);
        lemma_moved_side_at(b, mv, 1, j);
        lemma_moved_piece_at(b, mv, 1, j);
        lemma_moved_piece_at(b, mv, 2, j);
        lemma_moved_piece_at(b, mv, 3, j);
        lemma_moved_piece_at(b, mv, 4, j);
        lemma_moved_piece_at(b, mv, 5, j);
        lemma_moved_piece_at(b, mv, 6, j);
        assert(b.square_wf(j));
    }
}

/// Whether the move of value `v` is shaped as the generator shapes moves on `b`: an en
/// passant capture goes to the en passant square; a double step takes a pawn of the side
/// to move from its starting rank, past an empty square, to the square in front of that
/// one; and a castling move takes the king from its square to the square of a castle whose
/// right is held and whose path is free.
pub open spec fn generator_shape(b: Board, v: u16) -> bool {
    let mv = Move { value: v };
    let stm = b.side_to_move@;
    let off = 56 * stm;
    let passed = ((mv.from_of() as usize) ^ 24usize) as int;
    &&& mv.flags_of() == 0x5000u16 ==> mv.to_of() == b.en_passant@
    &&& mv.flags_of() == 0x1000u16 ==> {
        &&& mv.value & 0x8000u16 == 0
        &&& has_bit(crate::movegen::pawn_set(b), mv.from_of())
        &&& has_bit(crate::movegen::double_push_rank(stm), mv.from_of())
        &&& !b.occupied(passed)
        &&& has_bit(crate::movegen::pawn_push(stm, passed), mv.to_of())
    }
    &&& mv.flags_of() == 0x2000u16 ==> mv.from_of() == b.king_square(stm) && mv.to_of() == 6 + off
        && b.castle_rights.has(2 * stm) && castle_path_ok(b, 6 + off, 7 + off)
    &&& mv.flags_of() == 0x3000u16 ==> mv.from_of() == b.king_square(stm) && mv.to_of() == 2 + off
        && b.castle_rights.has(2 * stm + 1) && castle_path_ok(b, 2 + off, off)
}

/// Whether each castling right of the side to move is held only while a rook of that side
/// stands on the right's corner.
pub open spec fn castle_rooks_in_place(b: Board) -> bool {
    let stm = b.side_to_move@;
    let off = 56 * stm;
    let rooks = b.piece_bits(4) & b.side_bits(stm);
    &&& b.castle_rights.has(2 * stm) ==> has_bit(rooks, 7 + off)
    &&& b.castle_rights.has(2 * stm + 1) ==> has_bit(rooks, off)
}

/// Moves from `s` with flags that are neither en passant, double step nor castling flags,
/// one for each target or the four promotions, are shaped as the generator shapes moves.
proof fn lemma_targets_shape(b: Board, s: int, targets: spec_fn(int) -> bool, flags: u16, promote: bool)
    requires
        0 <= s < 64,
        flags == 0u16 || flags == 0x4000u16,
    ensures
        all_moves(
            moves_over(targets, if promote { promotions(s, flags) } else { one_move(s, flags) }),
            |v: u16| generator_shape(b, v),
        ),
{
    let shape = |v: u16| generator_shape(b, v);
    let h = if promote { promotions(s, flags) } else { one_move(s, flags) };
    lemma_flag_words();
    assert forall|t: int| 0 <= t < 64 && #[trigger] targets(t) implies all_moves(h(t), shape) by {
        lemma_move_value_fields(s as u16, t as u16, flags);
        if promote {
            lemma_move_value_fields(s as u16, t as u16, 0x8000u16 | flags);
            lemma_move_value_fields(s as u16, t as u16, 0x9000u16 | flags);
            lemma_move_value_fields(s as u16, t as u16, 0xA000u16 | flags);
            lemma_move_value_fields(s as u16, t as u16, 0xB000u16 | flags);
            assert(h(t) == promotions(s, flags)(t));
        } else {
            assert(h(t) == one_move(s, flags)(t));
        }
    }
    lemma_moves_over_all(targets, h, shape);
}

/// The moves of the piece on `s` to squares of `targets` are shaped as the generator
/// shapes moves.
proof fn lemma_piece_moves_shape(b: Board, s: int, targets: spec_fn(int) -> bool)
    requires
        0 <= s < 64,
    ensures
        all_moves(piece_moves(b, s, targets), |v: u16| generator_shape(b, v)),
{
    let quiet = |j: int| targets(j) && !b.occupied(j);
    let captures = |j: int| targets(j) && has_bit(b.side_bits(1 - b.side_to_move@), j);
    lemma_targets_shape(b, s, quiet, 0u16, false);
    lemma_targets_shape(b, s, captures, 0x4000u16, false);
    lemma_all_concat(moves_over(quiet, one_move(s, 0)), moves_over(captures, one_move(s, 0x4000)), |v: u16| generator_shape(b, v));
}

/// The pawn moves of one family are shaped as the generator shapes moves.
proof fn lemma_pawn_family_shape(b: Board, sources: u64, capture: bool, restrict: u64, flags: u16, promote: bool)
    requires
        flags == 0u16 || flags == 0x4000u16,
    ensures
        all_moves(pawn_family(b, sources, capture, restrict, flags, promote), |v: u16| generator_shape(b, v)),
{
    let g = pawn_square_moves(b, capture, restrict, flags, promote);
    assert forall|s: int| 0 <= s < 64 && #[trigger] bits_of(sources)(s) implies all_moves(g(s), |v: u16| generator_shape(b, v)) by {
        lemma_targets_shape(b, s, |t: int| crate::movegen::pawn_reach(b, capture, s, t) && has_bit(restrict, t), flags, promote);
    }
    lemma_moves_over_all(bits_of(sources), g, |v: u16| generator_shape(b, v));
}

/// The single and double steps of pawns of the side to move on their starting rank are
/// shaped as the generator shapes moves.
proof fn lemma_double_steps_shape(b: Board, sources: u64, restrict: u64)
    requires
        forall|s: int|
            0 <= s < 64 && #[trigger] has_bit(sources, s) ==> has_bit(crate::movegen::pawn_set(b), s) && has_bit(
                crate::movegen::double_push_rank(b.side_to_move@),
                s,
            ),
    ensures
        all_moves(moves_over(bits_of(sources), double_step(b, restrict)), |v: u16| generator_shape(b, v)),
{
    let stm = b.side_to_move@;
    let opp = b.side_bits(1 - stm);
    let g = double_step(b, restrict);
    assert forall|s: int| 0 <= s < 64 && #[trigger] bits_of(sources)(s) implies all_moves(g(s), |v: u16| generator_shape(b, v)) by {
        let m = (s as usize ^ 24usize) as int;
        let t1 = |t: int| has_bit(crate::movegen::pawn_push(stm, s), t) && !has_bit(opp, t) && has_bit(restrict, t);
        let t2 = |t: int| has_bit(crate::movegen::pawn_push(stm, m), t) && !has_bit(opp, t) && has_bit(restrict, t);
        if !b.occupied(m) {
            lemma_targets_shape(b, s, t1, 0u16, false);
            lemma_flag_words();
            assert forall|t: int| 0 <= t < 64 && #[trigger] t2(t) implies all_moves(one_move(s, 0x1000)(t), |v: u16| generator_shape(b, v)) by {
                lemma_move_value_fields(s as u16, t as u16, 0x1000u16);
                assert(one_move(s, 0x1000)(t)[0] == move_value(s, t, 0x1000u16));
            }
            lemma_moves_over_all(t2, one_move(s, 0x1000), |v: u16| generator_shape(b, v));
            lemma_all_concat(moves_over(t1, one_move(s, 0)), moves_over(t2, one_move(s, 0x1000)), |v: u16| generator_shape(b, v));
        }
    }
    lemma_moves_over_all(bits_of(sources), g, |v: u16| generator_shape(b, v));
}

/// The en passant captures to squares of `restrict`, the en passant square alone, go to
/// the en passant square.
proof fn lemma_en_passant_shape(b: Board, sources: u64, mask: u64, restrict: u64)
    requires
        forall|t: int| 0 <= t < 64 && #[trigger] has_bit(restrict, t) ==> t == b.en_passant@,
    ensures
        all_moves(moves_over(bits_of(sources), en_passant_step(b, mask, restrict)), |v: u16| generator_shape(b, v)),
{
    let stm = b.side_to_move@;
    let g = en_passant_step(b, mask, restrict);
    lemma_flag_words();
    assert forall|s: int| 0 <= s < 64 && #[trigger] bits_of(sources)(s) implies all_moves(g(s), |v: u16| generator_shape(b, v)) by {
        if en_passant_ok(b, s, mask) {
            let targets = |t: int| crate::geometry::pawn_attack(stm, s, t) && has_bit(restrict, t);
            assert forall|t: int| 0 <= t < 64 && #[trigger] targets(t) implies all_moves(one_move(s, 0x5000)(t), |v: u16| generator_shape(b, v)) by {
                lemma_move_value_fields(s as u16, t as u16, 0x5000u16);
                assert(one_move(s, 0x5000)(t)[0] == move_value(s, t, 0x5000u16));
            }
            lemma_moves_over_all(targets, one_move(s, 0x5000), |v: u16| generator_shape(b, v));
        }
    }
    lemma_moves_over_all(bits_of(sources), g, |v: u16| generator_shape(b, v));
}

/// Every move the generator lists is shaped as the generator shapes moves.
#[verifier::spinoff_prover]
#[verifier::rlimit(30)]
pub(crate) proof fn lemma_generated_moves_shape(b: Board, only_captures: bool)
    requires
        generation_ready(b),
    ensures
        all_moves(generated_moves(b, only_captures), |v: u16| generator_shape(b, v)),
{
    let shape = |v: u16| generator_shape(b, v);
    let stm = b.side_to_move@;
    let off = 56 * stm;
    let k = b.king_square(stm);
    let own = b.side_bits(stm);
    let opp = b.side_bits(1 - stm);
    lemma_flag_words();
    // The king's steps.
    assert forall|t: int| 0 <= t < 64 && crate::geometry::king_attack(k, t) && !has_bit(own, t) implies all_moves(
        #[trigger] king_step(b, k)(t),
        shape,
    ) by {
        crate::bitboard::lemma_clear_lowest(b.piece_bits(6) & own);
        lemma_move_value_fields(k as u16, t as u16, 0u16);
        lemma_move_value_fields(k as u16, t as u16, 0x4000u16);
    }
    lemma_moves_over_all(|t: int| crate::geometry::king_attack(k, t) && !has_bit(own, t), king_step(b, k), shape);
    lemma_moves_over_all(
        |t: int| crate::geometry::king_attack(k, t) && !has_bit(own, t) && has_bit(opp, t),
        king_step(b, k),
        shape,
    );
    let king_part = if only_captures { king_captures(b) } else { king_moves(b) };
    if !double_check(b) {
        let mask = evasion_mask(b, only_captures);
        // The castling moves.
        let first: Seq<u16> = if b.castle_rights.has(2 * stm) && castle_path_ok(b, 6 + off, 7 + off) {
            seq![move_value(k, 6 + off, 0x2000u16)]
        } else {
            Seq::empty()
        };
        let second: Seq<u16> = if b.castle_rights.has(2 * stm + 1) && castle_path_ok(b, 2 + off, off) {
            seq![move_value(k, 2 + off, 0x3000u16)]
        } else {
            Seq::empty()
        };
        crate::bitboard::lemma_clear_lowest(b.piece_bits(6) & own);
        lemma_move_value_fields(k as u16, (6 + off) as u16, 0x2000u16);
        lemma_move_value_fields(k as u16, (2 + off) as u16, 0x3000u16);
        assert(castle_moves(b) == first + second);
        assert(all_moves(first, shape));
        assert(all_moves(second, shape));
        lemma_all_concat(first, second, shape);
        let castle_part = if !only_captures && b.checkers@ == 0 { castle_moves(b) } else { Seq::empty() };
        // The pawn moves.
        let promo = promotion_rank(stm);
        let movable = movable_pawns(b);
        let pinned = movable_pinned_pawns(b);
        let double = double_pushable_pawns(b);
        let orth = b.ortographic_pins@;
        let diag = b.diagonal_pins@;
        let q1 = pawn_family(b, ((movable & !double) & !pinned) & !promo, false, mask, 0, false);
        let q2 = pawn_family(b, (pinned & !double) & !promo, false, mask & orth, 0, false);
        let q3 = pawn_family(b, (movable & !pinned) & promo, false, mask, 0, true);
        let q4 = moves_over(bits_of(double & !pinned), double_step(b, mask));
        let q5 = moves_over(bits_of(double & pinned), double_step(b, mask & orth));
        lemma_pawn_family_shape(b, ((movable & !double) & !pinned) & !promo, false, mask, 0, false);
        lemma_pawn_family_shape(b, (pinned & !double) & !promo, false, mask & orth, 0, false);
        lemma_pawn_family_shape(b, (movable & !pinned) & promo, false, mask, 0, true);
        assert forall|s: int| 0 <= s < 64 && #[trigger] has_bit(double, s) implies has_bit(crate::movegen::pawn_set(b), s)
            && has_bit(crate::movegen::double_push_rank(stm), s) by {
            crate::bitboard::lemma_bitwise(movable, crate::movegen::double_push_rank(stm), s as u64);
            crate::bitboard::lemma_bitwise(crate::movegen::pawn_set(b), !diag, s as u64);
        }
        assert forall|s: int| 0 <= s < 64 && #[trigger] has_bit(double & !pinned, s) implies has_bit(double, s) by {
            crate::bitboard::lemma_bitwise(double, !pinned, s as u64);
        }
        assert forall|s: int| 0 <= s < 64 && #[trigger] has_bit(double & pinned, s) implies has_bit(double, s) by {
            crate::bitboard::lemma_bitwise(double, pinned, s as u64);
        }
        lemma_double_steps_shape(b, double & !pinned, mask);
        lemma_double_steps_shape(b, double & pinned, mask & orth);
        lemma_all_concat(q1, q2, shape);
        lemma_all_concat(q1 + q2, q3, shape);
        lemma_all_concat(q1 + q2 + q3, q4, shape);
        lemma_all_concat(q1 + q2 + q3 + q4, q5, shape);
        assert(pawn_quiet_moves(b, mask) == q1 + q2 + q3 + q4 + q5);
        let agressive = agressive_pawns(b);
        let apinned = agressive_pinned_pawns(b);
        let ep = b.en_passant@;
        let c1 = pawn_family(b, (agressive & !apinned) & !promo, true, mask, 0x4000, false);
        let c2 = pawn_family(b, apinned & !promo, true, mask & diag, 0x4000, false);
        let c3 = pawn_family(b, (agressive & !apinned) & promo, true, mask, 0x4000, true);
        let c4 = pawn_family(b, apinned & promo, true, mask & diag, 0x4000, true);
        lemma_pawn_family_shape(b, (agressive & !apinned) & !promo, true, mask, 0x4000, false);
        lemma_pawn_family_shape(b, apinned & !promo, true, mask & diag, 0x4000, false);
        lemma_pawn_family_shape(b, (agressive & !apinned) & promo, true, mask, 0x4000, true);
        lemma_pawn_family_shape(b, apinned & promo, true, mask & diag, 0x4000, true);
        lemma_all_concat(c1, c2, shape);
        lemma_all_concat(c1 + c2, c3, shape);
        lemma_all_concat(c1 + c2 + c3, c4, shape);
        let ep_part: Seq<u16> = if ep == 64 {
            Seq::empty()
        } else {
            moves_over(bits_of(agressive & !apinned), en_passant_step(b, mask, single_bit(ep))) + moves_over(
                bits_of(apinned),
                en_passant_step(b, mask, single_bit(ep) & diag),
            )
        };
        if ep != 64 {
            b.en_passant.lemma_index_nonnegative();
            assert forall|t: int| 0 <= t < 64 && #[trigger] has_bit(single_bit(ep), t) implies t == ep by {
                lemma_single_bit_update(0, ep as u64, t as u64);
            }
            assert forall|t: int| 0 <= t < 64 && #[trigger] has_bit(single_bit(ep) & diag, t) implies t == ep by {
                crate::bitboard::lemma_bitwise(single_bit(ep), diag, t as u64);
                lemma_single_bit_update(0, ep as u64, t as u64);
            }
            lemma_en_passant_shape(b, agressive & !apinned, mask, single_bit(ep));
            lemma_en_passant_shape(b, apinned, mask, single_bit(ep) & diag);
            lemma_all_concat(
                moves_over(bits_of(agressive & !apinned), en_passant_step(b, mask, single_bit(ep))),
                moves_over(bits_of(apinned), en_passant_step(b, mask, single_bit(ep) & diag)),
                shape,
            );
        }
        lemma_all_concat(c1 + c2 + c3 + c4, ep_part, shape);
        assert(pawn_capture_moves(b, mask) == c1 + c2 + c3 + c4 + ep_part);
        lemma_all_concat(pawn_quiet_moves(b, mask), pawn_capture_moves(b, mask), shape);
        let pawn_part = if only_captures { pawn_capture_moves(b, mask) } else { pawn_moves(b, mask) };
        // The knight, bishop and rook moves.
        assert forall|s: int| 0 <= s < 64 && #[trigger] bits_of((b.piece_bits(2) & own) & !(orth | diag))(s) implies all_moves(
            knight_square_moves(b, mask)(s),
            shape,
        ) by {
            lemma_piece_moves_shape(b, s, |j: int| crate::geometry::knight_attack(s, j) && has_bit(mask, j));
        }
        lemma_moves_over_all(bits_of((b.piece_bits(2) & own) & !(orth | diag)), knight_square_moves(b, mask), shape);
        assert forall|is_bishop: bool, restrict: u64, s: int| 0 <= s < 64 implies all_moves(
            #[trigger] slider_square_moves(b, is_bishop, restrict)(s),
            shape,
        ) by {
            lemma_piece_moves_shape(
                b,
                s,
                |j: int| crate::geometry::slider_attack(is_bishop, s, b.side_bits(0) | b.side_bits(1), j) && has_bit(restrict, j),
            );
        }
        let bpieces = (b.piece_bits(3) & own) | (b.piece_bits(5) & own);
        let bmovable = bpieces & !orth;
        let bpinned = bmovable & diag;
        lemma_moves_over_all(bits_of(bmovable & !bpinned), slider_square_moves(b, true, mask), shape);
        lemma_moves_over_all(bits_of(bpinned), slider_square_moves(b, true, mask & diag), shape);
        lemma_all_concat(
            moves_over(bits_of(bmovable & !bpinned), slider_square_moves(b, true, mask)),
            moves_over(bits_of(bpinned), slider_square_moves(b, true, mask & diag)),
            shape,
        );
        let rpieces = (b.piece_bits(4) & own) | (b.piece_bits(5) & own);
        let rmovable = rpieces & !diag;
        let rpinned = rmovable & orth;
        lemma_moves_over_all(bits_of(rmovable & !rpinned), slider_square_moves(b, false, mask), shape);
        lemma_moves_over_all(bits_of(rpinned), slider_square_moves(b, false, mask & orth), shape);
        lemma_all_concat(
            moves_over(bits_of(rmovable & !rpinned), slider_square_moves(b, false, mask)),
            moves_over(bits_of(rpinned), slider_square_moves(b, false, mask & orth)),
            shape,
        );
        lemma_all_concat(king_part, castle_part, shape);
        lemma_all_concat(king_part + castle_part, pawn_part, shape);
        lemma_all_concat(king_part + castle_part + pawn_part, knight_moves(b, mask), shape);
        lemma_all_concat(king_part + castle_part + pawn_part + knight_moves(b, mask), bishop_moves(b, mask), shape);
        lemma_all_concat(
            king_part + castle_part + pawn_part + knight_moves(b, mask) + bishop_moves(b, mask),
            rook_moves(b, mask),
            shape,
        );
    }
}

/// The generator's moves keep the board well formed: once any move it lists is played,
/// every square holds at most one piece of one side. This holds of boards whose en
/// passant square is empty and whose castling rights agree with the king's and the rooks'
/// squares.
pub proof fn lemma_generated_moves_keep_board_well_formed(b: Board, only_captures: bool, i: int, next: Board)
    requires
        b.wf(),
        generation_ready(b),
        crate::legality::en_passant_square_empty(b),
        crate::legality::castling_consistent(b),
        castle_rooks_in_place(b),
        0 <= i < generated_moves(b, only_captures).len(),
        b.moves_to(Move { value: generated_moves(b, only_captures)[i] }, next),
    ensures
        next.wf(),
        move_keeps_form(b, Move { value: generated_moves(b, only_captures)[i] }),
{
    let stm = b.side_to_move@;
    let off = 56 * stm;
    let own = b.side_bits(stm);
    let mv = Move { value: generated_moves(b, only_captures)[i] };
    let from = mv.from_of();
    let to = mv.to_of();
    lemma_generated_moves_shape(b, only_captures);
    crate::movegen_laws::lemma_generated_moves_leave_allied_squares(b, only_captures);
    let shape = |v: u16| generator_shape(b, v);
    assert(shape(generated_moves(b, only_captures)[i]));
    assert(from_in(own)(generated_moves(b, only_captures)[i]));
    lemma_flag_words();
    assert(0 <= from < 64 && 0 <= to < 64);
    crate::bitboard::lemma_bitwise(b.side_bits(0), b.side_bits(1), from as u64);
    assert(b.occupied(from));
    if is_castle(mv) {
        let king_side = mv.flags_of() == 0x2000u16;
        let k = 4 + off;
        let rook = if king_side { 7 + off } else { off };
        let rook_to = if king_side { 5 + off } else { 3 + off };
        crate::capture_generation::lemma_square_coords(k);
        crate::capture_generation::lemma_square_coords(rook);
        crate::capture_generation::lemma_square_coords(rook_to);
        assert(crate::geometry::ray(k, rook, rook_to));
        assert(!b.occupied(rook_to));
        assert(castle_rook_from(mv, stm) == rook);
        assert(castle_rook_to(mv, stm) == rook_to);
        crate::bitboard::lemma_bitwise(b.piece_bits(4), own, rook as u64);
        crate::bitboard::lemma_bitwise(b.side_bits(0), b.side_bits(1), rook as u64);
        assert(b.square_wf(rook));
        assert(b.square_wf(from));
    }
    assert(move_keeps_form(b, mv));
    lemma_move_keeps_well_formed(b, mv, next);
}

} // verus!
