use vstd::prelude::*;
use vstd::std_specs::bits::u64_trailing_zeros;

use crate::bitboard::{has_bit, lemma_bitwise, lemma_clear_lowest, lemma_single_bit_update, lemma_zero_bits, popcount};
use crate::attacks::Attacks;
use crate::board::Board;
use crate::core_structs::Square;
use crate::move_list::{move_list_len, move_list_values, MoveList};
use crate::geometry::{king_attack, knight_attack, pawn_attack, slider_attack};
use crate::capture_generation::lemma_square_coords;
use crate::movegen::{
    bishop_moves, bits_of, double_step, en_passant_step, knight_moves, knight_square_moves, moves_from, moves_over,
    one_move, pawn_family, pawn_push, pawn_reach, pawn_square_moves, piece_moves, promotions, rook_moves,
    slider_square_moves, pawn_moves, pawn_quiet_moves, pawn_capture_moves, promotion_rank, pawn_set, movable_pawns,
    movable_pinned_pawns, double_pushable_pawns, agressive_pawns, agressive_pinned_pawns, generation_ready,
    generated_moves, king_moves, king_captures, king_step, castle_moves, double_check, evasion_mask, MoveProvider,
};

verus! {

/// The sum of `w` over the squares from `start` to 63.
pub open spec fn weight_from(w: spec_fn(int) -> nat, start: int) -> nat
    decreases 64 - start,
{
    if 0 <= start < 64 {
        w(start) + weight_from(w, start + 1)
    } else {
        0
    }
}

/// One for the squares `pred` holds of, none for the others.
pub open spec fn indicator(pred: spec_fn(int) -> bool) -> spec_fn(int) -> nat {
    |j: int| if pred(j) { 1nat } else { 0nat }
}

/// `w` on the squares `pred` holds of, none on the others.
pub open spec fn weight_on(pred: spec_fn(int) -> bool, w: spec_fn(int) -> nat) -> spec_fn(int) -> nat {
    |j: int| if pred(j) { w(j) } else { 0nat }
}

/// The number of squares of the board `pred` holds of.
pub open spec fn square_count(pred: spec_fn(int) -> bool) -> nat {
    weight_from(indicator(pred), 0)
}

/// A weight no larger on any square sums to no more.
pub proof fn lemma_weight_mono(w1: spec_fn(int) -> nat, w2: spec_fn(int) -> nat, start: int)
    requires
        forall|j: int| start <= j < 64 ==> #[trigger] w1(j) <= w2(j),
    ensures
        weight_from(w1, start) <= weight_from(w2, start),
    decreases 64 - start,
{
    if 0 <= start < 64 {
        lemma_weight_mono(w1, w2, start + 1);
    }
}

/// Weights that agree on every square sum alike.
pub proof fn lemma_weight_same(w1: spec_fn(int) -> nat, w2: spec_fn(int) -> nat, start: int)
    requires
        forall|j: int| start <= j < 64 ==> #[trigger] w1(j) == w2(j),
    ensures
        weight_from(w1, start) == weight_from(w2, start),
    decreases 64 - start,
{
    if 0 <= start < 64 {
        lemma_weight_same(w1, w2, start + 1);
    }
}

/// The sum of two weights is the weight of their sum.
pub proof fn lemma_weight_add(w1: spec_fn(int) -> nat, w2: spec_fn(int) -> nat, w: spec_fn(int) -> nat, start: int)
    requires
        forall|j: int| start <= j < 64 ==> #[trigger] w(j) == w1(j) + w2(j),
    ensures
        weight_from(w, start) == weight_from(w1, start) + weight_from(w2, start),
    decreases 64 - start,
{
    if 0 <= start < 64 {
        lemma_weight_add(w1, w2, w, start + 1);
    }
}

/// A single square counts once, from any start at or before it.
proof fn lemma_count_one(c: int, start: int)
    requires
        0 <= start,
    ensures
        square_count_from(|j: int| j == c, start) == if start <= c < 64 { 1nat } else { 0nat },
    decreases 64 - start,
{
    if start < 64 {
        lemma_count_one(c, start + 1);
    }
}

/// The number of squares from `start` on that `pred` holds of.
pub open spec fn square_count_from(pred: spec_fn(int) -> bool, start: int) -> nat {
    weight_from(indicator(pred), start)
}

/// At most one square is the one square `c`.
pub proof fn lemma_count_at_most_one(pred: spec_fn(int) -> bool, c: int)
    requires
        forall|j: int| 0 <= j < 64 && #[trigger] pred(j) ==> j == c,
    ensures
        square_count(pred) <= 1,
{
    lemma_weight_mono(indicator(pred), indicator(|j: int| j == c), 0);
    lemma_count_one(c, 0);
}

/// At most two squares are among two squares `c1` and `c2`.
pub proof fn lemma_count_at_most_two(pred: spec_fn(int) -> bool, c1: int, c2: int)
    requires
        forall|j: int| 0 <= j < 64 && #[trigger] pred(j) ==> j == c1 || j == c2,
    ensures
        square_count(pred) <= 2,
{
    let w = |j: int| indicator(|i: int| i == c1)(j) + indicator(|i: int| i == c2)(j);
    lemma_weight_mono(indicator(pred), w, 0);
    lemma_weight_add(indicator(|i: int| i == c1), indicator(|i: int| i == c2), w, 0);
    lemma_count_one(c1, 0);
    lemma_count_one(c2, 0);
}

/// The squares of a set are as many as its set bits.
pub proof fn lemma_count_bits(x: u64)
    ensures
        square_count(bits_of(x)) == popcount(x),
    decreases x,
{
    if x == 0 {
        lemma_zero_bits();
        lemma_weight_same(indicator(bits_of(x)), |j: int| 0nat, 0);
        lemma_zero_weight(0);
    } else {
        lemma_clear_lowest(x);
        let t = u64_trailing_zeros(x) as int;
        let y = x & ((x - 1) as u64);
        lemma_count_bits(y);
        assert forall|j: int| 0 <= j < 64 implies #[trigger] indicator(bits_of(x))(j) == indicator(bits_of(y))(j) + indicator(
            |i: int| i == t,
        )(j) by {
            lemma_single_bit_update(x, t as u64, j as u64);
        }
        lemma_weight_add(indicator(bits_of(y)), indicator(|i: int| i == t), indicator(bits_of(x)), 0);
        lemma_count_one(t, 0);
    }
}

/// The zero weight sums to nothing.
proof fn lemma_zero_weight(start: int)
    ensures
        weight_from(|j: int| 0nat, start) == 0,
    decreases 64 - start,
{
    if 0 <= start < 64 {
        lemma_zero_weight(start + 1);
    }
}

/// The moves over the squares `pred` holds of are no more than the sum of a weight that
/// bounds the moves of each such square.
pub proof fn lemma_moves_from_bound(pred: spec_fn(int) -> bool, f: spec_fn(int) -> Seq<u16>, w: spec_fn(int) -> nat, start: int)
    requires
        forall|s: int| start <= s < 64 && #[trigger] pred(s) ==> f(s).len() <= w(s),
    ensures
        moves_from(pred, f, start).len() <= weight_from(weight_on(pred, w), start),
    decreases 64 - start,
{
    if 0 <= start < 64 {
        lemma_moves_from_bound(pred, f, w, start + 1);
    }
}

/// The same over the whole board.
pub proof fn lemma_moves_over_bound(pred: spec_fn(int) -> bool, f: spec_fn(int) -> Seq<u16>, w: spec_fn(int) -> nat)
    requires
        forall|s: int| 0 <= s < 64 && #[trigger] pred(s) ==> f(s).len() <= w(s),
    ensures
        moves_over(pred, f).len() <= weight_from(weight_on(pred, w), 0),
{
    lemma_moves_from_bound(pred, f, w, 0);
}

/// The weight one on every square.
pub open spec fn unit() -> spec_fn(int) -> nat {
    |j: int| 1nat
}

/// The single moves from `s` to the squares `targets` holds of: one for each such square.
proof fn lemma_one_moves_len(s: int, flags: u16, targets: spec_fn(int) -> bool)
    ensures
        moves_over(targets, one_move(s, flags)).len() <= square_count(targets),
{
    lemma_moves_over_bound(targets, one_move(s, flags), unit());
    lemma_weight_same(weight_on(targets, unit()), indicator(targets), 0);
}

/// The moves of a piece are no more than its target squares.
pub proof fn lemma_piece_moves_len(b: Board, s: int, targets: spec_fn(int) -> bool)
    requires
        b.wf(),
    ensures
        piece_moves(b, s, targets).len() <= square_count(targets),
{
    let tq = |j: int| targets(j) && !b.occupied(j);
    let tc = |j: int| targets(j) && has_bit(b.side_bits(1 - b.side_to_move@), j);
    lemma_one_moves_len(s, 0, tq);
    lemma_one_moves_len(s, 0x4000, tc);
    let both = |j: int| indicator(tq)(j) + indicator(tc)(j);
    lemma_weight_add(indicator(tq), indicator(tc), both, 0);
    assert forall|j: int| 0 <= j < 64 implies #[trigger] both(j) <= indicator(targets)(j) by {
        assert(b.square_wf(j));
    }
    lemma_weight_mono(both, indicator(targets), 0);
}

/// The number of squares a knight on `s` attacks.
pub open spec fn knight_reach(s: int) -> nat {
    square_count(|j: int| knight_attack(s, j))
}

/// The number of squares a bishop (`is_bishop`) or rook on `s` attacks past the blockers
/// `occ`.
pub open spec fn slider_reach(is_bishop: bool, s: int, occ: u64) -> nat {
    square_count(|j: int| slider_attack(is_bishop, s, occ, j))
}

/// The number of squares a king on `s` attacks.
pub open spec fn king_reach(s: int) -> nat {
    square_count(|j: int| king_attack(s, j))
}

/// The knights' moves are no more than the squares the knights of the side to move attack.
proof fn lemma_knight_moves_len(b: Board, mask: u64)
    requires
        b.wf(),
    ensures
        knight_moves(b, mask).len() <= weight_from(
            weight_on(bits_of(b.piece_bits(2) & b.side_bits(b.side_to_move@)), |s: int| knight_reach(s)),
            0,
        ),
{
    let knights = b.piece_bits(2) & b.side_bits(b.side_to_move@);
    let src = knights & !(b.ortographic_pins@ | b.diagonal_pins@);
    let kr = |s: int| knight_reach(s);
    let g = knight_square_moves(b, mask);
    assert forall|s: int| 0 <= s < 64 && #[trigger] bits_of(src)(s) implies g(s).len() <= kr(s) by {
        let targets = |j: int| knight_attack(s, j) && has_bit(mask, j);
        lemma_piece_moves_len(b, s, targets);
        lemma_weight_mono(indicator(targets), indicator(|j: int| knight_attack(s, j)), 0);
    }
    lemma_moves_over_bound(bits_of(src), g, kr);
    assert forall|s: int| 0 <= s < 64 implies #[trigger] weight_on(bits_of(src), kr)(s) <= weight_on(bits_of(knights), kr)(s) by {
        lemma_bitwise(knights, !(b.ortographic_pins@ | b.diagonal_pins@), s as u64);
    }
    lemma_weight_mono(weight_on(bits_of(src), kr), weight_on(bits_of(knights), kr), 0);
}

/// The bishops' (`is_bishop`) or rooks' moves, queens included, are no more than the
/// squares those pieces of the side to move attack.
proof fn lemma_slider_moves_len(b: Board, is_bishop: bool, mask: u64)
    requires
        b.wf(),
    ensures
        (if is_bishop { bishop_moves(b, mask) } else { rook_moves(b, mask) }).len() <= weight_from(
            weight_on(
                bits_of((b.piece_bits(if is_bishop { 3 } else { 4 }) & b.side_bits(b.side_to_move@)) | (b.piece_bits(5)
                    & b.side_bits(b.side_to_move@))),
                |s: int| slider_reach(is_bishop, s, b.side_bits(0) | b.side_bits(1)),
            ),
            0,
        ),
{
    let stm = b.side_to_move@;
    let occ = b.side_bits(0) | b.side_bits(1);
    let pieces = (b.piece_bits(if is_bishop { 3 } else { 4 }) & b.side_bits(stm)) | (b.piece_bits(5) & b.side_bits(stm));
    let cross = if is_bishop { b.ortographic_pins@ } else { b.diagonal_pins@ };
    let same = if is_bishop { b.diagonal_pins@ } else { b.ortographic_pins@ };
    let movable = pieces & !cross;
    let pinned = movable & same;
    let sr = |s: int| slider_reach(is_bishop, s, occ);
    let free_part = moves_over(bits_of(movable & !pinned), slider_square_moves(b, is_bishop, mask));
    let pinned_part = moves_over(bits_of(pinned), slider_square_moves(b, is_bishop, mask & same));
    assert((if is_bishop { bishop_moves(b, mask) } else { rook_moves(b, mask) }) == free_part + pinned_part);
    assert forall|r: u64, s: int| 0 <= s < 64 implies #[trigger] slider_square_moves(b, is_bishop, r)(s).len() <= sr(s) by {
        let targets = |j: int| slider_attack(is_bishop, s, occ, j) && has_bit(r, j);
        lemma_piece_moves_len(b, s, targets);
        lemma_weight_mono(indicator(targets), indicator(|j: int| slider_attack(is_bishop, s, occ, j)), 0);
    }
    lemma_moves_over_bound(bits_of(movable & !pinned), slider_square_moves(b, is_bishop, mask), sr);
    lemma_moves_over_bound(bits_of(pinned), slider_square_moves(b, is_bishop, mask & same), sr);
    let both = |s: int| weight_on(bits_of(movable & !pinned), sr)(s) + weight_on(bits_of(pinned), sr)(s);
    lemma_weight_add(weight_on(bits_of(movable & !pinned), sr), weight_on(bits_of(pinned), sr), both, 0);
    assert forall|s: int| 0 <= s < 64 implies #[trigger] both(s) <= weight_on(bits_of(pieces), sr)(s) by {
        let su = s as u64;
        lemma_bitwise(movable, !pinned, su);
        lemma_bitwise(movable, same, su);
        lemma_bitwise(pieces, !cross, su);
        lemma_bitwise(pinned, pinned, su);
    }
    lemma_weight_mono(both, weight_on(bits_of(pieces), sr), 0);
}

/// The weight `k` on the squares of `src`, none elsewhere.
pub open spec fn set_weight(src: u64, k: nat) -> spec_fn(int) -> nat {
    weight_on(bits_of(src), |j: int| k)
}

/// A weight that is `v` on one square of the board and none elsewhere sums to `v`.
proof fn lemma_weight_point(c: int, v: nat, start: int)
    requires
        0 <= start,
    ensures
        weight_from(|j: int| if j == c { v } else { 0nat }, start) == if start <= c < 64 { v } else { 0nat },
    decreases 64 - start,
{
    if start < 64 {
        lemma_weight_point(c, v, start + 1);
    }
}

/// Moves to at most two squares `c1` and `c2`, at most `per` to each, are at most twice
/// `per`; to one square, at most `per`.
proof fn lemma_targets_len(targets: spec_fn(int) -> bool, g: spec_fn(int) -> Seq<u16>, c1: int, c2: int, per: nat)
    requires
        forall|j: int| 0 <= j < 64 && #[trigger] targets(j) ==> j == c1 || j == c2,
        forall|j: int| 0 <= j < 64 && #[trigger] targets(j) ==> g(j).len() <= per,
    ensures
        moves_over(targets, g).len() <= 2 * per,
        c1 == c2 ==> moves_over(targets, g).len() <= per,
{
    let k = |j: int| per;
    lemma_moves_over_bound(targets, g, k);
    let p1 = |j: int| if j == c1 { per } else { 0nat };
    let p2 = |j: int| if j == c2 { per } else { 0nat };
    let both = |j: int| p1(j) + p2(j);
    lemma_weight_point(c1, per, 0);
    lemma_weight_point(c2, per, 0);
    lemma_weight_add(p1, p2, both, 0);
    lemma_weight_mono(weight_on(targets, k), both, 0);
    if c1 == c2 {
        lemma_weight_mono(weight_on(targets, k), p1, 0);
    }
}

/// The squares a pawn of `side` on `s` reaches: the one in front, the two it attacks.
proof fn lemma_pawn_targets(side: int, s: int, t: int)
    requires
        0 <= side <= 1,
        0 <= s < 64,
        0 <= t < 64,
    ensures
        has_bit(pawn_push(side, s), t) ==> t == if side == 0 { s + 8 } else { s - 8 },
        pawn_attack(side, s, t) ==> t == if side == 0 { s + 7 } else { s - 9 } || t == if side == 0 { s + 9 } else { s - 7 },
{
    crate::bitboard::lemma_pawn_step_bits(s as u64, t as u64);
    lemma_square_coords(s);
    lemma_square_coords(t);
}

/// A pawn family is no longer than its sources weighted by the moves one pawn can have in
/// it: one step or two captures, four promotions each.
proof fn lemma_pawn_family_len(b: Board, src: u64, capture: bool, restrict: u64, flags: u16, promote: bool)
    requires
        b.side_to_move.valid(),
    ensures
        pawn_family(b, src, capture, restrict, flags, promote).len() <= weight_from(
            set_weight(src, (if capture { 2nat } else { 1nat }) * (if promote { 4nat } else { 1nat })),
            0,
        ),
{
    let stm = b.side_to_move@;
    let per: nat = if promote { 4nat } else { 1nat };
    let k: nat = (if capture { 2nat } else { 1nat }) * per;
    let g = pawn_square_moves(b, capture, restrict, flags, promote);
    assert forall|s: int| 0 <= s < 64 && #[trigger] bits_of(src)(s) implies g(s).len() <= (|j: int| k)(s) by {
        let targets = |t: int| pawn_reach(b, capture, s, t) && has_bit(restrict, t);
        let h = if promote { promotions(s, flags) } else { one_move(s, flags) };
        assert forall|t: int| 0 <= t < 64 && #[trigger] targets(t) implies h(t).len() <= per by {}
        if capture {
            let c1 = if stm == 0 { s + 7 } else { s - 9 };
            let c2 = if stm == 0 { s + 9 } else { s - 7 };
            assert forall|t: int| 0 <= t < 64 && #[trigger] targets(t) implies t == c1 || t == c2 by {
                lemma_pawn_targets(stm, s, t);
            }
            lemma_targets_len(targets, h, c1, c2, per);
        } else {
            let c = if stm == 0 { s + 8 } else { s - 8 };
            assert forall|t: int| 0 <= t < 64 && #[trigger] targets(t) implies t == c || t == c by {
                lemma_pawn_targets(stm, s, t);
            }
            lemma_targets_len(targets, h, c, c, per);
        }
    }
    lemma_moves_over_bound(bits_of(src), g, |j: int| k);
}

/// The steps of pawns from their starting rank are at most two per pawn.
proof fn lemma_double_family_len(b: Board, src: u64, restrict: u64)
    requires
        b.side_to_move.valid(),
    ensures
        moves_over(bits_of(src), double_step(b, restrict)).len() <= weight_from(set_weight(src, 2), 0),
{
    let stm = b.side_to_move@;
    let opp = b.side_bits(1 - stm);
    let g = double_step(b, restrict);
    assert forall|s: int| 0 <= s < 64 && #[trigger] bits_of(src)(s) implies g(s).len() <= (|j: int| 2nat)(s) by {
        let m = (s as usize ^ 24usize) as int;
        crate::bitboard::lemma_pawn_step_bits(s as u64, 0);
        if !b.occupied(m) {
            let t1 = |t: int| has_bit(pawn_push(stm, s), t) && !has_bit(opp, t) && has_bit(restrict, t);
            let t2 = |t: int| has_bit(pawn_push(stm, m), t) && !has_bit(opp, t) && has_bit(restrict, t);
            let c = if stm == 0 { s + 8 } else { s - 8 };
            let c2 = if stm == 0 { m + 8 } else { m - 8 };
            assert forall|t: int| 0 <= t < 64 && #[trigger] t1(t) implies t == c || t == c by {
                lemma_pawn_targets(stm, s, t);
            }
            assert forall|t: int| 0 <= t < 64 && #[trigger] t2(t) implies t == c2 || t == c2 by {
                lemma_pawn_targets(stm, m, t);
            }
            lemma_targets_len(t1, one_move(s, 0), c, c, 1);
            lemma_targets_len(t2, one_move(s, 0x1000), c2, c2, 1);
        }
    }
    lemma_moves_over_bound(bits_of(src), g, |j: int| 2nat);
}

/// The en passant captures are at most one per pawn, when the restriction holds at most
/// the en passant square.
proof fn lemma_en_passant_family_len(b: Board, src: u64, mask: u64, restrict: u64)
    requires
        forall|j: int| #[trigger] has_bit(restrict, j) ==> j == b.en_passant@,
    ensures
        moves_over(bits_of(src), en_passant_step(b, mask, restrict)).len() <= weight_from(set_weight(src, 1), 0),
{
    let g = en_passant_step(b, mask, restrict);
    let ep = b.en_passant@;
    assert forall|s: int| 0 <= s < 64 && #[trigger] bits_of(src)(s) implies g(s).len() <= (|j: int| 1nat)(s) by {
        if crate::movegen::en_passant_ok(b, s, mask) {
            let t = |j: int| pawn_attack(b.side_to_move@, s, j) && has_bit(restrict, j);
            lemma_targets_len(t, one_move(s, 0x5000), ep, ep, 1);
        }
    }
    lemma_moves_over_bound(bits_of(src), g, |j: int| 1nat);
}

/// The pawn moves are at most fifteen per pawn of the side to move: four steps (the
/// promotions), two more from the starting rank, eight captures (the capturing
/// promotions) and one en passant capture.
#[verifier::spinoff_prover]
#[verifier::rlimit(60)]
pub proof fn lemma_pawn_moves_len(b: Board, mask: u64)
    requires
        generation_ready(b),
    ensures
        pawn_moves(b, mask).len() <= weight_from(set_weight(pawn_set(b), 15), 0),
{
    let stm = b.side_to_move@;
    let promo = promotion_rank(stm);
    let pawns = pawn_set(b);
    let movable = movable_pawns(b);
    let pinned = movable_pinned_pawns(b);
    let double = double_pushable_pawns(b);
    let agressive = agressive_pawns(b);
    let pinned_a = agressive_pinned_pawns(b);
    let orth = b.ortographic_pins@;
    let diag = b.diagonal_pins@;
    let ep = b.en_passant@;
    let s1 = ((movable & !double) & !pinned) & !promo;
    let s2 = (pinned & !double) & !promo;
    let s3 = (movable & !pinned) & promo;
    let d1 = double & !pinned;
    let d2 = double & pinned;
    let a1 = (agressive & !pinned_a) & !promo;
    let a2 = pinned_a & !promo;
    let a3 = (agressive & !pinned_a) & promo;
    let a4 = pinned_a & promo;
    let e1 = agressive & !pinned_a;
    let f1 = pawn_family(b, s1, false, mask, 0, false);
    let f2 = pawn_family(b, s2, false, mask & orth, 0, false);
    let f3 = pawn_family(b, s3, false, mask, 0, true);
    let f4 = moves_over(bits_of(d1), double_step(b, mask));
    let f5 = moves_over(bits_of(d2), double_step(b, mask & orth));
    let c1 = pawn_family(b, a1, true, mask, 0x4000, false);
    let c2 = pawn_family(b, a2, true, mask & diag, 0x4000, false);
    let c3 = pawn_family(b, a3, true, mask, 0x4000, true);
    let c4 = pawn_family(b, a4, true, mask & diag, 0x4000, true);
    let r1 = crate::bitboard::single_bit(ep);
    let r2 = crate::bitboard::single_bit(ep) & diag;
    let x1 = moves_over(bits_of(e1), en_passant_step(b, mask, r1));
    let x2 = moves_over(bits_of(pinned_a), en_passant_step(b, mask, r2));
    let c5: Seq<u16> = if ep == 64 { Seq::empty() } else { x1 + x2 };
    assert(pawn_quiet_moves(b, mask) == f1 + f2 + f3 + f4 + f5);
    assert(pawn_capture_moves(b, mask) == c1 + c2 + c3 + c4 + c5);
    assert(pawn_moves(b, mask) == pawn_quiet_moves(b, mask) + pawn_capture_moves(b, mask));
    lemma_pawn_family_len(b, s1, false, mask, 0, false);
    lemma_pawn_family_len(b, s2, false, mask & orth, 0, false);
    lemma_pawn_family_len(b, s3, false, mask, 0, true);
    lemma_double_family_len(b, d1, mask);
    lemma_double_family_len(b, d2, mask & orth);
    lemma_pawn_family_len(b, a1, true, mask, 0x4000, false);
    lemma_pawn_family_len(b, a2, true, mask & diag, 0x4000, false);
    lemma_pawn_family_len(b, a3, true, mask, 0x4000, true);
    lemma_pawn_family_len(b, a4, true, mask & diag, 0x4000, true);
    b.en_passant.lemma_index_nonnegative();
    if ep != 64 {
        assert forall|j: int| #[trigger] has_bit(r1, j) implies j == ep by {
            lemma_single_bit_update(0, ep as u64, j as u64);
        }
        assert forall|j: int| #[trigger] has_bit(r2, j) implies j == ep by {
            lemma_single_bit_update(0, ep as u64, j as u64);
            lemma_bitwise(r1, diag, j as u64);
        }
        lemma_en_passant_family_len(b, e1, mask, r1);
        lemma_en_passant_family_len(b, pinned_a, mask, r2);
    }
    let w1 = set_weight(s1, 1);
    let w2 = set_weight(s2, 1);
    let w3 = set_weight(s3, 4);
    let w4 = set_weight(d1, 2);
    let w5 = set_weight(d2, 2);
    let v1 = set_weight(a1, 2);
    let v2 = set_weight(a2, 2);
    let v3 = set_weight(a3, 8);
    let v4 = set_weight(a4, 8);
    let u1 = if ep == 64 { |j: int| 0nat } else { set_weight(e1, 1) };
    let u2 = if ep == 64 { |j: int| 0nat } else { set_weight(pinned_a, 1) };
    if ep == 64 {
        lemma_zero_weight(0);
    }
    let q2 = |j: int| w1(j) + w2(j);
    let q3 = |j: int| q2(j) + w3(j);
    let q4 = |j: int| q3(j) + w4(j);
    let q5 = |j: int| q4(j) + w5(j);
    let p2 = |j: int| v1(j) + v2(j);
    let p3 = |j: int| p2(j) + v3(j);
    let p4 = |j: int| p3(j) + v4(j);
    let p5 = |j: int| p4(j) + u1(j);
    let p6 = |j: int| p5(j) + u2(j);
    let all = |j: int| q5(j) + p6(j);
    lemma_weight_add(w1, w2, q2, 0);
    lemma_weight_add(q2, w3, q3, 0);
    lemma_weight_add(q3, w4, q4, 0);
    lemma_weight_add(q4, w5, q5, 0);
    lemma_weight_add(v1, v2, p2, 0);
    lemma_weight_add(p2, v3, p3, 0);
    lemma_weight_add(p3, v4, p4, 0);
    lemma_weight_add(p4, u1, p5, 0);
    lemma_weight_add(p5, u2, p6, 0);
    lemma_weight_add(q5, p6, all, 0);
    assert forall|j: int| 0 <= j < 64 implies #[trigger] all(j) <= set_weight(pawns, 15)(j) by {
        let f = j as u64;
        lemma_bitwise(movable & !double, !pinned, f);
        lemma_bitwise(movable, !double, f);
        lemma_bitwise((movable & !double) & !pinned, !promo, f);
        lemma_bitwise(pinned, !double, f);
        lemma_bitwise(pinned & !double, !promo, f);
        lemma_bitwise(movable, !pinned, f);
        lemma_bitwise(movable & !pinned, promo, f);
        lemma_bitwise(double, !pinned, f);
        lemma_bitwise(double, pinned, f);
        lemma_bitwise(movable, orth, f);
        lemma_bitwise(movable, crate::movegen::double_push_rank(stm), f);
        lemma_bitwise(pawns, !diag, f);
        lemma_bitwise(pinned, pinned, f);
        lemma_bitwise(promo, promo, f);
        lemma_bitwise(agressive, !pinned_a, f);
        lemma_bitwise(agressive & !pinned_a, !promo, f);
        lemma_bitwise(agressive & !pinned_a, promo, f);
        lemma_bitwise(pinned_a, !promo, f);
        lemma_bitwise(pinned_a, promo, f);
        lemma_bitwise(agressive, diag, f);
        lemma_bitwise(pawns, !orth, f);
        lemma_bitwise(pinned_a, pinned_a, f);
    }
    lemma_weight_mono(all, set_weight(pawns, 15), 0);
}

/// What the moves of the piece of the side to move on `s` can number at most: fifteen for
/// a pawn, the squares a knight, bishop, rook or queen attacks, the squares a king attacks
/// and its two castles; none for a square without such a piece.
pub open spec fn square_bound(b: Board, s: int) -> nat {
    let occ = b.side_bits(0) | b.side_bits(1);
    if has_bit(b.side_bits(b.side_to_move@), s) {
        (if has_bit(b.piece_bits(1), s) { 15nat } else { 0nat }) + (if has_bit(b.piece_bits(2), s) {
            knight_reach(s)
        } else {
            0nat
        }) + (if has_bit(b.piece_bits(3), s) || has_bit(b.piece_bits(5), s) {
            slider_reach(true, s, occ)
        } else {
            0nat
        }) + (if has_bit(b.piece_bits(4), s) || has_bit(b.piece_bits(5), s) {
            slider_reach(false, s, occ)
        } else {
            0nat
        }) + (if has_bit(b.piece_bits(6), s) { king_reach(s) + 2 } else { 0nat })
    } else {
        0nat
    }
}

/// The most moves the generator can list for `b`: the sum over the squares of
/// `square_bound`.
pub open spec fn move_bound(b: Board) -> nat {
    weight_from(|s: int| square_bound(b, s), 0)
}

/// The king moves are no more than the squares the king attacks.
proof fn lemma_king_steps_len(b: Board, pred: spec_fn(int) -> bool)
    requires
        forall|t: int| #[trigger] pred(t) ==> king_attack(b.king_square(b.side_to_move@), t),
    ensures
        moves_over(pred, king_step(b, b.king_square(b.side_to_move@))).len() <= king_reach(
            b.king_square(b.side_to_move@),
        ),
{
    let k = b.king_square(b.side_to_move@);
    let g = king_step(b, k);
    assert forall|t: int| 0 <= t < 64 && #[trigger] pred(t) implies g(t).len() <= unit()(t) by {}
    lemma_moves_over_bound(pred, g, unit());
    lemma_weight_mono(weight_on(pred, unit()), indicator(|j: int| king_attack(k, j)), 0);
}

/// The moves the generator lists (all moves, or the captures only) are at most
/// `move_bound`: so at most 256 wherever that bound is, and a caller can establish the
/// generator's room for them by computing the bound.
#[verifier::spinoff_prover]
#[verifier::rlimit(60)]
pub proof fn lemma_generated_moves_within_bound(b: Board, only_captures: bool)
    requires
        b.wf(),
        generation_ready(b),
    ensures
        generated_moves(b, only_captures).len() <= move_bound(b),
{
    let stm = b.side_to_move@;
    let own = b.side_bits(stm);
    let occ = b.side_bits(0) | b.side_bits(1);
    let k = b.king_square(stm);
    crate::bitboard::lemma_clear_lowest(b.piece_bits(6) & own);
    lemma_bitwise(b.piece_bits(6), own, k as u64);
    let king_part = if only_captures { king_captures(b) } else { king_moves(b) };
    if only_captures {
        lemma_king_steps_len(b, |t: int| king_attack(k, t) && !has_bit(own, t) && has_bit(b.side_bits(1 - stm), t));
    } else {
        lemma_king_steps_len(b, |t: int| king_attack(k, t) && !has_bit(own, t));
    }
    let bound = |s: int| square_bound(b, s);
    let kw = |j: int| if j == k { king_reach(k) + 2 } else { 0nat };
    lemma_weight_point(k, king_reach(k) + 2, 0);
    if double_check(b) {
        assert forall|j: int| 0 <= j < 64 implies #[trigger] kw(j) <= bound(j) by {}
        lemma_weight_mono(kw, bound, 0);
    } else {
        let mask = evasion_mask(b, only_captures);
        let castle_part: Seq<u16> = if !only_captures && b.checkers@ == 0 {
            castle_moves(b)
        } else {
            Seq::empty()
        };
        assert(castle_part.len() <= 2);
        let pawn_part = if only_captures { pawn_capture_moves(b, mask) } else { pawn_moves(b, mask) };
        lemma_pawn_moves_len(b, mask);
        assert(pawn_moves(b, mask) == pawn_quiet_moves(b, mask) + pawn_capture_moves(b, mask));
        lemma_knight_moves_len(b, mask);
        lemma_slider_moves_len(b, true, mask);
        lemma_slider_moves_len(b, false, mask);
        let pw = set_weight(pawn_set(b), 15);
        let nw = weight_on(bits_of(b.piece_bits(2) & own), |s: int| knight_reach(s));
        let bw = weight_on(bits_of((b.piece_bits(3) & own) | (b.piece_bits(5) & own)), |s: int| slider_reach(true, s, occ));
        let rw = weight_on(bits_of((b.piece_bits(4) & own) | (b.piece_bits(5) & own)), |s: int| slider_reach(false, s, occ));
        let a1 = |j: int| kw(j) + pw(j);
        let a2 = |j: int| a1(j) + nw(j);
        let a3 = |j: int| a2(j) + bw(j);
        let a4 = |j: int| a3(j) + rw(j);
        lemma_weight_add(kw, pw, a1, 0);
        lemma_weight_add(a1, nw, a2, 0);
        lemma_weight_add(a2, bw, a3, 0);
        lemma_weight_add(a3, rw, a4, 0);
        assert forall|j: int| 0 <= j < 64 implies #[trigger] a4(j) <= bound(j) by {
            let f = j as u64;
            lemma_bitwise(b.piece_bits(1), own, f);
            lemma_bitwise(b.piece_bits(2), own, f);
            lemma_bitwise(b.piece_bits(3), own, f);
            lemma_bitwise(b.piece_bits(4), own, f);
            lemma_bitwise(b.piece_bits(5), own, f);
            lemma_bitwise(b.piece_bits(3) & own, b.piece_bits(5) & own, f);
            lemma_bitwise(b.piece_bits(4) & own, b.piece_bits(5) & own, f);
        }
        lemma_weight_mono(a4, bound, 0);
    }
}

/// A count of squares from `start` on is at most the number of those squares.
pub(crate) proof fn lemma_count_at_most(pred: spec_fn(int) -> bool, start: int)
    requires
        0 <= start <= 64,
    ensures
        square_count_from(pred, start) <= 64 - start,
    decreases 64 - start,
{
    if start < 64 {
        lemma_count_at_most(pred, start + 1);
    }
}

/// The number of squares of a lookup that holds exactly the squares `pred` holds of.
proof fn lemma_count_of_lookup(x: u64, pred: spec_fn(int) -> bool)
    requires
        forall|j: int| 0 <= j < 64 ==> (has_bit(x, j) <==> #[trigger] pred(j)),
    ensures
        square_count(pred) == popcount(x),
        square_count(pred) <= 64,
{
    lemma_count_bits(x);
    lemma_weight_same(indicator(bits_of(x)), indicator(pred), 0);
    lemma_count_at_most(pred, 0);
}

/// `square_bound` for the square `square`.
fn square_move_bound(attacks: &Attacks, board: &Board, square: Square) -> (r: u32)
    requires
        attacks.wf(),
        board.side_to_move.valid(),
        square.on_board(),
    ensures
        r == square_bound(*board, square@),
        r <= 275,
{
    let ghost b = *board;
    let ghost s = square@;
    let occ = board.get_occupancy();
    if !board.get_occupancy_for_side(board.side_to_move).get_bit(square) {
        return 0;
    }
    let mut total: u32 = 0;
    if board.get_piece_mask_for_both(1).get_bit(square) {
        total = total + 15;
    }
    if board.get_piece_mask_for_both(2).get_bit(square) {
        let x = attacks.get_knight_attacks_for_square(square);
        proof {
            assert forall|j: int| 0 <= j < 64 implies (has_bit(x@, j) <==> knight_attack(s, j)) by {
                assert(x.contains(j) == knight_attack(s, j));
            }
            lemma_count_of_lookup(x@, |j: int| knight_attack(s, j));
        }
        total = total + x.pop_count();
    }
    let queen = board.get_piece_mask_for_both(5).get_bit(square);
    if board.get_piece_mask_for_both(3).get_bit(square) || queen {
        let x = attacks.get_bishop_attacks_for_square(square, occ);
        proof {
            assert forall|j: int| 0 <= j < 64 implies (has_bit(x@, j) <==> slider_attack(true, s, occ@, j)) by {
                assert(x.contains(j) == slider_attack(true, s, occ@, j));
            }
            lemma_count_of_lookup(x@, |j: int| slider_attack(true, s, occ@, j));
        }
        total = total + x.pop_count();
    }
    if board.get_piece_mask_for_both(4).get_bit(square) || queen {
        let x = attacks.get_rook_attacks_for_square(square, occ);
        proof {
            assert forall|j: int| 0 <= j < 64 implies (has_bit(x@, j) <==> slider_attack(false, s, occ@, j)) by {
                assert(x.contains(j) == slider_attack(false, s, occ@, j));
            }
            lemma_count_of_lookup(x@, |j: int| slider_attack(false, s, occ@, j));
        }
        total = total + x.pop_count();
    }
    if board.get_piece_mask_for_both(6).get_bit(square) {
        let x = attacks.get_king_attacks_for_square(square);
        proof {
            assert forall|j: int| 0 <= j < 64 implies (has_bit(x@, j) <==> king_attack(s, j)) by {
                assert(x.contains(j) == king_attack(s, j));
            }
            lemma_count_of_lookup(x@, |j: int| king_attack(s, j));
        }
        total = total + x.pop_count() + 2;
    }
    total
}

impl Board {
    /// The most moves the move generator can list for this board (`move_bound`): a
    /// generation for which this many moves fit in the list cannot overflow it.
    pub fn move_count_bound(&self, attacks: &Attacks) -> (r: u32)
        requires
            attacks.wf(),
            self.side_to_move.valid(),
        ensures
            r == move_bound(*self),
    {
        let ghost bound = |s: int| square_bound(*self, s);
        let mut total: u32 = 0;
        let mut i: usize = 64;
        while i > 0
            invariant
                i <= 64,
                attacks.wf(),
                self.side_to_move.valid(),
                bound == (|s: int| square_bound(*self, s)),
                total == weight_from(bound, i as int),
                total <= (64 - i) * 275,
            decreases i,
        {
            i = i - 1;
            let here = square_move_bound(attacks, self, Square::from_raw(i));
            total = total + here;
        }
        total
    }
}

/// Appends the moves of the position (only the captures when `ONLY_CAPTURE`) to
/// `move_list` when the list surely has room for them, that is when its moves and
/// `move_bound` fit in 256; tells whether it did, and leaves the list as it was otherwise.
pub fn try_generate_moves<const ONLY_CAPTURE: bool>(move_list: &mut MoveList, attacks: &Attacks, board: &Board) -> (r:
    bool)
    requires
        attacks.wf(),
        board.wf(),
        generation_ready(*board),
    ensures
        r == (move_list_values(*old(move_list)).len() + move_bound(*board) <= 256),
        r ==> move_list_values(*final(move_list)) == move_list_values(*old(move_list)) + generated_moves(
            *board,
            ONLY_CAPTURE,
        ),
        !r ==> *final(move_list) == *old(move_list),
{
    let bound = board.move_count_bound(attacks);
    let used = move_list_len(move_list);
    if bound > 256 || used + (bound as usize) > 256 {
        return false;
    }
    proof {
        lemma_generated_moves_within_bound(*board, ONLY_CAPTURE);
    }
    MoveProvider::generate_moves::<ONLY_CAPTURE>(move_list, attacks, board);
    true
}

} // verus!
