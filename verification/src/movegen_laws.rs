use vstd::prelude::*;

use crate::bitboard::{has_bit, lemma_bitwise, lemma_clear_lowest};
use crate::board::Board;
use crate::core_structs::{lemma_flag_words, lemma_move_value_fields, Move};
use crate::movegen::{
    lemma_moves_over_agree, lemma_moves_over_empty, double_check,
    agressive_pawns, agressive_pinned_pawns, bishop_moves, bits_of, castle_moves, double_push_rank, double_step,
    double_pushable_pawns, en_passant_step, evasion_mask, generated_moves, generation_ready, king_captures, king_moves,
    king_step, knight_moves, knight_square_moves, move_value, movable_pawns, movable_pinned_pawns, moves_from, moves_over,
    one_move, pawn_capture_moves, pawn_family, pawn_moves, pawn_quiet_moves, pawn_set, pawn_square_moves, piece_moves,
    promotion_rank, promotions, rook_moves, slider_square_moves,
};

verus! {

/// Whether `p` holds of every move value of `s`.
pub open spec fn all_moves(s: Seq<u16>, p: spec_fn(u16) -> bool) -> bool {
    forall|k: int| 0 <= k < s.len() ==> #[trigger] p(s[k])
}

/// The move values whose from-square lies in `set`.
pub open spec fn from_in(set: u64) -> spec_fn(u16) -> bool {
    |x: u16| has_bit(set, Move { value: x }.from_of())
}

/// The move values that carry the capture flag.
pub open spec fn is_capture_value() -> spec_fn(u16) -> bool {
    |x: u16| x & 0x4000u16 != 0
}

pub(crate) proof fn lemma_all_concat(a: Seq<u16>, b: Seq<u16>, p: spec_fn(u16) -> bool)
    requires
        all_moves(a, p),
        all_moves(b, p),
    ensures
        all_moves(a + b, p),
{
    assert forall|k: int| 0 <= k < (a + b).len() implies #[trigger] p((a + b)[k]) by {
        if k < a.len() {
            assert((a + b)[k] == a[k]);
        } else {
            assert((a + b)[k] == b[k - a.len()]);
        }
    }
}

proof fn lemma_moves_from_all(pred: spec_fn(int) -> bool, f: spec_fn(int) -> Seq<u16>, p: spec_fn(u16) -> bool, start: int)
    requires
        0 <= start <= 64,
        forall|s: int| start <= s < 64 && #[trigger] pred(s) ==> all_moves(f(s), p),
    ensures
        all_moves(moves_from(pred, f, start), p),
    decreases 64 - start,
{
    if start < 64 {
        lemma_moves_from_all(pred, f, p, start + 1);
        let head = if pred(start) {
            f(start)
        } else {
            Seq::empty()
        };
        lemma_all_concat(head, moves_from(pred, f, start + 1), p);
    }
}

/// A property that holds of the moves of every square of a set holds of all the moves
/// over the set.
pub proof fn lemma_moves_over_all(pred: spec_fn(int) -> bool, f: spec_fn(int) -> Seq<u16>, p: spec_fn(u16) -> bool)
    requires
        forall|s: int| 0 <= s < 64 && #[trigger] pred(s) ==> all_moves(f(s), p),
    ensures
        all_moves(moves_over(pred, f), p),
{
    lemma_moves_from_all(pred, f, p, 0);
}

/// The moves from `s` with flags `flags` leave from `s`, and carry the capture flag when
/// the flags do.
proof fn lemma_one_moves(s: int, flags: u16, targets: spec_fn(int) -> bool, set: u64)
    requires
        0 <= s < 64,
        flags & 0x0FFFu16 == 0,
    ensures
        has_bit(set, s) ==> all_moves(moves_over(targets, one_move(s, flags)), from_in(set)),
        flags & 0x4000u16 != 0 ==> all_moves(moves_over(targets, one_move(s, flags)), is_capture_value()),
{
    assert forall|t: int| 0 <= t < 64 && #[trigger] targets(t) implies (has_bit(set, s) ==> all_moves(
        one_move(s, flags)(t),
        from_in(set),
    )) && (flags & 0x4000u16 != 0 ==> all_moves(one_move(s, flags)(t), is_capture_value())) by {
        lemma_move_value_fields(s as u16, t as u16, flags);
        assert(one_move(s, flags)(t)[0] == move_value(s, t, flags));
    }
    if has_bit(set, s) {
        lemma_moves_over_all(targets, one_move(s, flags), from_in(set));
    }
    if flags & 0x4000u16 != 0 {
        lemma_moves_over_all(targets, one_move(s, flags), is_capture_value());
    }
}

/// The promotions from `s` leave from `s`, and carry the capture flag when the flags do.
proof fn lemma_promotion_moves(s: int, flags: u16, targets: spec_fn(int) -> bool, set: u64)
    requires
        0 <= s < 64,
        flags & 0x0FFFu16 == 0,
    ensures
        has_bit(set, s) ==> all_moves(moves_over(targets, promotions(s, flags)), from_in(set)),
        flags & 0x4000u16 != 0 ==> all_moves(moves_over(targets, promotions(s, flags)), is_capture_value()),
{
    assert forall|t: int| 0 <= t < 64 && #[trigger] targets(t) implies (has_bit(set, s) ==> all_moves(
        promotions(s, flags)(t),
        from_in(set),
    )) && (flags & 0x4000u16 != 0 ==> all_moves(promotions(s, flags)(t), is_capture_value())) by {
        lemma_move_value_fields(s as u16, t as u16, flags);
        lemma_move_value_fields(s as u16, t as u16, 0x8000u16 | flags);
        lemma_move_value_fields(s as u16, t as u16, 0x9000u16 | flags);
        lemma_move_value_fields(s as u16, t as u16, 0xA000u16 | flags);
        lemma_move_value_fields(s as u16, t as u16, 0xB000u16 | flags);
    }
    if has_bit(set, s) {
        lemma_moves_over_all(targets, promotions(s, flags), from_in(set));
    }
    if flags & 0x4000u16 != 0 {
        lemma_moves_over_all(targets, promotions(s, flags), is_capture_value());
    }
}

/// The moves of a piece leave from its square.
proof fn lemma_piece_moves_from(b: Board, s: int, targets: spec_fn(int) -> bool, set: u64)
    requires
        0 <= s < 64,
        has_bit(set, s),
    ensures
        all_moves(piece_moves(b, s, targets), from_in(set)),
{
    lemma_flag_words();
    lemma_one_moves(s, 0, |j: int| targets(j) && !b.occupied(j), set);
    lemma_one_moves(s, 0x4000, |j: int| targets(j) && has_bit(b.side_bits(1 - b.side_to_move@), j), set);
    lemma_all_concat(
        moves_over(|j: int| targets(j) && !b.occupied(j), one_move(s, 0)),
        moves_over(|j: int| targets(j) && has_bit(b.side_bits(1 - b.side_to_move@), j), one_move(s, 0x4000)),
        from_in(set),
    );
}

/// The king of the side to move stands on a square of that side.
proof fn lemma_king_square_allied(b: Board)
    requires
        generation_ready(b),
    ensures
        0 <= b.king_square(b.side_to_move@) < 64,
        has_bit(b.side_bits(b.side_to_move@), b.king_square(b.side_to_move@)),
        has_bit(b.piece_bits(6), b.king_square(b.side_to_move@)),
{
    let stm = b.side_to_move@;
    lemma_clear_lowest(b.piece_bits(6) & b.side_bits(stm));
    let k = b.king_square(stm);
    lemma_bitwise(b.piece_bits(6), b.side_bits(stm), k as u64);
}

/// The moves of the king leave from its square.
proof fn lemma_king_steps_from(b: Board, targets: spec_fn(int) -> bool)
    requires
        generation_ready(b),
    ensures
        all_moves(moves_over(targets, king_step(b, b.king_square(b.side_to_move@))), from_in(b.side_bits(b.side_to_move@))),
{
    let stm = b.side_to_move@;
    let k = b.king_square(stm);
    let set = b.side_bits(stm);
    lemma_king_square_allied(b);
    lemma_flag_words();
    assert forall|t: int| 0 <= t < 64 && #[trigger] targets(t) implies all_moves(king_step(b, k)(t), from_in(set)) by {
        lemma_move_value_fields(k as u16, t as u16, 0x4000u16);
        lemma_move_value_fields(k as u16, t as u16, 0u16);
    }
    lemma_moves_over_all(targets, king_step(b, k), from_in(set));
}

proof fn lemma_castle_moves_from(b: Board)
    requires
        generation_ready(b),
    ensures
        all_moves(castle_moves(b), from_in(b.side_bits(b.side_to_move@))),
{
    let stm = b.side_to_move@;
    let k = b.king_square(stm);
    let off = 56 * stm;
    lemma_king_square_allied(b);
    lemma_flag_words();
    lemma_move_value_fields(k as u16, (6 + off) as u16, 0x2000u16);
    lemma_move_value_fields(k as u16, (2 + off) as u16, 0x3000u16);
    let first: Seq<u16> = if b.castle_rights.has(2 * stm) && crate::movegen::castle_path_ok(b, 6 + off, 7 + off) {
        seq![move_value(k, 6 + off, 0x2000u16)]
    } else {
        Seq::empty()
    };
    let second: Seq<u16> = if b.castle_rights.has(2 * stm + 1) && crate::movegen::castle_path_ok(b, 2 + off, off) {
        seq![move_value(k, 2 + off, 0x3000u16)]
    } else {
        Seq::empty()
    };
    lemma_all_concat(first, second, from_in(b.side_bits(stm)));
}

/// The moves of the pieces on `sources`, a set of squares of the side to move, leave
/// from those squares.
proof fn lemma_pieces_from(b: Board, sources: u64, g: spec_fn(int) -> Seq<u16>, restrict: u64, kind: int)
    requires
        b.side_to_move.valid(),
        forall|s: int| 0 <= s < 64 && #[trigger] has_bit(sources, s) ==> has_bit(b.side_bits(b.side_to_move@), s),
        kind == 0 ==> g == knight_square_moves(b, restrict),
        kind == 1 ==> g == slider_square_moves(b, true, restrict),
        kind == 2 ==> g == slider_square_moves(b, false, restrict),
        0 <= kind <= 2,
    ensures
        all_moves(moves_over(bits_of(sources), g), from_in(b.side_bits(b.side_to_move@))),
{
    let set = b.side_bits(b.side_to_move@);
    assert forall|s: int| 0 <= s < 64 && #[trigger] bits_of(sources)(s) implies all_moves(g(s), from_in(set)) by {
        if kind == 0 {
            lemma_piece_moves_from(b, s, |j: int| crate::geometry::knight_attack(s, j) && has_bit(restrict, j), set);
        } else if kind == 1 {
            lemma_piece_moves_from(
                b,
                s,
                |j: int| crate::geometry::slider_attack(true, s, b.side_bits(0) | b.side_bits(1), j) && has_bit(restrict, j),
                set,
            );
        } else {
            lemma_piece_moves_from(
                b,
                s,
                |j: int| crate::geometry::slider_attack(false, s, b.side_bits(0) | b.side_bits(1), j) && has_bit(restrict, j),
                set,
            );
        }
    }
    lemma_moves_over_all(bits_of(sources), g, from_in(set));
}

proof fn lemma_knight_bishop_rook_from(b: Board, mask: u64)
    requires
        b.side_to_move.valid(),
    ensures
        all_moves(knight_moves(b, mask), from_in(b.side_bits(b.side_to_move@))),
        all_moves(bishop_moves(b, mask), from_in(b.side_bits(b.side_to_move@))),
        all_moves(rook_moves(b, mask), from_in(b.side_bits(b.side_to_move@))),
{
    let stm = b.side_to_move@;
    let side = b.side_bits(stm);
    let orth = b.ortographic_pins@;
    let diag = b.diagonal_pins@;
    let knights = (b.piece_bits(2) & side) & !(orth | diag);
    assert forall|s: int| 0 <= s < 64 && #[trigger] has_bit(knights, s) implies has_bit(side, s) by {
        lemma_bitwise(b.piece_bits(2) & side, !(orth | diag), s as u64);
        lemma_bitwise(b.piece_bits(2), side, s as u64);
    }
    lemma_pieces_from(b, knights, knight_square_moves(b, mask), mask, 0);

    let bpieces = (b.piece_bits(3) & side) | (b.piece_bits(5) & side);
    let bmovable = bpieces & !orth;
    let bpinned = bmovable & diag;
    assert forall|s: int| 0 <= s < 64 && #[trigger] has_bit(bmovable, s) implies has_bit(side, s) by {
        lemma_bitwise(bpieces, !orth, s as u64);
        lemma_bitwise(b.piece_bits(3) & side, b.piece_bits(5) & side, s as u64);
        lemma_bitwise(b.piece_bits(3), side, s as u64);
        lemma_bitwise(b.piece_bits(5), side, s as u64);
    }
    assert forall|s: int| 0 <= s < 64 && #[trigger] has_bit(bmovable & !bpinned, s) implies has_bit(side, s) by {
        lemma_bitwise(bmovable, !bpinned, s as u64);
        assert(has_bit(bmovable, s));
    }
    assert forall|s: int| 0 <= s < 64 && #[trigger] has_bit(bpinned, s) implies has_bit(side, s) by {
        lemma_bitwise(bmovable, diag, s as u64);
        assert(has_bit(bmovable, s));
    }
    lemma_pieces_from(b, bmovable & !bpinned, slider_square_moves(b, true, mask), mask, 1);
    lemma_pieces_from(b, bpinned, slider_square_moves(b, true, mask & diag), mask & diag, 1);
    lemma_all_concat(
        moves_over(bits_of(bmovable & !bpinned), slider_square_moves(b, true, mask)),
        moves_over(bits_of(bpinned), slider_square_moves(b, true, mask & diag)),
        from_in(side),
    );

    let rpieces = (b.piece_bits(4) & side) | (b.piece_bits(5) & side);
    let rmovable = rpieces & !diag;
    let rpinned = rmovable & orth;
    assert forall|s: int| 0 <= s < 64 && #[trigger] has_bit(rmovable, s) implies has_bit(side, s) by {
        lemma_bitwise(rpieces, !diag, s as u64);
        lemma_bitwise(b.piece_bits(4) & side, b.piece_bits(5) & side, s as u64);
        lemma_bitwise(b.piece_bits(4), side, s as u64);
        lemma_bitwise(b.piece_bits(5), side, s as u64);
    }
    assert forall|s: int| 0 <= s < 64 && #[trigger] has_bit(rmovable & !rpinned, s) implies has_bit(side, s) by {
        lemma_bitwise(rmovable, !rpinned, s as u64);
        assert(has_bit(rmovable, s));
    }
    assert forall|s: int| 0 <= s < 64 && #[trigger] has_bit(rpinned, s) implies has_bit(side, s) by {
        lemma_bitwise(rmovable, orth, s as u64);
        assert(has_bit(rmovable, s));
    }
    lemma_pieces_from(b, rmovable & !rpinned, slider_square_moves(b, false, mask), mask, 2);
    lemma_pieces_from(b, rpinned, slider_square_moves(b, false, mask & orth), mask & orth, 2);
    lemma_all_concat(
        moves_over(bits_of(rmovable & !rpinned), slider_square_moves(b, false, mask)),
        moves_over(bits_of(rpinned), slider_square_moves(b, false, mask & orth)),
        from_in(side),
    );
}

/// Squares of `x & y` are squares of `x`.
proof fn lemma_and_within(x: u64, y: u64, set: u64)
    requires
        forall|j: int| 0 <= j < 64 && #[trigger] has_bit(x, j) ==> has_bit(set, j),
    ensures
        forall|j: int| 0 <= j < 64 && #[trigger] has_bit(x & y, j) ==> has_bit(set, j),
{
    assert forall|j: int| 0 <= j < 64 && #[trigger] has_bit(x & y, j) implies has_bit(set, j) by {
        lemma_bitwise(x, y, j as u64);
    }
}

/// The pawn moves of pawns on squares of the side to move leave from those squares, and
/// carry the capture flag when their flags do.
proof fn lemma_pawn_family(b: Board, sources: u64, capture: bool, restrict: u64, flags: u16, promote: bool)
    requires
        flags & 0x0FFFu16 == 0,
    ensures
        (forall|j: int| 0 <= j < 64 && #[trigger] has_bit(sources, j) ==> has_bit(b.side_bits(b.side_to_move@), j))
            ==> all_moves(pawn_family(b, sources, capture, restrict, flags, promote), from_in(b.side_bits(b.side_to_move@))),
        flags & 0x4000u16 != 0 ==> all_moves(pawn_family(b, sources, capture, restrict, flags, promote), is_capture_value()),
{
    let set = b.side_bits(b.side_to_move@);
    let g = pawn_square_moves(b, capture, restrict, flags, promote);
    assert forall|s: int| 0 <= s < 64 && #[trigger] bits_of(sources)(s) implies (has_bit(set, s) ==> all_moves(
        g(s),
        from_in(set),
    )) && (flags & 0x4000u16 != 0 ==> all_moves(g(s), is_capture_value())) by {
        let targets = |t: int| crate::movegen::pawn_reach(b, capture, s, t) && has_bit(restrict, t);
        if promote {
            lemma_promotion_moves(s, flags, targets, set);
        } else {
            lemma_one_moves(s, flags, targets, set);
        }
    }
    if forall|j: int| 0 <= j < 64 && #[trigger] has_bit(sources, j) ==> has_bit(set, j) {
        lemma_moves_over_all(bits_of(sources), g, from_in(set));
    }
    if flags & 0x4000u16 != 0 {
        lemma_moves_over_all(bits_of(sources), g, is_capture_value());
    }
}

/// The single and double steps of pawns on squares of the side to move leave from those
/// squares.
proof fn lemma_double_steps(b: Board, sources: u64, restrict: u64)
    requires
        forall|j: int| 0 <= j < 64 && #[trigger] has_bit(sources, j) ==> has_bit(b.side_bits(b.side_to_move@), j),
    ensures
        all_moves(moves_over(bits_of(sources), double_step(b, restrict)), from_in(b.side_bits(b.side_to_move@))),
{
    let set = b.side_bits(b.side_to_move@);
    let stm = b.side_to_move@;
    let opp = b.side_bits(1 - stm);
    lemma_flag_words();
    assert forall|s: int| 0 <= s < 64 && #[trigger] bits_of(sources)(s) implies all_moves(double_step(b, restrict)(s), from_in(set)) by {
        let m = (s as usize ^ 24usize) as int;
        let t1 = |t: int| has_bit(crate::movegen::pawn_push(stm, s), t) && !has_bit(opp, t) && has_bit(restrict, t);
        let t2 = |t: int| has_bit(crate::movegen::pawn_push(stm, m), t) && !has_bit(opp, t) && has_bit(restrict, t);
        lemma_one_moves(s, 0, t1, set);
        lemma_one_moves(s, 0x1000, t2, set);
        lemma_all_concat(moves_over(t1, one_move(s, 0)), moves_over(t2, one_move(s, 0x1000)), from_in(set));
    }
    lemma_moves_over_all(bits_of(sources), double_step(b, restrict), from_in(set));
}

/// The en passant captures of pawns on squares of the side to move leave from those
/// squares and carry the capture flag.
proof fn lemma_en_passant_steps(b: Board, sources: u64, move_mask: u64, restrict: u64)
    ensures
        (forall|j: int| 0 <= j < 64 && #[trigger] has_bit(sources, j) ==> has_bit(b.side_bits(b.side_to_move@), j))
            ==> all_moves(moves_over(bits_of(sources), en_passant_step(b, move_mask, restrict)), from_in(b.side_bits(b.side_to_move@))),
        all_moves(moves_over(bits_of(sources), en_passant_step(b, move_mask, restrict)), is_capture_value()),
{
    let set = b.side_bits(b.side_to_move@);
    let g = en_passant_step(b, move_mask, restrict);
    lemma_flag_words();
    assert forall|s: int| 0 <= s < 64 && #[trigger] bits_of(sources)(s) implies (has_bit(set, s) ==> all_moves(
        g(s),
        from_in(set),
    )) && all_moves(g(s), is_capture_value()) by {
        let targets = |t: int| crate::geometry::pawn_attack(b.side_to_move@, s, t) && has_bit(restrict, t);
        lemma_one_moves(s, 0x5000, targets, set);
    }
    if forall|j: int| 0 <= j < 64 && #[trigger] has_bit(sources, j) ==> has_bit(set, j) {
        lemma_moves_over_all(bits_of(sources), g, from_in(set));
    }
    lemma_moves_over_all(bits_of(sources), g, is_capture_value());
}

/// The pawn moves leave from squares of the side to move, and the pawn captures all carry
/// the capture flag.
pub(crate) proof fn lemma_pawn_moves(b: Board, mask: u64)
    ensures
        all_moves(pawn_moves(b, mask), from_in(b.side_bits(b.side_to_move@))),
        all_moves(pawn_capture_moves(b, mask), from_in(b.side_bits(b.side_to_move@))),
        all_moves(pawn_capture_moves(b, mask), is_capture_value()),
{
    let stm = b.side_to_move@;
    let set = b.side_bits(stm);
    let promo = promotion_rank(stm);
    let pawns = pawn_set(b);
    let movable = movable_pawns(b);
    let pinned = movable_pinned_pawns(b);
    let double = double_pushable_pawns(b);
    let agressive = agressive_pawns(b);
    let apinned = agressive_pinned_pawns(b);
    let orth = b.ortographic_pins@;
    let diag = b.diagonal_pins@;
    let ep = b.en_passant@;
    lemma_flag_words();
    assert forall|j: int| 0 <= j < 64 && #[trigger] has_bit(pawns, j) implies has_bit(set, j) by {
        lemma_bitwise(b.piece_bits(1), set, j as u64);
    }
    lemma_and_within(pawns, !diag, set);
    lemma_and_within(pawns, !orth, set);
    lemma_and_within(movable, orth, set);
    lemma_and_within(movable, double_push_rank(stm), set);
    lemma_and_within(agressive, diag, set);
    lemma_and_within(movable, !double, set);
    lemma_and_within(movable & !double, !pinned, set);
    lemma_and_within((movable & !double) & !pinned, !promo, set);
    lemma_and_within(pinned, !double, set);
    lemma_and_within(pinned & !double, !promo, set);
    lemma_and_within(movable, !pinned, set);
    lemma_and_within(movable & !pinned, promo, set);
    lemma_and_within(double, !pinned, set);
    lemma_and_within(double, pinned, set);
    lemma_and_within(agressive, !apinned, set);
    lemma_and_within(agressive & !apinned, !promo, set);
    lemma_and_within(apinned, !promo, set);
    lemma_and_within(agressive & !apinned, promo, set);
    lemma_and_within(apinned, promo, set);

    lemma_pawn_family(b, ((movable & !double) & !pinned) & !promo, false, mask, 0, false);
    lemma_pawn_family(b, (pinned & !double) & !promo, false, mask & orth, 0, false);
    lemma_pawn_family(b, (movable & !pinned) & promo, false, mask, 0, true);
    lemma_double_steps(b, double & !pinned, mask);
    lemma_double_steps(b, double & pinned, mask & orth);
    let q1 = pawn_family(b, ((movable & !double) & !pinned) & !promo, false, mask, 0, false);
    let q2 = pawn_family(b, (pinned & !double) & !promo, false, mask & orth, 0, false);
    let q3 = pawn_family(b, (movable & !pinned) & promo, false, mask, 0, true);
    let q4 = moves_over(bits_of(double & !pinned), double_step(b, mask));
    let q5 = moves_over(bits_of(double & pinned), double_step(b, mask & orth));
    lemma_all_concat(q1, q2, from_in(set));
    lemma_all_concat(q1 + q2, q3, from_in(set));
    lemma_all_concat(q1 + q2 + q3, q4, from_in(set));
    lemma_all_concat(q1 + q2 + q3 + q4, q5, from_in(set));
    assert(pawn_quiet_moves(b, mask) == q1 + q2 + q3 + q4 + q5);

    lemma_pawn_family(b, (agressive & !apinned) & !promo, true, mask, 0x4000, false);
    lemma_pawn_family(b, apinned & !promo, true, mask & diag, 0x4000, false);
    lemma_pawn_family(b, (agressive & !apinned) & promo, true, mask, 0x4000, true);
    lemma_pawn_family(b, apinned & promo, true, mask & diag, 0x4000, true);
    lemma_en_passant_steps(b, agressive & !apinned, mask, crate::bitboard::single_bit(ep));
    lemma_en_passant_steps(b, apinned, mask, crate::bitboard::single_bit(ep) & diag);
    let c1 = pawn_family(b, (agressive & !apinned) & !promo, true, mask, 0x4000, false);
    let c2 = pawn_family(b, apinned & !promo, true, mask & diag, 0x4000, false);
    let c3 = pawn_family(b, (agressive & !apinned) & promo, true, mask, 0x4000, true);
    let c4 = pawn_family(b, apinned & promo, true, mask & diag, 0x4000, true);
    let e1 = moves_over(bits_of(agressive & !apinned), en_passant_step(b, mask, crate::bitboard::single_bit(ep)));
    let e2 = moves_over(bits_of(apinned), en_passant_step(b, mask, crate::bitboard::single_bit(ep) & diag));
    let e: Seq<u16> = if ep == 64 {
        Seq::empty()
    } else {
        e1 + e2
    };
    lemma_all_concat(e1, e2, from_in(set));
    lemma_all_concat(e1, e2, is_capture_value());
    lemma_all_concat(c1, c2, from_in(set));
    lemma_all_concat(c1 + c2, c3, from_in(set));
    lemma_all_concat(c1 + c2 + c3, c4, from_in(set));
    lemma_all_concat(c1 + c2 + c3 + c4, e, from_in(set));
    lemma_all_concat(c1, c2, is_capture_value());
    lemma_all_concat(c1 + c2, c3, is_capture_value());
    lemma_all_concat(c1 + c2 + c3, c4, is_capture_value());
    lemma_all_concat(c1 + c2 + c3 + c4, e, is_capture_value());
    assert(pawn_capture_moves(b, mask) == c1 + c2 + c3 + c4 + e);
    lemma_all_concat(pawn_quiet_moves(b, mask), pawn_capture_moves(b, mask), from_in(set));
}

/// Every move the generator lists leaves from a square of the side to move.
pub proof fn lemma_generated_moves_leave_allied_squares(b: Board, only_captures: bool)
    requires
        generation_ready(b),
    ensures
        all_moves(generated_moves(b, only_captures), from_in(b.side_bits(b.side_to_move@))),
{
    let stm = b.side_to_move@;
    let set = b.side_bits(stm);
    let k = b.king_square(stm);
    lemma_king_steps_from(b, |t: int| crate::geometry::king_attack(k, t) && !has_bit(set, t));
    lemma_king_steps_from(
        b,
        |t: int| crate::geometry::king_attack(k, t) && !has_bit(set, t) && has_bit(b.side_bits(1 - stm), t),
    );
    let king_part = if only_captures {
        king_captures(b)
    } else {
        king_moves(b)
    };
    if !double_check(b) {
        let mask = evasion_mask(b, only_captures);
        let castle_part: Seq<u16> = if !only_captures && b.checkers@ == 0 {
            castle_moves(b)
        } else {
            Seq::empty()
        };
        let pawn_part = if only_captures {
            pawn_capture_moves(b, mask)
        } else {
            pawn_moves(b, mask)
        };
        lemma_castle_moves_from(b);
        lemma_pawn_moves(b, mask);
        lemma_knight_bishop_rook_from(b, mask);
        lemma_all_concat(king_part, castle_part, from_in(set));
        lemma_all_concat(king_part + castle_part, pawn_part, from_in(set));
        lemma_all_concat(king_part + castle_part + pawn_part, knight_moves(b, mask), from_in(set));
        lemma_all_concat(king_part + castle_part + pawn_part + knight_moves(b, mask), bishop_moves(b, mask), from_in(set));
        lemma_all_concat(
            king_part + castle_part + pawn_part + knight_moves(b, mask) + bishop_moves(b, mask),
            rook_moves(b, mask),
            from_in(set),
        );
    }
}

/// The moves of a piece to occupied squares only are all captures.
proof fn lemma_piece_moves_captures(b: Board, s: int, targets: spec_fn(int) -> bool)
    requires
        0 <= s < 64,
        forall|j: int| 0 <= j < 64 && #[trigger] targets(j) ==> b.occupied(j),
    ensures
        all_moves(piece_moves(b, s, targets), is_capture_value()),
{
    let quiet = |j: int| targets(j) && !b.occupied(j);
    let capture = |j: int| targets(j) && has_bit(b.side_bits(1 - b.side_to_move@), j);
    crate::bitboard::lemma_zero_bits();
    lemma_moves_over_agree(quiet, bits_of(0u64), one_move(s, 0));
    lemma_moves_over_empty(one_move(s, 0));
    lemma_flag_words();
    lemma_one_moves(s, 0x4000, capture, 0);
    assert(moves_over(quiet, one_move(s, 0)) + moves_over(capture, one_move(s, 0x4000)) =~= moves_over(
        capture,
        one_move(s, 0x4000),
    ));
}

proof fn lemma_pieces_captures(b: Board, sources: u64, g: spec_fn(int) -> Seq<u16>, restrict: u64, kind: int)
    requires
        forall|j: int| 0 <= j < 64 && #[trigger] has_bit(restrict, j) ==> b.occupied(j),
        kind == 0 ==> g == knight_square_moves(b, restrict),
        kind == 1 ==> g == slider_square_moves(b, true, restrict),
        kind == 2 ==> g == slider_square_moves(b, false, restrict),
        0 <= kind <= 2,
    ensures
        all_moves(moves_over(bits_of(sources), g), is_capture_value()),
{
    assert forall|s: int| 0 <= s < 64 && #[trigger] bits_of(sources)(s) implies all_moves(g(s), is_capture_value()) by {
        if kind == 0 {
            lemma_piece_moves_captures(b, s, |j: int| crate::geometry::knight_attack(s, j) && has_bit(restrict, j));
        } else if kind == 1 {
            lemma_piece_moves_captures(
                b,
                s,
                |j: int| crate::geometry::slider_attack(true, s, b.side_bits(0) | b.side_bits(1), j) && has_bit(restrict, j),
            );
        } else {
            lemma_piece_moves_captures(
                b,
                s,
                |j: int| crate::geometry::slider_attack(false, s, b.side_bits(0) | b.side_bits(1), j) && has_bit(restrict, j),
            );
        }
    }
    lemma_moves_over_all(bits_of(sources), g, is_capture_value());
}

/// Asking the generator for captures gives captures only: every move it lists then
/// carries the capture flag.
pub proof fn lemma_capture_generation_gives_captures(b: Board)
    requires
        generation_ready(b),
        b.wf(),
        b.derived_ok(),
    ensures
        all_moves(generated_moves(b, true), is_capture_value()),
{
    let stm = b.side_to_move@;
    let set = b.side_bits(stm);
    let opp = b.side_bits(1 - stm);
    let k = b.king_square(stm);
    let pred = |t: int| crate::geometry::king_attack(k, t) && !has_bit(set, t) && has_bit(opp, t);
    lemma_flag_words();
    assert forall|t: int| 0 <= t < 64 && #[trigger] pred(t) implies all_moves(king_step(b, k)(t), is_capture_value()) by {
        lemma_king_square_allied(b);
        lemma_move_value_fields(k as u16, t as u16, 0x4000u16);
    }
    lemma_moves_over_all(pred, king_step(b, k), is_capture_value());
    if !double_check(b) {
        let mask = evasion_mask(b, true);
        assert forall|j: int| 0 <= j < 64 && #[trigger] has_bit(mask, j) implies b.occupied(j) && has_bit(opp, j) by {
            if b.checkers@ != 0 {
                assert(b.checkers.contains(j) == b.is_checker(j));
            }
        }
        let orth = b.ortographic_pins@;
        let diag = b.diagonal_pins@;
        assert forall|j: int| 0 <= j < 64 && #[trigger] has_bit(mask & diag, j) implies b.occupied(j) by {
            lemma_bitwise(mask, diag, j as u64);
            assert(has_bit(mask, j));
        }
        assert forall|j: int| 0 <= j < 64 && #[trigger] has_bit(mask & orth, j) implies b.occupied(j) by {
            lemma_bitwise(mask, orth, j as u64);
            assert(has_bit(mask, j));
        }
        let side = set;
        let knights = (b.piece_bits(2) & side) & !(orth | diag);
        let bpieces = (b.piece_bits(3) & side) | (b.piece_bits(5) & side);
        let bmovable = bpieces & !orth;
        let bpinned = bmovable & diag;
        let rpieces = (b.piece_bits(4) & side) | (b.piece_bits(5) & side);
        let rmovable = rpieces & !diag;
        let rpinned = rmovable & orth;
        lemma_pieces_captures(b, knights, knight_square_moves(b, mask), mask, 0);
        lemma_pieces_captures(b, bmovable & !bpinned, slider_square_moves(b, true, mask), mask, 1);
        lemma_pieces_captures(b, bpinned, slider_square_moves(b, true, mask & diag), mask & diag, 1);
        lemma_pieces_captures(b, rmovable & !rpinned, slider_square_moves(b, false, mask), mask, 2);
        lemma_pieces_captures(b, rpinned, slider_square_moves(b, false, mask & orth), mask & orth, 2);
        lemma_all_concat(
            moves_over(bits_of(bmovable & !bpinned), slider_square_moves(b, true, mask)),
            moves_over(bits_of(bpinned), slider_square_moves(b, true, mask & diag)),
            is_capture_value(),
        );
        lemma_all_concat(
            moves_over(bits_of(rmovable & !rpinned), slider_square_moves(b, false, mask)),
            moves_over(bits_of(rpinned), slider_square_moves(b, false, mask & orth)),
            is_capture_value(),
        );
        lemma_pawn_moves(b, mask);
        let king_part = king_captures(b);
        let castle_part = Seq::<u16>::empty();
        let pawn_part = pawn_capture_moves(b, mask);
        lemma_all_concat(king_part, castle_part, is_capture_value());
        lemma_all_concat(king_part + castle_part, pawn_part, is_capture_value());
        lemma_all_concat(king_part + castle_part + pawn_part, knight_moves(b, mask), is_capture_value());
        lemma_all_concat(king_part + castle_part + pawn_part + knight_moves(b, mask), bishop_moves(b, mask), is_capture_value());
        lemma_all_concat(
            king_part + castle_part + pawn_part + knight_moves(b, mask) + bishop_moves(b, mask),
            rook_moves(b, mask),
            is_capture_value(),
        );
    }
}

} // verus!
