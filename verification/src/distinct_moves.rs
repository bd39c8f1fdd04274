use vstd::prelude::*;

use crate::bitboard::{has_bit, lemma_bitwise};
use crate::board::Board;
use crate::geometry::slider_attack;
use crate::core_structs::{lemma_flag_words, lemma_move_value_fields, lemma_promotion_words, Move};
use crate::movegen::{
    bishop_moves, bits_of, double_step, en_passant_step, knight_moves, knight_square_moves, move_value, moves_from,
    moves_over, one_move, pawn_family, pawn_square_moves, piece_moves, promotions, rook_moves, slider_square_moves,
    pawn_quiet_moves, pawn_capture_moves, pawn_moves, promotion_rank, movable_pawns, movable_pinned_pawns,
    double_pushable_pawns, agressive_pawns, agressive_pinned_pawns, pawn_set, double_push_rank, generated_moves,
    generation_ready, king_moves, king_captures, king_step, castle_moves, evasion_mask, double_check,
};
use crate::geometry::{bishop_attack, is_diagonal, is_orthogonal, rook_attack, slides_to};
use crate::movegen_laws::{all_moves, lemma_all_concat};

verus! {

/// The square a move value leaves.
pub open spec fn value_from(v: u16) -> int {
    Move { value: v }.from_of()
}

/// The square a move value reaches.
pub open spec fn value_to(v: u16) -> int {
    Move { value: v }.to_of()
}

/// The flag word of a move value.
pub open spec fn value_flags(v: u16) -> u16 {
    Move { value: v }.flags_of()
}

/// The square a move value reaches (`by_target`) or leaves.
pub open spec fn value_key(by_target: bool, v: u16) -> int {
    if by_target {
        value_to(v)
    } else {
        value_from(v)
    }
}

/// The move values whose key square is `s`.
pub open spec fn keyed(by_target: bool, s: int) -> spec_fn(u16) -> bool {
    |v: u16| value_key(by_target, v) == s
}

/// The move values whose key square lies from `start` on and is one `pred` holds of.
pub open spec fn keyed_in(by_target: bool, pred: spec_fn(int) -> bool, start: int) -> spec_fn(u16) -> bool {
    |v: u16| start <= value_key(by_target, v) < 64 && pred(value_key(by_target, v))
}

/// The move values one of two properties describes.
pub open spec fn either(p: spec_fn(u16) -> bool, q: spec_fn(u16) -> bool) -> spec_fn(u16) -> bool {
    |v: u16| p(v) || q(v)
}

/// What holds of every value of a sequence holds under any weaker property.
pub(crate) proof fn lemma_all_weaken(s: Seq<u16>, p: spec_fn(u16) -> bool, q: spec_fn(u16) -> bool)
    requires
        all_moves(s, p),
        forall|v: u16| #[trigger] p(v) ==> q(v),
    ensures
        all_moves(s, q),
{
    assert forall|k: int| 0 <= k < s.len() implies #[trigger] q(s[k]) by {
        assert(p(s[k]));
    }
}

/// What two properties of every value of a sequence give holds of every value.
pub(crate) proof fn lemma_all_both(s: Seq<u16>, p: spec_fn(u16) -> bool, q: spec_fn(u16) -> bool, r: spec_fn(u16) -> bool)
    requires
        all_moves(s, p),
        all_moves(s, q),
        forall|v: u16| p(v) && q(v) ==> #[trigger] r(v),
    ensures
        all_moves(s, r),
{
    assert forall|k: int| 0 <= k < s.len() implies #[trigger] r(s[k]) by {
        assert(p(s[k]) && q(s[k]));
    }
}

/// Two sequences without repeats, whose values no property of the first and of the
/// second both describe, join without repeats.
pub(crate) proof fn lemma_concat_distinct(a: Seq<u16>, c: Seq<u16>, pa: spec_fn(u16) -> bool, pc: spec_fn(u16) -> bool)
    requires
        a.no_duplicates(),
        c.no_duplicates(),
        all_moves(a, pa),
        all_moves(c, pc),
        forall|v: u16| #[trigger] pa(v) ==> !pc(v),
    ensures
        (a + c).no_duplicates(),
        all_moves(a + c, either(pa, pc)),
{
    let r = a + c;
    assert forall|i: int, j: int| 0 <= i < r.len() && 0 <= j < r.len() && i != j implies r[i] != r[j] by {
        if i < a.len() && j < a.len() {
            assert(r[i] == a[i] && r[j] == a[j]);
        } else if i >= a.len() && j >= a.len() {
            assert(r[i] == c[i - a.len()] && r[j] == c[j - a.len()]);
        } else if i < a.len() {
            assert(r[i] == a[i] && r[j] == c[j - a.len()]);
            assert(pa(a[i]));
            assert(pc(c[j - a.len()]));
        } else {
            assert(r[j] == a[j] && r[i] == c[i - a.len()]);
            assert(pa(a[j]));
            assert(pc(c[i - a.len()]));
        }
    }
    lemma_all_weaken(a, pa, either(pa, pc));
    lemma_all_weaken(c, pc, either(pa, pc));
    lemma_all_concat(a, c, either(pa, pc));
}

/// The moves over the squares from `start` that `pred` holds of are without repeats when
/// each square's moves are, and each of them has that square as its key; each then has
/// as key a square from `start` that `pred` holds of.
proof fn lemma_moves_from_distinct(pred: spec_fn(int) -> bool, f: spec_fn(int) -> Seq<u16>, by_target: bool, start: int)
    requires
        0 <= start <= 64,
        forall|s: int|
            start <= s < 64 && #[trigger] pred(s) ==> f(s).no_duplicates() && all_moves(f(s), keyed(by_target, s)),
    ensures
        moves_from(pred, f, start).no_duplicates(),
        all_moves(moves_from(pred, f, start), keyed_in(by_target, pred, start)),
    decreases 64 - start,
{
    if start < 64 {
        lemma_moves_from_distinct(pred, f, by_target, start + 1);
        let head: Seq<u16> = if pred(start) {
            f(start)
        } else {
            Seq::empty()
        };
        let rest = moves_from(pred, f, start + 1);
        assert(moves_from(pred, f, start) == head + rest);
        if pred(start) {
            lemma_all_weaken(f(start), keyed(by_target, start), keyed_in(by_target, pred, start));
        }
        lemma_all_weaken(rest, keyed_in(by_target, pred, start + 1), keyed_in(by_target, pred, start));
        assert forall|v: u16| #[trigger] keyed(by_target, start)(v) implies !keyed_in(by_target, pred, start + 1)(v) by {}
        if pred(start) {
            lemma_concat_distinct(head, rest, keyed(by_target, start), keyed_in(by_target, pred, start + 1));
        } else {
            assert(head + rest == rest);
        }
        lemma_all_concat(head, rest, keyed_in(by_target, pred, start));
    }
}

/// The moves over the squares `pred` holds of, in the same terms.
pub(crate) proof fn lemma_moves_over_distinct(pred: spec_fn(int) -> bool, f: spec_fn(int) -> Seq<u16>, by_target: bool)
    requires
        forall|s: int| 0 <= s < 64 && #[trigger] pred(s) ==> f(s).no_duplicates() && all_moves(f(s), keyed(by_target, s)),
    ensures
        moves_over(pred, f).no_duplicates(),
        all_moves(moves_over(pred, f), keyed_in(by_target, pred, 0)),
{
    lemma_moves_from_distinct(pred, f, by_target, 0);
}

/// The move values from `s` with the flags `flags` to a square `targets` holds of.
pub open spec fn from_with(s: int, flags: u16, targets: spec_fn(int) -> bool) -> spec_fn(u16) -> bool {
    |v: u16| value_from(v) == s && value_flags(v) == flags && targets(value_to(v))
}

/// The single moves from `s` with the flags `flags` to the squares `targets` holds of are
/// without repeats, each from `s` with those flags to such a square.
pub(crate) proof fn lemma_one_moves_distinct(s: int, flags: u16, targets: spec_fn(int) -> bool)
    requires
        0 <= s < 64,
        flags & 0x0FFFu16 == 0,
    ensures
        moves_over(targets, one_move(s, flags)).no_duplicates(),
        all_moves(moves_over(targets, one_move(s, flags)), from_with(s, flags, targets)),
{
    let g = one_move(s, flags);
    assert forall|t: int| 0 <= t < 64 && #[trigger] targets(t) implies g(t).no_duplicates() && all_moves(
        g(t),
        keyed(true, t),
    ) && all_moves(g(t), from_with(s, flags, targets)) by {
        lemma_move_value_fields(s as u16, t as u16, flags);
        assert(g(t)[0] == move_value(s, t, flags));
    }
    lemma_moves_over_distinct(targets, g, true);
    crate::movegen_laws::lemma_moves_over_all(targets, g, from_with(s, flags, targets));
}

/// The promotion values from `s` to a square `targets` holds of, with the capture bit
/// exactly when `capture`.
pub open spec fn promotion_from(s: int, capture: bool, targets: spec_fn(int) -> bool) -> spec_fn(u16) -> bool {
    |v: u16|
        value_from(v) == s && value_flags(v) & 0x8000u16 != 0 && (value_flags(v) & 0x4000u16 != 0) == capture && targets(
            value_to(v),
        )
}

/// The four promotions from `s` with the added flags `flags` (none, or the capture flag)
/// to the squares `targets` holds of are without repeats, each from `s` to such a square
/// with the promotion bit, and with the capture bit exactly when `flags` has it.
pub(crate) proof fn lemma_promotion_moves_distinct(s: int, flags: u16, targets: spec_fn(int) -> bool)
    requires
        0 <= s < 64,
        flags == 0u16 || flags == 0x4000u16,
    ensures
        moves_over(targets, promotions(s, flags)).no_duplicates(),
        all_moves(moves_over(targets, promotions(s, flags)), promotion_from(s, flags == 0x4000u16, targets)),
{
    let g = promotions(s, flags);
    let p = promotion_from(s, flags == 0x4000u16, targets);
    lemma_promotion_words();
    assert forall|t: int| 0 <= t < 64 && #[trigger] targets(t) implies g(t).no_duplicates() && all_moves(
        g(t),
        keyed(true, t),
    ) && all_moves(g(t), p) by {
        lemma_move_value_fields(s as u16, t as u16, 0x8000u16 | flags);
        lemma_move_value_fields(s as u16, t as u16, 0x9000u16 | flags);
        lemma_move_value_fields(s as u16, t as u16, 0xA000u16 | flags);
        lemma_move_value_fields(s as u16, t as u16, 0xB000u16 | flags);
        let four = g(t);
        assert(four.len() == 4);
        assert(four[0] == move_value(s, t, 0x8000u16 | flags));
        assert(four[1] == move_value(s, t, 0x9000u16 | flags));
        assert(four[2] == move_value(s, t, 0xA000u16 | flags));
        assert(four[3] == move_value(s, t, 0xB000u16 | flags));
        assert forall|i: int, j: int| 0 <= i < 4 && 0 <= j < 4 && i != j implies four[i] != four[j] by {
            assert(value_flags(four[i]) != value_flags(four[j]));
        }
    }
    lemma_moves_over_distinct(targets, g, true);
    crate::movegen_laws::lemma_moves_over_all(targets, g, p);
}

/// The move values from `s` to a square `targets` holds of.
pub open spec fn piece_target(s: int, targets: spec_fn(int) -> bool) -> spec_fn(u16) -> bool {
    |v: u16| value_from(v) == s && targets(value_to(v))
}

/// The moves of a piece are without repeats, each from its square to a square of its
/// targets.
pub(crate) proof fn lemma_piece_moves_distinct(b: Board, s: int, targets: spec_fn(int) -> bool)
    requires
        0 <= s < 64,
    ensures
        piece_moves(b, s, targets).no_duplicates(),
        all_moves(piece_moves(b, s, targets), piece_target(s, targets)),
{
    let tq = |j: int| targets(j) && !b.occupied(j);
    let tc = |j: int| targets(j) && has_bit(b.side_bits(1 - b.side_to_move@), j);
    lemma_flag_words();
    lemma_one_moves_distinct(s, 0, tq);
    lemma_one_moves_distinct(s, 0x4000, tc);
    lemma_concat_distinct(
        moves_over(tq, one_move(s, 0)),
        moves_over(tc, one_move(s, 0x4000)),
        from_with(s, 0, tq),
        from_with(s, 0x4000, tc),
    );
    lemma_all_weaken(piece_moves(b, s, targets), either(from_with(s, 0, tq), from_with(s, 0x4000, tc)), piece_target(s, targets));
}

/// The move values whose squares a bishop (`is_bishop`) or rook move joins, with `occ`
/// holding the blockers.
pub open spec fn slides(is_bishop: bool, occ: u64) -> spec_fn(u16) -> bool {
    |v: u16| slider_attack(is_bishop, value_from(v), occ, value_to(v))
}

/// The knight moves of the knights `sources` to the squares of `restrict` are without
/// repeats, each from a square of `sources`.
proof fn lemma_knight_family_distinct(b: Board, sources: u64, restrict: u64)
    ensures
        moves_over(bits_of(sources), knight_square_moves(b, restrict)).no_duplicates(),
        all_moves(moves_over(bits_of(sources), knight_square_moves(b, restrict)), keyed_in(false, bits_of(sources), 0)),
{
    let g = knight_square_moves(b, restrict);
    assert forall|s: int| 0 <= s < 64 && #[trigger] bits_of(sources)(s) implies g(s).no_duplicates() && all_moves(
        g(s),
        keyed(false, s),
    ) by {
        let targets = |j: int| crate::geometry::knight_attack(s, j) && has_bit(restrict, j);
        lemma_piece_moves_distinct(b, s, targets);
        lemma_all_weaken(g(s), piece_target(s, targets), keyed(false, s));
    }
    lemma_moves_over_distinct(bits_of(sources), g, false);
}

/// The slider moves of the pieces `sources` to the squares of `restrict` are without
/// repeats, each from a square of `sources` along a line of its kind.
proof fn lemma_slider_family_distinct(b: Board, is_bishop: bool, sources: u64, restrict: u64)
    ensures
        moves_over(bits_of(sources), slider_square_moves(b, is_bishop, restrict)).no_duplicates(),
        all_moves(
            moves_over(bits_of(sources), slider_square_moves(b, is_bishop, restrict)),
            keyed_in(false, bits_of(sources), 0),
        ),
        all_moves(
            moves_over(bits_of(sources), slider_square_moves(b, is_bishop, restrict)),
            slides(is_bishop, b.side_bits(0) | b.side_bits(1)),
        ),
{
    let occ = b.side_bits(0) | b.side_bits(1);
    let g = slider_square_moves(b, is_bishop, restrict);
    assert forall|s: int| 0 <= s < 64 && #[trigger] bits_of(sources)(s) implies g(s).no_duplicates() && all_moves(
        g(s),
        keyed(false, s),
    ) && all_moves(g(s), slides(is_bishop, occ)) by {
        let targets = |j: int| slider_attack(is_bishop, s, occ, j) && has_bit(restrict, j);
        lemma_piece_moves_distinct(b, s, targets);
        lemma_all_weaken(g(s), piece_target(s, targets), keyed(false, s));
        lemma_all_weaken(g(s), piece_target(s, targets), slides(is_bishop, occ));
    }
    lemma_moves_over_distinct(bits_of(sources), g, false);
    crate::movegen_laws::lemma_moves_over_all(bits_of(sources), g, slides(is_bishop, occ));
}

/// The move values from a square of `set`.
pub open spec fn from_set(set: u64) -> spec_fn(u16) -> bool {
    |v: u16| has_bit(set, value_from(v))
}

/// Two families over the disjoint sets `x & !y` and `x & y` (or any sets without a common
/// square) share no value.
proof fn lemma_split_sources(x: u64, y: u64)
    ensures
        forall|v: u16|
            #[trigger] keyed_in(false, bits_of(x & !y), 0)(v) ==> !keyed_in(false, bits_of(x & y), 0)(v),
{
    assert forall|v: u16| #[trigger] keyed_in(false, bits_of(x & !y), 0)(v) implies !keyed_in(false, bits_of(x & y), 0)(
        v,
    ) by {
        let f = value_from(v);
        lemma_bitwise(x, !y, f as u64);
        lemma_bitwise(x, y, f as u64);
        lemma_bitwise(y, y, f as u64);
    }
}

/// The bishop (`is_bishop`) or rook moves are without repeats, each from a bishop or
/// queen (rook or queen) of the side to move along a line of its kind.
pub(crate) proof fn lemma_slider_moves_distinct(b: Board, is_bishop: bool, mask: u64)
    ensures
        (if is_bishop { bishop_moves(b, mask) } else { rook_moves(b, mask) }).no_duplicates(),
        all_moves(
            if is_bishop { bishop_moves(b, mask) } else { rook_moves(b, mask) },
            from_set((b.piece_bits(if is_bishop { 3 } else { 4 }) & b.side_bits(b.side_to_move@)) | (b.piece_bits(5)
                & b.side_bits(b.side_to_move@))),
        ),
        all_moves(
            if is_bishop { bishop_moves(b, mask) } else { rook_moves(b, mask) },
            slides(is_bishop, b.side_bits(0) | b.side_bits(1)),
        ),
{
    let stm = b.side_to_move@;
    let occ = b.side_bits(0) | b.side_bits(1);
    let pieces = (b.piece_bits(if is_bishop { 3 } else { 4 }) & b.side_bits(stm)) | (b.piece_bits(5) & b.side_bits(stm));
    let cross = if is_bishop { b.ortographic_pins@ } else { b.diagonal_pins@ };
    let same = if is_bishop { b.diagonal_pins@ } else { b.ortographic_pins@ };
    let movable = pieces & !cross;
    let pinned = movable & same;
    let r1 = mask;
    let r2 = mask & same;
    let free_part = moves_over(bits_of(movable & !pinned), slider_square_moves(b, is_bishop, r1));
    let pinned_part = moves_over(bits_of(pinned), slider_square_moves(b, is_bishop, r2));
    assert((if is_bishop { bishop_moves(b, mask) } else { rook_moves(b, mask) }) == free_part + pinned_part);
    lemma_slider_family_distinct(b, is_bishop, movable & !pinned, r1);
    lemma_slider_family_distinct(b, is_bishop, pinned, r2);
    lemma_split_sources(movable, pinned);
    assert(pinned == movable & pinned) by {
        assert forall|j: int| 0 <= j < 64 implies has_bit(pinned, j) == has_bit(movable & pinned, j) by {
            lemma_bitwise(movable, same, j as u64);
            lemma_bitwise(movable, pinned, j as u64);
        }
        crate::bitboard::lemma_bits_ext(pinned, movable & pinned);
    }
    lemma_concat_distinct(
        free_part,
        pinned_part,
        keyed_in(false, bits_of(movable & !pinned), 0),
        keyed_in(false, bits_of(pinned), 0),
    );
    assert forall|v: u16| #[trigger] either(keyed_in(false, bits_of(movable & !pinned), 0), keyed_in(false, bits_of(pinned), 0))(v)
        implies from_set(pieces)(v) by {
        let f = value_from(v);
        lemma_bitwise(movable, !pinned, f as u64);
        lemma_bitwise(movable, same, f as u64);
        lemma_bitwise(pieces, !cross, f as u64);
    }
    lemma_all_weaken(
        free_part + pinned_part,
        either(keyed_in(false, bits_of(movable & !pinned), 0), keyed_in(false, bits_of(pinned), 0)),
        from_set(pieces),
    );
    lemma_all_concat(free_part, pinned_part, slides(is_bishop, occ));
}

/// The knight moves are without repeats, each from a knight of the side to move.
pub(crate) proof fn lemma_knight_moves_distinct(b: Board, mask: u64)
    ensures
        knight_moves(b, mask).no_duplicates(),
        all_moves(knight_moves(b, mask), from_set(b.piece_bits(2) & b.side_bits(b.side_to_move@))),
{
    let knights = b.piece_bits(2) & b.side_bits(b.side_to_move@);
    let src = knights & !(b.ortographic_pins@ | b.diagonal_pins@);
    lemma_knight_family_distinct(b, src, mask);
    assert forall|v: u16| #[trigger] keyed_in(false, bits_of(src), 0)(v) implies from_set(knights)(v) by {
        lemma_bitwise(knights, !(b.ortographic_pins@ | b.diagonal_pins@), value_from(v) as u64);
    }
    lemma_all_weaken(knight_moves(b, mask), keyed_in(false, bits_of(src), 0), from_set(knights));
}

/// The flag words of a pawn family: exactly `flags`, or for promotions the promotion bit
/// with the capture bit exactly when `flags` has it.
pub open spec fn flag_class(flags: u16, promote: bool) -> spec_fn(u16) -> bool {
    |v: u16|
        if promote {
            value_flags(v) & 0x8000u16 != 0 && (value_flags(v) & 0x4000u16 != 0) == (flags == 0x4000u16)
        } else {
            value_flags(v) == flags
        }
}

/// The move values from a square of `src` whose flag word `class` describes.
pub open spec fn sourced(src: u64, class: spec_fn(u16) -> bool) -> spec_fn(u16) -> bool {
    |v: u16| has_bit(src, value_from(v)) && class(v)
}

/// A pawn family is without repeats, each of its moves from a square of its sources with
/// the flags of the family.
proof fn lemma_pawn_family_distinct(b: Board, src: u64, capture: bool, restrict: u64, flags: u16, promote: bool)
    requires
        flags == 0u16 || flags == 0x4000u16,
    ensures
        pawn_family(b, src, capture, restrict, flags, promote).no_duplicates(),
        all_moves(pawn_family(b, src, capture, restrict, flags, promote), sourced(src, flag_class(flags, promote))),
{
    let g = pawn_square_moves(b, capture, restrict, flags, promote);
    let fam = pawn_family(b, src, capture, restrict, flags, promote);
    lemma_flag_words();
    assert forall|s: int| 0 <= s < 64 && #[trigger] bits_of(src)(s) implies g(s).no_duplicates() && all_moves(
        g(s),
        keyed(false, s),
    ) && all_moves(g(s), flag_class(flags, promote)) by {
        let targets = |t: int| crate::movegen::pawn_reach(b, capture, s, t) && has_bit(restrict, t);
        if promote {
            lemma_promotion_moves_distinct(s, flags, targets);
            lemma_all_weaken(g(s), promotion_from(s, flags == 0x4000u16, targets), keyed(false, s));
            lemma_all_weaken(g(s), promotion_from(s, flags == 0x4000u16, targets), flag_class(flags, promote));
        } else {
            lemma_one_moves_distinct(s, flags, targets);
            lemma_all_weaken(g(s), from_with(s, flags, targets), keyed(false, s));
            lemma_all_weaken(g(s), from_with(s, flags, targets), flag_class(flags, promote));
        }
    }
    lemma_moves_over_distinct(bits_of(src), g, false);
    crate::movegen_laws::lemma_moves_over_all(bits_of(src), g, flag_class(flags, promote));
    lemma_all_both(fam, keyed_in(false, bits_of(src), 0), flag_class(flags, promote), sourced(src, flag_class(flags, promote)));
}

/// The flag words of single and double steps.
pub open spec fn step_flags() -> spec_fn(u16) -> bool {
    |v: u16| value_flags(v) == 0u16 || value_flags(v) == 0x1000u16
}

/// The flag word of en passant captures.
pub open spec fn en_passant_flags() -> spec_fn(u16) -> bool {
    |v: u16| value_flags(v) == 0x5000u16
}

/// The steps of the pawns of `src` from their starting rank are without repeats, each
/// from a square of `src` with the flags of a single or double step.
proof fn lemma_double_family_distinct(b: Board, src: u64, restrict: u64)
    ensures
        moves_over(bits_of(src), double_step(b, restrict)).no_duplicates(),
        all_moves(moves_over(bits_of(src), double_step(b, restrict)), sourced(src, step_flags())),
{
    let g = double_step(b, restrict);
    let stm = b.side_to_move@;
    let opp = b.side_bits(1 - stm);
    lemma_flag_words();
    assert forall|s: int| 0 <= s < 64 && #[trigger] bits_of(src)(s) implies g(s).no_duplicates() && all_moves(
        g(s),
        keyed(false, s),
    ) && all_moves(g(s), step_flags()) by {
        let m = (s as usize ^ 24usize) as int;
        if !b.occupied(m) {
            let t1 = |t: int| has_bit(crate::movegen::pawn_push(stm, s), t) && !has_bit(opp, t) && has_bit(restrict, t);
            let t2 = |t: int| has_bit(crate::movegen::pawn_push(stm, m), t) && !has_bit(opp, t) && has_bit(restrict, t);
            lemma_one_moves_distinct(s, 0, t1);
            lemma_one_moves_distinct(s, 0x1000, t2);
            lemma_concat_distinct(moves_over(t1, one_move(s, 0)), moves_over(t2, one_move(s, 0x1000)), from_with(s, 0, t1), from_with(s, 0x1000, t2));
            lemma_all_weaken(g(s), either(from_with(s, 0, t1), from_with(s, 0x1000, t2)), keyed(false, s));
            lemma_all_weaken(g(s), either(from_with(s, 0, t1), from_with(s, 0x1000, t2)), step_flags());
        }
    }
    lemma_moves_over_distinct(bits_of(src), g, false);
    crate::movegen_laws::lemma_moves_over_all(bits_of(src), g, step_flags());
    lemma_all_both(
        moves_over(bits_of(src), g),
        keyed_in(false, bits_of(src), 0),
        step_flags(),
        sourced(src, step_flags()),
    );
}

/// The en passant captures of the pawns of `src` are without repeats, each from a square
/// of `src` with the en passant flags.
proof fn lemma_en_passant_family_distinct(b: Board, src: u64, mask: u64, restrict: u64)
    ensures
        moves_over(bits_of(src), en_passant_step(b, mask, restrict)).no_duplicates(),
        all_moves(moves_over(bits_of(src), en_passant_step(b, mask, restrict)), sourced(src, en_passant_flags())),
{
    let g = en_passant_step(b, mask, restrict);
    lemma_flag_words();
    assert forall|s: int| 0 <= s < 64 && #[trigger] bits_of(src)(s) implies g(s).no_duplicates() && all_moves(
        g(s),
        keyed(false, s),
    ) && all_moves(g(s), en_passant_flags()) by {
        if crate::movegen::en_passant_ok(b, s, mask) {
            let t = |j: int| crate::geometry::pawn_attack(b.side_to_move@, s, j) && has_bit(restrict, j);
            lemma_one_moves_distinct(s, 0x5000, t);
            lemma_all_weaken(g(s), from_with(s, 0x5000, t), keyed(false, s));
            lemma_all_weaken(g(s), from_with(s, 0x5000, t), en_passant_flags());
        }
    }
    lemma_moves_over_distinct(bits_of(src), g, false);
    crate::movegen_laws::lemma_moves_over_all(bits_of(src), g, en_passant_flags());
    lemma_all_both(
        moves_over(bits_of(src), g),
        keyed_in(false, bits_of(src), 0),
        en_passant_flags(),
        sourced(src, en_passant_flags()),
    );
}

/// The move values from a pawn of the side to move whose flag word carries the capture
/// bit exactly when `capture`.
pub open spec fn pawn_value(b: Board, capture: bool) -> spec_fn(u16) -> bool {
    |v: u16| has_bit(pawn_set(b), value_from(v)) && (value_flags(v) & 0x4000u16 != 0) == capture
}

/// The pawn steps are without repeats, each from a pawn of the side to move, without the
/// capture bit.
#[verifier::spinoff_prover]
#[verifier::rlimit(40)]
proof fn lemma_pawn_quiet_distinct(b: Board, mask: u64)
    ensures
        pawn_quiet_moves(b, mask).no_duplicates(),
        all_moves(pawn_quiet_moves(b, mask), pawn_value(b, false)),
{
    let stm = b.side_to_move@;
    let promo = promotion_rank(stm);
    let pawns = pawn_set(b);
    let movable = movable_pawns(b);
    let pinned = movable_pinned_pawns(b);
    let double = double_pushable_pawns(b);
    let orth = b.ortographic_pins@;
    let diag = b.diagonal_pins@;
    let s1 = ((movable & !double) & !pinned) & !promo;
    let s2 = (pinned & !double) & !promo;
    let s3 = (movable & !pinned) & promo;
    let d1 = double & !pinned;
    let d2 = double & pinned;
    let f1 = pawn_family(b, s1, false, mask, 0, false);
    let f2 = pawn_family(b, s2, false, mask & orth, 0, false);
    let f3 = pawn_family(b, s3, false, mask, 0, true);
    let f4 = moves_over(bits_of(d1), double_step(b, mask));
    let f5 = moves_over(bits_of(d2), double_step(b, mask & orth));
    assert(pawn_quiet_moves(b, mask) == f1 + f2 + f3 + f4 + f5);
    lemma_flag_words();
    lemma_pawn_family_distinct(b, s1, false, mask, 0, false);
    lemma_pawn_family_distinct(b, s2, false, mask & orth, 0, false);
    lemma_pawn_family_distinct(b, s3, false, mask, 0, true);
    lemma_double_family_distinct(b, d1, mask);
    lemma_double_family_distinct(b, d2, mask & orth);
    let p1 = sourced(s1, flag_class(0, false));
    let p2 = sourced(s2, flag_class(0, false));
    let p3 = sourced(s3, flag_class(0, true));
    let p4 = sourced(d1, step_flags());
    let p5 = sourced(d2, step_flags());
    assert forall|v: u16| #[trigger] p1(v) implies !p2(v) by {
        let f = value_from(v) as u64;
        lemma_bitwise((movable & !double) & !pinned, !promo, f);
        lemma_bitwise(movable & !double, !pinned, f);
        lemma_bitwise(pinned & !double, !promo, f);
        lemma_bitwise(pinned, !double, f);
        lemma_bitwise(pinned, pinned, f);
    }
    lemma_concat_distinct(f1, f2, p1, p2);
    let q2 = either(p1, p2);
    assert forall|v: u16| #[trigger] q2(v) implies !p3(v) by {}
    lemma_concat_distinct(f1 + f2, f3, q2, p3);
    let q3 = either(q2, p3);
    assert forall|v: u16| #[trigger] q3(v) implies !p4(v) by {
        let f = value_from(v) as u64;
        lemma_bitwise((movable & !double) & !pinned, !promo, f);
        lemma_bitwise(movable & !double, !pinned, f);
        lemma_bitwise(movable, !double, f);
        lemma_bitwise(pinned & !double, !promo, f);
        lemma_bitwise(pinned, !double, f);
        lemma_bitwise(double, !pinned, f);
        lemma_bitwise(double, double, f);
    }
    lemma_concat_distinct(f1 + f2 + f3, f4, q3, p4);
    let q4 = either(q3, p4);
    assert forall|v: u16| #[trigger] q4(v) implies !p5(v) by {
        let f = value_from(v) as u64;
        lemma_bitwise((movable & !double) & !pinned, !promo, f);
        lemma_bitwise(movable & !double, !pinned, f);
        lemma_bitwise(movable, !double, f);
        lemma_bitwise(pinned & !double, !promo, f);
        lemma_bitwise(pinned, !double, f);
        lemma_bitwise(double, !pinned, f);
        lemma_bitwise(double, pinned, f);
        lemma_bitwise(double, double, f);
        lemma_bitwise(pinned, pinned, f);
    }
    lemma_concat_distinct(f1 + f2 + f3 + f4, f5, q4, p5);
    assert forall|v: u16| #[trigger] either(q4, p5)(v) implies pawn_value(b, false)(v) by {
        let f = value_from(v) as u64;
        lemma_bitwise((movable & !double) & !pinned, !promo, f);
        lemma_bitwise(movable & !double, !pinned, f);
        lemma_bitwise(movable, !double, f);
        lemma_bitwise(pinned & !double, !promo, f);
        lemma_bitwise(pinned, !double, f);
        lemma_bitwise(movable & !pinned, promo, f);
        lemma_bitwise(movable, !pinned, f);
        lemma_bitwise(double, !pinned, f);
        lemma_bitwise(double, pinned, f);
        lemma_bitwise(movable, orth, f);
        lemma_bitwise(movable, double_push_rank(stm), f);
        lemma_bitwise(pawns, !diag, f);
    }
    lemma_all_weaken(pawn_quiet_moves(b, mask), either(q4, p5), pawn_value(b, false));
}

/// The pawn captures are without repeats, each from a pawn of the side to move, with the
/// capture bit.
#[verifier::spinoff_prover]
#[verifier::rlimit(40)]
proof fn lemma_pawn_capture_distinct(b: Board, mask: u64)
    ensures
        pawn_capture_moves(b, mask).no_duplicates(),
        all_moves(pawn_capture_moves(b, mask), pawn_value(b, true)),
{
    let stm = b.side_to_move@;
    let promo = promotion_rank(stm);
    let pawns = pawn_set(b);
    let agressive = agressive_pawns(b);
    let pinned = agressive_pinned_pawns(b);
    let diag = b.diagonal_pins@;
    let orth = b.ortographic_pins@;
    let ep = b.en_passant@;
    let a1 = (agressive & !pinned) & !promo;
    let a2 = pinned & !promo;
    let a3 = (agressive & !pinned) & promo;
    let a4 = pinned & promo;
    let e1 = agressive & !pinned;
    let c1 = pawn_family(b, a1, true, mask, 0x4000, false);
    let c2 = pawn_family(b, a2, true, mask & diag, 0x4000, false);
    let c3 = pawn_family(b, a3, true, mask, 0x4000, true);
    let c4 = pawn_family(b, a4, true, mask & diag, 0x4000, true);
    let x1 = moves_over(bits_of(e1), en_passant_step(b, mask, crate::bitboard::single_bit(ep)));
    let x2 = moves_over(bits_of(pinned), en_passant_step(b, mask, crate::bitboard::single_bit(ep) & diag));
    let c5: Seq<u16> = if ep == 64 {
        Seq::empty()
    } else {
        x1 + x2
    };
    assert(pawn_capture_moves(b, mask) == c1 + c2 + c3 + c4 + c5);
    lemma_flag_words();
    lemma_pawn_family_distinct(b, a1, true, mask, 0x4000, false);
    lemma_pawn_family_distinct(b, a2, true, mask & diag, 0x4000, false);
    lemma_pawn_family_distinct(b, a3, true, mask, 0x4000, true);
    lemma_pawn_family_distinct(b, a4, true, mask & diag, 0x4000, true);
    let p1 = sourced(a1, flag_class(0x4000, false));
    let p2 = sourced(a2, flag_class(0x4000, false));
    let p3 = sourced(a3, flag_class(0x4000, true));
    let p4 = sourced(a4, flag_class(0x4000, true));
    let p5 = sourced(agressive, en_passant_flags());
    assert forall|v: u16| #[trigger] p1(v) implies !p2(v) by {
        let f = value_from(v) as u64;
        lemma_bitwise(agressive & !pinned, !promo, f);
        lemma_bitwise(agressive, !pinned, f);
        lemma_bitwise(pinned, !promo, f);
        lemma_bitwise(pinned, pinned, f);
    }
    lemma_concat_distinct(c1, c2, p1, p2);
    let q2 = either(p1, p2);
    assert forall|v: u16| #[trigger] q2(v) implies !p3(v) by {}
    lemma_concat_distinct(c1 + c2, c3, q2, p3);
    let q3 = either(q2, p3);
    assert forall|v: u16| #[trigger] q3(v) implies !p4(v) by {
        let f = value_from(v) as u64;
        lemma_bitwise(agressive & !pinned, promo, f);
        lemma_bitwise(agressive, !pinned, f);
        lemma_bitwise(pinned, promo, f);
        lemma_bitwise(pinned, pinned, f);
    }
    lemma_concat_distinct(c1 + c2 + c3, c4, q3, p4);
    let q4 = either(q3, p4);
    if ep != 64 {
        lemma_en_passant_family_distinct(b, e1, mask, crate::bitboard::single_bit(ep));
        lemma_en_passant_family_distinct(b, pinned, mask, crate::bitboard::single_bit(ep) & diag);
        crate::bitboard::lemma_zero_bits();
        assert forall|v: u16| #[trigger] sourced(e1, en_passant_flags())(v) implies !sourced(pinned, en_passant_flags())(v) by {
            let f = value_from(v) as u64;
            lemma_bitwise(agressive, !pinned, f);
            lemma_bitwise(pinned, pinned, f);
        }
        lemma_concat_distinct(x1, x2, sourced(e1, en_passant_flags()), sourced(pinned, en_passant_flags()));
        assert forall|v: u16| #[trigger] either(sourced(e1, en_passant_flags()), sourced(pinned, en_passant_flags()))(v)
            implies p5(v) by {
            let f = value_from(v) as u64;
            lemma_bitwise(agressive, !pinned, f);
            lemma_bitwise(agressive, diag, f);
        }
        lemma_all_weaken(x1 + x2, either(sourced(e1, en_passant_flags()), sourced(pinned, en_passant_flags())), p5);
    }
    assert forall|v: u16| #[trigger] q4(v) implies !p5(v) by {}
    lemma_concat_distinct(c1 + c2 + c3 + c4, c5, q4, p5);
    assert forall|v: u16| #[trigger] either(q4, p5)(v) implies pawn_value(b, true)(v) by {
        let f = value_from(v) as u64;
        lemma_bitwise(agressive & !pinned, !promo, f);
        lemma_bitwise(agressive & !pinned, promo, f);
        lemma_bitwise(agressive, !pinned, f);
        lemma_bitwise(pinned, !promo, f);
        lemma_bitwise(pinned, promo, f);
        lemma_bitwise(agressive, diag, f);
        lemma_bitwise(pawns, !orth, f);
    }
    lemma_all_weaken(pawn_capture_moves(b, mask), either(q4, p5), pawn_value(b, true));
}

/// The pawn moves are without repeats, each from a pawn of the side to move.
pub(crate) proof fn lemma_pawn_moves_distinct(b: Board, mask: u64)
    ensures
        pawn_moves(b, mask).no_duplicates(),
        all_moves(pawn_moves(b, mask), from_set(pawn_set(b))),
{
    lemma_pawn_quiet_distinct(b, mask);
    lemma_pawn_capture_distinct(b, mask);
    lemma_concat_distinct(pawn_quiet_moves(b, mask), pawn_capture_moves(b, mask), pawn_value(b, false), pawn_value(b, true));
    lemma_all_weaken(pawn_moves(b, mask), either(pawn_value(b, false), pawn_value(b, true)), from_set(pawn_set(b)));
}

/// The king steps from `k`: from `k`, with or without the capture flag.
pub open spec fn king_flags(k: int) -> spec_fn(u16) -> bool {
    |v: u16| value_from(v) == k && (value_flags(v) == 0u16 || value_flags(v) == 0x4000u16)
}

/// The castles of a king on `k`: from `k`, with a castling flag.
pub open spec fn castle_flags(k: int) -> spec_fn(u16) -> bool {
    |v: u16| value_from(v) == k && (value_flags(v) == 0x2000u16 || value_flags(v) == 0x3000u16)
}

/// The king moves to the squares `pred` holds of are without repeats, each a king step.
proof fn lemma_king_steps_distinct(b: Board, pred: spec_fn(int) -> bool)
    requires
        generation_ready(b),
    ensures
        moves_over(pred, king_step(b, b.king_square(b.side_to_move@))).no_duplicates(),
        all_moves(moves_over(pred, king_step(b, b.king_square(b.side_to_move@))), king_flags(b.king_square(b.side_to_move@))),
{
    let stm = b.side_to_move@;
    let k = b.king_square(stm);
    let g = king_step(b, k);
    crate::bitboard::lemma_clear_lowest(b.piece_bits(6) & b.side_bits(stm));
    lemma_flag_words();
    assert forall|t: int| 0 <= t < 64 && #[trigger] pred(t) implies g(t).no_duplicates() && all_moves(
        g(t),
        keyed(true, t),
    ) && all_moves(g(t), king_flags(k)) by {
        let fl = if has_bit(b.side_bits(1 - stm), t) { 0x4000u16 } else { 0u16 };
        lemma_move_value_fields(k as u16, t as u16, fl);
        if g(t).len() > 0 {
            assert(g(t)[0] == move_value(k, t, fl));
        }
    }
    lemma_moves_over_distinct(pred, g, true);
    crate::movegen_laws::lemma_moves_over_all(pred, g, king_flags(k));
}

/// The castles are without repeats, each a castle of the king.
proof fn lemma_castles_distinct(b: Board)
    requires
        generation_ready(b),
    ensures
        castle_moves(b).no_duplicates(),
        all_moves(castle_moves(b), castle_flags(b.king_square(b.side_to_move@))),
{
    let stm = b.side_to_move@;
    let off = 56 * stm;
    let k = b.king_square(stm);
    crate::bitboard::lemma_clear_lowest(b.piece_bits(6) & b.side_bits(stm));
    lemma_flag_words();
    lemma_move_value_fields(k as u16, (6 + off) as u16, 0x2000u16);
    lemma_move_value_fields(k as u16, (2 + off) as u16, 0x3000u16);
    let first: Seq<u16> = if b.castle_rights.has(2 * stm) && crate::movegen::castle_path_ok(b, 6 + off, 7 + off) {
        seq![move_value(k, 6 + off, 0x2000u16)]
    } else {
        Seq::empty()
    };
    let second: Seq<u16> = if b.castle_rights.has(2 * stm + 1) && crate::movegen::castle_path_ok(b, 2 + off, off) {
        seq![move_value(k, 2 + off, 0x3000u16)]
    } else {
        Seq::empty()
    };
    assert(castle_moves(b) == first + second);
    let p1 = |v: u16| value_from(v) == k && value_flags(v) == 0x2000u16;
    let p2 = |v: u16| value_from(v) == k && value_flags(v) == 0x3000u16;
    if first.len() > 0 {
        assert(p1(first[0]));
    }
    if second.len() > 0 {
        assert(p2(second[0]));
    }
    lemma_concat_distinct(first, second, p1, p2);
    lemma_all_weaken(first + second, either(p1, p2), castle_flags(k));
}

/// No square lies both on a diagonal and on a rank or file of another square.
proof fn lemma_not_both_lines(f: int, occ: u64, t: int)
    requires
        bishop_attack(f, occ, t),
    ensures
        !rook_attack(f, occ, t),
{
    if rook_attack(f, occ, t) {
        let (d1, e1) = choose|d: int, e: int| is_diagonal(d, e) && #[trigger] slides_to(f, d, e, occ, t);
        let (d2, e2) = choose|d: int, e: int| is_orthogonal(d, e) && #[trigger] slides_to(f, d, e, occ, t);
        crate::capture_generation::lemma_slide_direction(f, d1, e1, t);
        crate::capture_generation::lemma_slide_direction(f, d2, e2, t);
    }
}

/// The move values from a square of `set` along a line of a bishop (`is_bishop`) or rook.
pub open spec fn slider_value(set: u64, is_bishop: bool, occ: u64) -> spec_fn(u16) -> bool {
    |v: u16| has_bit(set, value_from(v)) && slider_attack(is_bishop, value_from(v), occ, value_to(v))
}

/// No move is listed twice: the moves the generator lists (all moves, or the captures
/// only) are pairwise distinct.
#[verifier::spinoff_prover]
#[verifier::rlimit(60)]
pub proof fn lemma_generated_moves_distinct(b: Board, only_captures: bool)
    requires
        b.wf(),
        generation_ready(b),
    ensures
        generated_moves(b, only_captures).no_duplicates(),
{
    let stm = b.side_to_move@;
    let own = b.side_bits(stm);
    let k = b.king_square(stm);
    let occ = b.side_bits(0) | b.side_bits(1);
    crate::bitboard::lemma_clear_lowest(b.piece_bits(6) & own);
    lemma_bitwise(b.piece_bits(6), own, k as u64);
    assert(b.square_wf(k));
    lemma_flag_words();
    let king_part = if only_captures { king_captures(b) } else { king_moves(b) };
    if only_captures {
        lemma_king_steps_distinct(
            b,
            |t: int| crate::geometry::king_attack(k, t) && !has_bit(own, t) && has_bit(b.side_bits(1 - stm), t),
        );
    } else {
        lemma_king_steps_distinct(b, |t: int| crate::geometry::king_attack(k, t) && !has_bit(own, t));
    }
    if !double_check(b) {
        let mask = evasion_mask(b, only_captures);
        let castle_part: Seq<u16> = if !only_captures && b.checkers@ == 0 {
            castle_moves(b)
        } else {
            Seq::empty()
        };
        let pawn_part = if only_captures { pawn_capture_moves(b, mask) } else { pawn_moves(b, mask) };
        let pk = king_flags(k);
        let pc = castle_flags(k);
        let pp = from_set(pawn_set(b));
        let pn = from_set(b.piece_bits(2) & own);
        let bq = (b.piece_bits(3) & own) | (b.piece_bits(5) & own);
        let rq = (b.piece_bits(4) & own) | (b.piece_bits(5) & own);
        let pb = slider_value(bq, true, occ);
        let pr = slider_value(rq, false, occ);
        if castle_part.len() > 0 {
            lemma_castles_distinct(b);
        }
        if only_captures {
            lemma_pawn_capture_distinct(b, mask);
            lemma_all_weaken(pawn_part, pawn_value(b, true), pp);
        } else {
            lemma_pawn_moves_distinct(b, mask);
        }
        lemma_knight_moves_distinct(b, mask);
        lemma_slider_moves_distinct(b, true, mask);
        lemma_slider_moves_distinct(b, false, mask);
        lemma_all_both(bishop_moves(b, mask), from_set(bq), slides(true, occ), pb);
        lemma_all_both(rook_moves(b, mask), from_set(rq), slides(false, occ), pr);
        lemma_concat_distinct(king_part, castle_part, pk, pc);
        let q1 = either(pk, pc);
        assert forall|v: u16| #[trigger] q1(v) implies !pp(v) by {
            let f = value_from(v);
            if has_bit(pawn_set(b), f) {
                lemma_bitwise(b.piece_bits(1), own, f as u64);
            }
        }
        lemma_concat_distinct(king_part + castle_part, pawn_part, q1, pp);
        let q2 = either(q1, pp);
        assert forall|v: u16| #[trigger] q2(v) implies !pn(v) by {
            let f = value_from(v);
            if has_bit(b.piece_bits(2) & own, f) {
                lemma_bitwise(b.piece_bits(2), own, f as u64);
                lemma_bitwise(b.piece_bits(1), own, f as u64);
                assert(b.square_wf(f));
            }
        }
        lemma_concat_distinct(king_part + castle_part + pawn_part, knight_moves(b, mask), q2, pn);
        let q3 = either(q2, pn);
        assert forall|v: u16| #[trigger] q3(v) implies !pb(v) by {
            let f = value_from(v);
            if has_bit(bq, f) {
                lemma_bitwise(b.piece_bits(3) & own, b.piece_bits(5) & own, f as u64);
                lemma_bitwise(b.piece_bits(3), own, f as u64);
                lemma_bitwise(b.piece_bits(5), own, f as u64);
                lemma_bitwise(b.piece_bits(2), own, f as u64);
                lemma_bitwise(b.piece_bits(1), own, f as u64);
                assert(b.square_wf(f));
            }
        }
        lemma_concat_distinct(king_part + castle_part + pawn_part + knight_moves(b, mask), bishop_moves(b, mask), q3, pb);
        let q4 = either(q3, pb);
        assert forall|v: u16| #[trigger] q4(v) implies !pr(v) by {
            let f = value_from(v);
            if has_bit(rq, f) {
                lemma_bitwise(b.piece_bits(4) & own, b.piece_bits(5) & own, f as u64);
                lemma_bitwise(b.piece_bits(3) & own, b.piece_bits(5) & own, f as u64);
                lemma_bitwise(b.piece_bits(4), own, f as u64);
                lemma_bitwise(b.piece_bits(3), own, f as u64);
                lemma_bitwise(b.piece_bits(5), own, f as u64);
                lemma_bitwise(b.piece_bits(2), own, f as u64);
                lemma_bitwise(b.piece_bits(1), own, f as u64);
                assert(b.square_wf(f));
                if pb(v) {
                    lemma_not_both_lines(f, occ, value_to(v));
                }
            }
        }
        lemma_concat_distinct(
            king_part + castle_part + pawn_part + knight_moves(b, mask) + bishop_moves(b, mask),
            rook_moves(b, mask),
            q4,
            pr,
        );
    }
}

} // verus!
