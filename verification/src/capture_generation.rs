use vstd::prelude::*;

use vstd::std_specs::bits::u64_trailing_zeros;

use crate::bitboard::{has_bit, lemma_bitwise, lemma_clear_lowest, lemma_one_bit, lemma_single_bit_update, lemma_xor_on_board};
use crate::board::Board;
use crate::core_structs::{lemma_flag_words, lemma_move_value_fields};
use crate::geometry::{
    beyond, bishop_attack, file_of, is_diagonal, is_orthogonal, king_attack, knight_attack, lemma_path_blocked, on_line,
    point, rank_of, ray, rook_attack, sign, slider_attack, slides_to, steps,
};
use crate::movegen::{
    agressive_pawns, agressive_pinned_pawns, bishop_moves, bits_of, castle_moves, double_check, double_pushable_pawns,
    double_step, en_passant_ok, en_passant_step, evasion_mask, generated_moves, generation_ready, king_captures,
    king_moves, king_step, knight_moves, knight_square_moves, lemma_squares_mask, movable_pawns, movable_pinned_pawns,
    move_value, moves_from, moves_over, one_move, pawn_capture_moves, pawn_family, pawn_moves, pawn_push,
    pawn_quiet_moves, pawn_reach, pawn_square_moves, piece_moves, promotion_rank, promotions, ray_mask, rook_moves,
    slider_square_moves,
};
use crate::movegen_laws::{all_moves, is_capture_value, lemma_all_concat, lemma_moves_over_all, lemma_pawn_moves};

verus! {

/// A square is its rank and file.
pub(crate) proof fn lemma_square_coords(j: int)
    requires
        0 <= j < 64,
    ensures
        j == rank_of(j) * 8 + file_of(j),
        0 <= rank_of(j) < 8,
        0 <= file_of(j) < 8,
{
}

/// Two squares on a line from `from` at the same number of steps are one square.
pub(crate) proof fn lemma_same_steps(from: int, dr: int, df: int, a: int, c: int)
    requires
        0 <= a < 64,
        0 <= c < 64,
        on_line(from, dr, df, a),
        on_line(from, dr, df, c),
        steps(from, dr, df, a) == steps(from, dr, df, c),
    ensures
        a == c,
{
    lemma_square_coords(a);
    lemma_square_coords(c);
}

/// A square on a line from `from` is the point of its number of steps.
pub(crate) proof fn lemma_point_of_steps(from: int, dr: int, df: int, a: int)
    requires
        0 <= a < 64,
        on_line(from, dr, df, a),
    ensures
        point(from, dr, df, steps(from, dr, df, a)) == a,
{
    lemma_square_coords(a);
}

/// A square a slider reaches along `(dr, df)` lies in that direction: the signs of its
/// rank and file differences are `dr` and `df`.
pub(crate) proof fn lemma_slide_direction(from: int, dr: int, df: int, c: int)
    requires
        is_diagonal(dr, df) || is_orthogonal(dr, df),
        beyond(from, dr, df, c),
    ensures
        sign(rank_of(c) - rank_of(from)) == dr,
        sign(file_of(c) - file_of(from)) == df,
{
}

/// The squares strictly between a slider and a square it reaches are empty.
pub(crate) proof fn lemma_slide_between(from: int, dr: int, df: int, occ: u64, c: int, j: int)
    requires
        0 <= c < 64,
        0 <= j < 64,
        is_diagonal(dr, df) || is_orthogonal(dr, df),
        slides_to(from, dr, df, occ, c),
        ray(from, c, j),
        j != c,
    ensures
        !has_bit(occ, j),
{
    lemma_slide_direction(from, dr, df, c);
    let n = steps(from, dr, df, c);
    let m = steps(from, dr, df, j);
    if m == n {
        lemma_same_steps(from, dr, df, j, c);
    }
    lemma_point_of_steps(from, dr, df, j);
    if has_bit(occ, j) {
        lemma_path_blocked(from, dr, df, occ, m, n);
    }
}

/// A square next to `from` has no square strictly between them on a ray.
pub(crate) proof fn lemma_adjacent_ray(from: int, c: int, j: int)
    requires
        0 <= from < 64,
        0 <= c < 64,
        0 <= j < 64,
        king_attack(from, c),
        ray(from, c, j),
    ensures
        j == c,
{
    let dr = sign(rank_of(c) - rank_of(from));
    let df = sign(file_of(c) - file_of(from));
    lemma_square_coords(from);
    lemma_same_steps(from, dr, df, j, c);
}

/// No ray joins two squares a knight's move apart.
pub(crate) proof fn lemma_knight_no_ray(from: int, c: int, j: int)
    requires
        0 <= from < 64,
        0 <= c < 64,
        knight_attack(from, c),
    ensures
        !ray(from, c, j),
{
    lemma_square_coords(from);
    lemma_square_coords(c);
}

/// The squares strictly between the king of the side to move and a piece that gives
/// it check are empty.
proof fn lemma_check_line_empty(b: Board, c: int, j: int)
    requires
        0 <= c < 64,
        0 <= j < 64,
        0 <= b.king_square(b.side_to_move@) < 64,
        b.is_checker(c),
        ray(b.king_square(b.side_to_move@), c, j),
        j != c,
    ensures
        !b.occupied(j),
{
    let k = b.king_square(b.side_to_move@);
    let occ = b.side_bits(0) | b.side_bits(1);
    lemma_bitwise(b.side_bits(0), b.side_bits(1), j as u64);
    if (has_bit(b.piece_bits(3), c) || has_bit(b.piece_bits(5), c)) && bishop_attack(k, occ, c) {
        let (dr, df) = choose|dr: int, df: int| is_diagonal(dr, df) && #[trigger] slides_to(k, dr, df, occ, c);
        lemma_slide_between(k, dr, df, occ, c, j);
    } else if (has_bit(b.piece_bits(4), c) || has_bit(b.piece_bits(5), c)) && rook_attack(k, occ, c) {
        let (dr, df) = choose|dr: int, df: int| is_orthogonal(dr, df) && #[trigger] slides_to(k, dr, df, occ, c);
        lemma_slide_between(k, dr, df, occ, c, j);
    } else if has_bit(b.piece_bits(2), c) && knight_attack(k, c) {
        lemma_knight_no_ray(k, c, j);
    } else {
        lemma_adjacent_ray(k, c, j);
    }
}

/// Whether the pieces of the other side on a square are the same under the two masks of
/// the generator: a square of the other side is in the mask for all moves exactly when
/// it is in the mask for captures, which holds only such squares; and an occupied square
/// is in one mask exactly when it is in the other.
pub open spec fn masks_agree(b: Board) -> bool {
    let opp = b.side_bits(1 - b.side_to_move@);
    let full = evasion_mask(b, false);
    let caps = evasion_mask(b, true);
    &&& forall|j: int| 0 <= j < 64 ==> (#[trigger] has_bit(caps, j) ==> has_bit(opp, j))
    &&& forall|j: int| 0 <= j < 64 ==> (#[trigger] has_bit(full, j) && has_bit(opp, j)) == has_bit(caps, j)
    &&& forall|j: int| 0 <= j < 64 && #[trigger] b.occupied(j) ==> has_bit(full, j) == has_bit(caps, j)
}

proof fn lemma_masks_agree(b: Board)
    requires
        b.wf(),
        generation_ready(b),
        b.derived_ok(),
        !double_check(b),
    ensures
        masks_agree(b),
{
    let stm = b.side_to_move@;
    let opp = b.side_bits(1 - stm);
    let own = b.side_bits(stm);
    let full = evasion_mask(b, false);
    let caps = evasion_mask(b, true);
    let c = b.checkers@;
    let k = b.king_square(stm);
    lemma_clear_lowest(b.piece_bits(6) & b.side_bits(stm));
    if c == 0 {
        assert forall|j: int| 0 <= j < 64 implies (#[trigger] has_bit(full, j) && has_bit(opp, j)) == has_bit(caps, j)
            && (b.occupied(j) ==> has_bit(full, j) == has_bit(caps, j)) by {
            lemma_bitwise(own, 0, j as u64);
            assert(b.square_wf(j));
        }
    } else {
        lemma_clear_lowest(c);
        lemma_one_bit(c);
        let checker = u64_trailing_zeros(c) as int;
        assert forall|j: int| 0 <= j < 64 implies (#[trigger] has_bit(c, j) <==> j == checker) by {
            if has_bit(c, j) {
                let i = choose|i: int|
                    0 <= i < 64 && #[trigger] has_bit(c, i) && forall|jj: int| 0 <= jj < 64 && has_bit(c, jj) ==> jj == i;
                assert(checker == i);
            }
        }
        assert(b.checkers.contains(checker));
        assert(b.is_checker(checker));
        assert forall|j: int| 0 <= j < 64 && #[trigger] has_bit(caps, j) implies has_bit(opp, j) by {
            assert(b.checkers.contains(j));
        }
        assert forall|j: int| 0 <= j < 64 implies (#[trigger] has_bit(full, j) && has_bit(opp, j)) == has_bit(caps, j)
            && (b.occupied(j) ==> has_bit(full, j) == has_bit(caps, j)) by {
            lemma_squares_mask(|jj: int| ray(k, checker, jj), 64, j);
            lemma_single_bit_update(ray_mask(k, checker), checker as u64, j as u64);
            assert(b.square_wf(j));
            lemma_bitwise(b.side_bits(0), b.side_bits(1), j as u64);
            if ray(k, checker, j) && j != checker {
                lemma_check_line_empty(b, checker, j);
            }
        }
    }
}

/// What the walk of `moves_from` takes at square `s`: the moves of `f` there when `p`
/// holds of it, else none.
pub open spec fn part(p: spec_fn(int) -> bool, f: spec_fn(int) -> Seq<u16>, s: int) -> Seq<u16> {
    if p(s) {
        f(s)
    } else {
        Seq::empty()
    }
}

/// Two walks that take the same at every square give the same moves.
proof fn lemma_moves_from_same(
    p1: spec_fn(int) -> bool,
    f1: spec_fn(int) -> Seq<u16>,
    p2: spec_fn(int) -> bool,
    f2: spec_fn(int) -> Seq<u16>,
    start: int,
)
    requires
        forall|s: int| start <= s < 64 ==> #[trigger] part(p1, f1, s) == part(p2, f2, s),
    ensures
        moves_from(p1, f1, start) == moves_from(p2, f2, start),
    decreases 64 - start,
{
    if 0 <= start < 64 {
        assert(part(p1, f1, start) == part(p2, f2, start));
        lemma_moves_from_same(p1, f1, p2, f2, start + 1);
    } else if start < 0 {
        lemma_moves_from_same(p1, f1, p2, f2, start + 1);
    }
}

proof fn lemma_moves_over_same(
    p1: spec_fn(int) -> bool,
    f1: spec_fn(int) -> Seq<u16>,
    p2: spec_fn(int) -> bool,
    f2: spec_fn(int) -> Seq<u16>,
)
    requires
        forall|s: int| 0 <= s < 64 ==> #[trigger] part(p1, f1, s) == part(p2, f2, s),
    ensures
        moves_over(p1, f1) == moves_over(p2, f2),
{
    lemma_moves_from_same(p1, f1, p2, f2, 0);
}

/// The captures among the moves `f` gives at a square.
pub open spec fn captures_of(f: spec_fn(int) -> Seq<u16>) -> spec_fn(int) -> Seq<u16> {
    |s: int| f(s).filter(is_capture_value())
}

/// The captures of a walk are the walk of the captures.
proof fn lemma_filter_moves_from(p: spec_fn(int) -> bool, f: spec_fn(int) -> Seq<u16>, start: int)
    ensures
        moves_from(p, f, start).filter(is_capture_value()) == moves_from(p, captures_of(f), start),
    decreases 64 - start,
{
    if 0 <= start < 64 {
        lemma_filter_moves_from(p, f, start + 1);
        let head = part(p, f, start);
        let rest = moves_from(p, f, start + 1);
        Seq::filter_distributes_over_add(head, rest, is_capture_value());
        if !p(start) {
            lemma_filter_empty();
        }
        assert(moves_from(p, f, start) == head + rest);
        assert(moves_from(p, captures_of(f), start) == part(p, captures_of(f), start) + moves_from(p, captures_of(f), start + 1));
    } else {
        lemma_filter_empty();
    }
}

proof fn lemma_filter_moves_over(p: spec_fn(int) -> bool, f: spec_fn(int) -> Seq<u16>)
    ensures
        moves_over(p, f).filter(is_capture_value()) == moves_over(p, captures_of(f)),
{
    lemma_filter_moves_from(p, f, 0);
}

proof fn lemma_filter_empty()
    ensures
        Seq::<u16>::empty().filter(is_capture_value()) == Seq::<u16>::empty(),
{
    reveal_with_fuel(Seq::filter, 1);
}

/// A move is kept by the filter exactly when it is a capture.
proof fn lemma_filter_single(x: u16)
    ensures
        seq![x].filter(is_capture_value()) == (if x & 0x4000u16 != 0 { seq![x] } else { Seq::<u16>::empty() }),
{
    reveal_with_fuel(Seq::filter, 2);
    assert(seq![x].drop_last() =~= Seq::<u16>::empty());
    assert(Seq::<u16>::empty().push(x) =~= seq![x]);
}

/// Moves that are all captures pass the filter unchanged.
proof fn lemma_filter_all(s: Seq<u16>)
    requires
        all_moves(s, is_capture_value()),
    ensures
        s.filter(is_capture_value()) == s,
    decreases s.len(),
{
    reveal_with_fuel(Seq::filter, 1);
    if s.len() > 0 {
        assert(all_moves(s.drop_last(), is_capture_value())) by {
            assert forall|k: int| 0 <= k < s.drop_last().len() implies #[trigger] is_capture_value()(s.drop_last()[k]) by {
                assert(s.drop_last()[k] == s[k]);
            }
        }
        lemma_filter_all(s.drop_last());
        assert(is_capture_value()(s[s.len() - 1]));
        assert(s.drop_last().push(s.last()) =~= s);
    }
}

/// The moves of one step with flags `flags` are all kept, or all dropped, as the flags
/// carry the capture bit or not.
proof fn lemma_filter_one_moves(s: int, flags: u16, targets: spec_fn(int) -> bool)
    requires
        0 <= s < 64,
        flags & 0x0FFFu16 == 0,
    ensures
        moves_over(targets, one_move(s, flags)).filter(is_capture_value()) == (if flags & 0x4000u16 != 0 {
            moves_over(targets, one_move(s, flags))
        } else {
            Seq::<u16>::empty()
        }),
{
    lemma_filter_moves_over(targets, one_move(s, flags));
    let g = if flags & 0x4000u16 != 0 { one_move(s, flags) } else { |t: int| Seq::<u16>::empty() };
    assert forall|t: int| 0 <= t < 64 implies #[trigger] part(targets, captures_of(one_move(s, flags)), t) == part(targets, g, t) by {
        lemma_move_value_fields(s as u16, t as u16, flags);
        lemma_filter_single(move_value(s, t, flags));
    }
    lemma_moves_over_same(targets, captures_of(one_move(s, flags)), targets, g);
    if flags & 0x4000u16 == 0 {
        lemma_moves_over_nothing(targets);
    }
}

/// A walk that takes nothing anywhere gives nothing.
proof fn lemma_moves_over_nothing(p: spec_fn(int) -> bool)
    ensures
        moves_over(p, |t: int| Seq::<u16>::empty()) == Seq::<u16>::empty(),
{
    lemma_moves_from_nothing(p, 0);
}

proof fn lemma_moves_from_nothing(p: spec_fn(int) -> bool, start: int)
    ensures
        moves_from(p, |t: int| Seq::<u16>::empty(), start) == Seq::<u16>::empty(),
    decreases 64 - start,
{
    if 0 <= start < 64 {
        lemma_moves_from_nothing(p, start + 1);
        assert(moves_from(p, |t: int| Seq::<u16>::empty(), start) =~= Seq::<u16>::empty());
    }
}

/// A walk over squares none of which `p` holds gives nothing.
proof fn lemma_moves_over_none(p: spec_fn(int) -> bool, f: spec_fn(int) -> Seq<u16>)
    requires
        forall|j: int| 0 <= j < 64 ==> !#[trigger] p(j),
    ensures
        moves_over(p, f) == Seq::<u16>::empty(),
{
    assert forall|j: int| 0 <= j < 64 implies #[trigger] part(p, f, j) == part(p, |t: int| Seq::<u16>::empty(), j) by {}
    lemma_moves_over_same(p, f, p, |t: int| Seq::<u16>::empty());
    lemma_moves_over_nothing(p);
}

/// The captures among a piece's moves to the squares of `t1` are its moves to the squares
/// of `t2`, when `t2` holds the squares of `t1` that the other side holds.
proof fn lemma_piece_captures(b: Board, s: int, t1: spec_fn(int) -> bool, t2: spec_fn(int) -> bool)
    requires
        0 <= s < 64,
        b.side_to_move.valid(),
        forall|j: int| 0 <= j < 64 ==> #[trigger] t2(j) == (t1(j) && has_bit(b.side_bits(1 - b.side_to_move@), j)),
    ensures
        piece_moves(b, s, t1).filter(is_capture_value()) == piece_moves(b, s, t2),
{
    let opp = b.side_bits(1 - b.side_to_move@);
    let q1 = |j: int| t1(j) && !b.occupied(j);
    let c1 = |j: int| t1(j) && has_bit(opp, j);
    let q2 = |j: int| t2(j) && !b.occupied(j);
    let c2 = |j: int| t2(j) && has_bit(opp, j);
    assert(piece_moves(b, s, t1) == moves_over(q1, one_move(s, 0)) + moves_over(c1, one_move(s, 0x4000)));
    assert(piece_moves(b, s, t2) == moves_over(q2, one_move(s, 0)) + moves_over(c2, one_move(s, 0x4000)));
    lemma_flag_words();
    Seq::filter_distributes_over_add(moves_over(q1, one_move(s, 0)), moves_over(c1, one_move(s, 0x4000)), is_capture_value());
    lemma_filter_one_moves(s, 0, q1);
    lemma_filter_one_moves(s, 0x4000, c1);
    assert forall|j: int| 0 <= j < 64 implies !#[trigger] q2(j) by {}
    lemma_moves_over_none(q2, one_move(s, 0));
    assert forall|j: int| 0 <= j < 64 implies #[trigger] part(c1, one_move(s, 0x4000), j) == part(c2, one_move(s, 0x4000), j) by {}
    lemma_moves_over_same(c1, one_move(s, 0x4000), c2, one_move(s, 0x4000));
    assert(Seq::<u16>::empty() + moves_over(c2, one_move(s, 0x4000)) =~= moves_over(c2, one_move(s, 0x4000)));
}

/// Whether mask `m2` holds the squares of mask `m1` that the other side holds.
pub open spec fn capture_mask_of(b: Board, m1: u64, m2: u64) -> bool {
    forall|j: int| 0 <= j < 64 ==> #[trigger] has_bit(m2, j) == (has_bit(m1, j) && has_bit(b.side_bits(1 - b.side_to_move@), j))
}

/// The captures among the knight moves to `m1` are the knight moves to `m2`.
proof fn lemma_knight_family(b: Board, src: u64, m1: u64, m2: u64)
    requires
        b.side_to_move.valid(),
        capture_mask_of(b, m1, m2),
    ensures
        moves_over(bits_of(src), knight_square_moves(b, m1)).filter(is_capture_value()) == moves_over(
            bits_of(src),
            knight_square_moves(b, m2),
        ),
{
    lemma_filter_moves_over(bits_of(src), knight_square_moves(b, m1));
    assert forall|s: int| 0 <= s < 64 implies #[trigger] part(bits_of(src), captures_of(knight_square_moves(b, m1)), s) == part(
        bits_of(src),
        knight_square_moves(b, m2),
        s,
    ) by {
        let t1 = |j: int| knight_attack(s, j) && has_bit(m1, j);
        let t2 = |j: int| knight_attack(s, j) && has_bit(m2, j);
        lemma_piece_captures(b, s, t1, t2);
        assert(knight_square_moves(b, m1)(s) == piece_moves(b, s, t1));
        assert(knight_square_moves(b, m2)(s) == piece_moves(b, s, t2));
    }
    lemma_moves_over_same(bits_of(src), captures_of(knight_square_moves(b, m1)), bits_of(src), knight_square_moves(b, m2));
}

/// The captures among the slider moves to `m1` are the slider moves to `m2`.
proof fn lemma_slider_family(b: Board, is_bishop: bool, src: u64, m1: u64, m2: u64)
    requires
        b.side_to_move.valid(),
        capture_mask_of(b, m1, m2),
    ensures
        moves_over(bits_of(src), slider_square_moves(b, is_bishop, m1)).filter(is_capture_value()) == moves_over(
            bits_of(src),
            slider_square_moves(b, is_bishop, m2),
        ),
{
    let occ = b.side_bits(0) | b.side_bits(1);
    lemma_filter_moves_over(bits_of(src), slider_square_moves(b, is_bishop, m1));
    assert forall|s: int| 0 <= s < 64 implies #[trigger] part(bits_of(src), captures_of(slider_square_moves(b, is_bishop, m1)), s)
        == part(bits_of(src), slider_square_moves(b, is_bishop, m2), s) by {
        let t1 = |j: int| slider_attack(is_bishop, s, occ, j) && has_bit(m1, j);
        let t2 = |j: int| slider_attack(is_bishop, s, occ, j) && has_bit(m2, j);
        lemma_piece_captures(b, s, t1, t2);
        assert(slider_square_moves(b, is_bishop, m1)(s) == piece_moves(b, s, t1));
        assert(slider_square_moves(b, is_bishop, m2)(s) == piece_moves(b, s, t2));
    }
    lemma_moves_over_same(
        bits_of(src),
        captures_of(slider_square_moves(b, is_bishop, m1)),
        bits_of(src),
        slider_square_moves(b, is_bishop, m2),
    );
}

/// Restricting both masks to the same set keeps one the capture mask of the other.
proof fn lemma_capture_mask_and(b: Board, m1: u64, m2: u64, d: u64)
    requires
        capture_mask_of(b, m1, m2),
    ensures
        capture_mask_of(b, m1 & d, m2 & d),
{
    assert forall|j: int| 0 <= j < 64 implies #[trigger] has_bit(m2 & d, j) == (has_bit(m1 & d, j) && has_bit(
        b.side_bits(1 - b.side_to_move@),
        j,
    )) by {
        lemma_bitwise(m1, d, j as u64);
        lemma_bitwise(m2, d, j as u64);
    }
}

/// The move values without the capture flag.
pub open spec fn not_capture() -> spec_fn(u16) -> bool {
    |x: u16| x & 0x4000u16 == 0
}

/// Moves none of which is a capture leave nothing through the filter.
proof fn lemma_filter_none(s: Seq<u16>)
    requires
        all_moves(s, not_capture()),
    ensures
        s.filter(is_capture_value()) == Seq::<u16>::empty(),
    decreases s.len(),
{
    reveal_with_fuel(Seq::filter, 1);
    if s.len() > 0 {
        assert(all_moves(s.drop_last(), not_capture())) by {
            assert forall|k: int| 0 <= k < s.drop_last().len() implies #[trigger] not_capture()(s.drop_last()[k]) by {
                assert(s.drop_last()[k] == s[k]);
            }
        }
        lemma_filter_none(s.drop_last());
        assert(not_capture()(s[s.len() - 1]));
    }
}

/// Steps and promotions with flags that lack the capture bit are not captures.
proof fn lemma_quiet_steps(s: int, flags: u16, targets: spec_fn(int) -> bool, promote: bool)
    requires
        0 <= s < 64,
        flags & 0x0FFFu16 == 0,
        flags & 0x4000u16 == 0,
    ensures
        all_moves(moves_over(targets, if promote { promotions(s, flags) } else { one_move(s, flags) }), not_capture()),
{
    let g = if promote { promotions(s, flags) } else { one_move(s, flags) };
    assert forall|t: int| 0 <= t < 64 && #[trigger] targets(t) implies all_moves(g(t), not_capture()) by {
        lemma_move_value_fields(s as u16, t as u16, flags);
        lemma_move_value_fields(s as u16, t as u16, 0x8000u16 | flags);
        lemma_move_value_fields(s as u16, t as u16, 0x9000u16 | flags);
        lemma_move_value_fields(s as u16, t as u16, 0xA000u16 | flags);
        lemma_move_value_fields(s as u16, t as u16, 0xB000u16 | flags);
    }
    lemma_moves_over_all(targets, g, not_capture());
}

/// The quiet pawn family is free of captures.
proof fn lemma_quiet_family(b: Board, sources: u64, restrict: u64, promote: bool)
    ensures
        all_moves(pawn_family(b, sources, false, restrict, 0, promote), not_capture()),
{
    lemma_flag_words();
    let g = pawn_square_moves(b, false, restrict, 0, promote);
    assert forall|s: int| 0 <= s < 64 && #[trigger] bits_of(sources)(s) implies all_moves(g(s), not_capture()) by {
        let targets = |t: int| pawn_reach(b, false, s, t) && has_bit(restrict, t);
        lemma_quiet_steps(s, 0, targets, promote);
    }
    lemma_moves_over_all(bits_of(sources), g, not_capture());
}

/// Single and double steps are not captures.
proof fn lemma_quiet_double(b: Board, sources: u64, restrict: u64)
    ensures
        all_moves(moves_over(bits_of(sources), double_step(b, restrict)), not_capture()),
{
    let stm = b.side_to_move@;
    let opp = b.side_bits(1 - stm);
    lemma_flag_words();
    assert forall|s: int| 0 <= s < 64 && #[trigger] bits_of(sources)(s) implies all_moves(double_step(b, restrict)(s), not_capture()) by {
        let m = (s as usize ^ 24usize) as int;
        let t1 = |t: int| has_bit(pawn_push(stm, s), t) && !has_bit(opp, t) && has_bit(restrict, t);
        let t2 = |t: int| has_bit(pawn_push(stm, m), t) && !has_bit(opp, t) && has_bit(restrict, t);
        lemma_quiet_steps(s, 0, t1, false);
        lemma_quiet_steps(s, 0x1000, t2, false);
        lemma_all_concat(moves_over(t1, one_move(s, 0)), moves_over(t2, one_move(s, 0x1000)), not_capture());
        if !b.occupied(m) {
            assert(double_step(b, restrict)(s) == moves_over(t1, one_move(s, 0)) + moves_over(t2, one_move(s, 0x1000)));
        }
    }
    lemma_moves_over_all(bits_of(sources), double_step(b, restrict), not_capture());
}

/// The quiet pawn moves hold no capture.
proof fn lemma_pawn_quiet_none(b: Board, mask: u64)
    ensures
        all_moves(pawn_quiet_moves(b, mask), not_capture()),
{
    let promo = promotion_rank(b.side_to_move@);
    let movable = movable_pawns(b);
    let pinned = movable_pinned_pawns(b);
    let double = double_pushable_pawns(b);
    let orth = b.ortographic_pins@;
    lemma_quiet_family(b, ((movable & !double) & !pinned) & !promo, mask, false);
    lemma_quiet_family(b, (pinned & !double) & !promo, mask & orth, false);
    lemma_quiet_family(b, (movable & !pinned) & promo, mask, true);
    lemma_quiet_double(b, double & !pinned, mask);
    lemma_quiet_double(b, double & pinned, mask & orth);
    let q1 = pawn_family(b, ((movable & !double) & !pinned) & !promo, false, mask, 0, false);
    let q2 = pawn_family(b, (pinned & !double) & !promo, false, mask & orth, 0, false);
    let q3 = pawn_family(b, (movable & !pinned) & promo, false, mask, 0, true);
    let q4 = moves_over(bits_of(double & !pinned), double_step(b, mask));
    let q5 = moves_over(bits_of(double & pinned), double_step(b, mask & orth));
    lemma_all_concat(q1, q2, not_capture());
    lemma_all_concat(q1 + q2, q3, not_capture());
    lemma_all_concat(q1 + q2 + q3, q4, not_capture());
    lemma_all_concat(q1 + q2 + q3 + q4, q5, not_capture());
    assert(pawn_quiet_moves(b, mask) == q1 + q2 + q3 + q4 + q5);
}

/// The pawn captures the generator lists (capturing promotions and en passant included)
/// are exactly the capturing moves among its pawn moves, in the same order: the pawn moves
/// are the steps, none of which captures, followed by the pawn captures, all of which do.
pub proof fn lemma_filter_pawn_moves(b: Board, mask: u64)
    ensures
        pawn_moves(b, mask).filter(is_capture_value()) == pawn_capture_moves(b, mask),
{
    lemma_pawn_quiet_none(b, mask);
    lemma_pawn_moves(b, mask);
    lemma_filter_none(pawn_quiet_moves(b, mask));
    lemma_filter_all(pawn_capture_moves(b, mask));
    Seq::filter_distributes_over_add(pawn_quiet_moves(b, mask), pawn_capture_moves(b, mask), is_capture_value());
    assert(Seq::<u16>::empty() + pawn_capture_moves(b, mask) =~= pawn_capture_moves(b, mask));
}

/// A capturing pawn family is the same under a mask and its capture mask.
proof fn lemma_capture_family_masks(b: Board, sources: u64, r1: u64, r2: u64, promote: bool)
    requires
        capture_mask_of(b, r1, r2),
    ensures
        pawn_family(b, sources, true, r1, 0x4000, promote) == pawn_family(b, sources, true, r2, 0x4000, promote),
{
    let g1 = pawn_square_moves(b, true, r1, 0x4000, promote);
    let g2 = pawn_square_moves(b, true, r2, 0x4000, promote);
    assert forall|s: int| 0 <= s < 64 implies #[trigger] part(bits_of(sources), g1, s) == part(bits_of(sources), g2, s) by {
        let f = if promote { promotions(s, 0x4000) } else { one_move(s, 0x4000) };
        let p1 = |t: int| pawn_reach(b, true, s, t) && has_bit(r1, t);
        let p2 = |t: int| pawn_reach(b, true, s, t) && has_bit(r2, t);
        assert forall|t: int| 0 <= t < 64 implies #[trigger] part(p1, f, t) == part(p2, f, t) by {}
        lemma_moves_over_same(p1, f, p2, f);
        assert(g1(s) == moves_over(p1, f));
        assert(g2(s) == moves_over(p2, f));
    }
    lemma_moves_over_same(bits_of(sources), g1, bits_of(sources), g2);
}

/// Whether the en passant square, when there is one, has a piece behind it: the pawn
/// that just made the double step.
pub open spec fn en_passant_backed(b: Board) -> bool {
    b.en_passant@ < 64 ==> b.occupied(((b.en_passant@ as usize) ^ 8usize) as int)
}

/// The pawn captures are the same under the generator's mask for all moves and its mask
/// for captures.
proof fn lemma_pawn_captures_masks(b: Board)
    requires
        b.side_to_move.valid(),
        b.en_passant@ <= 64,
        masks_agree(b),
        en_passant_backed(b),
    ensures
        pawn_capture_moves(b, evasion_mask(b, false)) == pawn_capture_moves(b, evasion_mask(b, true)),
{
    let mf = evasion_mask(b, false);
    let mc = evasion_mask(b, true);
    let promo = promotion_rank(b.side_to_move@);
    let agressive = agressive_pawns(b);
    let pinned = agressive_pinned_pawns(b);
    let diag = b.diagonal_pins@;
    let ep = b.en_passant@;
    assert(capture_mask_of(b, mf, mc));
    lemma_capture_mask_and(b, mf, mc, diag);
    lemma_capture_family_masks(b, (agressive & !pinned) & !promo, mf, mc, false);
    lemma_capture_family_masks(b, pinned & !promo, mf & diag, mc & diag, false);
    lemma_capture_family_masks(b, (agressive & !pinned) & promo, mf, mc, true);
    lemma_capture_family_masks(b, pinned & promo, mf & diag, mc & diag, true);
    if ep != 64 {
        b.en_passant.lemma_index_nonnegative();
        assert(0 <= ep < 64);
        let target = ((ep as usize) ^ 8usize) as int;
        lemma_xor_on_board(ep as usize, 8);
        assert(has_bit(mf, target) == has_bit(mc, target));
        let r1 = crate::bitboard::single_bit(ep);
        let r2 = crate::bitboard::single_bit(ep) & diag;
        assert forall|s: int| 0 <= s < 64 implies #[trigger] part(bits_of(agressive & !pinned), en_passant_step(b, mf, r1), s)
            == part(bits_of(agressive & !pinned), en_passant_step(b, mc, r1), s) by {
            assert(en_passant_ok(b, s, mf) == en_passant_ok(b, s, mc));
        }
        assert forall|s: int| 0 <= s < 64 implies #[trigger] part(bits_of(pinned), en_passant_step(b, mf, r2), s) == part(
            bits_of(pinned),
            en_passant_step(b, mc, r2),
            s,
        ) by {
            assert(en_passant_ok(b, s, mf) == en_passant_ok(b, s, mc));
        }
        lemma_moves_over_same(
            bits_of(agressive & !pinned),
            en_passant_step(b, mf, r1),
            bits_of(agressive & !pinned),
            en_passant_step(b, mc, r1),
        );
        lemma_moves_over_same(bits_of(pinned), en_passant_step(b, mf, r2), bits_of(pinned), en_passant_step(b, mc, r2));
    }
}

/// The captures among the king moves are the king captures.
proof fn lemma_filter_king_moves(b: Board)
    requires
        generation_ready(b),
    ensures
        king_moves(b).filter(is_capture_value()) == king_captures(b),
{
    let stm = b.side_to_move@;
    let k = b.king_square(stm);
    let own = b.side_bits(stm);
    let opp = b.side_bits(1 - stm);
    lemma_clear_lowest(b.piece_bits(6) & b.side_bits(stm));
    lemma_flag_words();
    let p1 = |t: int| king_attack(k, t) && !has_bit(own, t);
    let p2 = |t: int| king_attack(k, t) && !has_bit(own, t) && has_bit(opp, t);
    lemma_filter_moves_over(p1, king_step(b, k));
    assert forall|t: int| 0 <= t < 64 implies #[trigger] part(p1, captures_of(king_step(b, k)), t) == part(p2, king_step(b, k), t) by {
        let flag = if has_bit(opp, t) { 0x4000u16 } else { 0u16 };
        lemma_move_value_fields(k as u16, t as u16, flag);
        lemma_filter_single(move_value(k, t, flag));
        lemma_filter_empty();
    }
    lemma_moves_over_same(p1, captures_of(king_step(b, k)), p2, king_step(b, k));
}

/// Castling is never a capture.
proof fn lemma_filter_castle_moves(b: Board)
    requires
        generation_ready(b),
    ensures
        castle_moves(b).filter(is_capture_value()) == Seq::<u16>::empty(),
{
    let stm = b.side_to_move@;
    let off = 56 * stm;
    let k = b.king_square(stm);
    lemma_clear_lowest(b.piece_bits(6) & b.side_bits(stm));
    lemma_flag_words();
    lemma_move_value_fields(k as u16, (6 + off) as u16, 0x2000u16);
    lemma_move_value_fields(k as u16, (2 + off) as u16, 0x3000u16);
    lemma_filter_single(move_value(k, 6 + off, 0x2000u16));
    lemma_filter_single(move_value(k, 2 + off, 0x3000u16));
    lemma_filter_empty();
    let a: Seq<u16> = if b.castle_rights.has(2 * stm) && crate::movegen::castle_path_ok(b, 6 + off, 7 + off) {
        seq![move_value(k, 6 + off, 0x2000u16)]
    } else {
        Seq::empty()
    };
    let c: Seq<u16> = if b.castle_rights.has(2 * stm + 1) && crate::movegen::castle_path_ok(b, 2 + off, off) {
        seq![move_value(k, 2 + off, 0x3000u16)]
    } else {
        Seq::empty()
    };
    Seq::filter_distributes_over_add(a, c, is_capture_value());
    assert(castle_moves(b) == a + c);
}

/// The captures among the bishop (rook) moves to `m1` are the bishop (rook) moves to
/// `m2`.
proof fn lemma_filter_slider_moves(b: Board, is_bishop: bool, m1: u64, m2: u64)
    requires
        b.side_to_move.valid(),
        capture_mask_of(b, m1, m2),
    ensures
        is_bishop ==> bishop_moves(b, m1).filter(is_capture_value()) == bishop_moves(b, m2),
        !is_bishop ==> rook_moves(b, m1).filter(is_capture_value()) == rook_moves(b, m2),
{
    let stm = b.side_to_move@;
    let pins = if is_bishop { b.diagonal_pins@ } else { b.ortographic_pins@ };
    let other = if is_bishop { b.ortographic_pins@ } else { b.diagonal_pins@ };
    let kind = if is_bishop { 3int } else { 4int };
    let pieces = (b.piece_bits(kind) & b.side_bits(stm)) | (b.piece_bits(5) & b.side_bits(stm));
    let movable = pieces & !other;
    let pinned = movable & pins;
    lemma_capture_mask_and(b, m1, m2, pins);
    lemma_slider_family(b, is_bishop, movable & !pinned, m1, m2);
    lemma_slider_family(b, is_bishop, pinned, m1 & pins, m2 & pins);
    let a1 = moves_over(bits_of(movable & !pinned), slider_square_moves(b, is_bishop, m1));
    let c1 = moves_over(bits_of(pinned), slider_square_moves(b, is_bishop, m1 & pins));
    Seq::filter_distributes_over_add(a1, c1, is_capture_value());
}

/// Asking the generator for captures gives exactly the captures among all the moves it
/// lists, in the same order, on a board whose checkers and pins are those of its pieces
/// and whose en passant square, if any, has the pawn that just made the double step
/// behind it.
pub proof fn lemma_capture_generation_filters_all_moves(b: Board)
    requires
        b.wf(),
        generation_ready(b),
        b.derived_ok(),
        en_passant_backed(b),
    ensures
        generated_moves(b, false).filter(is_capture_value()) == generated_moves(b, true),
{
    lemma_filter_king_moves(b);
    if !double_check(b) {
        lemma_masks_agree(b);
        let mf = evasion_mask(b, false);
        let mc = evasion_mask(b, true);
        assert(capture_mask_of(b, mf, mc));
        let k = king_moves(b);
        let c: Seq<u16> = if b.checkers@ == 0 { castle_moves(b) } else { Seq::empty() };
        let p = pawn_moves(b, mf);
        let n = knight_moves(b, mf);
        let bi = bishop_moves(b, mf);
        let r = rook_moves(b, mf);
        lemma_filter_castle_moves(b);
        lemma_filter_empty();
        lemma_filter_pawn_moves(b, mf);
        lemma_pawn_captures_masks(b);
        let kn = (b.piece_bits(2) & b.side_bits(b.side_to_move@)) & !(b.ortographic_pins@ | b.diagonal_pins@);
        lemma_knight_family(b, kn, mf, mc);
        lemma_filter_slider_moves(b, true, mf, mc);
        lemma_filter_slider_moves(b, false, mf, mc);
        Seq::filter_distributes_over_add(k, c, is_capture_value());
        Seq::filter_distributes_over_add(k + c, p, is_capture_value());
        Seq::filter_distributes_over_add(k + c + p, n, is_capture_value());
        Seq::filter_distributes_over_add(k + c + p + n, bi, is_capture_value());
        Seq::filter_distributes_over_add(k + c + p + n + bi, r, is_capture_value());
        assert(generated_moves(b, false) == k + c + p + n + bi + r);
        assert(generated_moves(b, true) =~= king_captures(b) + Seq::<u16>::empty() + pawn_capture_moves(b, mc)
            + knight_moves(b, mc) + bishop_moves(b, mc) + rook_moves(b, mc));
        assert(king_captures(b) + Seq::<u16>::empty() =~= king_captures(b));
    }
}

} // verus!
