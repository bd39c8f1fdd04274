use vstd::prelude::*;
use rand::Rng;

use crate::bitboard::{Bitboard, has_bit, lemma_single_bit_update, lemma_zero_bits, lemma_bitwise};
use crate::core_structs::{Side, Square};
use crate::bitboard::{lemma_bits_ext, popcount};
use crate::geometry::{slider_attack, slider_mask};
use crate::magic::{generate_occupancy, is_attack_set, magic_index, magic_valid, occupancy_for_index, same_attacks};
use crate::geometry::{
    beyond, bishop_attack, bishop_mask, coords_on_board, is_diagonal, is_orthogonal,
    rook_attack, rook_mask, file_after, file_of, inner_beyond, is_direction, king_attack,
    knight_attack, lemma_path_blocked, lemma_path_clear_prefix, path_clear, pawn_attack, point,
    rank_after, rank_of, slides_to, steps,
};

verus! {

pub open spec fn absd(a: u64, b: u64) -> u64 {
    if a >= b {
        (a - b) as u64
    } else {
        (b - a) as u64
    }
}

pub const FILE_A: u64 = 0x0101010101010101;
pub const FILE_B: u64 = 0x0202020202020202;
pub const FILE_G: u64 = 0x4040404040404040;
pub const FILE_H: u64 = 0x8080808080808080;

/// The squares a pawn of `side` on `square` attacks, computed by shifting.
pub(crate) fn pawn_attacks_from(square: usize, side: usize) -> (r: Bitboard)
    requires
        square < 64,
        side <= 1,
    ensures
        forall|j: int| 0 <= j < 64 ==> (r.contains(j) <==> pawn_attack(side as int, square as int, j)),
{
    let bb = Bitboard::from_raw(1u64 << (square as u64));
    let not_a = Bitboard::from_raw(!FILE_A);
    let not_h = Bitboard::from_raw(!FILE_H);
    let attack_map: u64 = if side == 0 {
        let t0: u64 = if not_a.and(bb.shift_left(9)).is_not_empty() { bb.shift_left(9).get_value() } else { 0 };
        let t1: u64 = if not_h.and(bb.shift_left(7)).is_not_empty() { bb.shift_left(7).get_value() } else { 0 };
        t0 | t1
    } else {
        let t2: u64 = if not_a.and(bb.shift_right(7)).is_not_empty() { bb.shift_right(7).get_value() } else { 0 };
        let t3: u64 = if not_h.and(bb.shift_right(9)).is_not_empty() { bb.shift_right(9).get_value() } else { 0 };
        t2 | t3
    };
    proof {
        let sq = square as u64;
        let b = 1u64 << sq;
        let na = !FILE_A;
        let nh = !FILE_H;
        assert forall|j: int| 0 <= j < 64 implies (has_bit(attack_map, j) <==> pawn_attack(
            side as int,
            square as int,
            j,
        )) by {
            let jj = j as u64;
            if side == 0 {
                assert((((if na & (b << 9u64) != 0 { b << 9u64 } else { 0 }) | (if nh & (b
                    << 7u64) != 0 { b << 7u64 } else { 0 })) >> jj) & 1u64 == 1u64 <==> (jj / 8
                    == sq / 8 + 1 && absd(jj % 8, sq % 8) == 1)) by (bit_vector)
                    requires
                        sq < 64,
                        jj < 64,
                        b == 1u64 << sq,
                        na == !0x0101010101010101u64,
                        nh == !0x8080808080808080u64,
                ;
            } else {
                assert((((if na & (b >> 7u64) != 0 { b >> 7u64 } else { 0 }) | (if nh & (b
                    >> 9u64) != 0 { b >> 9u64 } else { 0 })) >> jj) & 1u64 == 1u64 <==> (jj / 8
                    + 1 == sq / 8 && absd(jj % 8, sq % 8) == 1)) by (bit_vector)
                    requires
                        sq < 64,
                        jj < 64,
                        b == 1u64 << sq,
                        na == !0x0101010101010101u64,
                        nh == !0x8080808080808080u64,
                ;
            }
        }
    }
    Bitboard::from_raw(attack_map)
}

/// The squares a knight on `square` attacks, computed by shifting.
pub(crate) fn knight_attacks_from(square: usize) -> (r: Bitboard)
    requires
        square < 64,
    ensures
        forall|j: int| 0 <= j < 64 ==> (r.contains(j) <==> knight_attack(square as int, j)),
{
    let bb = Bitboard::from_raw(1u64 << (square as u64));
    let not_a = Bitboard::from_raw(!FILE_A);
    let not_h = Bitboard::from_raw(!FILE_H);
    let not_ab = Bitboard::from_raw(!(FILE_A | FILE_B));
    let not_gh = Bitboard::from_raw(!(FILE_H | FILE_G));
    let t0: u64 = if not_a.and(bb.shift_left(17)).is_not_empty() { bb.shift_left(17).get_value() } else { 0 };
    let t1: u64 = if not_h.and(bb.shift_left(15)).is_not_empty() { bb.shift_left(15).get_value() } else { 0 };
    let t2: u64 = if not_ab.and(bb.shift_left(10)).is_not_empty() { bb.shift_left(10).get_value() } else { 0 };
    let t3: u64 = if not_gh.and(bb.shift_left(6)).is_not_empty() { bb.shift_left(6).get_value() } else { 0 };
    let t4: u64 = if not_h.and(bb.shift_right(17)).is_not_empty() { bb.shift_right(17).get_value() } else { 0 };
    let t5: u64 = if not_a.and(bb.shift_right(15)).is_not_empty() { bb.shift_right(15).get_value() } else { 0 };
    let t6: u64 = if not_gh.and(bb.shift_right(10)).is_not_empty() { bb.shift_right(10).get_value() } else { 0 };
    let t7: u64 = if not_ab.and(bb.shift_right(6)).is_not_empty() { bb.shift_right(6).get_value() } else { 0 };
    let attack_map = t0 | t1 | t2 | t3 | t4 | t5 | t6 | t7;
    proof {
        let sq = square as u64;
        let b = 1u64 << sq;
        let na = !FILE_A;
        let nh = !FILE_H;
        let nab = !(FILE_A | FILE_B);
        let ngh = !(FILE_H | FILE_G);
        assert forall|j: int| 0 <= j < 64 implies (has_bit(attack_map, j) <==> knight_attack(
            square as int,
            j,
        )) by {
            let jj = j as u64;
            assert((((if na & (b << 17u64) != 0 { b << 17u64 } else { 0 }) | (if nh & (b
                << 15u64) != 0 { b << 15u64 } else { 0 }) | (if nab & (b << 10u64) != 0 {
                b << 10u64
            } else { 0 }) | (if ngh & (b << 6u64) != 0 { b << 6u64 } else { 0 }) | (if nh & (b
                >> 17u64) != 0 { b >> 17u64 } else { 0 }) | (if na & (b >> 15u64) != 0 {
                b >> 15u64
            } else { 0 }) | (if ngh & (b >> 10u64) != 0 { b >> 10u64 } else { 0 }) | (if nab & (
            b >> 6u64) != 0 { b >> 6u64 } else { 0 })) >> jj) & 1u64 == 1u64 <==> ((absd(
                sq / 8,
                jj / 8,
            ) == 1 && absd(sq % 8, jj % 8) == 2) || (absd(sq / 8, jj / 8) == 2 && absd(
                sq % 8,
                jj % 8,
            ) == 1))) by (bit_vector)
                requires
                    sq < 64,
                    jj < 64,
                    b == 1u64 << sq,
                    na == !0x0101010101010101u64,
                    nh == !0x8080808080808080u64,
                    nab == !(0x0101010101010101u64 | 0x0202020202020202u64),
                    ngh == !(0x8080808080808080u64 | 0x4040404040404040u64),
            ;
        }
    }
    Bitboard::from_raw(attack_map)
}

/// The squares a king on `square` attacks, computed by shifting.
pub(crate) fn king_attacks_from(square: usize) -> (r: Bitboard)
    requires
        square < 64,
    ensures
        forall|j: int| 0 <= j < 64 ==> (r.contains(j) <==> king_attack(square as int, j)),
{
    let bb = Bitboard::from_raw(1u64 << (square as u64));
    let not_a = Bitboard::from_raw(!FILE_A);
    let not_h = Bitboard::from_raw(!FILE_H);
    let t0: u64 = if not_h.and(bb.shift_left(7)).is_not_empty() { bb.shift_left(7).get_value() } else { 0 };
    let t1: u64 = bb.shift_left(8).get_value();
    let t2: u64 = if not_a.and(bb.shift_left(9)).is_not_empty() { bb.shift_left(9).get_value() } else { 0 };
    let t3: u64 = if not_a.and(bb.shift_right(7)).is_not_empty() { bb.shift_right(7).get_value() } else { 0 };
    let t4: u64 = bb.shift_right(8).get_value();
    let t5: u64 = if not_h.and(bb.shift_right(9)).is_not_empty() { bb.shift_right(9).get_value() } else { 0 };
    let t6: u64 = if not_a.and(bb.shift_left(1)).is_not_empty() { bb.shift_left(1).get_value() } else { 0 };
    let t7: u64 = if not_h.and(bb.shift_right(1)).is_not_empty() { bb.shift_right(1).get_value() } else { 0 };
    let attack_map = t0 | t1 | t2 | t3 | t4 | t5 | t6 | t7;
    proof {
        let sq = square as u64;
        let b = 1u64 << sq;
        let na = !FILE_A;
        let nh = !FILE_H;
        assert forall|j: int| 0 <= j < 64 implies (has_bit(attack_map, j) <==> king_attack(
            square as int,
            j,
        )) by {
            let jj = j as u64;
            assert((((if nh & (b << 7u64) != 0 { b << 7u64 } else { 0 }) | (b << 8u64) | (if na
                & (b << 9u64) != 0 { b << 9u64 } else { 0 }) | (if na & (b >> 7u64) != 0 {
                b >> 7u64
            } else { 0 }) | (b >> 8u64) | (if nh & (b >> 9u64) != 0 { b >> 9u64 } else { 0 })
                | (if na & (b << 1u64) != 0 { b << 1u64 } else { 0 }) | (if nh & (b >> 1u64) != 0 {
                b >> 1u64
            } else { 0 })) >> jj) & 1u64 == 1u64 <==> (absd(sq / 8, jj / 8) <= 1 && absd(
                sq % 8,
                jj % 8,
            ) <= 1 && (sq != jj))) by (bit_vector)
                requires
                    sq < 64,
                    jj < 64,
                    b == 1u64 << sq,
                    na == !0x0101010101010101u64,
                    nh == !0x8080808080808080u64,
            ;
        }
    }
    Bitboard::from_raw(attack_map)
}



/// The squares a slider on `square` reaches in direction `(dr, df)`: every square up to
/// the first occupied one, which is included.
fn slide(square: Square, dr: i32, df: i32, occupancy: Bitboard) -> (r: Bitboard)
    requires
        square.on_board(),
        is_direction(dr as int, df as int),
    ensures
        forall|j: int|
            0 <= j < 64 ==> (r.contains(j) <==> slides_to(square@, dr as int, df as int, occupancy@, j)),
{
    let ghost f = square@;
    let ghost d_r = dr as int;
    let ghost d_f = df as int;
    let ghost occ = occupancy@;
    let mut result = 0u64;
    let mut rank = square.get_rank() as i32 + dr;
    let mut file = square.get_file() as i32 + df;
    let ghost mut k: int = 1;
    proof {
        lemma_zero_bits();
    }
    while rank >= 0 && rank < 8 && file >= 0 && file < 8
        invariant
            f == square@,
            0 <= f < 64,
            d_r == dr,
            d_f == df,
            occ == occupancy@,
            is_direction(d_r, d_f),
            k >= 1,
            rank == rank_after(f, d_r, k),
            file == file_after(f, d_f, k),
            path_clear(f, d_r, d_f, occ, k),
            forall|j: int|
                0 <= j < 64 ==> (has_bit(result, j) <==> (beyond(f, d_r, d_f, j) && steps(
                    f,
                    d_r,
                    d_f,
                    j,
                ) < k)),
        decreases 8 - k,
    {
        let current = Square::from_coords(rank as usize, file as usize);
        let c = current.get_value() as u64;
        let ghost old_result = result;
        result |= 1u64 << c;
        proof {
            assert(rank_of(c as int) == rank && file_of(c as int) == file);
            assert(beyond(f, d_r, d_f, c as int) && steps(f, d_r, d_f, c as int) == k);
            assert forall|j: int| 0 <= j < 64 implies (has_bit(result, j) <==> (beyond(
                f,
                d_r,
                d_f,
                j,
            ) && steps(f, d_r, d_f, j) < k + 1)) by {
                lemma_single_bit_update(old_result, c, j as u64);
                if beyond(f, d_r, d_f, j) && steps(f, d_r, d_f, j) == k {
                    assert(j == rank_of(j) * 8 + file_of(j));
                }
            }
        }
        if occupancy.get_bit(current) {
            proof {
                assert(point(f, d_r, d_f, k) == c);
                assert forall|j: int| 0 <= j < 64 implies (has_bit(result, j) <==> slides_to(
                    f,
                    d_r,
                    d_f,
                    occ,
                    j,
                )) by {
                    if beyond(f, d_r, d_f, j) {
                        let s = steps(f, d_r, d_f, j);
                        if s <= k {
                            lemma_path_clear_prefix(f, d_r, d_f, occ, k, s);
                        } else {
                            lemma_path_blocked(f, d_r, d_f, occ, k, s);
                        }
                    }
                }
            }
            return Bitboard::from_raw(result);
        }
        rank += dr;
        file += df;
        proof {
            assert(point(f, d_r, d_f, k) == c);
            k = k + 1;
        }
    }
    proof {
        assert forall|j: int| 0 <= j < 64 implies (has_bit(result, j) <==> slides_to(
            f,
            d_r,
            d_f,
            occ,
            j,
        )) by {
            if beyond(f, d_r, d_f, j) {
                let s = steps(f, d_r, d_f, j);
                assert(s < k);
                lemma_path_clear_prefix(f, d_r, d_f, occ, k, s);
            }
        }
    }
    Bitboard::from_raw(result)
}

/// The squares in direction `(dr, df)` from `square` that have a further square of the
/// board behind them.
fn slide_mask(square: Square, dr: i32, df: i32) -> (r: Bitboard)
    requires
        square.on_board(),
        is_direction(dr as int, df as int),
    ensures
        forall|j: int| 0 <= j < 64 ==> (r.contains(j) <==> inner_beyond(square@, dr as int, df as int, j)),
{
    let ghost f = square@;
    let ghost d_r = dr as int;
    let ghost d_f = df as int;
    let mut result = 0u64;
    let mut rank = square.get_rank() as i32 + dr;
    let mut file = square.get_file() as i32 + df;
    let ghost mut k: int = 1;
    proof {
        lemma_zero_bits();
    }
    while rank >= 0 && rank < 8 && file >= 0 && file < 8 && rank + dr >= 0 && rank + dr < 8 && file
        + df >= 0 && file + df < 8
        invariant
            f == square@,
            0 <= f < 64,
            d_r == dr,
            d_f == df,
            is_direction(d_r, d_f),
            k >= 1,
            rank == rank_after(f, d_r, k),
            file == file_after(f, d_f, k),
            k == 1 || coords_on_board(rank as int, file as int),
            forall|j: int|
                0 <= j < 64 ==> (has_bit(result, j) <==> (beyond(f, d_r, d_f, j) && steps(
                    f,
                    d_r,
                    d_f,
                    j,
                ) < k)),
        decreases 8 - k,
    {
        let current = Square::from_coords(rank as usize, file as usize);
        let c = current.get_value() as u64;
        let ghost old_result = result;
        result |= 1u64 << c;
        proof {
            assert(rank_of(c as int) == rank && file_of(c as int) == file);
            assert(beyond(f, d_r, d_f, c as int) && steps(f, d_r, d_f, c as int) == k);
            assert forall|j: int| 0 <= j < 64 implies (has_bit(result, j) <==> (beyond(
                f,
                d_r,
                d_f,
                j,
            ) && steps(f, d_r, d_f, j) < k + 1)) by {
                lemma_single_bit_update(old_result, c, j as u64);
                if beyond(f, d_r, d_f, j) && steps(f, d_r, d_f, j) == k {
                    assert(j == rank_of(j) * 8 + file_of(j));
                }
            }
        }
        rank += dr;
        file += df;
        proof {
            k = k + 1;
        }
    }
    proof {
        assert forall|j: int| 0 <= j < 64 implies (has_bit(result, j) <==> inner_beyond(
            f,
            d_r,
            d_f,
            j,
        )) by {
            if beyond(f, d_r, d_f, j) {
                let s = steps(f, d_r, d_f, j);
                if s == k {
                    assert(rank_of(j) == rank && file_of(j) == file);
                }
            }
        }
    }
    Bitboard::from_raw(result)
}



/// The squares a bishop on `square` attacks when `occupancy` holds the blockers.
pub(crate) fn generate_bishop_attacks(square: Square, occupancy: Bitboard) -> (r: Bitboard)
    requires
        square.on_board(),
    ensures
        forall|j: int| 0 <= j < 64 ==> (r.contains(j) <==> bishop_attack(square@, occupancy@, j)),
{
    let r0 = slide(square, 1, 1, occupancy);
    let r1 = slide(square, -1, 1, occupancy);
    let r2 = slide(square, -1, -1, occupancy);
    let r3 = slide(square, 1, -1, occupancy);
    let r = r0.or(r1).or(r2).or(r3);
    proof {
        assert forall|j: int| 0 <= j < 64 implies (r.contains(j) <==> bishop_attack(square@, occupancy@, j)) by {
            lemma_bitwise(r0@, r1@, j as u64);
            lemma_bitwise(r0@ | r1@, r2@, j as u64);
            lemma_bitwise(r0@ | r1@ | r2@, r3@, j as u64);
            assert(r0.contains(j) == slides_to(square@, 1, 1, occupancy@, j));
            assert(r1.contains(j) == slides_to(square@, -1, 1, occupancy@, j));
            assert(r2.contains(j) == slides_to(square@, -1, -1, occupancy@, j));
            assert(r3.contains(j) == slides_to(square@, 1, -1, occupancy@, j));
            if bishop_attack(square@, occupancy@, j) {
                let (dr, df) = choose|dr: int, df: int| is_diagonal(dr, df) && #[trigger] slides_to(square@, dr, df, occupancy@, j);
                assert((dr == 1 && df == 1) || (dr == -1 && df == 1) || (dr == -1 && df == -1) || (dr == 1 && df == -1));
            }
        }
    }
    r
}

/// The squares a rook on `square` attacks when `occupancy` holds the blockers.
pub(crate) fn generate_rook_attacks(square: Square, occupancy: Bitboard) -> (r: Bitboard)
    requires
        square.on_board(),
    ensures
        forall|j: int| 0 <= j < 64 ==> (r.contains(j) <==> rook_attack(square@, occupancy@, j)),
{
    let r0 = slide(square, 1, 0, occupancy);
    let r1 = slide(square, -1, 0, occupancy);
    let r2 = slide(square, 0, 1, occupancy);
    let r3 = slide(square, 0, -1, occupancy);
    let r = r0.or(r1).or(r2).or(r3);
    proof {
        assert forall|j: int| 0 <= j < 64 implies (r.contains(j) <==> rook_attack(square@, occupancy@, j)) by {
            lemma_bitwise(r0@, r1@, j as u64);
            lemma_bitwise(r0@ | r1@, r2@, j as u64);
            lemma_bitwise(r0@ | r1@ | r2@, r3@, j as u64);
            assert(r0.contains(j) == slides_to(square@, 1, 0, occupancy@, j));
            assert(r1.contains(j) == slides_to(square@, -1, 0, occupancy@, j));
            assert(r2.contains(j) == slides_to(square@, 0, 1, occupancy@, j));
            assert(r3.contains(j) == slides_to(square@, 0, -1, occupancy@, j));
            if rook_attack(square@, occupancy@, j) {
                let (dr, df) = choose|dr: int, df: int| is_orthogonal(dr, df) && #[trigger] slides_to(square@, dr, df, occupancy@, j);
                assert((dr == 1 && df == 0) || (dr == -1 && df == 0) || (dr == 0 && df == 1) || (dr == 0 && df == -1));
            }
        }
    }
    r
}

/// The squares whose occupancy matters to a bishop on `square`: its rays without their last square.
pub(crate) fn mask_bishop_attacks(square: Square) -> (r: Bitboard)
    requires
        square.on_board(),
    ensures
        forall|j: int| 0 <= j < 64 ==> (r.contains(j) <==> bishop_mask(square@, j)),
{
    let r0 = slide_mask(square, 1, 1);
    let r1 = slide_mask(square, -1, 1);
    let r2 = slide_mask(square, -1, -1);
    let r3 = slide_mask(square, 1, -1);
    let r = r0.or(r1).or(r2).or(r3);
    proof {
        assert forall|j: int| 0 <= j < 64 implies (r.contains(j) <==> bishop_mask(square@, j)) by {
            lemma_bitwise(r0@, r1@, j as u64);
            lemma_bitwise(r0@ | r1@, r2@, j as u64);
            lemma_bitwise(r0@ | r1@ | r2@, r3@, j as u64);
            assert(r0.contains(j) == inner_beyond(square@, 1, 1, j));
            assert(r1.contains(j) == inner_beyond(square@, -1, 1, j));
            assert(r2.contains(j) == inner_beyond(square@, -1, -1, j));
            assert(r3.contains(j) == inner_beyond(square@, 1, -1, j));
            if bishop_mask(square@, j) {
                let (dr, df) = choose|dr: int, df: int| is_diagonal(dr, df) && #[trigger] inner_beyond(square@, dr, df, j);
                assert((dr == 1 && df == 1) || (dr == -1 && df == 1) || (dr == -1 && df == -1) || (dr == 1 && df == -1));
            }
        }
    }
    r
}

/// The squares whose occupancy matters to a rook on `square`: its rays without their last square.
pub(crate) fn mask_rook_attacks(square: Square) -> (r: Bitboard)
    requires
        square.on_board(),
    ensures
        forall|j: int| 0 <= j < 64 ==> (r.contains(j) <==> rook_mask(square@, j)),
{
    let r0 = slide_mask(square, 1, 0);
    let r1 = slide_mask(square, -1, 0);
    let r2 = slide_mask(square, 0, 1);
    let r3 = slide_mask(square, 0, -1);
    let r = r0.or(r1).or(r2).or(r3);
    proof {
        assert forall|j: int| 0 <= j < 64 implies (r.contains(j) <==> rook_mask(square@, j)) by {
            lemma_bitwise(r0@, r1@, j as u64);
            lemma_bitwise(r0@ | r1@, r2@, j as u64);
            lemma_bitwise(r0@ | r1@ | r2@, r3@, j as u64);
            assert(r0.contains(j) == inner_beyond(square@, 1, 0, j));
            assert(r1.contains(j) == inner_beyond(square@, -1, 0, j));
            assert(r2.contains(j) == inner_beyond(square@, 0, 1, j));
            assert(r3.contains(j) == inner_beyond(square@, 0, -1, j));
            if rook_mask(square@, j) {
                let (dr, df) = choose|dr: int, df: int| is_orthogonal(dr, df) && #[trigger] inner_beyond(square@, dr, df, j);
                assert((dr == 1 && df == 0) || (dr == -1 && df == 0) || (dr == 0 && df == 1) || (dr == 0 && df == -1));
            }
        }
    }
    r
}





/// Whether slot `magic_index` of `table` holds the attacks for the occupancy that index
/// `i` selects.
pub open spec fn entry_ok(
    table: Seq<Bitboard>,
    is_bishop: bool,
    sq: int,
    mask: u64,
    magic: u64,
    n: nat,
    i: u64,
) -> bool {
    let o = occupancy_for_index(i, n, mask);
    let s = magic_index(o, magic, n);
    s < table.len() && is_attack_set(is_bishop, sq, o, table[s as int]@)
}

/// `1 << n` is the same number as a `usize` and as a `u64` for small `n`.
proof fn lemma_small_shift(n: u32)
    requires
        n <= 12,
    ensures
        (1usize << n) as u64 == 1u64 << (n as u64),
        (1usize << n) as int == (1u64 << (n as u64)) as int,
        1 <= (1u64 << (n as u64)) <= 4096,
{
    assert((1usize << n) as u64 == 1u64 << (n as u64) && 1u64 <= (1u64 << (n as u64)) && (1u64 << (
    n as u64)) <= 4096u64) by (bit_vector)
        requires
            n <= 12,
    ;
}

/// Fills the magic table of the slider on `square`: slot `magic_index(o)` receives the
/// attacks for each subset `o` of the `n` lowest squares of `mask`. Fails exactly when
/// two subsets with different attacks meet in one slot.
fn build_table(square: Square, is_bishop: bool, mask: Bitboard, n: u32, magic: u64) -> (r: Option<
    Vec<Bitboard>,
>)
    requires
        square.on_board(),
        1 <= n <= 12,
        n <= popcount(mask@),
    ensures
        r is Some <==> magic_valid(is_bishop, square@, mask@, magic, n as nat),
        r is Some ==> r->0.len() == (1u64 << (n as u64)),
        r is Some ==> forall|i: u64|
            i < (1u64 << (n as u64)) ==> #[trigger] entry_ok(r->0@, is_bishop, square@, mask@, magic, n as nat, i),
{
    let ghost nn = n as nat;
    let ghost sq = square@;
    let ghost m = mask@;
    proof {
        lemma_small_shift(n);
    }
    let size: usize = 1usize << n;
    let mut table: Vec<Bitboard> = Vec::new();
    let mut written: Vec<bool> = Vec::new();
    let mut k: usize = 0;
    while k < size
        invariant
            k <= size,
            table.len() == k,
            written.len() == k,
            forall|s: int| 0 <= s < k ==> !written[s],
        decreases size - k,
    {
        table.push(Bitboard::empty());
        written.push(false);
        k += 1;
    }
    let ghost mut writers: Seq<u64> = Seq::new(size as nat, |x: int| 0u64);
    let mut index: usize = 0;
    while index < size
        invariant
            square.on_board(),
            sq == square@,
            m == mask@,
            nn == n,
            1 <= n <= 12,
            n <= popcount(mask@),
            size as int == (1u64 << (n as u64)) as int,
            1 <= size <= 4096,
            index <= size,
            table.len() == size,
            written.len() == size,
            writers.len() == size,
            forall|s: int|
                0 <= s < size && #[trigger] written[s] ==> writers[s] < index && magic_index(
                    occupancy_for_index(writers[s], nn, m),
                    magic,
                    nn,
                ) == s && is_attack_set(is_bishop, sq, occupancy_for_index(writers[s], nn, m), table[s]@),
            forall|i: u64| i < index ==> #[trigger] entry_ok(table@, is_bishop, sq, m, magic, nn, i),
            forall|i: u64|
                i < index ==> written[#[trigger] magic_index(occupancy_for_index(i, nn, m), magic, nn) as int],
        decreases size - index,
    {
        let ghost table0 = table@;
        let ghost written0 = written@;
        let occupancy = generate_occupancy(index, n as usize, mask);
        let ghost o = occupancy@;
        let product = occupancy.get_value().wrapping_mul(magic);
        let slot_value = product >> ((64 - n) as u64);
        proof {
            assert(slot_value == magic_index(o, magic, nn));
            crate::magic::lemma_magic_index_bound(o, magic, nn);
        }
        let slot = slot_value as usize;
        let attack = if is_bishop {
            generate_bishop_attacks(square, occupancy)
        } else {
            generate_rook_attacks(square, occupancy)
        };
        let ghost i_now = index as u64;
        assert forall|j: int| 0 <= j < 64 implies (has_bit(attack@, j) <==> slider_attack(
            is_bishop,
            sq,
            o,
            j,
        )) by {
            assert(attack.contains(j) == slider_attack(is_bishop, sq, o, j));
        }
        assert(is_attack_set(is_bishop, sq, o, attack@));
        if written[slot] {
            if !table[slot].equals(attack) {
                proof {
                    let w = writers[slot as int];
                    let ow = occupancy_for_index(w, nn, m);
                    assert(magic_index(ow, magic, nn) == magic_index(o, magic, nn));
                    if same_attacks(is_bishop, sq, ow, o) {
                        assert forall|j: int| 0 <= j < 64 implies has_bit(table[slot as int]@, j)
                            == has_bit(attack@, j) by {
                            assert(slider_attack(is_bishop, sq, ow, j) == slider_attack(is_bishop, sq, o, j));
                        }
                        lemma_bits_ext(table[slot as int]@, attack@);
                    }
                    assert(!same_attacks(is_bishop, sq, ow, o));
                    assert(w < (1u64 << (n as u64)) && i_now < (1u64 << (n as u64)));
                }
                return None;
            }
        } else {
            table.set(slot, attack);
            written.set(slot, true);
            proof {
                writers = writers.update(slot as int, i_now);
            }
        }
        index += 1;
        proof {
            assert(entry_ok(table@, is_bishop, sq, m, magic, nn, i_now));
            assert(written[magic_index(o, magic, nn) as int]);
            assert forall|s: int|
                0 <= s < size && #[trigger] written[s] implies writers[s] < index && magic_index(
                    occupancy_for_index(writers[s], nn, m),
                    magic,
                    nn,
                ) == s && is_attack_set(is_bishop, sq, occupancy_for_index(writers[s], nn, m), table[s]@) by {
                if s != slot as int {
                    assert(written0[s]);
                }
            }
            assert forall|i: u64| i < index implies #[trigger] entry_ok(table@, is_bishop, sq, m, magic, nn, i) by {
                if i < i_now {
                    assert(entry_ok(table0, is_bishop, sq, m, magic, nn, i));
                    let si = magic_index(occupancy_for_index(i, nn, m), magic, nn) as int;
                    crate::magic::lemma_magic_index_bound(occupancy_for_index(i, nn, m), magic, nn);
                    assert(written0[si]);
                }
            }
            assert forall|i: u64| i < index implies written[#[trigger] magic_index(occupancy_for_index(i, nn, m), magic, nn) as int] by {
                crate::magic::lemma_magic_index_bound(occupancy_for_index(i, nn, m), magic, nn);
                if i < i_now {
                    let si = magic_index(occupancy_for_index(i, nn, m), magic, nn) as int;
                    assert(written0[si]);
                }
            }
        }
    }
    proof {
        assert forall|i1: u64, i2: u64|
            i1 < (1u64 << (nn as u64)) && i2 < (1u64 << (nn as u64)) && #[trigger] magic_index(
                occupancy_for_index(i1, nn, m),
                magic,
                nn,
            ) == #[trigger] magic_index(occupancy_for_index(i2, nn, m), magic, nn) implies same_attacks(
            is_bishop,
            sq,
            occupancy_for_index(i1, nn, m),
            occupancy_for_index(i2, nn, m),
        ) by {
            assert(entry_ok(table@, is_bishop, sq, m, magic, nn, i1));
            assert(entry_ok(table@, is_bishop, sq, m, magic, nn, i2));
            let s1 = magic_index(occupancy_for_index(i1, nn, m), magic, nn) as int;
            let t = table@[s1]@;
            assert forall|j: int| 0 <= j < 64 implies (slider_attack(
                is_bishop,
                sq,
                occupancy_for_index(i1, nn, m),
                j,
            ) == slider_attack(is_bishop, sq, occupancy_for_index(i2, nn, m), j)) by {
                assert(has_bit(t, j) == slider_attack(is_bishop, sq, occupancy_for_index(i1, nn, m), j));
                assert(has_bit(t, j) == slider_attack(is_bishop, sq, occupancy_for_index(i2, nn, m), j));
            }
        }
    }
    Some(table)
}



/// The magic numbers of the bishop tables, one per square.
pub open spec fn bishop_magic_numbers() -> Seq<u64> {
    seq![
        9300092178686681120u64, 1284830893973760u64, 2322997520105472u64, 16142031364873674789u64,
        10383348832699154706u64, 571763293421568u64, 37726495118197760u64, 1513231473652670722u64,
        40550006146990185u64, 873700543932137730u64, 36037870288505856u64, 431188982368272u64,
        1155210765395821056u64, 11538293718411908608u64, 4611721787053966849u64, 103589390848170272u64,
        1125968899098624u64, 144680358661721088u64, 11259553153024529u64, 10133272101128193u64,
        73751202732572676u64, 144679238632472832u64, 2357915965813425297u64, 401383670122021888u64,
        13528392142225729u64, 4643215615211930112u64, 9226802530447557664u64, 1302666467161997954u64,
        1306326466426847232u64, 2253998841200772u64, 9223935538715955216u64, 4611977389012961280u64,
        1161101459345408u64, 5630633405878272u64, 154573777173479968u64, 5224739618297217088u64,
        184790590020518016u64, 141291540840712u64, 4621296042111943168u64, 9278545841721754664u64,
        13814550243590400u64, 757176487873905668u64, 2598717998437009408u64, 2344123889522575360u64,
        360290349769303040u64, 14053484853547533328u64, 9227878118977438752u64, 5102361295591936u64,
        5233754530306591776u64, 4689658989384957952u64, 1161642645719051u64, 2252351784355840u64,
        2337004390424u64, 1190112502864707589u64, 290499785468691593u64, 2387190454312566784u64,
        1235149585505599557u64, 4683745820179825441u64, 18014407116507136u64, 1741698094928005u64,
        144749056665649409u64, 576461028523640968u64, 74921813755137u64, 18085875364200714u64,
    ]
}

/// The magic numbers of the rook tables, one per square.
pub open spec fn rook_magic_numbers() -> Seq<u64> {
    seq![
        9259400973461241857u64, 234187460333015040u64, 36063981659521032u64, 2377918195574046724u64,
        1080868867234332928u64, 72061992118059016u64, 180144534867411456u64, 72058693558158370u64,
        5260345103070806016u64, 1378171992426954752u64, 13835199342794776576u64, 90353536244130048u64,
        1155314059089281152u64, 583356906421125632u64, 562984346714500u64, 585608691194020096u64,
        1188951126274211904u64, 40550263712383040u64, 144749606589170949u64, 576762018642657345u64,
        4613938094192984576u64, 1126449729896576u64, 144116291882713600u64, 1128099206989892u64,
        4908959330109243397u64, 5764677945467601024u64, 35186520621184u64, 166650782695882760u64,
        4408784453760u64, 9549885211018265600u64, 18028709342085744u64, 4423816397473u64,
        15024008631798472704u64, 144185694263185412u64, 9799938353053839360u64, 4614078624457295873u64,
        578721350366004224u64, 704795551728640u64, 1729663887059452416u64, 576461303166534673u64,
        9511672783898181668u64, 9259488795341373440u64, 153123487114919972u64, 4503634054234176u64,
        144396697438584836u64, 2199090397312u64, 2395916444903931912u64, 281476058906626u64,
        288275458347631104u64, 14001693577961277760u64, 1585284936444020224u64, 5764748329242591872u64,
        22799490427785472u64, 140746078552192u64, 81346276859576576u64, 325398273679442432u64,
        35257390760450u64, 15908851192709121u64, 8076117492512065602u64, 148746468910469121u64,
        4653907677319540842u64, 281509370265601u64, 162130969700081796u64, 1445673626624869378u64,
    ]
}

pub open spec fn magic_number(is_bishop: bool, sq: int) -> u64 {
    if is_bishop {
        bishop_magic_numbers()[sq]
    } else {
        rook_magic_numbers()[sq]
    }
}

fn magic_numbers(is_bishop: bool) -> (r: Vec<u64>)
    ensures
        r.len() == 64,
        forall|sq: int| 0 <= sq < 64 ==> r[sq] == magic_number(is_bishop, sq),
{
    let r: Vec<u64> = if is_bishop {
        vec![
        9300092178686681120u64, 1284830893973760u64, 2322997520105472u64, 16142031364873674789u64,
        10383348832699154706u64, 571763293421568u64, 37726495118197760u64, 1513231473652670722u64,
        40550006146990185u64, 873700543932137730u64, 36037870288505856u64, 431188982368272u64,
        1155210765395821056u64, 11538293718411908608u64, 4611721787053966849u64, 103589390848170272u64,
        1125968899098624u64, 144680358661721088u64, 11259553153024529u64, 10133272101128193u64,
        73751202732572676u64, 144679238632472832u64, 2357915965813425297u64, 401383670122021888u64,
        13528392142225729u64, 4643215615211930112u64, 9226802530447557664u64, 1302666467161997954u64,
        1306326466426847232u64, 2253998841200772u64, 9223935538715955216u64, 4611977389012961280u64,
        1161101459345408u64, 5630633405878272u64, 154573777173479968u64, 5224739618297217088u64,
        184790590020518016u64, 141291540840712u64, 4621296042111943168u64, 9278545841721754664u64,
        13814550243590400u64, 757176487873905668u64, 2598717998437009408u64, 2344123889522575360u64,
        360290349769303040u64, 14053484853547533328u64, 9227878118977438752u64, 5102361295591936u64,
        5233754530306591776u64, 4689658989384957952u64, 1161642645719051u64, 2252351784355840u64,
        2337004390424u64, 1190112502864707589u64, 290499785468691593u64, 2387190454312566784u64,
        1235149585505599557u64, 4683745820179825441u64, 18014407116507136u64, 1741698094928005u64,
        144749056665649409u64, 576461028523640968u64, 74921813755137u64, 18085875364200714u64,
        ]
    } else {
        vec![
        9259400973461241857u64, 234187460333015040u64, 36063981659521032u64, 2377918195574046724u64,
        1080868867234332928u64, 72061992118059016u64, 180144534867411456u64, 72058693558158370u64,
        5260345103070806016u64, 1378171992426954752u64, 13835199342794776576u64, 90353536244130048u64,
        1155314059089281152u64, 583356906421125632u64, 562984346714500u64, 585608691194020096u64,
        1188951126274211904u64, 40550263712383040u64, 144749606589170949u64, 576762018642657345u64,
        4613938094192984576u64, 1126449729896576u64, 144116291882713600u64, 1128099206989892u64,
        4908959330109243397u64, 5764677945467601024u64, 35186520621184u64, 166650782695882760u64,
        4408784453760u64, 9549885211018265600u64, 18028709342085744u64, 4423816397473u64,
        15024008631798472704u64, 144185694263185412u64, 9799938353053839360u64, 4614078624457295873u64,
        578721350366004224u64, 704795551728640u64, 1729663887059452416u64, 576461303166534673u64,
        9511672783898181668u64, 9259488795341373440u64, 153123487114919972u64, 4503634054234176u64,
        144396697438584836u64, 2199090397312u64, 2395916444903931912u64, 281476058906626u64,
        288275458347631104u64, 14001693577961277760u64, 1585284936444020224u64, 5764748329242591872u64,
        22799490427785472u64, 140746078552192u64, 81346276859576576u64, 325398273679442432u64,
        35257390760450u64, 15908851192709121u64, 8076117492512065602u64, 148746468910469121u64,
        4653907677319540842u64, 281509370265601u64, 162130969700081796u64, 1445673626624869378u64,
        ]
    };
    proof {
        if is_bishop {
            assert(r@ =~= bishop_magic_numbers());
        } else {
            assert(r@ =~= rook_magic_numbers());
        }
    }
    r
}



/// Whether the bits of `m` are the relevant-occupancy squares of the slider on `sq`.
pub open spec fn is_mask_value(is_bishop: bool, sq: int, m: u64) -> bool {
    forall|j: int| 0 <= j < 64 ==> (has_bit(m, j) <==> slider_mask(is_bishop, sq, j))
}

/// Whether the magic number of square `sq` can index a table of the slider's attacks:
/// the mask has between 1 and 12 squares and the magic number is collision-free on it.
pub open spec fn square_magic_ok(is_bishop: bool, sq: int) -> bool {
    forall|m: u64|
        #[trigger] is_mask_value(is_bishop, sq, m) ==> 1 <= popcount(m) <= 12 && magic_valid(
            is_bishop,
            sq,
            m,
            magic_number(is_bishop, sq),
            popcount(m),
        )
}

/// Whether the magic numbers of every square of the slider are usable.
pub open spec fn sliders_ok(is_bishop: bool) -> bool {
    forall|sq: int| 0 <= sq < 64 ==> #[trigger] square_magic_ok(is_bishop, sq)
}

/// Whether the magic numbers of both sliders are usable.
pub open spec fn magics_ok() -> bool {
    sliders_ok(true) && sliders_ok(false)
}

/// The magic-indexed attack tables of one kind of slider, per square.
pub struct SliderTable {
    masks: Vec<Bitboard>,
    magics: Vec<u64>,
    bits: Vec<u32>,
    attacks: Vec<Vec<Bitboard>>,
}

impl SliderTable {
    pub closed spec fn square_wf(&self, is_bishop: bool, sq: int) -> bool {
        &&& is_mask_value(is_bishop, sq, self.masks[sq]@)
        &&& self.bits[sq] == popcount(self.masks[sq]@)
        &&& 1 <= self.bits[sq] <= 12
        &&& self.attacks[sq].len() == (1u64 << (self.bits[sq] as u64))
        &&& forall|i: u64|
            i < (1u64 << (self.bits[sq] as u64)) ==> #[trigger] entry_ok(
                self.attacks[sq]@,
                is_bishop,
                sq,
                self.masks[sq]@,
                self.magics[sq],
                self.bits[sq] as nat,
                i,
            )
    }

    pub closed spec fn prefix_wf(&self, is_bishop: bool, n: int) -> bool {
        &&& self.masks.len() == n
        &&& self.magics.len() == n
        &&& self.bits.len() == n
        &&& self.attacks.len() == n
        &&& forall|sq: int| 0 <= sq < n ==> #[trigger] self.square_wf(is_bishop, sq)
    }

    pub closed spec fn wf(&self, is_bishop: bool) -> bool {
        self.prefix_wf(is_bishop, 64)
    }

    fn empty() -> (r: Self)
        ensures
            forall|b: bool| r.prefix_wf(b, 0),
    {
        SliderTable { masks: Vec::new(), magics: Vec::new(), bits: Vec::new(), attacks: Vec::new() }
    }

    /// Builds the tables of every square; fails exactly when a magic number does not fit.
    fn build(is_bishop: bool) -> (r: Option<SliderTable>)
        ensures
            r is Some <==> sliders_ok(is_bishop),
            r is Some ==> r->0.wf(is_bishop),
    {
        let magics = magic_numbers(is_bishop);
        let mut table = SliderTable::empty();
        let mut square_index: usize = 0;
        while square_index < 64
            invariant
                square_index <= 64,
                magics.len() == 64,
                forall|sq: int| 0 <= sq < 64 ==> magics[sq] == magic_number(is_bishop, sq),
                table.prefix_wf(is_bishop, square_index as int),
                forall|sq: int| 0 <= sq < square_index ==> #[trigger] square_magic_ok(is_bishop, sq),
            decreases 64 - square_index,
        {
            let square = Square::from_raw(square_index);
            let mask = if is_bishop {
                mask_bishop_attacks(square)
            } else {
                mask_rook_attacks(square)
            };
            let ghost sq = square_index as int;
            proof {
                assert forall|j: int| 0 <= j < 64 implies (has_bit(mask@, j) <==> slider_mask(
                    is_bishop,
                    sq,
                    j,
                )) by {
                    assert(mask.contains(j) == slider_mask(is_bishop, sq, j));
                }
                assert(is_mask_value(is_bishop, sq, mask@));
            }
            let bits = mask.pop_count();
            if bits < 1 || bits > 12 {
                proof {
                    assert(!square_magic_ok(is_bishop, sq));
                    assert(!sliders_ok(is_bishop));
                }
                return None;
            }
            let magic = magics[square_index];
            let built = build_table(square, is_bishop, mask, bits, magic);
            match built {
                None => {
                    proof {
                        assert(!square_magic_ok(is_bishop, sq));
                        assert(!sliders_ok(is_bishop));
                    }
                    return None;
                },
                Some(attacks) => {
                    proof {
                        assert forall|m: u64| #[trigger] is_mask_value(is_bishop, sq, m) implies 1
                            <= popcount(m) <= 12 && magic_valid(
                            is_bishop,
                            sq,
                            m,
                            magic_number(is_bishop, sq),
                            popcount(m),
                        ) by {
                            assert forall|j: int| 0 <= j < 64 implies has_bit(m, j) == has_bit(
                                mask@,
                                j,
                            ) by {
                                assert(has_bit(m, j) == slider_mask(is_bishop, sq, j));
                            }
                            lemma_bits_ext(m, mask@);
                        }
                    }
                    let ghost old_table = table;
                    table.masks.push(mask);
                    table.magics.push(magic);
                    table.bits.push(bits);
                    table.attacks.push(attacks);
                    proof {
                        assert forall|s: int| 0 <= s < square_index + 1 implies #[trigger] table.square_wf(
                            is_bishop,
                            s,
                        ) by {
                            if s < sq {
                                assert(old_table.square_wf(is_bishop, s));
                                assert(table.masks[s] == old_table.masks[s]);
                                assert(table.attacks[s] == old_table.attacks[s]);
                                assert(table.bits[s] == old_table.bits[s]);
                                assert(table.magics[s] == old_table.magics[s]);
                            }
                        }
                    }
                },
            }
            square_index += 1;
        }
        Some(table)
    }

    /// The attacks of the slider on `square` for the blockers in `occupancy`, read from
    /// the table slot that the magic number gives the relevant blockers.
    fn lookup(&self, is_bishop: bool, square: Square, occupancy: Bitboard) -> (r: Bitboard)
        requires
            self.wf(is_bishop),
            square.on_board(),
        ensures
            forall|j: int|
                0 <= j < 64 ==> (r.contains(j) <==> slider_attack(is_bishop, square@, occupancy@, j)),
    {
        let sq = square.get_value();
        proof {
            assert(self.square_wf(is_bishop, sq as int));
        }
        let mask = self.masks[sq];
        let bits = self.bits[sq];
        let magic = self.magics[sq];
        let mut occ = occupancy;
        occ = occ.and(mask);
        let ghost o = occ@;
        let product = occ.get_value().wrapping_mul(magic);
        let slot_value = product >> ((64 - bits) as u64);
        proof {
            let nn = bits as nat;
            let ov = occupancy@;
            let mv = mask@;
            assert(o & !mv == 0) by (bit_vector)
                requires
                    o == ov & mv,
            ;
            crate::magic::lemma_occupancy_index(o, mask@);
            let i = crate::magic::occupancy_index(o, mask@);
            assert(entry_ok(self.attacks[sq as int]@, is_bishop, sq as int, mask@, magic, nn, i));
            assert(slot_value == magic_index(o, magic, nn));
            assert forall|j: int| 0 <= j < 64 implies (has_bit(
                self.attacks[sq as int][slot_value as int]@,
                j,
            ) <==> slider_attack(is_bishop, sq as int, occupancy@, j)) by {
                crate::geometry::lemma_slider_attack_masked(is_bishop, sq as int, occupancy@, mask@, j);
            }
        }
        self.attacks[sq][slot_value as usize]
    }
}



/// Whether the 64 entries of `table` are the squares a leaper attacks from each square.
pub open spec fn leaper_table_ok(table: Seq<Bitboard>, kind: int) -> bool {
    table.len() == 64 && forall|sq: int, j: int|
        0 <= sq < 64 && 0 <= j < 64 ==> (#[trigger] table[sq].contains(j) <==> if kind == 0 {
            pawn_attack(0, sq, j)
        } else if kind == 1 {
            pawn_attack(1, sq, j)
        } else if kind == 2 {
            knight_attack(sq, j)
        } else {
            king_attack(sq, j)
        })
}

/// Fills the table of a leaper: white pawn (0), black pawn (1), knight (2) or king (3).
fn build_leaper_table(kind: usize) -> (r: Vec<Bitboard>)
    requires
        kind <= 3,
    ensures
        leaper_table_ok(r@, kind as int),
{
    let mut table: Vec<Bitboard> = Vec::new();
    let mut square_index: usize = 0;
    while square_index < 64
        invariant
            kind <= 3,
            square_index <= 64,
            table.len() == square_index,
            forall|sq: int, j: int|
                0 <= sq < square_index && 0 <= j < 64 ==> (#[trigger] table[sq].contains(j) <==> if kind
                    == 0 {
                    pawn_attack(0, sq, j)
                } else if kind == 1 {
                    pawn_attack(1, sq, j)
                } else if kind == 2 {
                    knight_attack(sq, j)
                } else {
                    king_attack(sq, j)
                }),
        decreases 64 - square_index,
    {
        let entry = if kind == 0 {
            pawn_attacks_from(square_index, 0)
        } else if kind == 1 {
            pawn_attacks_from(square_index, 1)
        } else if kind == 2 {
            knight_attacks_from(square_index)
        } else {
            king_attacks_from(square_index)
        };
        table.push(entry);
        square_index += 1;
    }
    table
}

/// The attack tables of every kind of piece.
pub struct Attacks {
    white_pawn_attacks: Vec<Bitboard>,
    black_pawn_attacks: Vec<Bitboard>,
    knight_attacks: Vec<Bitboard>,
    king_attacks: Vec<Bitboard>,
    bishop: SliderTable,
    rook: SliderTable,
}

impl Attacks {
    pub closed spec fn leapers_wf(&self) -> bool {
        &&& leaper_table_ok(self.white_pawn_attacks@, 0)
        &&& leaper_table_ok(self.black_pawn_attacks@, 1)
        &&& leaper_table_ok(self.knight_attacks@, 2)
        &&& leaper_table_ok(self.king_attacks@, 3)
    }

    pub closed spec fn wf(&self) -> bool {
        &&& self.leapers_wf()
        &&& self.bishop.wf(true)
        &&& self.rook.wf(false)
    }

    /// Builds every table; `None` exactly when a magic number does not fit its square.
    pub fn new() -> (r: Option<Attacks>)
        ensures
            r is Some <==> magics_ok(),
            r is Some ==> r->0.wf(),
    {
        let mut attacks = Attacks {
            white_pawn_attacks: build_leaper_table(0),
            black_pawn_attacks: build_leaper_table(1),
            knight_attacks: build_leaper_table(2),
            king_attacks: build_leaper_table(3),
            bishop: SliderTable::empty(),
            rook: SliderTable::empty(),
        };
        if attacks.initialize_slider_pieces() {
            Some(attacks)
        } else {
            None
        }
    }

    /// Fills the bishop and rook tables; false, with the tables left as they were,
    /// exactly when a magic number does not fit its square.
    pub fn initialize_slider_pieces(&mut self) -> (r: bool)
        ensures
            r == magics_ok(),
            final(self).leapers_wf() == old(self).leapers_wf(),
            r && old(self).leapers_wf() ==> final(self).wf(),
    {
        let bishop = SliderTable::build(true);
        let rook = SliderTable::build(false);
        match (bishop, rook) {
            (Some(b), Some(r)) => {
                self.bishop = b;
                self.rook = r;
                true
            },
            _ => false,
        }
    }

    /// The squares a pawn of `color` on `square` attacks.
    pub fn get_pawn_attacks_for_square(&self, square: Square, color: Side) -> (r: Bitboard)
        requires
            self.wf(),
            square.on_board(),
            color.valid(),
        ensures
            forall|j: int| 0 <= j < 64 ==> (r.contains(j) <==> pawn_attack(color@, square@, j)),
    {
        if color.current() == 0 {
            self.white_pawn_attacks[square.get_value()]
        } else {
            self.black_pawn_attacks[square.get_value()]
        }
    }

    /// The squares a knight on `square` attacks.
    pub fn get_knight_attacks_for_square(&self, square: Square) -> (r: Bitboard)
        requires
            self.wf(),
            square.on_board(),
        ensures
            forall|j: int| 0 <= j < 64 ==> (r.contains(j) <==> knight_attack(square@, j)),
    {
        self.knight_attacks[square.get_value()]
    }

    /// The squares a king on `square` attacks.
    pub fn get_king_attacks_for_square(&self, square: Square) -> (r: Bitboard)
        requires
            self.wf(),
            square.on_board(),
        ensures
            forall|j: int| 0 <= j < 64 ==> (r.contains(j) <==> king_attack(square@, j)),
    {
        self.king_attacks[square.get_value()]
    }

    /// The squares a bishop on `square` attacks when `occupancy` holds the blockers.
    pub fn get_bishop_attacks_for_square(&self, square: Square, occupancy: Bitboard) -> (r: Bitboard)
        requires
            self.wf(),
            square.on_board(),
        ensures
            forall|j: int| 0 <= j < 64 ==> (r.contains(j) <==> bishop_attack(square@, occupancy@, j)),
    {
        self.bishop.lookup(true, square, occupancy)
    }

    /// The squares a rook on `square` attacks when `occupancy` holds the blockers.
    pub fn get_rook_attacks_for_square(&self, square: Square, occupancy: Bitboard) -> (r: Bitboard)
        requires
            self.wf(),
            square.on_board(),
        ensures
            forall|j: int| 0 <= j < 64 ==> (r.contains(j) <==> rook_attack(square@, occupancy@, j)),
    {
        self.rook.lookup(false, square, occupancy)
    }
}

/// Whether the magic number of `square` fits its table: the slider's mask has between
/// 1 and 12 squares and no two subsets of it with different attacks share a slot.
pub fn test_magic_number(square: Square, is_bishop: bool) -> (r: bool)
    requires
        square.on_board(),
    ensures
        r == square_magic_ok(is_bishop, square@),
{
    let ghost sq = square@;
    let attack_mask = if is_bishop {
        mask_bishop_attacks(square)
    } else {
        mask_rook_attacks(square)
    };
    proof {
        assert forall|j: int| 0 <= j < 64 implies (has_bit(attack_mask@, j) <==> slider_mask(
            is_bishop,
            sq,
            j,
        )) by {
            assert(attack_mask.contains(j) == slider_mask(is_bishop, sq, j));
        }
        assert(is_mask_value(is_bishop, sq, attack_mask@));
    }
    let relevent_bit_count = attack_mask.pop_count();
    if relevent_bit_count < 1 || relevent_bit_count > 12 {
        return false;
    }
    let magics = magic_numbers(is_bishop);
    let magic = magics[square.get_value()];
    let fits = build_table(square, is_bishop, attack_mask, relevent_bit_count, magic).is_some();
    proof {
        if fits {
            assert forall|m: u64| #[trigger] is_mask_value(is_bishop, sq, m) implies 1 <= popcount(m)
                <= 12 && magic_valid(is_bishop, sq, m, magic_number(is_bishop, sq), popcount(m)) by {
                assert forall|j: int| 0 <= j < 64 implies has_bit(m, j) == has_bit(attack_mask@, j) by {
                    assert(has_bit(m, j) == slider_mask(is_bishop, sq, j));
                }
                lemma_bits_ext(m, attack_mask@);
            }
        }
    }
    fits
}



/// `rand::Rng::gen_range(0..=u32::MAX)` on the thread's generator: a `u32` drawn at
/// random; nothing is stated of which.
#[verifier::external_body]
fn random_u32() -> u32 {
    rand::thread_rng().gen_range(0..=u32::MAX)
}

/// Sixteen random low bits in each of the four 16-bit quarters.
fn random_quarters() -> u64 {
    (random_u32() as u64 & 0xFFFF) | (random_u32() as u64 & 0xFFFF) << 16u64 | (random_u32() as u64
        & 0xFFFF) << 32u64 | (random_u32() as u64 & 0xFFFF) << 48u64
}

/// A random word with few set bits: the `&` of three random words.
fn get_low_ones_random_u64() -> u64 {
    random_quarters() & random_quarters() & random_quarters()
}

/// Whether the search accepts `magic` for the slider on `sq` whose mask is `mask`, with
/// the `n` lowest squares of the mask: the top byte of `mask * magic` (wrapping) has at
/// least six set bits, and the magic number sends no two subsets with different attacks
/// to one slot.
pub open spec fn magic_accepted(is_bishop: bool, sq: int, mask: u64, magic: u64, n: nat) -> bool {
    &&& popcount((((mask * magic) % 0x1_0000_0000_0000_0000) as u64) & 0xFF00000000000000u64) >= 6
    &&& magic_valid(is_bishop, sq, mask, magic, n)
}

/// Whether the search accepts the candidate `magic` for the slider on `square` with the
/// mask `attack_mask` and its `relevent_bit_count` lowest squares.
pub fn magic_candidate_fits(
    square: Square,
    is_bishop: bool,
    attack_mask: Bitboard,
    relevent_bit_count: usize,
    magic: u64,
) -> (r: bool)
    requires
        square.on_board(),
        1 <= relevent_bit_count <= 12,
        relevent_bit_count <= popcount(attack_mask@),
    ensures
        r == magic_accepted(is_bishop, square@, attack_mask@, magic, relevent_bit_count as nat),
{
    if attack_mask.wrapping_mul(Bitboard::from_raw(magic)).and(Bitboard::from_raw(0xFF00000000000000)).pop_count() < 6 {
        return false;
    }
    build_table(square, is_bishop, attack_mask, relevent_bit_count as u32, magic).is_some()
}

/// Searches at random for a magic number for the slider on `square` and the
/// `relevent_bit_count` lowest squares of its mask, for at most `max_attempts` draws.
/// A number it returns is one the search accepts, so collision-free; `None` when the
/// attempts ran out, and always when there are no attempts or the mask has fewer squares
/// than asked.
pub fn find_magic_number(square: Square, relevent_bit_count: usize, is_bishop: bool, max_attempts: u64) -> (r: Option<u64>)
    requires
        square.on_board(),
        1 <= relevent_bit_count <= 12,
    ensures
        r matches Some(magic) ==> forall|m: u64|
            #[trigger] is_mask_value(is_bishop, square@, m) ==> magic_valid(
                is_bishop,
                square@,
                m,
                magic,
                relevent_bit_count as nat,
            ) && magic_accepted(is_bishop, square@, m, magic, relevent_bit_count as nat),
        max_attempts == 0 ==> r is None,
        forall|m: u64|
            #[trigger] is_mask_value(is_bishop, square@, m) && popcount(m) < relevent_bit_count ==> r is None,
{
    let ghost sq = square@;
    let attack_mask = if is_bishop {
        mask_bishop_attacks(square)
    } else {
        mask_rook_attacks(square)
    };
    proof {
        assert forall|j: int| 0 <= j < 64 implies (has_bit(attack_mask@, j) <==> slider_mask(
            is_bishop,
            sq,
            j,
        )) by {
            assert(attack_mask.contains(j) == slider_mask(is_bishop, sq, j));
        }
        assert forall|m: u64| #[trigger] is_mask_value(is_bishop, sq, m) implies m == attack_mask@ by {
            assert forall|j: int| 0 <= j < 64 implies has_bit(m, j) == has_bit(attack_mask@, j) by {
                assert(has_bit(m, j) == slider_mask(is_bishop, sq, j));
            }
            lemma_bits_ext(m, attack_mask@);
        }
    }
    if (attack_mask.pop_count() as usize) < relevent_bit_count {
        return None;
    }
    let mut attempt: u64 = 0;
    while attempt < max_attempts
        invariant
            sq == square@,
            square.on_board(),
            1 <= relevent_bit_count <= 12,
            relevent_bit_count <= popcount(attack_mask@),
            is_mask_value(is_bishop, sq, attack_mask@),
            forall|m: u64| #[trigger] is_mask_value(is_bishop, sq, m) ==> m == attack_mask@,
        decreases max_attempts - attempt,
    {
        attempt += 1;
        let magic_number = get_low_ones_random_u64();
        if magic_candidate_fits(square, is_bishop, attack_mask, relevent_bit_count, magic_number) {
            proof {
                assert forall|m: u64| #[trigger] is_mask_value(is_bishop, sq, m) implies magic_valid(
                    is_bishop,
                    sq,
                    m,
                    magic_number,
                    relevent_bit_count as nat,
                ) && magic_accepted(is_bishop, sq, m, magic_number, relevent_bit_count as nat) by {
                    assert forall|j: int| 0 <= j < 64 implies has_bit(m, j) == has_bit(attack_mask@, j) by {
                        assert(has_bit(m, j) == slider_mask(is_bishop, sq, j));
                    }
                    lemma_bits_ext(m, attack_mask@);
                }
            }
            return Some(magic_number);
        }
    }
    None
}

} // verus!
