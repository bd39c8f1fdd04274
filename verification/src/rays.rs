use vstd::prelude::*;

use crate::bitboard::{Bitboard, has_bit, lemma_single_bit_update, lemma_zero_bits};
use crate::core_structs::Square;
use crate::geometry::{beyond, file_after, file_of, is_direction, rank_after, rank_of, ray, sign, steps};

verus! {

/// `-1`, `0` or `1` after the sign of `to - from`.
pub(crate) fn direction_between(from: usize, to: usize) -> (r: i32)
    requires
        from < 8,
        to < 8,
    ensures
        r == sign(to - from),
{
    if to > from {
        1
    } else if to < from {
        -1
    } else {
        0
    }
}

pub struct Ray;

impl Ray {
    /// The squares from `from` (excluded) to `to` (included) along their shared rank,
    /// file or diagonal; empty when they share none.
    pub fn get_ray(from: Square, to: Square) -> (r: Bitboard)
        requires
            from.on_board(),
            to.on_board(),
        ensures
            forall|j: int| 0 <= j < 64 ==> (r.contains(j) <==> ray(from@, to@, j)),
    {
        generate_ray(from, to)
    }
}

fn generate_ray(from: Square, to: Square) -> (r: Bitboard)
    requires
        from.on_board(),
        to.on_board(),
    ensures
        forall|j: int| 0 <= j < 64 ==> (r.contains(j) <==> ray(from@, to@, j)),
{
    let rank_increment = direction_between(from.get_rank(), to.get_rank());
    let file_increment = direction_between(from.get_file(), to.get_file());
    let ghost dr = rank_increment as int;
    let ghost df = file_increment as int;
    let ghost f = from@;
    let ghost t = to@;

    if rank_increment == 0 && file_increment == 0 {
        proof {
            assert(f == t);
            lemma_zero_bits();
        }
        return Bitboard::empty();
    }
    let mut result = 0u64;
    let mut rank = from.get_rank() as i32 + rank_increment;
    let mut file = from.get_file() as i32 + file_increment;
    let ghost mut k: int = 1;
    proof {
        lemma_zero_bits();
    }

    while rank >= 0 && rank <= 7 && file >= 0 && file <= 7
        invariant
            f == from@,
            t == to@,
            0 <= f < 64,
            0 <= t < 64,
            dr == sign(rank_of(t) - rank_of(f)),
            df == sign(file_of(t) - file_of(f)),
            is_direction(dr, df),
            rank_increment == dr,
            file_increment == df,
            k >= 1,
            rank == rank_after(f, dr, k),
            file == file_after(f, df, k),
            !(beyond(f, dr, df, t) && steps(f, dr, df, t) < k),
            forall|j: int|
                0 <= j < 64 ==> (has_bit(result, j) <==> (beyond(f, dr, df, j) && steps(
                    f,
                    dr,
                    df,
                    j,
                ) < k)),
        decreases 8 - k,
    {
        let current = Square::from_coords(rank as usize, file as usize);
        let c = current.get_value() as u64;
        let ghost old_result = result;
        result |= 1u64 << c;
        proof {
            assert(rank_of(c as int) == rank && file_of(c as int) == file);
            assert(beyond(f, dr, df, c as int) && steps(f, dr, df, c as int) == k);
            assert forall|j: int| 0 <= j < 64 implies (has_bit(result, j) <==> (beyond(
                f,
                dr,
                df,
                j,
            ) && steps(f, dr, df, j) < k + 1)) by {
                lemma_single_bit_update(old_result, c, j as u64);
                if beyond(f, dr, df, j) && steps(f, dr, df, j) == k {
                    assert(j == rank_of(j) * 8 + file_of(j));
                }
            }
        }
        if to.equals(current) {
            proof {
                assert(t == c as int);
                assert(beyond(f, dr, df, t) && steps(f, dr, df, t) == k);
            }
            return Bitboard::from_raw(result);
        }
        rank += rank_increment;
        file += file_increment;
        proof {
            if beyond(f, dr, df, t) && steps(f, dr, df, t) == k {
                assert(t == rank_of(t) * 8 + file_of(t));
            }
            k = k + 1;
        }
    }
    proof {
        lemma_zero_bits();
        assert forall|j: int| 0 <= j < 64 implies !ray(f, t, j) by {
            if beyond(f, dr, df, t) {
                assert(steps(f, dr, df, t) >= k);
            }
        }
    }
    Bitboard::empty()
}

} // verus!
