use vstd::prelude::*;
use vstd::std_specs::bits::u64_trailing_zeros;

use crate::bitboard::{Bitboard, has_bit, lemma_clear_lowest, popcount, single_bit};
use crate::core_structs::Square;
use crate::geometry::slider_attack;

verus! {

/// `mask` without its lowest set bit.
pub open spec fn without_lowest(mask: u64) -> u64 {
    mask & ((mask - 1) as u64)
}

/// The subset of `mask` that `index` selects: bit `c` of `index` decides whether the
/// `c`-th lowest square of `mask` is in it, for the `n` lowest squares of `mask`.
pub open spec fn occupancy_for_index(index: u64, n: nat, mask: u64) -> u64
    decreases n,
{
    if n == 0 {
        0
    } else {
        (if index & 1u64 == 1u64 {
            single_bit(u64_trailing_zeros(mask) as int)
        } else {
            0u64
        }) | occupancy_for_index(index >> 1u64, (n - 1) as nat, without_lowest(mask))
    }
}

/// The index that selects the subset `o` of `mask`: bit `c` says whether the `c`-th
/// lowest square of `mask` is in `o`.
pub open spec fn occupancy_index(o: u64, mask: u64) -> u64
    decreases mask,
{
    if mask == 0 {
        0
    } else {
        proof {
            assert(mask != 0 ==> mask & ((mask - 1) as u64) < mask) by (bit_vector);
        }
        let t = u64_trailing_zeros(mask) as int;
        (if has_bit(o, t) {
            1u64
        } else {
            0u64
        }) | (occupancy_index(o & !single_bit(t), without_lowest(mask)) << 1u64)
    }
}

/// Every subset of a mask is selected by some index below `2^popcount(mask)`: the
/// one `occupancy_index` gives.
pub proof fn lemma_occupancy_index(o: u64, mask: u64)
    requires
        o & !mask == 0,
        popcount(mask) < 64,
    ensures
        occupancy_index(o, mask) < (1u64 << (popcount(mask) as u64)),
        occupancy_for_index(occupancy_index(o, mask), popcount(mask), mask) == o,
    decreases mask,
{
    if mask == 0 {
        assert(o & !0u64 == 0 ==> o == 0) by (bit_vector);
        assert(0u64 < (1u64 << 0u64)) by (bit_vector);
    } else {
        lemma_clear_lowest(mask);
        let t = u64_trailing_zeros(mask) as u64;
        let low = 1u64 << t;
        let rest = without_lowest(mask);
        let o2 = o & !low;
        assert(rest == mask & !low);
        assert(o2 & !rest == 0) by (bit_vector)
            requires
                o & !mask == 0,
                rest == mask & !low,
                o2 == o & !low,
        ;
        assert(mask != 0 ==> mask & ((mask - 1) as u64) < mask) by (bit_vector);
        lemma_occupancy_index(o2, rest);
        let i2 = occupancy_index(o2, rest);
        let n2 = popcount(rest) as u64;
        assert(popcount(mask) == 1 + popcount(rest));
        let b: u64 = if has_bit(o, t as int) {
            1u64
        } else {
            0u64
        };
        let i = b | (i2 << 1u64);
        assert(i == occupancy_index(o, mask));
        assert(i < (1u64 << ((n2 + 1) as u64)) && i & 1u64 == b && i >> 1u64 == i2) by (bit_vector)
            requires
                i2 < (1u64 << n2),
                n2 < 63,
                b <= 1,
                i == b | (i2 << 1u64),
        ;
        assert(occupancy_for_index(i, popcount(mask), mask) == (if i & 1u64 == 1u64 {
            single_bit(t as int)
        } else {
            0u64
        }) | occupancy_for_index(i >> 1u64, popcount(rest), rest));
        assert((if b == 1u64 { low } else { 0u64 }) | o2 == o) by (bit_vector)
            requires
                t < 64,
                low == 1u64 << t,
                o2 == o & !low,
                (b == 1u64) == ((o >> t) & 1u64 == 1u64),
        ;
    }
}


/// The table slot that the magic number `magic` gives the occupancy `o`, for a table
/// of `2^bits` slots: the top `bits` bits of the wrapped product.
pub open spec fn magic_index(o: u64, magic: u64, bits: nat) -> u64 {
    (((o * magic) % 0x1_0000_0000_0000_0000) as u64) >> ((64 - bits) as u64)
}

/// Whether the bits of `b` are exactly the attacks of the slider on `sq`.
pub open spec fn is_attack_set(is_bishop: bool, sq: int, occupied: u64, b: u64) -> bool {
    forall|j: int| 0 <= j < 64 ==> (has_bit(b, j) <==> slider_attack(is_bishop, sq, occupied, j))
}

/// Whether two occupancies give the slider on `sq` the same attacks.
pub open spec fn same_attacks(is_bishop: bool, sq: int, o1: u64, o2: u64) -> bool {
    forall|j: int| 0 <= j < 64 ==> (slider_attack(is_bishop, sq, o1, j) == slider_attack(is_bishop, sq, o2, j))
}

/// Whether `magic` sends any two subsets of the `n` lowest squares of `mask` that give
/// different attacks to different slots of a table of `2^n` slots.
pub open spec fn magic_valid(is_bishop: bool, sq: int, mask: u64, magic: u64, n: nat) -> bool {
    forall|i1: u64, i2: u64|
        i1 < (1u64 << (n as u64)) && i2 < (1u64 << (n as u64)) && #[trigger] magic_index(
            occupancy_for_index(i1, n, mask),
            magic,
            n,
        ) == #[trigger] magic_index(occupancy_for_index(i2, n, mask), magic, n) ==> same_attacks(
            is_bishop,
            sq,
            occupancy_for_index(i1, n, mask),
            occupancy_for_index(i2, n, mask),
        )
}

/// A magic index is below the table size.
pub proof fn lemma_magic_index_bound(o: u64, magic: u64, bits: nat)
    requires
        1 <= bits <= 63,
    ensures
        magic_index(o, magic, bits) < (1u64 << (bits as u64)),
{
    let x = ((o * magic) % 0x1_0000_0000_0000_0000) as u64;
    let b = bits as u64;
    assert(x >> ((64 - b) as u64) < (1u64 << b)) by (bit_vector)
        requires
            1 <= b <= 63,
    ;
}

/// The subset of `attack_mask` that `index` selects: bit `c` of `index` decides whether
/// the `c`-th lowest square of the mask is in it, for the `bit_count` lowest squares.
pub(crate) fn generate_occupancy(index: usize, bit_count: usize, attack_mask: Bitboard) -> (r: Bitboard)
    requires
        bit_count <= popcount(attack_mask@),
        bit_count < 64,
        bit_count < usize::BITS,
    ensures
        r@ == occupancy_for_index(index as u64, bit_count as nat, attack_mask@),
{
    let mut result = Bitboard::empty();
    let mut mut_attack_mask = attack_mask;
    let mut count_index = 0u16;
    let ghost n = bit_count as nat;
    let ghost idx = index as u64;
    proof {
        assert(idx >> 0u64 == idx) by (bit_vector);
        lemma_or_zero(occupancy_for_index(idx, n, attack_mask@));
    }
    while count_index < bit_count as u16
        invariant
            n == bit_count,
            idx == index as u64,
            bit_count < 64,
            bit_count < usize::BITS,
            count_index <= bit_count,
            popcount(mut_attack_mask@) == popcount(attack_mask@) - count_index,
            popcount(attack_mask@) >= bit_count,
            occupancy_for_index(idx, n, attack_mask@) == result@ | occupancy_for_index(
                idx >> (count_index as u64),
                (n - count_index) as nat,
                mut_attack_mask@,
            ),
        decreases bit_count - count_index,
    {
        let ghost m = mut_attack_mask@;
        let ghost c = count_index as u64;
        let ghost old_result = result@;
        let ghost ic = idx >> c;
        proof {
            assert(m != 0);
            lemma_clear_lowest(m);
        }
        let square: Square = mut_attack_mask.pop_ls1b_square();
        let selected = index & (1usize << count_index) > 0;
        proof {
            assert((index & (1usize << c)) > 0 <==> ((index as u64) >> c) & 1u64 == 1u64) by (bit_vector)
                requires c < 64, c < usize::BITS;
            assert(mut_attack_mask@ == without_lowest(m));
        }
        if selected {
            result.set_bit(square);
        }
        count_index += 1;
        proof {
            let rest = occupancy_for_index(ic >> 1u64, (n - c - 1) as nat, without_lowest(m));
            let low: u64 = if ic & 1u64 == 1u64 { single_bit(u64_trailing_zeros(m) as int) } else { 0u64 };
            assert(occupancy_for_index(ic, (n - c) as nat, m) == low | rest);
            assert((idx >> c) >> 1u64 == idx >> ((c + 1) as u64)) by (bit_vector)
                requires c < 63;
            if selected {
                assert(result@ == old_result | low);
                lemma_or_assoc(old_result, low, rest);
            } else {
                assert(low == 0);
                lemma_or_zero(rest);
            }
        }
    }
    proof {
        assert(occupancy_for_index(idx >> (count_index as u64), 0, mut_attack_mask@) == 0);
        lemma_or_zero(result@);
    }
    result
}

/// `|` is associative.
pub proof fn lemma_or_assoc(a: u64, b: u64, c: u64)
    ensures
        a | (b | c) == (a | b) | c,
{
    assert(a | (b | c) == (a | b) | c) by (bit_vector);
}

/// Zero is neutral for `|`.
pub proof fn lemma_or_zero(a: u64)
    ensures
        a | 0u64 == a,
        0u64 | a == a,
{
    assert(a | 0u64 == a && 0u64 | a == a) by (bit_vector);
}

} // verus!
