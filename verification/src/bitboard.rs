use vstd::prelude::*;
use vstd::std_specs::bits::{u64_trailing_zeros, axiom_u64_trailing_zeros};

use crate::core_structs::Square;

verus! {

/// Whether bit `i` of `b` is set; false for `i` outside `0..64`.
pub open spec fn has_bit(b: u64, i: int) -> bool {
    0 <= i < 64 && (b >> (i as u64)) & 1u64 == 1u64
}

/// The word that holds only bit `i`.
pub open spec fn single_bit(i: int) -> u64 {
    1u64 << (i as u64)
}

/// The number of set bits of `x`: how many times the lowest one can be cleared.
pub open spec fn popcount(x: u64) -> nat
    decreases x,
{
    if x == 0 {
        0
    } else {
        proof {
            lemma_clear_lowest(x);
        }
        1 + popcount(x & ((x - 1) as u64))
    }
}

/// `x` with its eight bytes in reverse order.
pub open spec fn byte_swap(x: u64) -> u64 {
    ((x & 0xff) << 56u64) | (((x >> 8u64) & 0xff) << 48u64) | (((x >> 16u64) & 0xff) << 40u64) | ((
    (x >> 24u64) & 0xff) << 32u64) | (((x >> 32u64) & 0xff) << 24u64) | (((x >> 40u64) & 0xff)
        << 16u64) | (((x >> 48u64) & 0xff) << 8u64) | ((x >> 56u64) & 0xff)
}

/// The number of ones in the binary representation of `x`, counted by clearing the
/// lowest one until none is left.
fn count_ones(x: u64) -> (r: u32)
    ensures
        r == popcount(x),
{
    proof {
        crate::move_count::lemma_count_bits(x);
        crate::move_count::lemma_count_at_most(crate::movegen::bits_of(x), 0);
    }
    let mut rest = x;
    let mut n: u32 = 0;
    while rest != 0
        invariant
            n + popcount(rest) == popcount(x),
            popcount(x) <= 64,
        decreases rest,
    {
        proof {
            lemma_clear_lowest(rest);
        }
        rest = rest & (rest - 1);
        n = n + 1;
    }
    n
}

/// `x` with its eight bytes in reverse order.
fn swap_bytes(x: u64) -> (r: u64)
    ensures
        r == byte_swap(x),
{
    ((x & 0xff) << 56u64) | (((x >> 8u64) & 0xff) << 48u64) | (((x >> 16u64) & 0xff) << 40u64) | (((x >> 24u64)
        & 0xff) << 32u64) | (((x >> 32u64) & 0xff) << 24u64) | (((x >> 40u64) & 0xff) << 16u64) | (((x >> 48u64)
        & 0xff) << 8u64) | ((x >> 56u64) & 0xff)
}

/// A set of squares, one bit per square (bit `rank * 8 + file`).
#[derive(Copy, Clone, PartialEq, Eq, Structural, Debug)]
pub struct Bitboard {
    value: u64,
}

impl View for Bitboard {
    type V = u64;

    closed spec fn view(&self) -> u64 {
        self.value
    }
}

impl Bitboard {
    pub open spec fn contains(self, sq: int) -> bool {
        has_bit(self@, sq)
    }

    /// Two sets with the same squares are the same value.
    pub proof fn lemma_view_injective(self, other: Bitboard)
        requires
            self@ == other@,
        ensures
            self == other,
    {
    }

    pub fn from_raw(value: u64) -> (r: Self)
        ensures
            r@ == value,
    {
        Self { value }
    }

    pub fn empty() -> (r: Self)
        ensures
            r@ == 0,
    {
        Self { value: 0 }
    }

    pub fn get_value(&self) -> (r: u64)
        ensures
            r == self@,
    {
        self.value
    }

    pub fn pop_count(&self) -> (r: u32)
        ensures
            r == popcount(self@),
    {
        count_ones(self.value)
    }

    /// The lowest square of the set; `64` when the set is empty.
    pub fn ls1b_square(&self) -> (r: Square)
        ensures
            r@ == u64_trailing_zeros(self@),
    {
        Square::from_raw(self.value.trailing_zeros() as usize)
    }

    pub fn set_bit(&mut self, square: Square)
        requires
            square.on_board(),
        ensures
            final(self)@ == old(self)@ | single_bit(square@),
    {
        self.mut_or(square.get_bit())
    }

    pub fn pop_bit(&mut self, square: Square)
        requires
            square.on_board(),
        ensures
            final(self)@ == old(self)@ & !single_bit(square@),
    {
        self.mut_and(square.get_bit().inverse())
    }

    /// Removes the lowest square of a non-empty set and returns it.
    pub fn pop_ls1b_square(&mut self) -> (r: Square)
        requires
            old(self)@ != 0,
        ensures
            r@ == u64_trailing_zeros(old(self)@),
            r.on_board(),
            old(self).contains(r@),
            final(self)@ == old(self)@ & !single_bit(r@),
            final(self)@ < old(self)@,
    {
        let square = self.ls1b_square();
        proof {
            lemma_clear_lowest(self.value);
        }
        self.value &= self.value - 1;
        square
    }

    pub fn get_bit(&self, square: Square) -> (r: bool)
        requires
            square.on_board(),
        ensures
            r == self.contains(square@),
    {
        proof {
            lemma_single_bit_and(self.value, square@ as u64);
        }
        !self.and(square.get_bit()).is_empty()
    }

    pub fn is_empty(&self) -> (r: bool)
        ensures
            r == (self@ == 0),
    {
        self.value == 0
    }

    pub fn is_not_empty(&self) -> (r: bool)
        ensures
            r == (self@ != 0),
    {
        self.value != 0
    }

    pub fn equals(&self, rhs: Bitboard) -> (r: bool)
        ensures
            r == (self@ == rhs@),
    {
        self.value == rhs.value
    }

    /// Whether the set holds exactly one square.
    pub fn only_one_bit(&self) -> (r: bool)
        ensures
            r == (self@ != 0 && self@ & ((self@ - 1) as u64) == 0),
    {
        !self.is_empty() && (self.value & self.value.wrapping_sub(1)) == 0
    }

    /// Whether the set holds two squares or more.
    pub fn multiple_one_bits(&self) -> (r: bool)
        ensures
            r == (self@ != 0 && self@ & ((self@ - 1) as u64) != 0),
    {
        !self.is_empty() && (self.value & self.value.wrapping_sub(1)) != 0
    }

    pub fn mut_or(&mut self, rhs: Bitboard)
        ensures
            final(self)@ == old(self)@ | rhs@,
    {
        self.value |= rhs.get_value();
    }

    pub fn mut_and(&mut self, rhs: Bitboard)
        ensures
            final(self)@ == old(self)@ & rhs@,
    {
        self.value &= rhs.get_value();
    }

    pub fn and(&self, rhs: Bitboard) -> (r: Self)
        ensures
            r@ == self@ & rhs@,
    {
        Self { value: self.value & rhs.value }
    }

    pub fn or(&self, rhs: Bitboard) -> (r: Self)
        ensures
            r@ == self@ | rhs@,
    {
        Self { value: self.value | rhs.value }
    }

    pub fn xor(&self, rhs: Bitboard) -> (r: Self)
        ensures
            r@ == self@ ^ rhs@,
    {
        Self { value: self.value ^ rhs.value }
    }

    pub fn inverse(&self) -> (r: Self)
        ensures
            r@ == !self@,
    {
        Self { value: !self.value }
    }

    /// The set mirrored vertically: rank `r` goes to rank `7 - r`.
    pub fn flip(&self) -> (r: Self)
        ensures
            r@ == byte_swap(self@),
    {
        Self { value: swap_bytes(self.value) }
    }

    pub fn with_square(&self, square: Square) -> (r: Self)
        requires
            square.on_board(),
        ensures
            r@ == self@ | single_bit(square@),
    {
        self.or(square.get_bit())
    }

    pub fn exclude(&self, square: Square) -> (r: Self)
        requires
            square.on_board(),
        ensures
            r@ == self@ & !single_bit(square@),
    {
        self.and(square.get_bit().inverse())
    }

    pub fn shift_left(self, rhs: u32) -> (r: Self)
        requires
            rhs < 64,
        ensures
            r@ == self@ << rhs,
    {
        Self { value: self.value << rhs }
    }

    pub fn shift_right(self, rhs: u32) -> (r: Self)
        requires
            rhs < 64,
        ensures
            r@ == self@ >> rhs,
    {
        Self { value: self.value >> rhs }
    }

    pub fn wrapping_mul(self, rhs: Bitboard) -> (r: Self)
        ensures
            r@ == (self@ * rhs@) % 0x1_0000_0000_0000_0000,
    {
        Self { value: self.value.wrapping_mul(rhs.get_value()) }
    }
}

/// `b & single_bit(i)` is non-zero exactly when bit `i` is set.
pub proof fn lemma_single_bit_and(b: u64, i: u64)
    requires
        i < 64,
    ensures
        (b & (1u64 << i) != 0) == has_bit(b, i as int),
{
    assert((b & (1u64 << i) != 0) == ((b >> i) & 1u64 == 1u64)) by (bit_vector)
        requires
            i < 64,
    ;
}

/// Bit `j` of `b | single_bit(i)` and of `b & !single_bit(i)`.
pub proof fn lemma_single_bit_update(b: u64, i: u64, j: u64)
    requires
        i < 64,
        j < 64,
    ensures
        has_bit(b | (1u64 << i), j as int) == (j == i || has_bit(b, j as int)),
        has_bit(b & !(1u64 << i), j as int) == (j != i && has_bit(b, j as int)),
        has_bit(1u64 << i, j as int) == (j == i),
{
    assert((((b | (1u64 << i)) >> j) & 1u64 == 1u64 <==> (j == i || (b >> j) & 1u64 == 1u64)) && (((b
        & !(1u64 << i)) >> j) & 1u64 == 1u64 <==> (j != i && (b >> j) & 1u64 == 1u64)) && (((1u64 << i)
        >> j) & 1u64 == 1u64 <==> j == i)) by (bit_vector)
        requires
            i < 64,
            j < 64,
    ;
}

/// Bits of `&`, `|`, `^` and `!`.
pub proof fn lemma_bitwise(a: u64, b: u64, j: u64)
    requires
        j < 64,
    ensures
        has_bit(a & b, j as int) == (has_bit(a, j as int) && has_bit(b, j as int)),
        has_bit(a | b, j as int) == (has_bit(a, j as int) || has_bit(b, j as int)),
        has_bit(a ^ b, j as int) == (has_bit(a, j as int) != has_bit(b, j as int)),
        has_bit(!a, j as int) == !has_bit(a, j as int),
{
    assert((((a & b) >> j) & 1u64 == 1u64 <==> ((a >> j) & 1u64 == 1u64 && (b >> j) & 1u64 == 1u64))
        && (((a | b) >> j) & 1u64 == 1u64 <==> ((a >> j) & 1u64 == 1u64 || (b >> j) & 1u64 == 1u64))
        && (((a ^ b) >> j) & 1u64 == 1u64 <==> ((a >> j) & 1u64 == 1u64) != ((b >> j) & 1u64 == 1u64))
        && (((!a) >> j) & 1u64 == 1u64 <==> !((a >> j) & 1u64 == 1u64))) by (bit_vector)
        requires
            j < 64,
    ;
}

/// Mirroring a set of squares twice gives the set back.
pub proof fn lemma_byte_swap_twice(x: u64)
    ensures
        byte_swap(byte_swap(x)) == x,
{
    let y = byte_swap(x);
    assert(y == byte_swap(x) ==> byte_swap(y) == x) by (bit_vector);
}

/// `&` on words commutes.
pub proof fn lemma_and_commutes(x: u64, y: u64)
    ensures
        x & y == y & x,
{
    assert(x & y == y & x) by (bit_vector);
}

/// The square in front of a pawn, as bits: one rank up (`<< 8`) or down (`>> 8`) from
/// `s`, when that stays on the board; the second and seventh ranks as masks; and on
/// them, the square in front is `s ^ 24` (as `usize`).
pub proof fn lemma_pawn_step_bits(s: u64, t: u64)
    requires
        s < 64,
        t < 64,
    ensures
        has_bit((1u64 << s) << 8u32, t as int) == (s < 56 && t == s + 8),
        has_bit((1u64 << s) >> 8u32, t as int) == (s >= 8 && t + 8 == s),
        has_bit(0xFF00u64, s as int) == (8 <= s < 16),
        has_bit(0xFF00u64 << 40u32, s as int) == (48 <= s < 56),
        8 <= s < 16 ==> (s as usize ^ 24usize) == s + 8,
        48 <= s < 56 ==> (s as usize ^ 24usize) == s - 8,
        ((s as u16) ^ 8u16) as int == ((s as usize) ^ 8usize) as int,
        ((s as usize) ^ 8usize) < 64,
        s ^ 24u64 < 64,
        (s ^ 24u64) as int == ((s as usize) ^ 24usize) as int,
        16 <= s < 24 ==> (s as usize ^ 8usize) == s + 8,
        40 <= s < 48 ==> (s as usize ^ 8usize) == s - 8,
        has_bit(0x00FF000000000000u64, s as int) == (48 <= s < 56),
        has_bit(0x00FF000000000000u64 >> 40u32, s as int) == (8 <= s < 16),
{
    let su = s as usize;
    let sh = s as u16;
    assert((((((1u64 << s) << 8u32) >> t) & 1u64 == 1u64) == (s < 56 && t == s + 8)) && (((((1u64 << s) >> 8u32)
        >> t) & 1u64 == 1u64) == (s >= 8 && t + 8 == s)) && (((0xFF00u64 >> s) & 1u64 == 1u64) == (8 <= s && s
        < 16)) && ((((0xFF00u64 << 40u32) >> s) & 1u64 == 1u64) == (48 <= s && s < 56)) && (8 <= su && su < 16
        ==> (su ^ 24usize) == su + 8) && (48 <= su && su < 56 ==> (su ^ 24usize) == su - 8) && (sh ^ 8u16) as usize
        == su ^ 8usize && su ^ 8usize < 64 && s ^ 24u64 < 64 && (s ^ 24u64) as usize == su ^ 24usize && (16 <= su
        && su < 24 ==> (su ^ 8usize) == su + 8) && (40 <= su && su < 48 ==> (su ^ 8usize) == su - 8) && (((
        0x00FF000000000000u64 >> s) & 1u64 == 1u64) == (48 <= s && s < 56)) && ((((0x00FF000000000000u64 >> 40u32)
        >> s) & 1u64 == 1u64) == (8 <= s && s < 16))) by (bit_vector)
        requires
            s < 64,
            t < 64,
            su == s,
            sh == s,
    ;
}

/// Exclusive or of two square indices stays on the board.
pub proof fn lemma_xor_on_board(v: usize, k: usize)
    requires
        v < 64,
        k < 64,
    ensures
        v ^ k < 64,
{
    assert(v ^ k < 64) by (bit_vector)
        requires
            v < 64,
            k < 64,
    ;
}

/// The word zero has no bit set.
pub proof fn lemma_zero_bits()
    ensures
        forall|j: int| !#[trigger] has_bit(0u64, j),
{
    assert forall|j: int| !#[trigger] has_bit(0u64, j) by {
        if 0 <= j < 64 {
            let jj = j as u64;
            assert((0u64 >> jj) & 1u64 == 0u64) by (bit_vector);
        }
    }
}

/// A word is non-zero exactly when some bit of it is set.
pub proof fn lemma_nonzero(x: u64)
    ensures
        x != 0 <==> exists|j: int| 0 <= j < 64 && #[trigger] has_bit(x, j),
{
    lemma_zero_bits();
    if !(exists|j: int| 0 <= j < 64 && #[trigger] has_bit(x, j)) {
        assert forall|j: int| 0 <= j < 64 implies has_bit(x, j) == has_bit(0u64, j) by {}
        lemma_bits_ext(x, 0u64);
    }
}

/// A word has exactly one bit set when it is non-zero and clearing its lowest bit
/// leaves nothing.
pub proof fn lemma_one_bit(x: u64)
    ensures
        (x != 0 && x & ((x - 1) as u64) == 0) <==> exists|i: int|
            0 <= i < 64 && #[trigger] has_bit(x, i) && forall|j: int| 0 <= j < 64 && has_bit(x, j) ==> j == i,
{
    if x != 0 {
        lemma_clear_lowest(x);
        let t = u64_trailing_zeros(x) as u64;
        let y = x & ((x - 1) as u64);
        assert forall|j: int| 0 <= j < 64 implies has_bit(y, j) == (has_bit(x, j) && j != t) by {
            lemma_single_bit_update(x, t, j as u64);
        }
        if y == 0 {
            lemma_zero_bits();
            assert forall|j: int| 0 <= j < 64 && has_bit(x, j) implies j == t by {
                assert(!has_bit(y, j));
            }
        } else {
            lemma_nonzero(y);
            let j0 = choose|j: int| 0 <= j < 64 && #[trigger] has_bit(y, j);
            if exists|i: int|
                0 <= i < 64 && #[trigger] has_bit(x, i) && forall|j: int| 0 <= j < 64 && has_bit(x, j) ==> j == i {
                let i = choose|i: int|
                    0 <= i < 64 && #[trigger] has_bit(x, i) && forall|j: int| 0 <= j < 64 && has_bit(x, j) ==> j == i;
                assert(j0 == i);
                assert(t as int == i);
            }
        }
    } else {
        lemma_zero_bits();
    }
}

/// Two words with the same bits are equal.
pub proof fn lemma_bits_ext(a: u64, b: u64)
    requires
        forall|j: int| 0 <= j < 64 ==> has_bit(a, j) == has_bit(b, j),
    ensures
        a == b,
{
    let c = a ^ b;
    assert forall|j: u64| j < 64 implies (c >> j) & 1u64 == 0u64 by {
        assert(has_bit(a, j as int) == has_bit(b, j as int));
        assert(((a >> j) & 1u64 == 1u64) == ((b >> j) & 1u64 == 1u64) ==> ((a ^ b) >> j) & 1u64
            == 0u64) by (bit_vector);
    }
    assert(c == 0u64) by (bit_vector)
        requires
            (c >> 0u64) & 1u64 == 0u64,
            (c >> 1u64) & 1u64 == 0u64,
            (c >> 2u64) & 1u64 == 0u64,
            (c >> 3u64) & 1u64 == 0u64,
            (c >> 4u64) & 1u64 == 0u64,
            (c >> 5u64) & 1u64 == 0u64,
            (c >> 6u64) & 1u64 == 0u64,
            (c >> 7u64) & 1u64 == 0u64,
            (c >> 8u64) & 1u64 == 0u64,
            (c >> 9u64) & 1u64 == 0u64,
            (c >> 10u64) & 1u64 == 0u64,
            (c >> 11u64) & 1u64 == 0u64,
            (c >> 12u64) & 1u64 == 0u64,
            (c >> 13u64) & 1u64 == 0u64,
            (c >> 14u64) & 1u64 == 0u64,
            (c >> 15u64) & 1u64 == 0u64,
            (c >> 16u64) & 1u64 == 0u64,
            (c >> 17u64) & 1u64 == 0u64,
            (c >> 18u64) & 1u64 == 0u64,
            (c >> 19u64) & 1u64 == 0u64,
            (c >> 20u64) & 1u64 == 0u64,
            (c >> 21u64) & 1u64 == 0u64,
            (c >> 22u64) & 1u64 == 0u64,
            (c >> 23u64) & 1u64 == 0u64,
            (c >> 24u64) & 1u64 == 0u64,
            (c >> 25u64) & 1u64 == 0u64,
            (c >> 26u64) & 1u64 == 0u64,
            (c >> 27u64) & 1u64 == 0u64,
            (c >> 28u64) & 1u64 == 0u64,
            (c >> 29u64) & 1u64 == 0u64,
            (c >> 30u64) & 1u64 == 0u64,
            (c >> 31u64) & 1u64 == 0u64,
            (c >> 32u64) & 1u64 == 0u64,
            (c >> 33u64) & 1u64 == 0u64,
            (c >> 34u64) & 1u64 == 0u64,
            (c >> 35u64) & 1u64 == 0u64,
            (c >> 36u64) & 1u64 == 0u64,
            (c >> 37u64) & 1u64 == 0u64,
            (c >> 38u64) & 1u64 == 0u64,
            (c >> 39u64) & 1u64 == 0u64,
            (c >> 40u64) & 1u64 == 0u64,
            (c >> 41u64) & 1u64 == 0u64,
            (c >> 42u64) & 1u64 == 0u64,
            (c >> 43u64) & 1u64 == 0u64,
            (c >> 44u64) & 1u64 == 0u64,
            (c >> 45u64) & 1u64 == 0u64,
            (c >> 46u64) & 1u64 == 0u64,
            (c >> 47u64) & 1u64 == 0u64,
            (c >> 48u64) & 1u64 == 0u64,
            (c >> 49u64) & 1u64 == 0u64,
            (c >> 50u64) & 1u64 == 0u64,
            (c >> 51u64) & 1u64 == 0u64,
            (c >> 52u64) & 1u64 == 0u64,
            (c >> 53u64) & 1u64 == 0u64,
            (c >> 54u64) & 1u64 == 0u64,
            (c >> 55u64) & 1u64 == 0u64,
            (c >> 56u64) & 1u64 == 0u64,
            (c >> 57u64) & 1u64 == 0u64,
            (c >> 58u64) & 1u64 == 0u64,
            (c >> 59u64) & 1u64 == 0u64,
            (c >> 60u64) & 1u64 == 0u64,
            (c >> 61u64) & 1u64 == 0u64,
            (c >> 62u64) & 1u64 == 0u64,
            (c >> 63u64) & 1u64 == 0u64,
    ;
    assert(a ^ b == 0u64 ==> a == b) by (bit_vector);
}

/// Clearing the lowest set bit: `x & (x - 1)` is `x` without bit `trailing_zeros(x)`,
/// and that bit is set in `x`.
pub proof fn lemma_clear_lowest(x: u64)
    requires
        x != 0,
    ensures
        u64_trailing_zeros(x) < 64,
        has_bit(x, u64_trailing_zeros(x) as int),
        x & ((x - 1) as u64) == x & !(1u64 << (u64_trailing_zeros(x) as u64)),
        x & ((x - 1) as u64) < x,
        forall|j: int| 0 <= j < u64_trailing_zeros(x) ==> !has_bit(x, j),
{
    axiom_u64_trailing_zeros(x);
    let t = u64_trailing_zeros(x) as u64;
    assert(x & ((x - 1) as u64) == x & !(1u64 << t) && x & ((x - 1) as u64) < x) by (bit_vector)
        requires
            x != 0,
            t < 64,
            (x >> t) & 1u64 == 1u64,
            x << ((64 - t) as u64) == 0,
    ;
    assert forall|j: int| 0 <= j < u64_trailing_zeros(x) implies !has_bit(x, j) by {
        let jj = j as u64;
        assert((x >> jj) & 1u64 == 0u64);
    }
}

} // verus!
