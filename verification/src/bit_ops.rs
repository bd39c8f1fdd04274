use vstd::prelude::*;

verus! {

/// Bit `index` of a byte, as a boolean.
pub open spec fn u8_bit(value: u8, index: int) -> bool {
    0 <= index < 8 && (value >> (index as u8)) & 1u8 == 1u8
}

/// Sets bit `index` of `value` to one.
pub fn set_bit_to_one(value: &mut u8, index: u8)
    requires
        index < 8,
    ensures
        *final(value) == *old(value) | (1u8 << index),
{
    *value |= 1u8 << index;
}

/// Sets bit `index` of `value` to zero.
pub fn set_bit_to_zero(value: &mut u8, index: u8)
    requires
        index < 8,
    ensures
        *final(value) == *old(value) & !(1u8 << index),
{
    *value &= !(1u8 << index);
}

/// Returns `value` with every bit but bit `index` cleared.
pub fn get_bit(value: u8, index: u8) -> (r: u8)
    requires
        index < 8,
    ensures
        r == value & (1u8 << index),
{
    value & (1u8 << index)
}

/// Writes `new_value` into the bits of `value` that `mask << index` selects,
/// after clearing them.
pub fn set_bit_chunk(value: &mut u16, index: u8, mask: u16, new_value: u16)
    requires
        index < 16,
    ensures
        *final(value) == (*old(value) & !(mask << index)) | (new_value << index),
{
    *value = (*value & !(mask << index)) | (new_value << index);
}

/// Reads the bits of `value` that `mask << index` selects, shifted down by `index`.
pub fn get_bit_chunk(value: u16, index: u8, mask: u16) -> (r: u16)
    requires
        index < 16,
    ensures
        r == (value & (mask << index)) >> index,
{
    (value & (mask << index)) >> index
}

/// After `set_bit_to_one`, the bit is set and every other bit is unchanged; zero has
/// no bit set.
pub proof fn lemma_set_bit_to_one(value: u8, index: u8, j: u8)
    requires
        index < 8,
        j < 8,
    ensures
        u8_bit(value | (1u8 << index), j as int) == (j == index || u8_bit(value, j as int)),
        !u8_bit(0u8, j as int),
{
    assert((((value | (1u8 << index)) >> j) & 1u8 == 1u8 <==> (j == index || (value >> j) & 1u8
        == 1u8)) && (0u8 >> j) & 1u8 != 1u8) by (bit_vector)
        requires
            index < 8,
            j < 8,
    ;
}

/// After `set_bit_to_zero`, the bit is clear and every other bit is unchanged.
pub proof fn lemma_set_bit_to_zero(value: u8, index: u8, j: u8)
    requires
        index < 8,
        j < 8,
    ensures
        u8_bit(value & !(1u8 << index), j as int) == (j != index && u8_bit(value, j as int)),
{
    assert(((value & !(1u8 << index)) >> j) & 1u8 == 1u8 <==> (j != index && (value >> j) & 1u8
        == 1u8)) by (bit_vector)
        requires
            index < 8,
            j < 8,
    ;
}

/// `get_bit` is non-zero exactly when the bit is set.
pub proof fn lemma_get_bit(value: u8, index: u8)
    requires
        index < 8,
    ensures
        (value & (1u8 << index) != 0) == u8_bit(value, index as int),
{
    assert((value & (1u8 << index) != 0) == ((value >> index) & 1u8 == 1u8)) by (bit_vector)
        requires
            index < 8,
    ;
}

/// Reading back a chunk that was just written gives the written value, when the
/// value fits the mask and the mask is a run of low bits that fits above `index`.
pub proof fn lemma_chunk_round_trip(value: u16, index: u8, width: u8, new_value: u16)
    requires
        index < 16,
        width < 16,
        index + width <= 16,
        new_value < (1u16 << width),
    ensures
        ({
            let mask = ((1u16 << width) - 1) as u16;
            ((((value & !(mask << index)) | (new_value << index)) & (mask << index)) >> index)
                == new_value
        }),
{
    let mask = ((1u16 << width) - 1) as u16;
    assert(((((value & !(mask << index)) | (new_value << index)) & (mask << index)) >> index)
        == new_value) by (bit_vector)
        requires
            index < 16,
            width < 16,
            index + width <= 16,
            new_value < (1u16 << width),
            mask == ((1u16 << width) - 1u16) as u16,
    ;
}

} // verus!
