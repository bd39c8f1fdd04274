use vstd::prelude::*;
use vstd::string::StrSliceExecFns;

use crate::bit_ops::{get_bit, get_bit_chunk, set_bit_chunk, set_bit_to_one, set_bit_to_zero, u8_bit};
use crate::bitboard::{Bitboard, single_bit};

verus! {

/// Builds a `String` holding exactly the given characters.
#[verifier::external_body]
pub(crate) fn string_from_chars(chars: &Vec<char>) -> (s: String)
    ensures
        s@ == chars@,
{
    chars.iter().collect()
}

/// A square of the board: `rank * 8 + file`, with 64 standing for no square.
#[derive(Copy, Clone, PartialEq, Eq, Structural, Debug)]
pub struct Square {
    value: usize,
}

impl View for Square {
    type V = int;

    closed spec fn view(&self) -> int {
        self.value as int
    }
}

/// The index of the square `NULL`, which stands for no square.
pub const NULL_SQUARE: usize = 64;

impl Square {
    pub open spec fn spec_rank(self) -> int {
        self@ / 8
    }

    pub open spec fn spec_file(self) -> int {
        self@ % 8
    }

    /// Whether this is one of the 64 squares of the board.
    pub open spec fn on_board(self) -> bool {
        0 <= self@ < 64
    }

    /// A square's index is never negative.
    pub proof fn lemma_index_nonnegative(self)
        ensures
            self@ >= 0,
    {
    }

    /// Two squares with the same index are the same value.
    pub proof fn lemma_view_injective(self, other: Square)
        requires
            self@ == other@,
        ensures
            self == other,
    {
    }

    pub fn null() -> (r: Self)
        ensures
            r@ == 64,
    {
        Self { value: NULL_SQUARE }
    }

    pub fn from_raw(value: usize) -> (r: Self)
        ensures
            r@ == value,
    {
        Self { value }
    }

    pub fn from_coords(rank: usize, file: usize) -> (r: Self)
        requires
            rank * 8 + file <= usize::MAX,
        ensures
            r@ == rank * 8 + file,
    {
        Self { value: rank * 8 + file }
    }

    pub fn get_value(&self) -> (r: usize)
        ensures
            r == self@,
    {
        self.value
    }

    pub fn get_rank(&self) -> (r: usize)
        ensures
            r == self@ / 8,
    {
        self.value / 8
    }

    pub fn get_file(&self) -> (r: usize)
        ensures
            r == self@ % 8,
    {
        self.value % 8
    }

    /// The bitboard that holds only this square.
    pub fn get_bit(&self) -> (r: Bitboard)
        requires
            self.on_board(),
        ensures
            r@ == single_bit(self@),
    {
        Bitboard::from_raw(1u64 << (self.value as u64))
    }

    pub fn equals(&self, rhs: Square) -> (r: bool)
        ensures
            r == (self@ == rhs@),
    {
        self.value == rhs.value
    }

    /// The square mirrored across the middle of the board (rank `r` goes to rank `7 - r`).
    pub fn flip(&self) -> (r: Self)
        ensures
            r@ == ((self@ as usize) ^ 56usize),
    {
        Self::from_raw(self.value ^ 56)
    }

    /// The square `rhs` places further on.
    pub fn add(self, rhs: usize) -> (r: Self)
        requires
            self@ + rhs <= usize::MAX,
        ensures
            r@ == self@ + rhs,
    {
        Self { value: self.value + rhs }
    }

    /// The square whose index is this one's xor `rhs`.
    pub fn xor(self, rhs: usize) -> (r: Self)
        ensures
            r@ == ((self@ as usize) ^ rhs),
    {
        Self::from_raw(self.value ^ rhs)
    }
}


/// The character of a decimal digit.
pub open spec fn digit_char(d: int) -> char {
    (48 + d) as char
}

/// The decimal representation of `n`, most significant digit first.
pub open spec fn decimal(n: nat) -> Seq<char>
    decreases n,
{
    if n < 10 {
        seq![digit_char(n as int)]
    } else {
        decimal(n / 10) + seq![digit_char((n % 10) as int)]
    }
}

/// Appends the decimal representation of `n`.
pub(crate) fn push_decimal(out: &mut Vec<char>, n: u64)
    ensures
        final(out)@ == old(out)@ + decimal(n as nat),
    decreases n,
{
    if n >= 10 {
        push_decimal(out, n / 10);
    }
    let d = (n % 10) as u8;
    out.push((48u8 + d) as char);
}

/// The letter of file `f` (`a` for file 0).
pub open spec fn file_char(f: int) -> char {
    (97 + f) as char
}

/// The name of square `v`: `NULL` for 64, else its file letter then its rank number.
pub open spec fn square_name(v: int) -> Seq<char> {
    if v == 64 {
        seq!['N', 'U', 'L', 'L']
    } else {
        seq![file_char(v % 8)] + decimal((v / 8 + 1) as nat)
    }
}

impl Square {
    pub fn to_string(&self) -> (r: String)
        ensures
            r@ == square_name(self@),
    {
        let mut chars: Vec<char> = Vec::new();
        if self.value == NULL_SQUARE {
            chars.push('N');
            chars.push('U');
            chars.push('L');
            chars.push('L');
            proof {
                assert(chars@ == seq!['N', 'U', 'L', 'L']);
            }
            return string_from_chars(&chars);
        }
        let file = (self.value % 8) as u8;
        chars.push((97u8 + file) as char);
        push_decimal(&mut chars, (self.value / 8 + 1) as u64);
        string_from_chars(&chars)
    }

    /// Parses a square name such as `e4`: the file letter, then the rank digit.
    pub fn from_string(square: &str) -> (r: Square)
        requires
            square@.len() >= 2,
            97 <= square@[0] as u32 <= 255,
            '1' <= square@[1] <= '9',
        ensures
            r@ == (square@[1] as u32 - 49) * 8 + (square@[0] as u32 - 97),
    {
        let file_char = square.get_char(0);
        let rank_char = square.get_char(1);
        let file = (file_char as u32 - 97) as usize;
        let rank = (rank_char as u32 - 49) as usize;
        Square::from_coords(rank, file)
    }
}

/// A side: 0 for white, 1 for black.
#[derive(Copy, Clone, PartialEq, Eq, Structural, Debug)]
pub struct Side(usize);

impl View for Side {
    type V = int;

    closed spec fn view(&self) -> int {
        self.0 as int
    }
}

impl Side {
    pub open spec fn valid(self) -> bool {
        self@ == 0 || self@ == 1
    }

    /// Two sides with the same index are the same value.
    pub proof fn lemma_view_injective(self, other: Side)
        requires
            self@ == other@,
        ensures
            self == other,
    {
    }

    pub fn white() -> (r: Side)
        ensures
            r@ == 0,
    {
        Side(0)
    }

    pub fn black() -> (r: Side)
        ensures
            r@ == 1,
    {
        Side(1)
    }

    pub fn from_raw(value: usize) -> (r: Self)
        ensures
            r@ == value,
    {
        Side(value)
    }

    pub fn current(&self) -> (r: usize)
        ensures
            r == self@,
    {
        self.0
    }

    pub fn opposite(&self) -> (r: usize)
        requires
            self@ <= 1,
        ensures
            r == 1 - self@,
    {
        1 - self.0
    }

    pub fn flipped(&self) -> (r: Self)
        requires
            self@ <= 1,
        ensures
            r@ == 1 - self@,
    {
        Side(1 - self.0)
    }

    pub fn mut_flip(&mut self)
        requires
            old(self)@ <= 1,
        ensures
            final(self)@ == 1 - old(self)@,
    {
        self.0 = 1 - self.0;
    }
}

/// The four castling rights, one bit each (`WHITE_KING` is bit 0).
#[derive(Copy, Clone, PartialEq, Eq, Structural, Debug)]
pub struct CastleRights {
    value: u8,
}

impl View for CastleRights {
    type V = u8;

    closed spec fn view(&self) -> u8 {
        self.value
    }
}

impl CastleRights {
    pub const WHITE_KING: u8 = 0;
    pub const WHITE_QUEEN: u8 = 1;
    pub const BLACK_KING: u8 = 2;
    pub const BLACK_QUEEN: u8 = 3;

    pub open spec fn has(self, right: int) -> bool {
        u8_bit(self@, right)
    }

    /// Two sets of rights with the same bits are the same value.
    pub proof fn lemma_view_injective(self, other: CastleRights)
        requires
            self@ == other@,
        ensures
            self == other,
    {
    }

    pub fn null() -> (r: Self)
        ensures
            r@ == 0,
    {
        Self { value: 0 }
    }

    pub fn set_right(&mut self, right: u8)
        requires
            right < 8,
        ensures
            final(self)@ == old(self)@ | (1u8 << right),
    {
        set_bit_to_one(&mut self.value, right);
    }

    pub fn remove_right(&mut self, right: u8)
        requires
            right < 8,
        ensures
            final(self)@ == old(self)@ & !(1u8 << right),
    {
        set_bit_to_zero(&mut self.value, right);
    }

    pub fn get_right(&self, right: u8) -> (r: bool)
        requires
            right < 8,
        ensures
            r == self.has(right as int),
    {
        proof {
            crate::bit_ops::lemma_get_bit(self.value, right);
        }
        get_bit(self.value, right) > 0
    }

    /// The rights in FEN form: some of `KQkq` in that order, or `-` when there is none.
    pub fn to_string(&self) -> (r: String)
        ensures
            r@ == castle_rights_text(self@),
    {
        let mut rights: Vec<char> = Vec::new();
        if self.get_right(CastleRights::WHITE_KING) {
            rights.push('K');
        }
        if self.get_right(CastleRights::WHITE_QUEEN) {
            rights.push('Q');
        }
        if self.get_right(CastleRights::BLACK_KING) {
            rights.push('k');
        }
        if self.get_right(CastleRights::BLACK_QUEEN) {
            rights.push('q');
        }
        if rights.len() == 0 {
            rights.push('-');
        }
        string_from_chars(&rights)
    }
}

/// The FEN text of castling rights `v`.
pub open spec fn castle_rights_text(v: u8) -> Seq<char> {
    let s = (if u8_bit(v, 0) { seq!['K'] } else { Seq::empty() }) + (if u8_bit(v, 1) {
        seq!['Q']
    } else {
        Seq::empty()
    }) + (if u8_bit(v, 2) { seq!['k'] } else { Seq::empty() }) + (if u8_bit(v, 3) {
        seq!['q']
    } else {
        Seq::empty()
    });
    if s.len() == 0 { seq!['-'] } else { s }
}

/// The kinds of piece, numbered from 1; 0 is no piece.
pub struct Piece;

impl Piece {
    pub const NONE: usize = 0;
    pub const PAWN: usize = 1;
    pub const KNIGHT: usize = 2;
    pub const BISHOP: usize = 3;
    pub const ROOK: usize = 4;
    pub const QUEEN: usize = 5;
    pub const KING: usize = 6;
}


/// The 16 bits of a move: from-square in bits 0..6, to-square in bits 6..12,
/// and the kind of move in the top four bits.
pub open spec fn move_squares_bits(from: u16, to: u16) -> u16 {
    (from & !(63u16 << 6u16)) | (to << 6u16)
}

/// The letter of the piece a promotion flag selects (`n`, `b`, `r`, `q` for 0 to 3).
pub open spec fn promotion_letter(code: int) -> char {
    if code == 0 {
        'n'
    } else if code == 1 {
        'b'
    } else if code == 2 {
        'r'
    } else {
        'q'
    }
}

/// A move, packed in 16 bits.
#[derive(Copy, Clone, PartialEq, Eq, Structural, Debug)]
pub struct Move {
    pub value: u16,
}

impl Move {
    pub const PROMOTION: u16 = 0b1000_000000_000000;
    pub const PROMOTION_KNIGHT_MASK: u16 = 0b1000_000000_000000;
    pub const PROMOTION_BISHOP_MASK: u16 = 0b1001_000000_000000;
    pub const PROMOTION_ROOK_MASK: u16 = 0b1010_000000_000000;
    pub const PROMOTION_QUEEN_MASK: u16 = 0b1011_000000_000000;
    pub const CAPTURE_MASK: u16 = 0b0100_000000_000000;
    pub const DOUBLE_PUSH_MASK: u16 = 0b0001_000000_000000;
    pub const KING_CASTLE_MASK: u16 = 0b0010_000000_000000;
    pub const QUEEN_CASTLE_MASK: u16 = 0b0011_000000_000000;
    pub const EN_PASSANT_MASK: u16 = 0b0001_000000_000000;

    pub open spec fn from_of(self) -> int {
        (self.value & 63u16) as int
    }

    pub open spec fn to_of(self) -> int {
        ((self.value >> 6u16) & 63u16) as int
    }

    pub open spec fn flags_of(self) -> u16 {
        self.value & 0xF000u16
    }

    pub fn null() -> (r: Self)
        ensures
            r.value == 0,
    {
        Move { value: 0 }
    }

    pub fn from_raw(value: u16) -> (r: Self)
        ensures
            r.value == value,
    {
        Move { value }
    }

    pub fn create_move(from_square: Square, to_square: Square, mask: u16) -> (r: Self)
        ensures
            r.value == move_squares_bits(from_square@ as u16, to_square@ as u16) | mask,
    {
        Move { value: Move::init_move(from_square, to_square) | mask }
    }

    fn init_move(from_square: Square, to_square: Square) -> (r: u16)
        ensures
            r == move_squares_bits(from_square@ as u16, to_square@ as u16),
    {
        let mut result = 0u16;
        let f = from_square.get_value() as u16;
        let t = to_square.get_value() as u16;
        set_bit_chunk(&mut result, 0, 0b0000_000000_111111, f);
        set_bit_chunk(&mut result, 6, 0b0000_000000_111111, t);
        proof {
            assert((((0u16 & !(63u16 << 0u16)) | (f << 0u16)) & !(63u16 << 6u16)) | (t << 6u16)
                == (f & !(63u16 << 6u16)) | (t << 6u16)) by (bit_vector);
        }
        result
    }

    pub fn get_from_square(&self) -> (r: Square)
        ensures
            r@ == self.from_of(),
            r.on_board(),
    {
        let v = get_bit_chunk(self.value, 0, 0b0000_000000_111111);
        proof {
            let x = self.value;
            assert((x & (63u16 << 0u16)) >> 0u16 == x & 63u16 && x & 63u16 < 64) by (bit_vector);
        }
        Square::from_raw(v as usize)
    }

    pub fn get_to_square(&self) -> (r: Square)
        ensures
            r@ == self.to_of(),
            r.on_board(),
    {
        let v = get_bit_chunk(self.value, 6, 0b0000_000000_111111);
        proof {
            let x = self.value;
            assert((x & (63u16 << 6u16)) >> 6u16 == (x >> 6u16) & 63u16 && (x >> 6u16) & 63u16 < 64) by (bit_vector);
        }
        Square::from_raw(v as usize)
    }

    pub fn is_promotion(&self) -> (r: bool)
        ensures
            r == (self.value & 0x8000u16 != 0),
    {
        self.value & Move::PROMOTION > 0
    }

    /// The piece a promotion turns the pawn into (knight to queen).
    pub fn get_promotion_piece(&self) -> (r: usize)
        ensures
            r == ((self.value >> 12u16) & 3u16) + 2,
            2 <= r <= 5,
    {
        let v = get_bit_chunk(self.value, 12, 0b0000_000000_000011);
        proof {
            let x = self.value;
            assert((x & (3u16 << 12u16)) >> 12u16 == (x >> 12u16) & 3u16 && (x >> 12u16) & 3u16 <= 3) by (bit_vector);
        }
        v as usize + 2
    }

    pub fn is_capture(&self) -> (r: bool)
        ensures
            r == (self.value & 0x4000u16 != 0),
    {
        self.value & Move::CAPTURE_MASK > 0
    }

    pub fn is_en_passant(&self) -> (r: bool)
        ensures
            r == (self.flags_of() == 0x5000u16),
    {
        proof {
            let x = self.value;
            assert(x & 0xF000u16 == 0x5000u16 ==> x & 0x4000u16 != 0) by (bit_vector);
            lemma_en_passant_flags();
        }
        self.is_capture() && self.value & 0xF000 == Move::EN_PASSANT_MASK | Move::CAPTURE_MASK
    }

    pub fn is_double_push(&self) -> (r: bool)
        ensures
            r == (self.flags_of() == 0x1000u16),
    {
        self.value & 0xF000 == Move::DOUBLE_PUSH_MASK
    }

    pub fn is_king_castle(&self) -> (r: bool)
        ensures
            r == (self.flags_of() == 0x2000u16),
    {
        self.value & 0xF000 == Move::KING_CASTLE_MASK
    }

    pub fn is_queen_castle(&self) -> (r: bool)
        ensures
            r == (self.flags_of() == 0x3000u16),
    {
        self.value & 0xF000 == Move::QUEEN_CASTLE_MASK
    }

    /// The move in UCI form: from-square, to-square and, for a promotion, the piece letter.
    pub fn to_string(&self) -> (r: String)
        ensures
            r@ == move_text(*self),
    {
        let from = self.get_from_square();
        let to = self.get_to_square();
        let mut chars: Vec<char> = Vec::new();
        push_square_name(&mut chars, from);
        push_square_name(&mut chars, to);
        if (self.value & Move::PROMOTION_KNIGHT_MASK) > 0 {
            let piece = self.get_promotion_piece();
            let letter = if piece == 2 {
                'n'
            } else if piece == 3 {
                'b'
            } else if piece == 4 {
                'r'
            } else {
                'q'
            };
            chars.push(letter);
        }
        string_from_chars(&chars)
    }
}

/// The UCI text of a move.
pub open spec fn move_text(m: Move) -> Seq<char> {
    square_name(m.from_of()) + square_name(m.to_of()) + if m.value & 0x8000u16 != 0 {
        seq![promotion_letter(((m.value >> 12u16) & 3u16) as int)]
    } else {
        Seq::empty()
    }
}

/// Appends the name of an on-board square.
fn push_square_name(out: &mut Vec<char>, square: Square)
    requires
        square.on_board(),
    ensures
        final(out)@ == old(out)@ + square_name(square@),
{
    let v = square.get_value();
    let file = (v % 8) as u8;
    out.push((97u8 + file) as char);
    push_decimal(out, (v / 8 + 1) as u64);
    proof {
        assert(final(out)@ =~= old(out)@ + square_name(square@));
    }
}

/// Mirroring a square twice gives the square back.
pub proof fn lemma_square_flip_twice(s: Square)
    ensures
        (((s@ as usize) ^ 56usize) ^ 56usize) as int == s@,
{
    let v = s@ as usize;
    assert((v ^ 56usize) ^ 56usize == v) by (bit_vector);
}

/// Passing the turn twice gives the side back.
pub proof fn lemma_side_flip_twice(s: Side)
    requires
        s.valid(),
    ensures
        1 - (1 - s@) == s@,
        (1 - s@ == 0 || 1 - s@ == 1),
{
}

/// Granting a castling right sets that right and keeps the others; removing one clears
/// it and keeps the others.
pub proof fn lemma_castle_right_update(rights: CastleRights, right: u8, other: u8)
    requires
        right < 8,
        other < 8,
    ensures
        u8_bit(rights@ | (1u8 << right), other as int) == (other == right || rights.has(other as int)),
        u8_bit(rights@ & !(1u8 << right), other as int) == (other != right && rights.has(other as int)),
{
    let v = rights@;
    assert((((v | (1u8 << right)) >> other) & 1u8 == 1u8 <==> (other == right || (v >> other) & 1u8 == 1u8)) && (((v
        & !(1u8 << right)) >> other) & 1u8 == 1u8 <==> (other != right && (v >> other) & 1u8 == 1u8))) by (bit_vector)
        requires
            right < 8,
            other < 8,
    ;
}

/// The flags of an en passant capture are those of a capture and of an en passant move.
pub proof fn lemma_en_passant_flags()
    ensures
        0x1000u16 | 0x4000u16 == 0x5000u16,
        0x4000u16 | 0x1000u16 == 0x5000u16,
{
    assert(0x1000u16 | 0x4000u16 == 0x5000u16 && 0x4000u16 | 0x1000u16 == 0x5000u16) by (bit_vector);
}

/// Reading the squares back from a move gives the squares it was made with, and
/// the flags are those of the mask, when both squares are on the board and the mask
/// holds flags only.
pub proof fn lemma_move_round_trip(from: Square, to: Square, mask: u16)
    requires
        from.on_board(),
        to.on_board(),
        mask & 0x0FFFu16 == 0,
    ensures
        ({
            let m = Move { value: move_squares_bits(from@ as u16, to@ as u16) | mask };
            &&& m.from_of() == from@
            &&& m.to_of() == to@
            &&& m.flags_of() == mask
        }),
{
    lemma_move_value_fields(from@ as u16, to@ as u16, mask);
}

/// The fields of the value of a move from `f` to `t` with the flags `mask`: the squares
/// and the flags read back, and the capture bit is that of the flags; the promotion flags
/// keep the squares' bits free.
pub proof fn lemma_move_value_fields(f: u16, t: u16, mask: u16)
    requires
        f < 64,
        t < 64,
        mask & 0x0FFFu16 == 0,
    ensures
        ({
            let v = move_squares_bits(f, t) | mask;
            &&& v & 63u16 == f
            &&& (v >> 6u16) & 63u16 == t
            &&& v & 0xF000u16 == mask
            &&& (v & 0x4000u16 != 0) == (mask & 0x4000u16 != 0)
            &&& (v & 0x8000u16 != 0) == (mask & 0x8000u16 != 0)
        }),
        (0x8000u16 | mask) & 0x0FFFu16 == 0,
        (0x9000u16 | mask) & 0x0FFFu16 == 0,
        (0xA000u16 | mask) & 0x0FFFu16 == 0,
        (0xB000u16 | mask) & 0x0FFFu16 == 0,
        ((0x8000u16 | mask) & 0x4000u16 != 0) == (mask & 0x4000u16 != 0),
        ((0x9000u16 | mask) & 0x4000u16 != 0) == (mask & 0x4000u16 != 0),
        ((0xA000u16 | mask) & 0x4000u16 != 0) == (mask & 0x4000u16 != 0),
        ((0xB000u16 | mask) & 0x4000u16 != 0) == (mask & 0x4000u16 != 0),
        (0x8000u16 | mask) & 0x8000u16 != 0,
        (0x9000u16 | mask) & 0x8000u16 != 0,
        (0xA000u16 | mask) & 0x8000u16 != 0,
        (0xB000u16 | mask) & 0x8000u16 != 0,
{
    let v = ((f & !(63u16 << 6u16)) | (t << 6u16)) | mask;
    assert({
        &&& v & 63u16 == f
        &&& (v >> 6u16) & 63u16 == t
        &&& v & 0xF000u16 == mask
        &&& (v & 0x4000u16 != 0) == (mask & 0x4000u16 != 0)
        &&& (v & 0x8000u16 != 0) == (mask & 0x8000u16 != 0)
        &&& (0x8000u16 | mask) & 0x0FFFu16 == 0
        &&& (0x9000u16 | mask) & 0x0FFFu16 == 0
        &&& (0xA000u16 | mask) & 0x0FFFu16 == 0
        &&& (0xB000u16 | mask) & 0x0FFFu16 == 0
        &&& ((0x8000u16 | mask) & 0x4000u16 != 0) == (mask & 0x4000u16 != 0)
        &&& ((0x9000u16 | mask) & 0x4000u16 != 0) == (mask & 0x4000u16 != 0)
        &&& ((0xA000u16 | mask) & 0x4000u16 != 0) == (mask & 0x4000u16 != 0)
        &&& ((0xB000u16 | mask) & 0x4000u16 != 0) == (mask & 0x4000u16 != 0)
        &&& (0x8000u16 | mask) & 0x8000u16 != 0
        &&& (0x9000u16 | mask) & 0x8000u16 != 0
        &&& (0xA000u16 | mask) & 0x8000u16 != 0
        &&& (0xB000u16 | mask) & 0x8000u16 != 0
    }) by (bit_vector)
        requires
            f < 64,
            t < 64,
            mask & 0x0FFFu16 == 0,
            v == ((f & !(63u16 << 6u16)) | (t << 6u16)) | mask,
    ;
}

/// The flag words a move may carry leave the squares' bits free, those of captures
/// carry the capture bit, and the others do not; clearing the promotion bit of a move,
/// or its capture bit, keeps its squares and its other bits.
pub proof fn lemma_flag_words()
    ensures
        0u16 & 0x0FFFu16 == 0,
        0x1000u16 & 0x0FFFu16 == 0,
        0x2000u16 & 0x0FFFu16 == 0,
        0x3000u16 & 0x0FFFu16 == 0,
        0x4000u16 & 0x0FFFu16 == 0,
        0x5000u16 & 0x0FFFu16 == 0,
        0x4000u16 & 0x4000u16 != 0,
        0x5000u16 & 0x4000u16 != 0,
        0u16 & 0x4000u16 == 0,
        0x1000u16 & 0x4000u16 == 0,
        0x2000u16 & 0x4000u16 == 0,
        0x3000u16 & 0x4000u16 == 0,
        0u16 & 0x8000u16 == 0,
        0x4000u16 & 0x8000u16 == 0,
        0x1000u16 & 0x8000u16 == 0,
        0x2000u16 & 0x8000u16 == 0,
        0x3000u16 & 0x8000u16 == 0,
        0x5000u16 & 0x8000u16 == 0,
        forall|x: u16| #[trigger] (x & 63u16) < 64u16,
        forall|x: u16| #[trigger] ((x >> 6u16) & 63u16) < 64u16,
        forall|x: u16| #[trigger] ((x >> 12u16) & 3u16) < 4u16,
        forall|x: u16|
            #![trigger (x & 0x7FFFu16)]
            (x & 0x7FFFu16) & 0x8000u16 == 0 && (x & 0x7FFFu16) & 0x4000u16 == x & 0x4000u16 && (x & 0x7FFFu16)
                & 63u16 == x & 63u16 && ((x & 0x7FFFu16) >> 6u16) & 63u16 == (x >> 6u16) & 63u16,
        forall|x: u16|
            #![trigger (x & 0xBFFFu16)]
            (x & 0xBFFFu16) & 0x4000u16 == 0 && (x & 0xBFFFu16) & 0x8000u16 == x & 0x8000u16 && ((x & 0xBFFFu16)
                >> 12u16) & 3u16 == (x >> 12u16) & 3u16,
{
    assert(0u16 & 0x0FFFu16 == 0 && 0x1000u16 & 0x0FFFu16 == 0 && 0x2000u16 & 0x0FFFu16 == 0 && 0x3000u16
        & 0x0FFFu16 == 0 && 0x4000u16 & 0x0FFFu16 == 0 && 0x5000u16 & 0x0FFFu16 == 0 && 0x4000u16 & 0x4000u16
        != 0 && 0x5000u16 & 0x4000u16 != 0 && 0u16 & 0x4000u16 == 0 && 0x1000u16 & 0x4000u16 == 0 && 0x2000u16
        & 0x4000u16 == 0 && 0x3000u16 & 0x4000u16 == 0 && 0u16 & 0x8000u16 == 0 && 0x4000u16 & 0x8000u16 == 0 && 0x1000u16 & 0x8000u16 == 0
        && 0x2000u16 & 0x8000u16 == 0 && 0x3000u16 & 0x8000u16 == 0 && 0x5000u16 & 0x8000u16 == 0 && (forall|x: u16|
        #[trigger] (x & 63u16) < 64u16) && (forall|x: u16| #[trigger] ((x >> 6u16) & 63u16) < 64u16) && (forall|x: u16|
        #[trigger] ((x >> 12u16) & 3u16) < 4u16) && (forall|x: u16|
        #![trigger (x & 0x7FFFu16)]
        (x & 0x7FFFu16) & 0x8000u16 == 0 && (x & 0x7FFFu16) & 0x4000u16 == x & 0x4000u16 && (x & 0x7FFFu16)
            & 63u16 == x & 63u16 && ((x & 0x7FFFu16) >> 6u16) & 63u16 == (x >> 6u16) & 63u16) && (forall|x: u16|
        #![trigger (x & 0xBFFFu16)]
        (x & 0xBFFFu16) & 0x4000u16 == 0 && (x & 0xBFFFu16) & 0x8000u16 == x & 0x8000u16 && ((x & 0xBFFFu16)
            >> 12u16) & 3u16 == (x >> 12u16) & 3u16)) by (bit_vector);
}

/// The promotion flag words leave the squares' bits free, carry the promotion bit and the
/// capture bit exactly when it is added, and differ from one another.
pub proof fn lemma_promotion_words()
    ensures
        forall|f: u16|
            f == 0u16 || f == 0x4000u16 ==> ((0x8000u16 | f) & 0x0FFFu16) == 0 && ((0x9000u16 | f) & 0x0FFFu16) == 0
                && ((0xA000u16 | f) & 0x0FFFu16) == 0 && ((0xB000u16 | f) & 0x0FFFu16) == 0 && ((0x8000u16 | f)
                & 0x8000u16) != 0 && ((0x9000u16 | f) & 0x8000u16) != 0 && ((0xA000u16 | f) & 0x8000u16) != 0
                && ((0xB000u16 | f) & 0x8000u16) != 0 && (((0x8000u16 | f) & 0x4000u16) != 0) == (f == 0x4000u16)
                && (((0x9000u16 | f) & 0x4000u16) != 0) == (f == 0x4000u16) && (((0xA000u16 | f) & 0x4000u16) != 0)
                == (f == 0x4000u16) && (((0xB000u16 | f) & 0x4000u16) != 0) == (f == 0x4000u16) && (0x8000u16 | f)
                != (0x9000u16 | f) && (0x8000u16 | f) != (0xA000u16 | f) && (0x8000u16 | f) != (0xB000u16 | f)
                && (0x9000u16 | f) != (0xA000u16 | f) && (0x9000u16 | f) != (0xB000u16 | f) && (0xA000u16 | f)
                != (0xB000u16 | f),
{
    assert(forall|f: u16|
        f == 0u16 || f == 0x4000u16 ==> ((0x8000u16 | f) & 0x0FFFu16) == 0 && ((0x9000u16 | f) & 0x0FFFu16) == 0
                && ((0xA000u16 | f) & 0x0FFFu16) == 0 && ((0xB000u16 | f) & 0x0FFFu16) == 0 && ((0x8000u16 | f)
                & 0x8000u16) != 0 && ((0x9000u16 | f) & 0x8000u16) != 0 && ((0xA000u16 | f) & 0x8000u16) != 0
                && ((0xB000u16 | f) & 0x8000u16) != 0 && (((0x8000u16 | f) & 0x4000u16) != 0) == (f == 0x4000u16)
                && (((0x9000u16 | f) & 0x4000u16) != 0) == (f == 0x4000u16) && (((0xA000u16 | f) & 0x4000u16) != 0)
                == (f == 0x4000u16) && (((0xB000u16 | f) & 0x4000u16) != 0) == (f == 0x4000u16) && (0x8000u16 | f)
                != (0x9000u16 | f) && (0x8000u16 | f) != (0xA000u16 | f) && (0x8000u16 | f) != (0xB000u16 | f)
                && (0x9000u16 | f) != (0xA000u16 | f) && (0x9000u16 | f) != (0xB000u16 | f) && (0xA000u16 | f)
                != (0xB000u16 | f)) by (bit_vector);
}

/// Reading back the name of a square of the board gives the square: the name has the
/// two characters that `Square::from_string` reads, and they give back its index.
pub proof fn lemma_square_name_round_trip(v: int)
    requires
        0 <= v < 64,
    ensures
        square_name(v).len() == 2,
        97 <= square_name(v)[0] as u32 <= 255,
        '1' <= square_name(v)[1] <= '9',
        (square_name(v)[1] as u32 - 49) * 8 + (square_name(v)[0] as u32 - 97) == v,
{
    let rank = v / 8 + 1;
    assert(decimal(rank as nat) == seq![digit_char(rank)]);
    assert(square_name(v) =~= seq![file_char(v % 8), digit_char(rank)]);
}

} // verus!
