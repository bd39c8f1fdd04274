use vstd::prelude::*;

use crate::bit_ops::{get_bit, lemma_get_bit, u8_bit};
use crate::bitboard::{Bitboard, byte_swap, has_bit, lemma_byte_swap_twice, lemma_single_bit_update, lemma_zero_bits};
use crate::board::Board;
use crate::core_structs::{Side, Square};
use crate::search_tree::GameResult;

verus! {

/// A move of a self-play record and how often the search visited it.
#[derive(Clone, Copy, Default, PartialEq, Eq, Debug)]
pub struct ChessMoveInfo {
    pub mov: u16,
    pub visits: u16,
}

/// Whether `boards` encodes the pieces of `b`: bit `k` (of three) of the kind of the
/// piece on a square in set `k`, and the black pieces in set 3.
pub open spec fn encodes_pieces(boards: [Bitboard; 4], b: Board) -> bool {
    &&& forall|k: int, j: int|
        0 <= k < 3 && 0 <= j < 64 ==> (#[trigger] boards[k].contains(j) <==> b.occupied(j) && u8_bit(
            b.piece_at(j) as u8,
            k,
        ))
    &&& forall|j: int| 0 <= j < 64 ==> (#[trigger] boards[3].contains(j) <==> b.occupied(j) && b.color_at(j) == 1)
}

/// The piece sets of a training record: the three bits of each piece's kind, and the
/// black pieces.
pub fn piece_boards_of(board: &Board) -> (r: [Bitboard; 4])
    requires
        board.wf(),
    ensures
        encodes_pieces(r, *board),
{
    let mut piece_boards = [Bitboard::empty(); 4];
    let mut remaining = board.get_occupancy();
    let ghost occ = remaining@;
    proof {
        lemma_zero_bits();
    }
    while remaining.is_not_empty()
        invariant
            board.wf(),
            occ == board.side_bits(0) | board.side_bits(1),
            forall|j: int| 0 <= j < 64 && #[trigger] has_bit(remaining@, j) ==> has_bit(occ, j),
            forall|k: int, j: int|
                0 <= k < 3 && 0 <= j < 64 ==> (#[trigger] piece_boards[k].contains(j) <==> has_bit(occ, j) && !has_bit(
                    remaining@,
                    j,
                ) && u8_bit(board.piece_at(j) as u8, k)),
            forall|j: int|
                0 <= j < 64 ==> (#[trigger] piece_boards[3].contains(j) <==> has_bit(occ, j) && !has_bit(remaining@, j)
                    && board.color_at(j) == 1),
        decreases remaining@,
    {
        let ghost before = remaining@;
        let square = remaining.pop_ls1b_square();
        let ghost sq = square@;
        let ghost pb0 = piece_boards;
        proof {
            assert forall|j: int| 0 <= j < 64 implies #[trigger] has_bit(remaining@, j) == (has_bit(before, j) && j != sq) by {
                lemma_single_bit_update(before, sq as u64, j as u64);
            }
            crate::bitboard::lemma_bitwise(board.side_bits(0), board.side_bits(1), sq as u64);
            assert(board.square_wf(sq));
        }
        let (piece, color) = board.get_piece_on_square(square);
        let mut bit_index: usize = 0;
        while bit_index < 3
            invariant
                board.wf(),
                0 <= sq < 64,
                square@ == sq,
                bit_index <= 3,
                1 <= piece <= 6,
                piece == board.piece_at(sq),
                color@ == board.color_at(sq),
                forall|k: int, j: int|
                    0 <= k < 3 && 0 <= j < 64 ==> (#[trigger] piece_boards[k].contains(j) <==> pb0[k].contains(j) || (j
                        == sq && k < bit_index && u8_bit(piece as u8, k))),
                forall|j: int|
                    0 <= j < 64 ==> (#[trigger] piece_boards[3].contains(j) <==> pb0[3].contains(j) || (j == sq
                        && bit_index > 0 && color@ == 1)),
            decreases 3 - bit_index,
        {
            proof {
                lemma_get_bit(piece as u8, bit_index as u8);
            }
            if get_bit(piece as u8, bit_index as u8) > 0 {
                let ghost pb1 = piece_boards;
                let mut target = piece_boards[bit_index];
                target.set_bit(square);
                piece_boards[bit_index] = target;
                proof {
                    assert forall|j: int| 0 <= j < 64 implies #[trigger] piece_boards[bit_index as int].contains(j) == (pb1[bit_index as int].contains(j) || j == sq) by {
                        lemma_single_bit_update(pb1[bit_index as int]@, sq as u64, j as u64);
                    }
                }
            }
            if color.current() == 1 {
                let ghost pb1 = piece_boards;
                let mut target = piece_boards[3];
                target.set_bit(square);
                piece_boards[3] = target;
                proof {
                    assert forall|j: int| 0 <= j < 64 implies #[trigger] piece_boards[3].contains(j) == (pb1[3].contains(j) || j == sq) by {
                        lemma_single_bit_update(pb1[3]@, sq as u64, j as u64);
                    }
                }
            }
            bit_index = bit_index + 1;
        }
    }
    proof {
        lemma_zero_bits();
        assert forall|k: int, j: int|
            0 <= k < 3 && 0 <= j < 64 implies (#[trigger] piece_boards[k].contains(j) <==> board.occupied(j) && u8_bit(
            board.piece_at(j) as u8,
            k,
        )) by {
            crate::bitboard::lemma_bitwise(board.side_bits(0), board.side_bits(1), j as u64);
        }
        assert forall|j: int| 0 <= j < 64 implies (#[trigger] piece_boards[3].contains(j) <==> board.occupied(j) && board.color_at(j) == 1) by {
            crate::bitboard::lemma_bitwise(board.side_bits(0), board.side_bits(1), j as u64);
        }
    }
    piece_boards
}

/// The code a record gives square `j`: bit `k` of the piece's kind from set `k` (of
/// three), plus 6 for a black piece; 0 for an empty square. Codes 1 to 12 name the
/// white pawn to the black king.
pub open spec fn record_code(boards: [Bitboard; 4], j: int) -> int {
    (if boards[0].contains(j) { 1int } else { 0int }) + (if boards[1].contains(j) { 2int } else { 0int }) + (
    if boards[2].contains(j) { 4int } else { 0int }) + (if boards[3].contains(j) { 6int } else { 0int })
}

/// Whether the code of every square names one of the twelve piece sets, or none.
pub open spec fn record_codes_ok(boards: [Bitboard; 4]) -> bool {
    forall|j: int| 0 <= j < 64 ==> #[trigger] record_code(boards, j) <= 12
}

/// Whether `sets` holds, in set `k`, the squares whose code in `boards` is `k + 1`.
pub open spec fn decodes_to(boards: [Bitboard; 4], sets: [Bitboard; 12]) -> bool {
    forall|k: int, j: int| 0 <= k < 12 && 0 <= j < 64 ==> (#[trigger] sets[k].contains(j) <==> record_code(boards, j) == k + 1)
}

/// The twelve piece sets of a record (white pawns to black kings) from its four sets.
pub fn convert_to_12_bitboards(board: [Bitboard; 4]) -> (r: [Bitboard; 12])
    requires
        record_codes_ok(board),
    ensures
        decodes_to(board, r),
{
    let mut result = [Bitboard::empty(); 12];
    proof {
        lemma_zero_bits();
    }
    let mut square_index: usize = 0;
    while square_index < 64
        invariant
            square_index <= 64,
            record_codes_ok(board),
            forall|k: int, j: int|
                0 <= k < 12 && 0 <= j < 64 ==> (#[trigger] result[k].contains(j) <==> j < square_index && record_code(
                    board,
                    j,
                ) == k + 1),
        decreases 64 - square_index,
    {
        let square = Square::from_raw(square_index);
        let piece_index: usize = (if board[0].get_bit(square) { 1 } else { 0 }) + (if board[1].get_bit(square) {
            2
        } else {
            0
        }) + (if board[2].get_bit(square) { 4 } else { 0 }) + if board[3].get_bit(square) { 6 } else { 0 };
        proof {
            assert(record_code(board, square_index as int) == piece_index);
        }
        if piece_index != 0 {
            let ghost before = result;
            let mut target = result[piece_index - 1];
            target.set_bit(square);
            result[piece_index - 1] = target;
            proof {
                assert forall|j: int| 0 <= j < 64 implies #[trigger] result[piece_index - 1].contains(j) == (
                before[piece_index - 1].contains(j) || j == square_index) by {
                    lemma_single_bit_update(before[piece_index - 1]@, square_index as u64, j as u64);
                }
            }
        }
        square_index = square_index + 1;
    }
    result
}

/// Whether `r` is `board` seen from the other side: every set mirrored vertically, and
/// the white sets swapped with the black ones.
pub open spec fn is_flip_of(r: [Bitboard; 12], board: [Bitboard; 12]) -> bool {
    forall|k: int|
        0 <= k < 6 ==> #[trigger] r[k]@ == byte_swap(board[k + 6]@) && r[k + 6]@ == byte_swap(board[k]@)
}

/// The twelve piece sets seen from the other side.
pub fn flip_board(board: &[Bitboard; 12]) -> (r: [Bitboard; 12])
    ensures
        is_flip_of(r, *board),
{
    let mut result = [Bitboard::empty(); 12];
    let mut piece_index: usize = 0;
    while piece_index < 6
        invariant
            piece_index <= 6,
            forall|k: int| 0 <= k < piece_index ==> #[trigger] result[k]@ == byte_swap(board[k + 6]@),
            forall|k: int| 6 <= k < piece_index + 6 ==> #[trigger] result[k]@ == byte_swap(board[k - 6]@),
        decreases 6 - piece_index,
    {
        result[piece_index] = board[piece_index + 6].flip();
        result[piece_index + 6] = board[piece_index].flip();
        piece_index = piece_index + 1;
    }
    assert forall|k: int| 0 <= k < 6 implies #[trigger] result[k]@ == byte_swap(board[k + 6]@) && result[k + 6]@
        == byte_swap(board[k]@) by {
        assert(result[k + 6]@ == byte_swap(board[k + 6 - 6]@));
    }
    result
}

/// Seeing the sets from the other side twice gives them back.
pub proof fn lemma_flip_board_twice(board: [Bitboard; 12], once: [Bitboard; 12], twice: [Bitboard; 12])
    requires
        is_flip_of(once, board),
        is_flip_of(twice, once),
    ensures
        forall|k: int| 0 <= k < 12 ==> #[trigger] twice[k] == board[k],
{
    assert forall|k: int| 0 <= k < 12 implies #[trigger] twice[k] == board[k] by {
        let m = if k < 6 { k } else { k - 6 };
        assert(twice[m]@ == byte_swap(once[m + 6]@) && twice[m + 6]@ == byte_swap(once[m]@));
        assert(once[m]@ == byte_swap(board[m + 6]@) && once[m + 6]@ == byte_swap(board[m]@));
        lemma_byte_swap_twice(board[m]@);
        lemma_byte_swap_twice(board[m + 6]@);
        twice[k].lemma_view_injective(board[k]);
    }
}

/// The piece (1 pawn to 6 king) and side that the first of the sets `k..12` holding
/// square `j` names: set `k` holds piece `k % 6 + 1` of side `k / 6`. `(0, 0)` when
/// none holds it.
pub open spec fn piece_tuple_from(board: [Bitboard; 12], j: int, k: int) -> (int, int)
    decreases 12 - k,
{
    if k >= 12 || k < 0 {
        (0, 0)
    } else if board[k].contains(j) {
        (k % 6 + 1, if k >= 6 { 1int } else { 0int })
    } else {
        piece_tuple_from(board, j, k + 1)
    }
}

/// The piece and side on `square` of the twelve piece sets; `(0, white)` when empty.
pub fn get_piece_tuple(board: &[Bitboard; 12], square: Square) -> (r: (usize, Side))
    requires
        square.on_board(),
    ensures
        (r.0 as int, r.1@ as int) == piece_tuple_from(*board, square@, 0),
{
    let mut index: usize = 0;
    while index < 12
        invariant
            index <= 12,
            square.on_board(),
            piece_tuple_from(*board, square@, index as int) == piece_tuple_from(*board, square@, 0),
        decreases 12 - index,
    {
        if board[index].get_bit(square) {
            let piece_index = (index % 6) + 1;
            let color = if index >= 6 { Side::black() } else { Side::white() };
            return (piece_index, color);
        }
        index = index + 1;
    }
    (0, Side::white())
}

/// The three low bits of the kinds 1 to 6 add up to the kind.
proof fn lemma_kind_bits(v: u8)
    requires
        1 <= v <= 6,
    ensures
        (if u8_bit(v, 0) { 1int } else { 0int }) + (if u8_bit(v, 1) { 2int } else { 0int }) + (if u8_bit(v, 2) {
            4int
        } else {
            0int
        }) == v,
{
    assert(v == 1 || v == 2 || v == 3 || v == 4 || v == 5 || v == 6);
    assert(1 <= v <= 6 ==> ((v >> 0u8) & 1u8 == 1u8) == (v == 1 || v == 3 || v == 5) && ((v >> 1u8) & 1u8 == 1u8) == (v
        == 2 || v == 3 || v == 6) && ((v >> 2u8) & 1u8 == 1u8) == (v >= 4)) by (bit_vector);
}

/// A record decodes to the position it was made from: the twelve sets decoded from the
/// record of `b` name, on every square, the piece and side that `b` has there (no
/// piece and white for an empty square).
pub proof fn lemma_record_round_trip(b: Board, boards: [Bitboard; 4], sets: [Bitboard; 12])
    requires
        b.wf(),
        encodes_pieces(boards, b),
        decodes_to(boards, sets),
    ensures
        record_codes_ok(boards),
        forall|j: int|
            0 <= j < 64 ==> #[trigger] piece_tuple_from(sets, j, 0) == (
                b.piece_at(j),
                if b.occupied(j) { b.color_at(j) } else { 0 },
            ),
{
    assert forall|j: int| 0 <= j < 64 implies #[trigger] record_code(boards, j) == (if b.occupied(j) {
        b.piece_at(j) + 6 * b.color_at(j)
    } else {
        0
    }) by {
        assert(b.square_wf(j));
        assert(boards[0].contains(j) <==> b.occupied(j) && u8_bit(b.piece_at(j) as u8, 0));
        assert(boards[1].contains(j) <==> b.occupied(j) && u8_bit(b.piece_at(j) as u8, 1));
        assert(boards[2].contains(j) <==> b.occupied(j) && u8_bit(b.piece_at(j) as u8, 2));
        assert(boards[3].contains(j) <==> b.occupied(j) && b.color_at(j) == 1);
        if b.occupied(j) {
            lemma_kind_bits(b.piece_at(j) as u8);
        }
    }
    assert forall|j: int| 0 <= j < 64 implies #[trigger] piece_tuple_from(sets, j, 0) == (
        b.piece_at(j),
        if b.occupied(j) { b.color_at(j) } else { 0 },
    ) by {
        assert(b.square_wf(j));
        let c = record_code(boards, j);
        assert forall|k: int| 0 <= k < 12 implies (#[trigger] sets[k].contains(j) <==> c == k + 1) by {}
        lemma_tuple_of_code(sets, j, c, 0);
    }
}

/// When square `j` is in set `c - 1` alone (or in none, for `c == 0`), the sets from `k`
/// on name the piece of code `c`.
proof fn lemma_tuple_of_code(sets: [Bitboard; 12], j: int, c: int, k: int)
    requires
        0 <= c <= 12,
        0 <= k <= 12,
        c == 0 || k <= c - 1,
        forall|m: int| 0 <= m < 12 ==> (#[trigger] sets[m].contains(j) <==> c == m + 1),
    ensures
        piece_tuple_from(sets, j, k) == (if c == 0 {
            (0int, 0int)
        } else {
            ((c - 1) % 6 + 1, if c > 6 { 1int } else { 0int })
        }),
    decreases 12 - k,
{
    if k < 12 {
        assert(sets[k].contains(j) <==> c == k + 1);
        if c != k + 1 {
            lemma_tuple_of_code(sets, j, c, k + 1);
        }
    }
}

/// The result a self-play record gets when its game ends, for the side to move in the
/// record (0 white, 1 black): 1 if that side won, -1 if it lost, 0 for a draw. The
/// game's result is white's: `Win` when white won, `Lose` when white lost.
pub fn record_result(game_result: GameResult, side_to_move: u8) -> (r: i8)
    ensures
        r == match game_result {
            GameResult::Undecided => 0int,
            GameResult::Draw => 0int,
            GameResult::Lose(_) => if side_to_move == 0 { -1int } else { 1int },
            GameResult::Win(_) => if side_to_move == 0 { 1int } else { -1int },
        },
{
    match game_result {
        GameResult::Undecided => 0,
        GameResult::Draw => 0,
        GameResult::Lose(_) => {
            if side_to_move == 0 {
                -1
            } else {
                1
            }
        },
        GameResult::Win(_) => {
            if side_to_move == 0 {
                1
            } else {
                -1
            }
        },
    }
}

} // verus!
