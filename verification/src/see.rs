use vstd::prelude::*;
use vstd::std_specs::bits::u64_trailing_zeros;

use crate::attacks::Attacks;
use crate::bitboard::{Bitboard, has_bit, lemma_bitwise, lemma_bits_ext, lemma_single_bit_update, single_bit};
use crate::board::Board;
use crate::core_structs::{Move, Piece, Side, Square};
use crate::geometry::{
    abs,
    beyond,
    bishop_attack,
    file_of,
    is_diagonal,
    is_direction,
    is_orthogonal,
    knight_attack,
    lemma_slides_to_masked,
    path_clear,
    pawn_attack,
    point,
    rank_of,
    rook_attack,
    slider_attack,
    slides_to,
};
use crate::movegen::{lemma_squares_mask, squares_mask};

verus! {

/// The exchange value of a piece of kind `p` (1 pawn to 6 king): 100, 300, 350, 500,
/// 1000, and 0 for the king.
pub open spec fn piece_value(p: int) -> int {
    if p == 1 {
        100
    } else if p == 2 {
        300
    } else if p == 3 {
        350
    } else if p == 4 {
        500
    } else if p == 5 {
        1000
    } else {
        0
    }
}

/// The squares of the pieces of either side that attack `to` when `occ` holds the
/// blockers.
pub open spec fn all_attackers_bits(b: Board, to: int, occ: u64) -> u64 {
    squares_mask(|a: int| b.attacks_square_from(a, to, 0, occ) || b.attacks_square_from(a, to, 1, occ), 64)
}

/// The squares holding any piece.
pub open spec fn all_pieces(b: Board) -> u64 {
    b.piece_bits(1) | b.piece_bits(2) | b.piece_bits(3) | b.piece_bits(4) | b.piece_bits(5) | b.piece_bits(6)
}

/// The least valuable kind, from `p` on, of the pieces on `my`; the king when none is.
pub open spec fn least_valuable_from(b: Board, my: u64, p: int) -> int
    decreases 6 - p,
{
    if p >= 6 {
        6
    } else if my & b.piece_bits(p) != 0 {
        p
    } else {
        least_valuable_from(b, my, p + 1)
    }
}

/// The exchange that follows on `to`, with `occupied` the pieces still standing,
/// `attackers` those that attack `to`, `side` to recapture and `balance` the score of the
/// side that captured last: `side` recaptures with its least valuable attacker, which
/// may uncover a slider behind it; the exchange stops when `side` has no attacker or when
/// the recapture wins for `side` (unless it recaptured with the king into an attack).
/// The result is the side that loses the exchange.
pub open spec fn exchange_loser(
    b: Board,
    to: int,
    bishops: u64,
    rooks: u64,
    occupied: u64,
    attackers: u64,
    side: int,
    balance: int,
) -> int
    decreases occupied,
{
    let my = attackers & b.side_bits(side);
    if my == 0 {
        side
    } else {
        let victim = least_valuable_from(b, my, 1);
        let sq = u64_trailing_zeros(my & b.piece_bits(victim)) as int;
        let occ2 = occupied ^ single_bit(sq);
        let a1 = if victim == 1 || victim == 3 || victim == 5 {
            attackers | (squares_mask(|j: int| bishop_attack(to, occ2, j), 64) & bishops)
        } else {
            attackers
        };
        let a2 = if victim == 4 || victim == 5 {
            a1 | (squares_mask(|j: int| rook_attack(to, occ2, j), 64) & rooks)
        } else {
            a1
        };
        let a3 = a2 & occ2;
        let side2 = 1 - side;
        let balance2 = -balance - 1 - piece_value(victim);
        if balance2 >= 0 {
            if victim == 6 && a3 & b.side_bits(side2) != 0 {
                side
            } else {
                side2
            }
        } else if occ2 < occupied {
            exchange_loser(b, to, bishops, rooks, occ2, a3, side2, balance2)
        } else {
            side
        }
    }
}

/// What the moved piece is worth on arrival, before any recapture: the captured piece
/// (a pawn for en passant), plus the promotion's gain (the value of the piece promoted
/// to, less the pawn's), nothing for a castle.
pub open spec fn estimated_move_value(b: Board, mv: Move) -> int {
    let target = b.piece_at(mv.to_of());
    let captured = if target == 0 {
        0
    } else {
        piece_value(target)
    };
    if mv.value & 0x8000u16 != 0 {
        captured + piece_value(((mv.value >> 12u16) & 3u16) + 2) - 100
    } else if mv.flags_of() == 0x5000u16 {
        100
    } else if mv.flags_of() == 0x2000u16 || mv.flags_of() == 0x3000u16 {
        0
    } else {
        captured
    }
}

/// The piece that stands on the target square once the move is played, as the exchange
/// counts it: the piece promoted to for a promotion, else the moving piece.
pub open spec fn first_victim(b: Board, mv: Move) -> int {
    if mv.value & 0x8000u16 != 0 {
        ((mv.value >> 12u16) & 3u16) + 2
    } else {
        b.piece_at(mv.from_of())
    }
}

/// Whether the static exchange on the target square of `mv` reaches `threshold` for the
/// side to move.
pub open spec fn exchange_beats(b: Board, mv: Move, threshold: int) -> bool {
    let from = mv.from_of();
    let to = mv.to_of();
    let balance0 = estimated_move_value(b, mv) - threshold;
    let balance1 = balance0 - piece_value(first_victim(b, mv));
    if balance0 < 0 {
        false
    } else if balance1 >= 0 {
        true
    } else {
        let bishops = b.piece_bits(3) | b.piece_bits(5);
        let rooks = b.piece_bits(4) | b.piece_bits(5);
        let occ0 = ((b.side_bits(0) | b.side_bits(1)) ^ single_bit(from)) | single_bit(to);
        let occ1 = if mv.flags_of() == 0x5000u16 {
            occ0 ^ single_bit(b.en_passant@)
        } else {
            occ0
        };
        let attackers = all_attackers_bits(b, to, occ1) & occ1;
        b.side_to_move@ != exchange_loser(b, to, bishops, rooks, occ1, attackers, 1 - b.side_to_move@, balance1)
    }
}

impl Board {
    /// The squares of the pieces of either side that attack `square` when `occupancy`
    /// holds the blockers.
    pub fn all_attackers_to_square(&self, attacks: &Attacks, occupancy: Bitboard, square: Square) -> (r: Bitboard)
        requires
            attacks.wf(),
            square.on_board(),
        ensures
            r@ == all_attackers_bits(*self, square@, occupancy@),
    {
        let white = self.attackers_to(attacks, square, Side::white(), occupancy);
        let black = self.attackers_to(attacks, square, Side::black(), occupancy);
        let r = white.or(black);
        proof {
            let to = square@;
            let occ = occupancy@;
            let pred = |a: int| self.attacks_square_from(a, to, 0, occ) || self.attacks_square_from(a, to, 1, occ);
            assert forall|j: int| 0 <= j < 64 implies has_bit(r@, j) == has_bit(all_attackers_bits(*self, to, occ), j) by {
                lemma_squares_mask(pred, 64, j);
                lemma_bitwise(white@, black@, j as u64);
                assert(white.contains(j) == self.attacks_square_from(j, to, 0, occ));
                assert(black.contains(j) == self.attacks_square_from(j, to, 1, occ));
            }
            lemma_bits_ext(r@, all_attackers_bits(*self, to, occ));
        }
        r
    }
}

/// The least valuable kind on `my` is the first kind that `my` holds a piece of: none of
/// the kinds below it, and one of its kind unless it is the king by default.
pub proof fn lemma_least_valuable_is_first(b: Board, my: u64, p: int)
    ensures
        1 <= p < least_valuable_from(b, my, 1) ==> my & b.piece_bits(p) == 0,
        1 <= least_valuable_from(b, my, 1) <= 6,
        least_valuable_from(b, my, 1) < 6 ==> my & b.piece_bits(least_valuable_from(b, my, 1)) != 0,
{
    reveal_with_fuel(least_valuable_from, 7);
}

proof fn lemma_least_valuable_from(b: Board, my: u64, q: int, p: int)
    requires
        1 <= q <= p <= 6,
        my & b.piece_bits(p) != 0,
    ensures
        my & b.piece_bits(least_valuable_from(b, my, q)) != 0,
        1 <= least_valuable_from(b, my, q) <= 6,
    decreases 6 - q,
{
    if q < 6 && my & b.piece_bits(q) == 0 {
        lemma_least_valuable_from(b, my, q + 1, p);
    }
}

/// A set of pieces that is not empty holds one of its least valuable kind.
proof fn lemma_least_valuable(b: Board, my: u64)
    requires
        my != 0,
        forall|j: int| 0 <= j < 64 && #[trigger] has_bit(my, j) ==> has_bit(all_pieces(b), j),
    ensures
        my & b.piece_bits(least_valuable_from(b, my, 1)) != 0,
        1 <= least_valuable_from(b, my, 1) <= 6,
{
    crate::bitboard::lemma_nonzero(my);
    let j = choose|j: int| 0 <= j < 64 && #[trigger] has_bit(my, j);
    let jj = j as u64;
    lemma_bitwise(b.piece_bits(1) | b.piece_bits(2) | b.piece_bits(3) | b.piece_bits(4) | b.piece_bits(5), b.piece_bits(6), jj);
    lemma_bitwise(b.piece_bits(1) | b.piece_bits(2) | b.piece_bits(3) | b.piece_bits(4), b.piece_bits(5), jj);
    lemma_bitwise(b.piece_bits(1) | b.piece_bits(2) | b.piece_bits(3), b.piece_bits(4), jj);
    lemma_bitwise(b.piece_bits(1) | b.piece_bits(2), b.piece_bits(3), jj);
    lemma_bitwise(b.piece_bits(1), b.piece_bits(2), jj);
    let p = if has_bit(b.piece_bits(1), j) {
        1
    } else if has_bit(b.piece_bits(2), j) {
        2
    } else if has_bit(b.piece_bits(3), j) {
        3
    } else if has_bit(b.piece_bits(4), j) {
        4
    } else if has_bit(b.piece_bits(5), j) {
        5
    } else {
        6
    };
    lemma_bitwise(my, b.piece_bits(p), jj);
    crate::bitboard::lemma_zero_bits();
    lemma_least_valuable_from(b, my, 1, p);
}

/// Clearing a set bit makes a word smaller.
proof fn lemma_clear_smaller(x: u64, i: int)
    requires
        has_bit(x, i),
    ensures
        x ^ single_bit(i) < x,
{
    let ii = i as u64;
    assert((x >> ii) & 1u64 == 1u64 ==> x ^ (1u64 << ii) < x) by (bit_vector)
        requires
            ii < 64,
    ;
}

pub struct SEE;

impl SEE {
    pub const QS_MARGIN: i32 = 123;

    /// The exchange value of a piece of kind `piece` (1 pawn to 6 king).
    pub fn piece_value(piece: usize) -> (r: i32)
        requires
            1 <= piece <= 6,
        ensures
            r == piece_value(piece as int),
    {
        if piece == 1 {
            100
        } else if piece == 2 {
            300
        } else if piece == 3 {
            350
        } else if piece == 4 {
            500
        } else if piece == 5 {
            1000
        } else {
            0
        }
    }

    /// Whether the static exchange that `mv` starts on its target square reaches
    /// `threshold` for the side to move.
    pub fn static_exchange_evaluation(attacks: &Attacks, board: &Board, mv: Move, threshold: i32) -> (r: bool)
        requires
            attacks.wf(),
            board.wf(),
            1 <= first_victim(*board, mv) <= 6,
            i32::MIN <= estimated_move_value(*board, mv) - threshold <= i32::MAX,
            mv.flags_of() == 0x5000u16 ==> board.en_passant.on_board(),
        ensures
            r == exchange_beats(*board, mv, threshold as int),
            r == replayed_exchange_beats(*board, mv, threshold as int),
    {
        proof {
            lemma_exchange_evaluation_replayed(*board, mv, threshold as int);
        }
        let ghost b = *board;
        let from_square = mv.get_from_square();
        let to_square = mv.get_to_square();

        let mut next_victim = if mv.is_promotion() {
            mv.get_promotion_piece()
        } else {
            board.get_piece_on_square(from_square).0
        };

        let mut balance = estimate_move_value(board, mv) - threshold;
        if balance < 0 {
            return false;
        }
        balance = balance - SEE::piece_value(next_victim);
        if balance >= 0 {
            return true;
        }

        let bishops = board.get_piece_mask_for_both(Piece::BISHOP).or(board.get_piece_mask_for_both(Piece::QUEEN));
        let rooks = board.get_piece_mask_for_both(Piece::ROOK).or(board.get_piece_mask_for_both(Piece::QUEEN));

        let mut occupied = board.get_occupancy();
        occupied = occupied.xor(from_square.get_bit()).or(to_square.get_bit());
        if mv.is_en_passant() {
            occupied = occupied.xor(board.en_passant.get_bit());
        }

        let mut attackers = board.all_attackers_to_square(attacks, occupied, to_square).and(occupied);
        let mut side_to_move = board.side_to_move.flipped();
        let ghost to = to_square@;
        let ghost loser = exchange_loser(b, to, bishops@, rooks@, occupied@, attackers@, side_to_move@, balance as int);
        proof {
            let occ = occupied@;
            let all = all_attackers_bits(b, to, occ);
            assert(next_victim == first_victim(b, mv));
            assert(exchange_beats(b, mv, threshold as int) == (b.side_to_move@ != loser));
            assert forall|j: int| 0 <= j < 64 && #[trigger] has_bit(attackers@, j) implies has_bit(occupied@, j) && has_bit(all_pieces(b), j) by {
                lemma_bitwise(all, occ, j as u64);
                lemma_squares_mask(|a: int| b.attacks_square_from(a, to, 0, occ) || b.attacks_square_from(a, to, 1, occ), 64, j);
                let jj = j as u64;
                lemma_bitwise(b.piece_bits(1) | b.piece_bits(2) | b.piece_bits(3) | b.piece_bits(4) | b.piece_bits(5), b.piece_bits(6), jj);
                lemma_bitwise(b.piece_bits(1) | b.piece_bits(2) | b.piece_bits(3) | b.piece_bits(4), b.piece_bits(5), jj);
                lemma_bitwise(b.piece_bits(1) | b.piece_bits(2) | b.piece_bits(3), b.piece_bits(4), jj);
                lemma_bitwise(b.piece_bits(1) | b.piece_bits(2), b.piece_bits(3), jj);
                lemma_bitwise(b.piece_bits(1), b.piece_bits(2), jj);
            }
        }

        loop
            invariant
                attacks.wf(),
                b == *board,
                b.wf(),
                to == to_square@,
                to_square.on_board(),
                side_to_move.valid(),
                -1000 <= balance < 0,
                bishops@ == b.piece_bits(3) | b.piece_bits(5),
                rooks@ == b.piece_bits(4) | b.piece_bits(5),
                forall|j: int|
                    0 <= j < 64 && #[trigger] has_bit(attackers@, j) ==> has_bit(occupied@, j) && has_bit(all_pieces(b), j),
                exchange_loser(b, to, bishops@, rooks@, occupied@, attackers@, side_to_move@, balance as int) == loser,
                exchange_beats(b, mv, threshold as int) == (b.side_to_move@ != loser),
                exchange_beats(b, mv, threshold as int) == replayed_exchange_beats(
                    b,
                    mv,
                    threshold as int,
                ),
            decreases occupied@,
        {
            let ghost pside = side_to_move@;
            let ghost pbal = balance as int;
            let ghost pocc = occupied@;
            let my_attackers = attackers.and(board.get_occupancy_for_side(side_to_move));
            if my_attackers.is_empty() {
                return board.side_to_move.current() != side_to_move.current();
            }
            proof {
                assert forall|j: int| 0 <= j < 64 && #[trigger] has_bit(my_attackers@, j) implies has_bit(all_pieces(b), j) by {
                    lemma_bitwise(attackers@, b.side_bits(side_to_move@), j as u64);
                }
                lemma_least_valuable(b, my_attackers@);
            }
            let mut new_next_victim: usize = 1;
            while new_next_victim < 6 && my_attackers.and(board.get_piece_mask_for_both(new_next_victim)).is_empty()
                invariant
                    1 <= new_next_victim <= 6,
                    least_valuable_from(b, my_attackers@, 1) == least_valuable_from(b, my_attackers@, new_next_victim as int),
                    b == *board,
                decreases 6 - new_next_victim,
            {
                new_next_victim = new_next_victim + 1;
            }
            next_victim = new_next_victim;
            let chosen = my_attackers.and(board.get_piece_mask_for_both(next_victim));
            let square = chosen.ls1b_square();
            proof {
                crate::bitboard::lemma_clear_lowest(chosen@);
                lemma_bitwise(my_attackers@, b.piece_bits(next_victim as int), square@ as u64);
                lemma_bitwise(attackers@, b.side_bits(side_to_move@), square@ as u64);
                lemma_clear_smaller(occupied@, square@);
            }
            occupied = occupied.xor(square.get_bit());
            let ghost occ2 = occupied@;
            let ghost a0 = attackers@;
            if next_victim == Piece::PAWN || next_victim == Piece::BISHOP || next_victim == Piece::QUEEN {
                let seen = attacks.get_bishop_attacks_for_square(to_square, occupied);
                proof {
                    assert forall|j: int| 0 <= j < 64 implies has_bit(seen@, j) == has_bit(squares_mask(|i: int| bishop_attack(to, occ2, i), 64), j) by {
                        lemma_squares_mask(|i: int| bishop_attack(to, occ2, i), 64, j);
                        assert(seen.contains(j) == bishop_attack(to, occ2, j));
                    }
                    lemma_bits_ext(seen@, squares_mask(|i: int| bishop_attack(to, occ2, i), 64));
                }
                attackers = attackers.or(seen.and(bishops));
            }
            let ghost a1 = attackers@;
            if next_victim == Piece::ROOK || next_victim == Piece::QUEEN {
                let seen = attacks.get_rook_attacks_for_square(to_square, occupied);
                proof {
                    assert forall|j: int| 0 <= j < 64 implies has_bit(seen@, j) == has_bit(squares_mask(|i: int| rook_attack(to, occ2, i), 64), j) by {
                        lemma_squares_mask(|i: int| rook_attack(to, occ2, i), 64, j);
                        assert(seen.contains(j) == rook_attack(to, occ2, j));
                    }
                    lemma_bits_ext(seen@, squares_mask(|i: int| rook_attack(to, occ2, i), 64));
                }
                attackers = attackers.or(seen.and(rooks));
            }
            let ghost a2 = attackers@;
            attackers = attackers.and(occupied);
            side_to_move.mut_flip();
            proof {
                assert forall|j: int| 0 <= j < 64 && #[trigger] has_bit(attackers@, j) implies has_bit(occupied@, j) && has_bit(all_pieces(b), j) by {
                    let jj = j as u64;
                    lemma_bitwise(a2, occ2, jj);
                    let bq = b.piece_bits(3) | b.piece_bits(5);
                    let rq = b.piece_bits(4) | b.piece_bits(5);
                    lemma_bitwise(b.piece_bits(3), b.piece_bits(5), jj);
                    lemma_bitwise(b.piece_bits(4), b.piece_bits(5), jj);
                    lemma_bitwise(b.piece_bits(1) | b.piece_bits(2) | b.piece_bits(3) | b.piece_bits(4) | b.piece_bits(5), b.piece_bits(6), jj);
                    lemma_bitwise(b.piece_bits(1) | b.piece_bits(2) | b.piece_bits(3) | b.piece_bits(4), b.piece_bits(5), jj);
                    lemma_bitwise(b.piece_bits(1) | b.piece_bits(2) | b.piece_bits(3), b.piece_bits(4), jj);
                    lemma_bitwise(b.piece_bits(1) | b.piece_bits(2), b.piece_bits(3), jj);
                    if has_bit(a0, j) {
                    } else {
                        assert(has_bit(a2, j));
                        if has_bit(a1, j) {
                            lemma_bitwise(a0, squares_mask(|i: int| bishop_attack(to, occ2, i), 64) & bq, jj);
                            lemma_bitwise(squares_mask(|i: int| bishop_attack(to, occ2, i), 64), bq, jj);
                        } else {
                            lemma_bitwise(a1, squares_mask(|i: int| rook_attack(to, occ2, i), 64) & rq, jj);
                            lemma_bitwise(squares_mask(|i: int| rook_attack(to, occ2, i), 64), rq, jj);
                        }
                    }
                }
            }
            balance = 0 - balance - 1 - SEE::piece_value(next_victim);
            proof {
                let victim = least_valuable_from(b, my_attackers@, 1);
                assert(victim == next_victim);
                assert(square@ == u64_trailing_zeros(my_attackers@ & b.piece_bits(victim)) as int);
                assert(occ2 == pocc ^ single_bit(square@));
                assert(a1 == if victim == 1 || victim == 3 || victim == 5 {
                    a0 | (squares_mask(|j: int| bishop_attack(to, occ2, j), 64) & bishops@)
                } else {
                    a0
                });
                assert(a2 == if victim == 4 || victim == 5 {
                    a1 | (squares_mask(|j: int| rook_attack(to, occ2, j), 64) & rooks@)
                } else {
                    a1
                });
                assert(balance == -pbal - 1 - piece_value(victim));
                assert(side_to_move@ == 1 - pside);
                assert(occ2 < pocc);
                assert(loser == if balance >= 0 {
                    if victim == 6 && attackers@ & b.side_bits(side_to_move@) != 0 {
                        pside
                    } else {
                        side_to_move@
                    }
                } else {
                    exchange_loser(b, to, bishops@, rooks@, occ2, attackers@, side_to_move@, balance as int)
                });
            }
            if balance >= 0 {
                if next_victim == Piece::KING && attackers.and(board.get_occupancy_for_side(side_to_move)).is_not_empty() {
                    side_to_move.mut_flip();
                }
                return board.side_to_move.current() != side_to_move.current();
            }
        }
    }
}

/// What the moved piece is worth on arrival, before any recapture.
fn estimate_move_value(board: &Board, mv: Move) -> (r: i32)
    requires
        board.wf(),
    ensures
        r == estimated_move_value(*board, mv),
{
    let target_piece = board.get_piece_on_square(mv.get_to_square()).0;
    let mut value = if target_piece == 0 { 0 } else { SEE::piece_value(target_piece) };
    if mv.is_promotion() {
        value = value + SEE::piece_value(mv.get_promotion_piece()) - SEE::piece_value(1);
    } else if mv.is_en_passant() {
        value = SEE::piece_value(1);
    } else if mv.is_king_castle() || mv.is_queen_castle() {
        value = 0;
    }
    value
}

/// Where a square one or more steps from `from` in a direction lies: on the same rank
/// for a step along the rank, on the same file for a step along the file, and as many
/// ranks as files away along a diagonal.
proof fn lemma_beyond_shape(from: int, dr: int, df: int, j: int)
    requires
        is_direction(dr, df),
        beyond(from, dr, df, j),
    ensures
        dr == 0 ==> rank_of(j) == rank_of(from) && file_of(j) != file_of(from),
        df == 0 ==> file_of(j) == file_of(from) && rank_of(j) != rank_of(from),
        dr != 0 && df != 0 ==> abs(rank_of(j) - rank_of(from)) == abs(file_of(j) - file_of(from)) && rank_of(j)
            != rank_of(from),
{
}

/// A square a knight's jump from `from`, or a pawn's capture from it, lies on no rank or
/// file through `from`; one a bishop reaches lies on none either, and one a rook reaches
/// lies on no diagonal through `from`; a knight's square lies on no diagonal either.
proof fn lemma_off_lines(from: int, occ: u64, sq: int, side: int)
    ensures
        knight_attack(from, sq) ==> forall|dr: int, df: int| is_direction(dr, df) ==> !#[trigger] beyond(from, dr, df, sq),
        pawn_attack(side, from, sq) ==> forall|dr: int, df: int| is_orthogonal(dr, df) ==> !#[trigger] beyond(from, dr, df, sq),
        bishop_attack(from, occ, sq) ==> forall|dr: int, df: int| is_orthogonal(dr, df) ==> !#[trigger] beyond(from, dr, df, sq),
        rook_attack(from, occ, sq) ==> forall|dr: int, df: int| is_diagonal(dr, df) ==> !#[trigger] beyond(from, dr, df, sq),
{
    assert forall|dr: int, df: int| is_direction(dr, df) && #[trigger] beyond(from, dr, df, sq) implies !knight_attack(from, sq)
        && (is_orthogonal(dr, df) ==> !pawn_attack(side, from, sq) && !bishop_attack(from, occ, sq)) && (is_diagonal(dr, df)
        ==> !rook_attack(from, occ, sq)) by {
        lemma_beyond_shape(from, dr, df, sq);
        if is_orthogonal(dr, df) && bishop_attack(from, occ, sq) {
            let (er, ef) = choose|er: int, ef: int| is_diagonal(er, ef) && #[trigger] slides_to(from, er, ef, occ, sq);
            lemma_beyond_shape(from, er, ef, sq);
        }
        if is_diagonal(dr, df) && rook_attack(from, occ, sq) {
            let (er, ef) = choose|er: int, ef: int| is_orthogonal(er, ef) && #[trigger] slides_to(from, er, ef, occ, sq);
            lemma_beyond_shape(from, er, ef, sq);
        }
    }
}

/// Taking squares out of the blockers keeps a clear path clear.
proof fn lemma_path_clear_fewer(from: int, dr: int, df: int, occ: u64, keep: u64, n: int)
    requires
        path_clear(from, dr, df, occ, n),
    ensures
        path_clear(from, dr, df, occ & keep, n),
    decreases n,
{
    if n > 1 {
        lemma_path_clear_fewer(from, dr, df, occ, keep, n - 1);
        let p = point(from, dr, df, n - 1);
        if 0 <= p < 64 {
            lemma_bitwise(occ, keep, p as u64);
        }
    }
}

/// The bits of the blockers without square `sq`.
proof fn lemma_without_square(occ: u64, sq: int, p: int)
    requires
        0 <= sq < 64,
        0 <= p < 64,
    ensures
        has_bit(!single_bit(sq), p) == (p != sq),
        has_bit(occ & !single_bit(sq), p) == (has_bit(occ, p) && p != sq),
        has_bit(occ ^ single_bit(sq), p) == (has_bit(occ, p) != (p == sq)),
{
    lemma_single_bit_update(0u64, sq as u64, p as u64);
    lemma_bitwise(single_bit(sq), single_bit(sq), p as u64);
    lemma_bitwise(occ, !single_bit(sq), p as u64);
    lemma_bitwise(occ, single_bit(sq), p as u64);
}

/// A slider attacks at least the squares it attacked once a square is taken out of the
/// blockers, and exactly those when that square lies on none of its lines.
proof fn lemma_slider_without_square(is_bishop: bool, from: int, occ: u64, sq: int, j: int)
    requires
        0 <= from < 64,
        0 <= j < 64,
        0 <= sq < 64,
    ensures
        slider_attack(is_bishop, from, occ, j) ==> slider_attack(is_bishop, from, occ & !single_bit(sq), j),
        (forall|dr: int, df: int|
            (if is_bishop { is_diagonal(dr, df) } else { is_orthogonal(dr, df) }) ==> !#[trigger] beyond(from, dr, df, sq))
            ==> slider_attack(is_bishop, from, occ & !single_bit(sq), j) == slider_attack(is_bishop, from, occ, j),
{
    let mask = !single_bit(sq);
    if slider_attack(is_bishop, from, occ, j) {
        if is_bishop {
            let (dr, df) = choose|dr: int, df: int| is_diagonal(dr, df) && #[trigger] slides_to(from, dr, df, occ, j);
            lemma_path_clear_fewer(from, dr, df, occ, mask, crate::geometry::steps(from, dr, df, j));
            assert(slides_to(from, dr, df, occ & mask, j));
        } else {
            let (dr, df) = choose|dr: int, df: int| is_orthogonal(dr, df) && #[trigger] slides_to(from, dr, df, occ, j);
            lemma_path_clear_fewer(from, dr, df, occ, mask, crate::geometry::steps(from, dr, df, j));
            assert(slides_to(from, dr, df, occ & mask, j));
        }
    }
    if forall|dr: int, df: int|
        (if is_bishop { is_diagonal(dr, df) } else { is_orthogonal(dr, df) }) ==> !#[trigger] beyond(from, dr, df, sq) {
        assert forall|dr: int, df: int|
            (if is_bishop { is_diagonal(dr, df) } else { is_orthogonal(dr, df) }) implies #[trigger] slides_to(
            from,
            dr,
            df,
            occ & mask,
            j,
        ) == slides_to(from, dr, df, occ, j) by {
            assert(!beyond(from, dr, df, sq));
            assert forall|p: int| 0 <= p < 64 && #[trigger] crate::geometry::inner_beyond(from, dr, df, p) implies has_bit(
                mask,
                p,
            ) by {
                lemma_without_square(occ, sq, p);
            }
            lemma_slides_to_masked(from, dr, df, occ, mask, j);
        }
        if is_bishop {
            if bishop_attack(from, occ & mask, j) {
                let (dr, df) = choose|dr: int, df: int| is_diagonal(dr, df) && #[trigger] slides_to(from, dr, df, occ & mask, j);
                assert(slides_to(from, dr, df, occ, j));
            }
        } else {
            if rook_attack(from, occ & mask, j) {
                let (dr, df) = choose|dr: int, df: int| is_orthogonal(dr, df) && #[trigger] slides_to(from, dr, df, occ & mask, j);
                assert(slides_to(from, dr, df, occ, j));
            }
        }
    }
}

/// The pieces still standing on `occ` that attack `to`, the squares of `occ` holding the
/// blockers.
pub open spec fn standing_attackers(b: Board, to: int, occ: u64) -> u64 {
    all_attackers_bits(b, to, occ) & occ
}

/// A square is among the attackers of `to` exactly when a piece of either side on it
/// attacks `to`.
proof fn lemma_attacker_bit(b: Board, to: int, occ: u64, j: int)
    requires
        0 <= j < 64,
    ensures
        has_bit(all_attackers_bits(b, to, occ), j) == (b.attacks_square_from(j, to, 0, occ) || b.attacks_square_from(
            j,
            to,
            1,
            occ,
        )),
{
    lemma_squares_mask(|a: int| b.attacks_square_from(a, to, 0, occ) || b.attacks_square_from(a, to, 1, occ), 64, j);
}

/// The attackers after the piece of kind `victim` on `sq` has captured on `to`, as the
/// exchange updates them (the sliders on the lines that the piece leaves are added, then
/// only the pieces still standing are kept), are all the pieces still standing that
/// attack `to`.
proof fn lemma_attacker_after_capture(b: Board, to: int, occ: u64, sq: int, victim: int, j: int)
    requires
        b.wf(),
        0 <= to < 64,
        0 <= sq < 64,
        0 <= j < 64,
        1 <= victim <= 5,
        has_bit(b.piece_bits(victim), sq),
        has_bit(standing_attackers(b, to, occ), sq),
    ensures
        ({
            let occ2 = occ ^ single_bit(sq);
            let attackers = standing_attackers(b, to, occ);
            let bishops = b.piece_bits(3) | b.piece_bits(5);
            let rooks = b.piece_bits(4) | b.piece_bits(5);
            let a1 = if victim == 1 || victim == 3 || victim == 5 {
                attackers | (squares_mask(|j: int| bishop_attack(to, occ2, j), 64) & bishops)
            } else {
                attackers
            };
            let a2 = if victim == 4 || victim == 5 {
                a1 | (squares_mask(|j: int| rook_attack(to, occ2, j), 64) & rooks)
            } else {
                a1
            };
            has_bit(a2 & occ2, j) == has_bit(standing_attackers(b, to, occ2), j)
        }),
{
    let occ2 = occ ^ single_bit(sq);
    let mask = !single_bit(sq);
    lemma_bitwise(all_attackers_bits(b, to, occ), occ, sq as u64);
    assert forall|p: int| 0 <= p < 64 implies has_bit(occ2, p) == has_bit(occ & mask, p) by {
        lemma_without_square(occ, sq, p);
    }
    lemma_bits_ext(occ2, occ & mask);
    let attackers = standing_attackers(b, to, occ);
    let bishops = b.piece_bits(3) | b.piece_bits(5);
    let rooks = b.piece_bits(4) | b.piece_bits(5);
    let dm = squares_mask(|j: int| bishop_attack(to, occ2, j), 64);
    let rm = squares_mask(|j: int| rook_attack(to, occ2, j), 64);
    let a1 = if victim == 1 || victim == 3 || victim == 5 {
        attackers | (dm & bishops)
    } else {
        attackers
    };
    let a2 = if victim == 4 || victim == 5 {
        a1 | (rm & rooks)
    } else {
        a1
    };
    lemma_bitwise(all_attackers_bits(b, to, occ), occ, sq as u64);
    lemma_attacker_bit(b, to, occ, sq);
    assert(b.square_wf(sq));
    assert(b.square_wf(j));
    lemma_off_lines(to, occ, sq, 0);
    lemma_off_lines(to, occ, sq, 1);
    lemma_without_square(occ, sq, j);
    lemma_bitwise(a2, occ2, j as u64);
    lemma_bitwise(all_attackers_bits(b, to, occ2), occ2, j as u64);
    lemma_bitwise(all_attackers_bits(b, to, occ), occ, j as u64);
    lemma_attacker_bit(b, to, occ, j);
    lemma_attacker_bit(b, to, occ2, j);
    lemma_slider_without_square(true, to, occ, sq, j);
    lemma_slider_without_square(false, to, occ, sq, j);
    lemma_squares_mask(|j: int| bishop_attack(to, occ2, j), 64, j);
    lemma_squares_mask(|j: int| rook_attack(to, occ2, j), 64, j);
    lemma_bitwise(attackers, dm & bishops, j as u64);
    lemma_bitwise(dm, bishops, j as u64);
    lemma_bitwise(a1, rm & rooks, j as u64);
    lemma_bitwise(rm, rooks, j as u64);
    lemma_bitwise(b.piece_bits(3), b.piece_bits(5), j as u64);
    lemma_bitwise(b.piece_bits(4), b.piece_bits(5), j as u64);
}

/// The exchange on `to` played out afresh after every capture, with `occ` the pieces
/// still standing, `side` to recapture and `balance` the score of the side that captured
/// last: `side` takes with its least valuable piece among all the pieces still standing
/// that attack `to` through the squares still occupied (so a slider of either side
/// behind a piece that has taken joins in); the exchange stops when `side` has nothing
/// that attacks `to`, or when its capture wins, unless it took with its king while the
/// other side still attacks `to` with a piece that attacked it before the king moved.
/// The result is the side that loses the exchange.
pub open spec fn exchange_replayed(b: Board, to: int, occ: u64, side: int, balance: int) -> int
    decreases occ,
{
    let my = standing_attackers(b, to, occ) & b.side_bits(side);
    if my == 0 {
        side
    } else {
        let victim = least_valuable_from(b, my, 1);
        let sq = u64_trailing_zeros(my & b.piece_bits(victim)) as int;
        let occ2 = occ ^ single_bit(sq);
        let side2 = 1 - side;
        let balance2 = -balance - 1 - piece_value(victim);
        if balance2 >= 0 {
            if victim == 6 && standing_attackers(b, to, occ) & occ2 & b.side_bits(side2) != 0 {
                side
            } else {
                side2
            }
        } else if occ2 < occ {
            exchange_replayed(b, to, occ2, side2, balance2)
        } else {
            side
        }
    }
}

/// The exchange as the evaluation updates its attackers after each capture (adding the
/// sliders on the lines the capturing piece leaves) ends as the exchange played out
/// afresh after every capture, from the same pieces and balance, whenever the side that
/// captured last is behind.
pub proof fn lemma_exchange_replayed(b: Board, to: int, occ: u64, side: int, balance: int)
    requires
        b.wf(),
        0 <= to < 64,
        balance < 0,
    ensures
        exchange_loser(
            b,
            to,
            b.piece_bits(3) | b.piece_bits(5),
            b.piece_bits(4) | b.piece_bits(5),
            occ,
            standing_attackers(b, to, occ),
            side,
            balance,
        ) == exchange_replayed(b, to, occ, side, balance),
    decreases occ,
{
    let attackers = standing_attackers(b, to, occ);
    let my = attackers & b.side_bits(side);
    if my != 0 {
        assert forall|j: int| 0 <= j < 64 && #[trigger] has_bit(my, j) implies has_bit(all_pieces(b), j) by {
            let jj = j as u64;
            lemma_bitwise(attackers, b.side_bits(side), jj);
            lemma_bitwise(all_attackers_bits(b, to, occ), occ, jj);
            lemma_attacker_bit(b, to, occ, j);
            lemma_bitwise(b.piece_bits(1) | b.piece_bits(2) | b.piece_bits(3) | b.piece_bits(4) | b.piece_bits(5), b.piece_bits(6), jj);
            lemma_bitwise(b.piece_bits(1) | b.piece_bits(2) | b.piece_bits(3) | b.piece_bits(4), b.piece_bits(5), jj);
            lemma_bitwise(b.piece_bits(1) | b.piece_bits(2) | b.piece_bits(3), b.piece_bits(4), jj);
            lemma_bitwise(b.piece_bits(1) | b.piece_bits(2), b.piece_bits(3), jj);
            lemma_bitwise(b.piece_bits(1), b.piece_bits(2), jj);
        }
        lemma_least_valuable(b, my);
        let victim = least_valuable_from(b, my, 1);
        let chosen = my & b.piece_bits(victim);
        crate::bitboard::lemma_clear_lowest(chosen);
        let sq = u64_trailing_zeros(chosen) as int;
        lemma_bitwise(my, b.piece_bits(victim), sq as u64);
        lemma_bitwise(attackers, b.side_bits(side), sq as u64);
        lemma_bitwise(all_attackers_bits(b, to, occ), occ, sq as u64);
        lemma_clear_smaller(occ, sq);
        let occ2 = occ ^ single_bit(sq);
        let bishops = b.piece_bits(3) | b.piece_bits(5);
        let rooks = b.piece_bits(4) | b.piece_bits(5);
        let a1 = if victim == 1 || victim == 3 || victim == 5 {
            attackers | (squares_mask(|j: int| bishop_attack(to, occ2, j), 64) & bishops)
        } else {
            attackers
        };
        let a2 = if victim == 4 || victim == 5 {
            a1 | (squares_mask(|j: int| rook_attack(to, occ2, j), 64) & rooks)
        } else {
            a1
        };
        let a3 = a2 & occ2;
        let balance2 = -balance - 1 - piece_value(victim);
        if victim != 6 {
            assert forall|j: int| 0 <= j < 64 implies has_bit(a3, j) == has_bit(standing_attackers(b, to, occ2), j) by {
                lemma_attacker_after_capture(b, to, occ, sq, victim, j);
            }
            lemma_bits_ext(a3, standing_attackers(b, to, occ2));
            if balance2 < 0 {
                lemma_exchange_replayed(b, to, occ2, 1 - side, balance2);
            }
        } else {
            assert(a3 == standing_attackers(b, to, occ) & occ2);
        }
        assert(exchange_loser(b, to, bishops, rooks, occ, attackers, side, balance) == if balance2 >= 0 {
            if victim == 6 && a3 & b.side_bits(1 - side) != 0 {
                side
            } else {
                1 - side
            }
        } else {
            exchange_loser(b, to, bishops, rooks, occ2, a3, 1 - side, balance2)
        });
    }
}

/// Whether the exchange that `mv` starts on its target square, played out afresh after
/// every capture, reaches `threshold` for the side to move: what the move wins on arrival,
/// less the threshold, is not negative, and either it stays so even when the moved piece
/// is lost, or the other side loses the exchange that follows once the move is made.
pub open spec fn replayed_exchange_beats(b: Board, mv: Move, threshold: int) -> bool {
    let to = mv.to_of();
    let balance0 = estimated_move_value(b, mv) - threshold;
    let balance1 = balance0 - piece_value(first_victim(b, mv));
    let occ0 = ((b.side_bits(0) | b.side_bits(1)) ^ single_bit(mv.from_of())) | single_bit(to);
    let occ1 = if mv.flags_of() == 0x5000u16 {
        occ0 ^ single_bit(b.en_passant@)
    } else {
        occ0
    };
    balance0 >= 0 && (balance1 >= 0 || b.side_to_move@ != exchange_replayed(b, to, occ1, 1 - b.side_to_move@, balance1))
}

/// The static exchange evaluation is the exchange played out afresh after every
/// capture: each recapture is made by the least valuable of all the pieces that then
/// attack the target square, sliders uncovered behind earlier captures included.
pub proof fn lemma_exchange_evaluation_replayed(b: Board, mv: Move, threshold: int)
    requires
        b.wf(),
    ensures
        exchange_beats(b, mv, threshold) == replayed_exchange_beats(b, mv, threshold),
{
    crate::core_structs::lemma_flag_words();
    let x = mv.value;
    assert(((x >> 6u16) & 63u16) < 64u16);
    let to = mv.to_of();
    let balance0 = estimated_move_value(b, mv) - threshold;
    let balance1 = balance0 - piece_value(first_victim(b, mv));
    let occ0 = ((b.side_bits(0) | b.side_bits(1)) ^ single_bit(mv.from_of())) | single_bit(to);
    let occ1 = if mv.flags_of() == 0x5000u16 {
        occ0 ^ single_bit(b.en_passant@)
    } else {
        occ0
    };
    if balance0 >= 0 && balance1 < 0 {
        lemma_exchange_replayed(b, to, occ1, 1 - b.side_to_move@, balance1);
    }
}

} // verus!
