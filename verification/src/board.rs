use vstd::prelude::*;

use crate::attacks::Attacks;
use crate::bitboard::{Bitboard, has_bit, lemma_bitwise, lemma_nonzero, single_bit};
use crate::geometry::{bishop_attack, king_attack, knight_attack, pawn_attack, ray, rook_attack};
use crate::rays::Ray;
use crate::core_structs::{CastleRights, Move, Piece, Side, Square};

verus! {

/// A chess position: one bitboard per kind of piece and one per side, the castling
/// rights, the checking pieces and the pinned lines of the side to move, the half-move
/// clock, the en passant square and the side to move.
#[derive(Copy, Clone)]
pub struct Board {
    pub pieces: [Bitboard; 6],
    pub piece_maps: [Bitboard; 2],
    pub castle_rights: CastleRights,
    pub checkers: Bitboard,
    pub ortographic_pins: Bitboard,
    pub diagonal_pins: Bitboard,
    pub half_moves: u8,
    pub en_passant: Square,
    pub side_to_move: Side,
}

impl Board {
    /// The squares of the pieces of kind `p` (1 to 6), of both sides.
    pub open spec fn piece_bits(&self, p: int) -> u64 {
        self.pieces[p - 1]@
    }

    /// The squares of the pieces of side `s`.
    pub open spec fn side_bits(&self, s: int) -> u64 {
        self.piece_maps[s]@
    }

    pub open spec fn occupied(&self, sq: int) -> bool {
        has_bit(self.side_bits(0), sq) || has_bit(self.side_bits(1), sq)
    }

    /// The kind of piece on `sq` (1 pawn to 6 king), 0 when there is none.
    pub open spec fn piece_at(&self, sq: int) -> int {
        if has_bit(self.piece_bits(1), sq) {
            1
        } else if has_bit(self.piece_bits(2), sq) {
            2
        } else if has_bit(self.piece_bits(3), sq) {
            3
        } else if has_bit(self.piece_bits(4), sq) {
            4
        } else if has_bit(self.piece_bits(5), sq) {
            5
        } else if has_bit(self.piece_bits(6), sq) {
            6
        } else {
            0
        }
    }

    /// The side of the piece on `sq`: 0 when white holds it, else 1.
    pub open spec fn color_at(&self, sq: int) -> int {
        if has_bit(self.side_bits(0), sq) {
            0
        } else {
            1
        }
    }

    /// Whether square `j` holds at most one kind of piece, at most one side, and a
    /// side exactly when it holds a piece.
    pub open spec fn square_wf(&self, j: int) -> bool {
        &&& !(has_bit(self.side_bits(0), j) && has_bit(self.side_bits(1), j))
        &&& (self.occupied(j) <==> self.piece_at(j) != 0)
        &&& forall|p: int|
            1 <= p <= 6 && #[trigger] has_bit(self.piece_bits(p), j) ==> p == self.piece_at(j)
    }

    pub open spec fn wf(&self) -> bool {
        &&& self.side_to_move.valid()
        &&& self.en_passant@ <= 64
        &&& forall|j: int| 0 <= j < 64 ==> #[trigger] self.square_wf(j)
    }

    /// An empty board, white to move.
    pub fn new() -> (r: Self)
        ensures
            r.wf(),
            forall|j: int| 0 <= j < 64 ==> !r.occupied(j),
            r.castle_rights@ == 0,
            r.half_moves == 0,
            r.en_passant@ == 64,
            r.side_to_move@ == 0,
            r.checkers@ == 0,
            r.ortographic_pins@ == 0,
            r.diagonal_pins@ == 0,
    {
        let r = Board {
            pieces: [Bitboard::empty(); 6],
            piece_maps: [Bitboard::empty(); 2],
            castle_rights: CastleRights::null(),
            checkers: Bitboard::empty(),
            ortographic_pins: Bitboard::empty(),
            diagonal_pins: Bitboard::empty(),
            half_moves: 0,
            en_passant: Square::null(),
            side_to_move: Side::white(),
        };
        proof {
            crate::bitboard::lemma_zero_bits();
            assert forall|j: int| 0 <= j < 64 implies #[trigger] r.square_wf(j) by {
                assert(forall|p: int| 1 <= p <= 6 ==> r.piece_bits(p) == 0u64);
                assert(r.side_bits(0) == 0u64 && r.side_bits(1) == 0u64);
            }
        }
        r
    }

    /// The squares of the pieces of kind `piece` of `side`.
    pub fn get_piece_mask(&self, piece: usize, side: Side) -> (r: Bitboard)
        requires
            1 <= piece <= 6,
            side.valid(),
        ensures
            r@ == self.piece_bits(piece as int) & self.side_bits(side@),
    {
        self.pieces[piece - 1].and(self.piece_maps[side.current()])
    }

    /// The squares of the pieces of kind `piece`, of both sides.
    pub fn get_piece_mask_for_both(&self, piece: usize) -> (r: Bitboard)
        requires
            1 <= piece <= 6,
        ensures
            r@ == self.piece_bits(piece as int),
    {
        self.pieces[piece - 1]
    }

    /// The squares of the pieces of `side`.
    pub fn get_occupancy_for_side(&self, side: Side) -> (r: Bitboard)
        requires
            side.valid(),
        ensures
            r@ == self.side_bits(side@),
    {
        self.piece_maps[side.current()]
    }

    pub fn get_occupancy(&self) -> (r: Bitboard)
        ensures
            r@ == self.side_bits(0) | self.side_bits(1),
    {
        self.piece_maps[0].or(self.piece_maps[1])
    }

    pub fn get_allied_occupancy(&self) -> (r: Bitboard)
        requires
            self.side_to_move.valid(),
        ensures
            r@ == self.side_bits(self.side_to_move@),
    {
        self.piece_maps[self.side_to_move.current()]
    }

    pub fn get_opponent_occupancy(&self) -> (r: Bitboard)
        requires
            self.side_to_move.valid(),
        ensures
            r@ == self.side_bits(1 - self.side_to_move@),
    {
        self.piece_maps[self.side_to_move.opposite()]
    }

    /// The lowest square holding a king of `color`; 64 when there is none.
    pub fn get_king_square(&self, color: Side) -> (r: Square)
        requires
            color.valid(),
        ensures
            r@ == vstd::std_specs::bits::u64_trailing_zeros(self.piece_bits(6) & self.side_bits(color@)),
    {
        self.get_piece_mask(Piece::KING, color).ls1b_square()
    }

    /// The kind and side of the piece on `square`; `(0, white)` when it is empty.
    pub fn get_piece_on_square(&self, square: Square) -> (r: (usize, Side))
        requires
            square.on_board(),
        ensures
            r.0 == self.piece_at(square@),
            r.1@ == if r.0 == 0 { 0 } else { self.color_at(square@) },
    {
        let mut piece_index: usize = 0;
        while piece_index < 6
            invariant
                square.on_board(),
                piece_index <= 6,
                forall|p: int| 1 <= p <= piece_index ==> !has_bit(self.piece_bits(p), square@),
            decreases 6 - piece_index,
        {
            if self.pieces[piece_index].get_bit(square) {
                return (piece_index + 1, self.get_piece_color_on_square(square));
            }
            piece_index += 1;
        }
        (0, Side::white())
    }

    fn get_piece_color_on_square(&self, square: Square) -> (r: Side)
        requires
            square.on_board(),
        ensures
            r@ == self.color_at(square@),
    {
        if self.piece_maps[0].get_bit(square) {
            Side::white()
        } else {
            Side::black()
        }
    }

    pub fn set_piece_on_square(&mut self, square: Square, side: Side, piece: usize)
        requires
            square.on_board(),
            side.valid(),
            1 <= piece <= 6,
        ensures
            forall|p: int| 1 <= p <= 6 ==> #[trigger] final(self).piece_bits(p) == if p == piece {
                old(self).piece_bits(p) | single_bit(square@)
            } else {
                old(self).piece_bits(p)
            },
            forall|s: int| 0 <= s <= 1 ==> #[trigger] final(self).side_bits(s) == if s == side@ {
                old(self).side_bits(s) | single_bit(square@)
            } else {
                old(self).side_bits(s)
            },
            final(self).castle_rights == old(self).castle_rights,
            final(self).checkers == old(self).checkers,
            final(self).ortographic_pins == old(self).ortographic_pins,
            final(self).diagonal_pins == old(self).diagonal_pins,
            final(self).half_moves == old(self).half_moves,
            final(self).en_passant == old(self).en_passant,
            final(self).side_to_move == old(self).side_to_move,
    {
        self.pieces[piece - 1].set_bit(square);
        self.piece_maps[side.current()].set_bit(square);
    }

    pub fn remove_piece_on_square(&mut self, square: Square, side: Side, piece: usize)
        requires
            square.on_board(),
            side.valid(),
            1 <= piece <= 6,
        ensures
            forall|p: int| 1 <= p <= 6 ==> #[trigger] final(self).piece_bits(p) == if p == piece {
                old(self).piece_bits(p) & !single_bit(square@)
            } else {
                old(self).piece_bits(p)
            },
            forall|s: int| 0 <= s <= 1 ==> #[trigger] final(self).side_bits(s) == if s == side@ {
                old(self).side_bits(s) & !single_bit(square@)
            } else {
                old(self).side_bits(s)
            },
            final(self).castle_rights == old(self).castle_rights,
            final(self).checkers == old(self).checkers,
            final(self).ortographic_pins == old(self).ortographic_pins,
            final(self).diagonal_pins == old(self).diagonal_pins,
            final(self).half_moves == old(self).half_moves,
            final(self).en_passant == old(self).en_passant,
            final(self).side_to_move == old(self).side_to_move,
    {
        self.pieces[piece - 1].pop_bit(square);
        self.piece_maps[side.current()].pop_bit(square);
    }

    pub fn is_in_check(&self) -> (r: bool)
        ensures
            r == (self.checkers@ != 0),
    {
        self.checkers.is_not_empty()
    }
}



impl Board {
    /// Whether a piece of `color` on `a` attacks `sq` when `occ` holds the blockers:
    /// a bishop or queen, a knight, a rook or queen, a pawn or a king on `a` that a piece
    /// of the same kind standing on `sq` would attack (a pawn of the other side, for pawns).
    pub open spec fn attacks_square_from(&self, a: int, sq: int, color: int, occ: u64) -> bool {
        has_bit(self.side_bits(color), a) && (((has_bit(self.piece_bits(3), a) || has_bit(
            self.piece_bits(5),
            a,
        )) && bishop_attack(sq, occ, a)) || (has_bit(self.piece_bits(2), a) && knight_attack(sq, a))
            || ((has_bit(self.piece_bits(4), a) || has_bit(self.piece_bits(5), a)) && rook_attack(
            sq,
            occ,
            a,
        )) || (has_bit(self.piece_bits(1), a) && pawn_attack(1 - color, sq, a)) || (has_bit(
            self.piece_bits(6),
            a,
        ) && king_attack(sq, a)))
    }

    /// Whether some piece of `color` attacks `sq` when `occ` holds the blockers.
    pub open spec fn square_attacked(&self, sq: int, color: int, occ: u64) -> bool {
        exists|a: int| 0 <= a < 64 && #[trigger] self.attacks_square_from(a, sq, color, occ)
    }

    pub open spec fn has_king(&self, color: int) -> bool {
        self.piece_bits(6) & self.side_bits(color) != 0
    }

    /// The square of the king of `color`.
    pub open spec fn king_square(&self, color: int) -> int {
        vstd::std_specs::bits::u64_trailing_zeros(self.piece_bits(6) & self.side_bits(color)) as int
    }

    /// The squares of the pieces of `attacker_color` that attack `square` when
    /// `occupancy_mask` holds the blockers.
    pub fn attackers_to(
        &self,
        attacks: &Attacks,
        square: Square,
        attacker_color: Side,
        occupancy_mask: Bitboard,
    ) -> (r: Bitboard)
        requires
            attacks.wf(),
            square.on_board(),
            attacker_color.valid(),
        ensures
            forall|a: int| 0 <= a < 64 ==> (r.contains(a) == self.attacks_square_from(a, square@, attacker_color@, occupancy_mask@)),
    {
        let bishops = self.get_piece_mask(Piece::BISHOP, attacker_color);
        let queens = self.get_piece_mask(Piece::QUEEN, attacker_color);
        let rooks = self.get_piece_mask(Piece::ROOK, attacker_color);
        let knights = self.get_piece_mask(Piece::KNIGHT, attacker_color);
        let pawns = self.get_piece_mask(Piece::PAWN, attacker_color);
        let kings = self.get_piece_mask(Piece::KING, attacker_color);
        let bishop_queen_mask = bishops.or(queens);
        let rook_queen_mask = rooks.or(queens);
        let a1 = attacks.get_bishop_attacks_for_square(square, occupancy_mask);
        let a2 = attacks.get_knight_attacks_for_square(square);
        let a3 = attacks.get_rook_attacks_for_square(square, occupancy_mask);
        let a4 = attacks.get_pawn_attacks_for_square(square, attacker_color.flipped());
        let a5 = attacks.get_king_attacks_for_square(square);
        let t1 = a1.and(bishop_queen_mask);
        let t2 = a2.and(knights);
        let t3 = a3.and(rook_queen_mask);
        let t4 = a4.and(pawns);
        let t5 = a5.and(kings);
        let all = t1.or(t2).or(t3).or(t4).or(t5);
        proof {
            let sq = square@;
            let c = attacker_color@;
            let occ = occupancy_mask@;
            assert forall|a: int| 0 <= a < 64 implies has_bit(all@, a) == self.attacks_square_from(
                a,
                sq,
                c,
                occ,
            ) by {
                let aa = a as u64;
                lemma_bitwise(t1@ | t2@ | t3@ | t4@, t5@, aa);
                lemma_bitwise(t1@ | t2@ | t3@, t4@, aa);
                lemma_bitwise(t1@ | t2@, t3@, aa);
                lemma_bitwise(t1@, t2@, aa);
                lemma_bitwise(a1@, bishop_queen_mask@, aa);
                lemma_bitwise(a2@, knights@, aa);
                lemma_bitwise(a3@, rook_queen_mask@, aa);
                lemma_bitwise(a4@, pawns@, aa);
                lemma_bitwise(a5@, kings@, aa);
                lemma_bitwise(bishops@, queens@, aa);
                lemma_bitwise(rooks@, queens@, aa);
                lemma_bitwise(self.piece_bits(3), self.side_bits(c), aa);
                lemma_bitwise(self.piece_bits(4), self.side_bits(c), aa);
                lemma_bitwise(self.piece_bits(5), self.side_bits(c), aa);
                lemma_bitwise(self.piece_bits(2), self.side_bits(c), aa);
                lemma_bitwise(self.piece_bits(1), self.side_bits(c), aa);
                lemma_bitwise(self.piece_bits(6), self.side_bits(c), aa);
                assert(a1.contains(a) == bishop_attack(sq, occ, a));
                assert(a2.contains(a) == knight_attack(sq, a));
                assert(a3.contains(a) == rook_attack(sq, occ, a));
                assert(a4.contains(a) == pawn_attack(1 - c, sq, a));
                assert(a5.contains(a) == king_attack(sq, a));
            }
        }
        all
    }

    /// Whether a piece of `attacker_color` attacks `square` when `occupancy_mask` holds
    /// the blockers.
    pub fn is_square_attacked_extended(
        &self,
        attacks: &Attacks,
        square: Square,
        attacker_color: Side,
        occupancy_mask: Bitboard,
    ) -> (r: bool)
        requires
            attacks.wf(),
            square.on_board(),
            attacker_color.valid(),
        ensures
            r == self.square_attacked(square@, attacker_color@, occupancy_mask@),
    {
        let all = self.attackers_to(attacks, square, attacker_color, occupancy_mask);
        proof {
            let sq = square@;
            let c = attacker_color@;
            let occ = occupancy_mask@;
            lemma_nonzero(all@);
            if self.square_attacked(sq, c, occ) {
                let a = choose|a: int| 0 <= a < 64 && #[trigger] self.attacks_square_from(a, sq, c, occ);
                assert(all.contains(a));
            }
            if all@ != 0 {
                let a = choose|j: int| 0 <= j < 64 && #[trigger] has_bit(all@, j);
                assert(all.contains(a));
            }
        }
        all.is_not_empty()
    }

    /// Whether a piece of `attacker_color` attacks `square` on this board.
    pub fn is_square_attacked(&self, attacks: &Attacks, square: Square, attacker_color: Side) -> (r: bool)
        requires
            attacks.wf(),
            square.on_board(),
            attacker_color.valid(),
        ensures
            r == self.square_attacked(square@, attacker_color@, self.side_bits(0) | self.side_bits(1)),
    {
        self.is_square_attacked_extended(attacks, square, attacker_color, self.get_occupancy())
    }

    /// Whether a piece of `attacker_color` attacks one of `squares` on this board.
    pub fn any_squares_attacked(&self, attacks: &Attacks, squares: Bitboard, attacker_color: Side) -> (r: bool)
        requires
            attacks.wf(),
            attacker_color.valid(),
        ensures
            r == exists|j: int|
                0 <= j < 64 && #[trigger] squares.contains(j) && self.square_attacked(
                    j,
                    attacker_color@,
                    self.side_bits(0) | self.side_bits(1),
                ),
    {
        let ghost occ = self.side_bits(0) | self.side_bits(1);
        let mut remaining = squares;
        while remaining.is_not_empty()
            invariant
                attacks.wf(),
                attacker_color.valid(),
                occ == self.side_bits(0) | self.side_bits(1),
                forall|j: int| 0 <= j < 64 && #[trigger] remaining.contains(j) ==> squares.contains(j),
                forall|j: int|
                    0 <= j < 64 && #[trigger] squares.contains(j) && !remaining.contains(j) ==> !self.square_attacked(
                        j,
                        attacker_color@,
                        occ,
                    ),
            decreases remaining@,
        {
            let ghost before = remaining;
            let square = remaining.pop_ls1b_square();
            proof {
                assert forall|j: int| 0 <= j < 64 implies remaining.contains(j) == (before.contains(j) && j != square@) by {
                    crate::bitboard::lemma_single_bit_update(before@, square@ as u64, j as u64);
                }
            }
            if self.is_square_attacked(attacks, square, attacker_color) {
                return true;
            }
        }
        proof {
            crate::bitboard::lemma_zero_bits();
        }
        false
    }
}



impl Board {
    /// Whether `j` holds a piece of the other side that attacks the king of the side to
    /// move.
    pub open spec fn is_checker(&self, j: int) -> bool {
        self.attacks_square_from(
            j,
            self.king_square(self.side_to_move@),
            1 - self.side_to_move@,
            self.side_bits(0) | self.side_bits(1),
        )
    }

    /// Whether exactly one piece of the side to move stands on the ray from the king of
    /// the side to move to `p`.
    pub open spec fn one_allied_on_ray(&self, p: int) -> bool {
        one_allied_on_ray_at(self.king_square(self.side_to_move@), self.side_bits(self.side_to_move@), p)
    }

    /// Whether `p` holds a piece of the other side that could pin along lines
    /// (`orthogonal`) or diagonals: a rook or queen (bishop or queen) that a rook (bishop)
    /// on the king's square sees when only pieces of the other side block.
    pub open spec fn potential_pinner(&self, orthogonal: bool, p: int) -> bool {
        potential_pinner_at(
            orthogonal,
            self.king_square(self.side_to_move@),
            self.side_bits(1 - self.side_to_move@),
            self.piece_bits(if orthogonal { 4 } else { 3 }),
            self.piece_bits(5),
            p,
        )
    }

    /// Whether `j` lies on the ray from the king of the side to move to a pinning piece
    /// on `p`: a potential pinner with exactly one piece of the side to move between.
    pub open spec fn pin_line(&self, orthogonal: bool, p: int, j: int) -> bool {
        pin_line_at(
            orthogonal,
            self.king_square(self.side_to_move@),
            self.side_bits(self.side_to_move@),
            self.side_bits(1 - self.side_to_move@),
            self.piece_bits(if orthogonal { 4 } else { 3 }),
            self.piece_bits(5),
            p,
            j,
        )
    }

    pub open spec fn is_pinned_square(&self, orthogonal: bool, j: int) -> bool {
        pinned_square_at(
            orthogonal,
            self.king_square(self.side_to_move@),
            self.side_bits(self.side_to_move@),
            self.side_bits(1 - self.side_to_move@),
            self.piece_bits(if orthogonal { 4 } else { 3 }),
            self.piece_bits(5),
            j,
        )
    }

    /// Whether the checkers and the pin masks are those of the position.
    pub open spec fn derived_ok(&self) -> bool {
        &&& forall|j: int| 0 <= j < 64 ==> (#[trigger] self.checkers.contains(j) == self.is_checker(j))
        &&& forall|j: int|
            0 <= j < 64 ==> (#[trigger] self.ortographic_pins.contains(j) == self.is_pinned_square(true, j))
        &&& forall|j: int|
            0 <= j < 64 ==> (#[trigger] self.diagonal_pins.contains(j) == self.is_pinned_square(false, j))
    }
}

/// Whether exactly one square of `allied` lies on the ray from `k` to `p`.
pub open spec fn one_allied_on_ray_at(k: int, allied: u64, p: int) -> bool {
    exists|i: int|
        0 <= i < 64 && #[trigger] ray(k, p, i) && has_bit(allied, i) && forall|j: int|
            0 <= j < 64 && ray(k, p, j) && has_bit(allied, j) ==> j == i
}

/// Whether `p` holds a piece of `opp_occ` among `sliders` or `queens` that a rook
/// (`orthogonal`) or bishop on `k` sees when only `opp_occ` blocks.
pub open spec fn potential_pinner_at(
    orthogonal: bool,
    k: int,
    opp_occ: u64,
    sliders: u64,
    queens: u64,
    p: int,
) -> bool {
    has_bit(opp_occ, p) && (has_bit(sliders, p) || has_bit(queens, p)) && if orthogonal {
        rook_attack(k, opp_occ, p)
    } else {
        bishop_attack(k, opp_occ, p)
    }
}

pub open spec fn pin_line_at(
    orthogonal: bool,
    k: int,
    allied: u64,
    opp_occ: u64,
    sliders: u64,
    queens: u64,
    p: int,
    j: int,
) -> bool {
    potential_pinner_at(orthogonal, k, opp_occ, sliders, queens, p) && one_allied_on_ray_at(k, allied, p)
        && ray(k, p, j)
}

pub open spec fn pinned_square_at(
    orthogonal: bool,
    k: int,
    allied: u64,
    opp_occ: u64,
    sliders: u64,
    queens: u64,
    j: int,
) -> bool {
    exists|p: int| 0 <= p < 64 && #[trigger] pin_line_at(orthogonal, k, allied, opp_occ, sliders, queens, p, j)
}

impl Attacks {
    /// The pieces of the other side that attack the king of the side to move.
    pub fn generate_checkers_mask(&self, board: &Board) -> (r: Bitboard)
        requires
            self.wf(),
            board.side_to_move.valid(),
            board.has_king(board.side_to_move@),
        ensures
            forall|j: int| 0 <= j < 64 ==> (r.contains(j) == board.is_checker(j)),
    {
        let occupancy_mask = board.get_occupancy();
        let square = board.get_king_square(board.side_to_move);
        proof {
            crate::bitboard::lemma_clear_lowest(board.piece_bits(6) & board.side_bits(board.side_to_move@));
        }
        let attacker_color = board.side_to_move.flipped();
        board.attackers_to(self, square, attacker_color, occupancy_mask)
    }

    /// The lines from the king of the side to move to the rooks and queens of the other
    /// side that pin a piece of the side to move.
    pub fn generate_ortographic_pins_mask(&self, board: &Board) -> (r: Bitboard)
        requires
            self.wf(),
            board.side_to_move.valid(),
            board.has_king(board.side_to_move@),
        ensures
            forall|j: int| 0 <= j < 64 ==> (r.contains(j) == board.is_pinned_square(true, j)),
    {
        self.pins_mask(board, true)
    }

    /// The lines from the king of the side to move to the bishops and queens of the other
    /// side that pin a piece of the side to move.
    pub fn generate_diagonal_pins_mask(&self, board: &Board) -> (r: Bitboard)
        requires
            self.wf(),
            board.side_to_move.valid(),
            board.has_king(board.side_to_move@),
        ensures
            forall|j: int| 0 <= j < 64 ==> (r.contains(j) == board.is_pinned_square(false, j)),
    {
        self.pins_mask(board, false)
    }

    fn pins_mask(&self, board: &Board, orthogonal: bool) -> (r: Bitboard)
        requires
            self.wf(),
            board.side_to_move.valid(),
            board.has_king(board.side_to_move@),
        ensures
            forall|j: int| 0 <= j < 64 ==> (r.contains(j) == board.is_pinned_square(orthogonal, j)),
    {
        let ghost stm = board.side_to_move@;
        let attacker_color = board.side_to_move.flipped();
        let king_square = board.get_king_square(board.side_to_move);
        proof {
            crate::bitboard::lemma_clear_lowest(board.piece_bits(6) & board.side_bits(stm));
        }
        let ghost k = king_square@;
        let relevant_pieces = if orthogonal {
            board.get_piece_mask(Piece::ROOK, attacker_color).or(board.get_piece_mask(Piece::QUEEN, attacker_color))
        } else {
            board.get_piece_mask(Piece::BISHOP, attacker_color).or(board.get_piece_mask(Piece::QUEEN, attacker_color))
        };
        let opponent = board.get_opponent_occupancy();
        let sliding = if orthogonal {
            self.get_rook_attacks_for_square(king_square, opponent)
        } else {
            self.get_bishop_attacks_for_square(king_square, opponent)
        };
        let potential_pinners = sliding.and(relevant_pieces);
        let allied = board.get_allied_occupancy();
        proof {
            assert forall|p: int| 0 <= p < 64 implies potential_pinners.contains(p) == board.potential_pinner(orthogonal, p) by {
                let pp = p as u64;
                lemma_bitwise(sliding@, relevant_pieces@, pp);
                lemma_bitwise(board.piece_bits(3) & board.side_bits(1 - stm), board.piece_bits(5) & board.side_bits(1 - stm), pp);
                lemma_bitwise(board.piece_bits(4) & board.side_bits(1 - stm), board.piece_bits(5) & board.side_bits(1 - stm), pp);
                lemma_bitwise(board.piece_bits(3), board.side_bits(1 - stm), pp);
                lemma_bitwise(board.piece_bits(4), board.side_bits(1 - stm), pp);
                lemma_bitwise(board.piece_bits(5), board.side_bits(1 - stm), pp);
                assert(sliding.contains(p) == if orthogonal { rook_attack(k, opponent@, p) } else { bishop_attack(k, opponent@, p) });
            }
        }
        let mut pin_mask = Bitboard::empty();
        let mut remaining = potential_pinners;
        proof {
            crate::bitboard::lemma_zero_bits();
        }
        while remaining.is_not_empty()
            invariant
                self.wf(),
                board.side_to_move.valid(),
                stm == board.side_to_move@,
                k == king_square@,
                k == board.king_square(stm),
                king_square.on_board(),
                allied@ == board.side_bits(stm),
                forall|p: int| 0 <= p < 64 ==> potential_pinners.contains(p) == board.potential_pinner(orthogonal, p),
                forall|p: int| 0 <= p < 64 && #[trigger] remaining.contains(p) ==> potential_pinners.contains(p),
                forall|j: int|
                    0 <= j < 64 ==> (#[trigger] pin_mask.contains(j) <==> exists|p: int|
                        0 <= p < 64 && potential_pinners.contains(p) && !remaining.contains(p)
                            && #[trigger] board.pin_line(orthogonal, p, j)),
            decreases remaining@,
        {
            let ghost before = remaining;
            let ghost old_mask = pin_mask;
            let potential_pinner = remaining.pop_ls1b_square();
            let ghost p0 = potential_pinner@;
            proof {
                assert forall|p: int| 0 <= p < 64 implies remaining.contains(p) == (before.contains(p) && p != p0) by {
                    crate::bitboard::lemma_single_bit_update(before@, p0 as u64, p as u64);
                }
            }
            let ray_bits = Ray::get_ray(king_square, potential_pinner);
            let on_ray = ray_bits.and(allied);
            let pins = on_ray.only_one_bit();
            proof {
                crate::bitboard::lemma_one_bit(on_ray@);
                assert forall|i: int| 0 <= i < 64 implies has_bit(on_ray@, i) == (ray(k, p0, i) && has_bit(board.side_bits(stm), i)) by {
                    lemma_bitwise(ray_bits@, allied@, i as u64);
                    assert(ray_bits.contains(i) == ray(k, p0, i));
                }
                if pins {
                    let i = choose|i: int|
                        0 <= i < 64 && #[trigger] has_bit(on_ray@, i) && forall|j: int| 0 <= j < 64 && has_bit(on_ray@, j) ==> j == i;
                    assert(ray(k, p0, i));
                    assert(board.one_allied_on_ray(p0));
                } else if board.one_allied_on_ray(p0) {
                    let i = choose|i: int|
                        0 <= i < 64 && #[trigger] ray(k, p0, i) && has_bit(board.side_bits(stm), i) && forall|j: int|
                            0 <= j < 64 && ray(k, p0, j) && has_bit(board.side_bits(stm), j) ==> j == i;
                    assert(has_bit(on_ray@, i));
                }
            }
            if pins {
                pin_mask.mut_or(ray_bits);
            }
            proof {
                assert forall|j: int| 0 <= j < 64 implies (#[trigger] pin_mask.contains(j) <==> exists|p: int|
                    0 <= p < 64 && potential_pinners.contains(p) && !remaining.contains(p)
                        && #[trigger] board.pin_line(orthogonal, p, j)) by {
                    lemma_bitwise(old_mask@, ray_bits@, j as u64);
                    assert(ray_bits.contains(j) == ray(k, p0, j));
                    if pin_mask.contains(j) {
                        if old_mask.contains(j) {
                            let p = choose|p: int|
                                0 <= p < 64 && potential_pinners.contains(p) && !before.contains(p)
                                    && #[trigger] board.pin_line(orthogonal, p, j);
                            assert(!remaining.contains(p));
                        } else {
                            assert(board.pin_line(orthogonal, p0, j));
                        }
                    }
                    if exists|p: int|
                        0 <= p < 64 && potential_pinners.contains(p) && !remaining.contains(p)
                            && #[trigger] board.pin_line(orthogonal, p, j) {
                        let p = choose|p: int|
                            0 <= p < 64 && potential_pinners.contains(p) && !remaining.contains(p)
                                && #[trigger] board.pin_line(orthogonal, p, j);
                        if p != p0 {
                            assert(old_mask.contains(j));
                        }
                    }
                }
            }
        }
        proof {
            let sl = board.piece_bits(if orthogonal { 4 } else { 3 });
            assert forall|j: int| 0 <= j < 64 implies (pin_mask.contains(j) == board.is_pinned_square(orthogonal, j)) by {
                if board.is_pinned_square(orthogonal, j) {
                    let p = choose|p: int| 0 <= p < 64 && #[trigger] pin_line_at(
                        orthogonal,
                        board.king_square(stm),
                        board.side_bits(stm),
                        board.side_bits(1 - stm),
                        sl,
                        board.piece_bits(5),
                        p,
                        j,
                    );
                    assert(board.pin_line(orthogonal, p, j));
                    assert(potential_pinners.contains(p));
                    assert(!remaining.contains(p));
                }
                if pin_mask.contains(j) {
                    let p = choose|p: int|
                        0 <= p < 64 && potential_pinners.contains(p) && !remaining.contains(p)
                            && #[trigger] board.pin_line(orthogonal, p, j);
                    assert(pin_line_at(
                        orthogonal,
                        board.king_square(stm),
                        board.side_bits(stm),
                        board.side_bits(1 - stm),
                        board.piece_bits(if orthogonal { 4 } else { 3 }),
                        board.piece_bits(5),
                        p,
                        j,
                    ));
                }
            }
        }
        pin_mask
    }
}



pub open spec fn without_square(x: u64, sq: int) -> u64 {
    x & !single_bit(sq)
}

pub open spec fn with_square(x: u64, sq: int) -> u64 {
    x | single_bit(sq)
}

pub open spec fn without_right(r: u8, right: int) -> u8 {
    r & !(1u8 << (right as u8))
}

/// The square of the piece a move captures: behind the target square for en passant.
pub open spec fn captured_square(mv: Move) -> int {
    let to = (mv.value >> 6u16) & 63u16;
    (if mv.flags_of() == 0x5000u16 {
        to ^ 8u16
    } else {
        to
    }) as int
}

pub open spec fn is_castle(mv: Move) -> bool {
    mv.flags_of() == 0x2000u16 || mv.flags_of() == 0x3000u16
}

/// The square a castling rook leaves, for the side `stm`.
pub open spec fn castle_rook_from(mv: Move, stm: int) -> int {
    if mv.flags_of() == 0x2000u16 {
        7 + 56 * stm
    } else {
        56 * stm
    }
}

/// The square a castling rook reaches, for the side `stm`.
pub open spec fn castle_rook_to(mv: Move, stm: int) -> int {
    if mv.flags_of() == 0x2000u16 {
        5 + 56 * stm
    } else {
        3 + 56 * stm
    }
}

impl Board {
    /// The kind of the moving piece.
    pub open spec fn mover_kind(&self, mv: Move) -> int {
        self.piece_at(mv.from_of())
    }

    /// The side of the moving piece.
    pub open spec fn mover_color(&self, mv: Move) -> int {
        self.color_at(mv.from_of())
    }

    /// The kind the moving piece has on arrival: the promotion piece for a promotion.
    pub open spec fn arrival_kind(&self, mv: Move) -> int {
        if mv.value & 0x8000u16 != 0 {
            ((mv.value >> 12u16) & 3u16) + 2
        } else {
            self.mover_kind(mv)
        }
    }

    /// The squares of the pieces of kind `p` after `mv`: the moving piece leaves its
    /// square, the captured piece leaves its square, the arriving piece takes the target
    /// square, and for a castle the rook goes from its corner to beside the king.
    pub open spec fn moved_piece_bits(&self, mv: Move, p: int) -> u64 {
        let from = mv.from_of();
        let to = mv.to_of();
        let ts = captured_square(mv);
        let tk = self.piece_at(ts);
        let stm = self.side_to_move@;
        let x0 = self.piece_bits(p);
        let x1 = if p == self.mover_kind(mv) { without_square(x0, from) } else { x0 };
        let x2 = if tk != 0 && p == tk { without_square(x1, ts) } else { x1 };
        let x3 = if p == self.arrival_kind(mv) { with_square(x2, to) } else { x2 };
        if is_castle(mv) && p == 4 {
            with_square(without_square(x3, castle_rook_from(mv, stm)), castle_rook_to(mv, stm))
        } else {
            x3
        }
    }

    /// The squares of the pieces of side `s` after `mv`, by the same steps.
    pub open spec fn moved_side_bits(&self, mv: Move, s: int) -> u64 {
        let from = mv.from_of();
        let to = mv.to_of();
        let ts = captured_square(mv);
        let tk = self.piece_at(ts);
        let tc = self.color_at(ts);
        let mc = self.mover_color(mv);
        let stm = self.side_to_move@;
        let x0 = self.side_bits(s);
        let x1 = if s == mc { without_square(x0, from) } else { x0 };
        let x2 = if tk != 0 && s == tc { without_square(x1, ts) } else { x1 };
        let x3 = if s == mc { with_square(x2, to) } else { x2 };
        if is_castle(mv) && s == mc {
            with_square(without_square(x3, castle_rook_from(mv, stm)), castle_rook_to(mv, stm))
        } else {
            x3
        }
    }

    /// The castling rights after `mv`: a castle or a king move gives up both rights of
    /// the side to move, a rook leaving its corner gives up that corner's right, and a
    /// rook captured on its corner takes the other side's right of that corner.
    pub open spec fn moved_rights(&self, mv: Move) -> u8 {
        let stm = self.side_to_move@;
        let opp = 1 - stm;
        let from = mv.from_of();
        let to = mv.to_of();
        let mk = self.mover_kind(mv);
        let tk = self.piece_at(captured_square(mv));
        let r0 = self.castle_rights@;
        let r1 = if is_castle(mv) {
            without_right(without_right(r0, 2 * stm), 2 * stm + 1)
        } else {
            r0
        };
        let r2 = if mk == 6 {
            without_right(without_right(r1, 2 * stm), 2 * stm + 1)
        } else if mk == 4 && from == 7 + 56 * stm {
            without_right(r1, 2 * stm)
        } else if mk == 4 && from == 56 * stm {
            without_right(r1, 2 * stm + 1)
        } else {
            r1
        };
        if tk == 4 && to == 7 + 56 * opp {
            without_right(r2, 2 * opp)
        } else if tk == 4 && to == 56 * opp {
            without_right(r2, 2 * opp + 1)
        } else {
            r2
        }
    }
}



impl Board {
    fn remove_castle_rights(&mut self, castle_rights_offset: u8)
        requires
            castle_rights_offset <= 2,
        ensures
            final(self).castle_rights@ == without_right(
                without_right(old(self).castle_rights@, castle_rights_offset as int),
                castle_rights_offset + 1,
            ),
            final(self).pieces == old(self).pieces,
            final(self).piece_maps == old(self).piece_maps,
            final(self).side_to_move == old(self).side_to_move,
            final(self).en_passant == old(self).en_passant,
            final(self).half_moves == old(self).half_moves,
    {
        self.castle_rights.remove_right(CastleRights::WHITE_KING + castle_rights_offset);
        self.castle_rights.remove_right(CastleRights::WHITE_QUEEN + castle_rights_offset);
    }

    /// Moves the pieces for `mv`: the moving piece, the captured piece, and the rook
    /// of a castle.
    fn move_pieces(&mut self, mv: Move) -> (r: ((usize, Side), (usize, Side)))
        requires
            old(self).wf(),
            old(self).piece_at(mv.from_of()) != 0,
        ensures
            forall|p: int| 1 <= p <= 6 ==> #[trigger] final(self).piece_bits(p) == old(self).moved_piece_bits(mv, p),
            forall|s: int| 0 <= s <= 1 ==> #[trigger] final(self).side_bits(s) == old(self).moved_side_bits(mv, s),
            final(self).castle_rights@ == if is_castle(mv) {
                without_right(without_right(old(self).castle_rights@, 2 * old(self).side_to_move@), 2 * old(self).side_to_move@ + 1)
            } else {
                old(self).castle_rights@
            },
            final(self).side_to_move == old(self).side_to_move,
            final(self).en_passant == old(self).en_passant,
            final(self).half_moves == old(self).half_moves,
            r.0.0 == old(self).mover_kind(mv),
            r.1.0 == old(self).piece_at(captured_square(mv)),
    {
        let ghost b0 = *self;
        let from_square = mv.get_from_square();
        let to_square = mv.get_to_square();
        let moving_piece = self.get_piece_on_square(from_square);
        let target_piece_square = if mv.is_en_passant() {
            to_square.xor(8)
        } else {
            to_square
        };
        proof {
            let t = (mv.value >> 6u16) & 63u16;
            assert(t ^ 8u16 < 64 && (t as usize ^ 8usize) == (t ^ 8u16) as usize) by (bit_vector)
                requires
                    t < 64,
            ;
            assert(target_piece_square@ == captured_square(mv));
        }
        let target_piece = self.get_piece_on_square(target_piece_square);
        let castle_rights_offset = (self.side_to_move.current() * 2) as u8;
        let square_value_offset = self.side_to_move.current() * 56;

        self.remove_piece_on_square(from_square, moving_piece.1, moving_piece.0);
        proof {
            let mk = b0.mover_kind(mv);
            assert(moving_piece.0 == mk);
            assert forall|p: int| 1 <= p <= 6 implies #[trigger] self.piece_bits(p) == (if p == mk { without_square(b0.piece_bits(p), mv.from_of()) } else { b0.piece_bits(p) }) by {}
        }
        if target_piece.0 != Piece::NONE {
            self.remove_piece_on_square(target_piece_square, target_piece.1, target_piece.0);
        }
        let destination_piece = if mv.is_promotion() {
            mv.get_promotion_piece()
        } else {
            moving_piece.0
        };
        proof {
            let mk = b0.mover_kind(mv);
            let ts = captured_square(mv);
            let tk = b0.piece_at(ts);
            assert forall|p: int| 1 <= p <= 6 implies #[trigger] self.piece_bits(p) == (if tk != 0 && p == tk { without_square((if p == mk { without_square(b0.piece_bits(p), mv.from_of()) } else { b0.piece_bits(p) }), ts) } else { (if p == mk { without_square(b0.piece_bits(p), mv.from_of()) } else { b0.piece_bits(p) }) }) by {}
        }
        self.set_piece_on_square(to_square, moving_piece.1, destination_piece);
        proof {
            let mk = b0.mover_kind(mv);
            let ts = captured_square(mv);
            let tk = b0.piece_at(ts);
            assert(destination_piece == b0.arrival_kind(mv));
            assert forall|p: int| 1 <= p <= 6 && !(is_castle(mv) && p == 4) implies #[trigger] self.piece_bits(p) == b0.moved_piece_bits(mv, p) by {}
        }
        let ghost b3 = *self;

        if mv.is_king_castle() || mv.is_queen_castle() {
            let rook_position = if mv.is_king_castle() {
                Square::from_raw(7).add(square_value_offset)
            } else {
                Square::from_raw(0).add(square_value_offset)
            };
            let rook_destination = if mv.is_king_castle() {
                Square::from_raw(5).add(square_value_offset)
            } else {
                Square::from_raw(3).add(square_value_offset)
            };
            let ghost rf = castle_rook_from(mv, b0.side_to_move@);
            let ghost rt = castle_rook_to(mv, b0.side_to_move@);
            let ghost mc = b0.mover_color(mv);
            assert(rook_position@ == rf);
            assert(rook_destination@ == rt);
            self.remove_piece_on_square(rook_position, moving_piece.1, Piece::ROOK);
            let ghost b4 = *self;
            assert(self.piece_bits(4) == without_square(b3.piece_bits(4), rf));
            assert(self.side_bits(mc) == without_square(b3.side_bits(mc), rf));
            self.set_piece_on_square(rook_destination, moving_piece.1, Piece::ROOK);
            let ghost b5 = *self;
            assert(self.piece_bits(4) == with_square(without_square(b3.piece_bits(4), rf), rt));
            assert(self.side_bits(mc) == with_square(without_square(b3.side_bits(mc), rf), rt));
            self.remove_castle_rights(castle_rights_offset);
            proof {
                assert(self.piece_bits(4) == with_square(without_square(b3.piece_bits(4), rf), rt));
                assert forall|p: int| 1 <= p <= 6 && p != 4 implies #[trigger] self.piece_bits(p) == b3.piece_bits(p) by {
                    assert(b4.piece_bits(p) == b3.piece_bits(p));
                    assert(b5.piece_bits(p) == b4.piece_bits(p));
                }
                assert(self.side_bits(mc) == with_square(without_square(b3.side_bits(mc), rf), rt));
                assert forall|s: int| 0 <= s <= 1 && s != mc implies #[trigger] self.side_bits(s) == b3.side_bits(s) by {
                    assert(b4.side_bits(s) == b3.side_bits(s));
                    assert(b5.side_bits(s) == b4.side_bits(s));
                }
            }
        }
        proof {
            assert forall|p: int| 1 <= p <= 6 implies #[trigger] self.piece_bits(p) == b0.moved_piece_bits(mv, p) by {}
            assert forall|s: int| 0 <= s <= 1 implies #[trigger] self.side_bits(s) == b0.moved_side_bits(mv, s) by {}
        }
        (moving_piece, target_piece)
    }


    /// Whether `next` is this board once `mv` is played: the pieces moved, the castling
    /// rights, en passant square and half-move clock updated, the turn passed, and the
    /// checkers and pins those of the new position.
    pub open spec fn moves_to(&self, mv: Move, next: Board) -> bool {
        &&& forall|p: int| 1 <= p <= 6 ==> #[trigger] next.piece_bits(p) == self.moved_piece_bits(mv, p)
        &&& forall|s: int| 0 <= s <= 1 ==> #[trigger] next.side_bits(s) == self.moved_side_bits(mv, s)
        &&& next.castle_rights@ == self.moved_rights(mv)
        &&& next.en_passant@ == if mv.flags_of() == 0x1000u16 {
            (mv.from_of() as u64 ^ 24u64) as int
        } else {
            64
        }
        &&& next.half_moves == if mv.value & 0x4000u16 != 0 || self.mover_kind(mv) == 1 {
            0
        } else {
            self.half_moves + 1
        }
        &&& next.side_to_move@ == 1 - self.side_to_move@
        &&& next.derived_ok()
    }

    /// The board once `mv` is played.
    pub open spec fn after(&self, mv: Move) -> Board {
        choose|next: Board| self.moves_to(mv, next)
    }

    /// A move played on a board gives at most one board.
    pub proof fn lemma_moves_to_unique(&self, mv: Move, n1: Board, n2: Board)
        requires
            self.moves_to(mv, n1),
            self.moves_to(mv, n2),
        ensures
            n1 == n2,
    {
        assert forall|i: int| 0 <= i < 6 implies n1.pieces[i] == n2.pieces[i] by {
            assert(n1.piece_bits(i + 1) == n2.piece_bits(i + 1));
            n1.pieces[i].lemma_view_injective(n2.pieces[i]);
        }
        assert(n1.pieces =~= n2.pieces);
        assert forall|i: int| 0 <= i < 2 implies n1.piece_maps[i] == n2.piece_maps[i] by {
            assert(n1.side_bits(i) == n2.side_bits(i));
            n1.piece_maps[i].lemma_view_injective(n2.piece_maps[i]);
        }
        assert(n1.piece_maps =~= n2.piece_maps);
        n1.castle_rights.lemma_view_injective(n2.castle_rights);
        n1.en_passant.lemma_view_injective(n2.en_passant);
        n1.side_to_move.lemma_view_injective(n2.side_to_move);
        assert forall|j: int| 0 <= j < 64 implies has_bit(n1.checkers@, j) == has_bit(n2.checkers@, j) by {
            assert(n1.is_checker(j) == n2.is_checker(j));
            assert(n1.checkers.contains(j) == n1.is_checker(j));
            assert(n2.checkers.contains(j) == n2.is_checker(j));
        }
        crate::bitboard::lemma_bits_ext(n1.checkers@, n2.checkers@);
        n1.checkers.lemma_view_injective(n2.checkers);
        assert forall|j: int| 0 <= j < 64 implies has_bit(n1.ortographic_pins@, j) == has_bit(n2.ortographic_pins@, j) by {
            assert(n1.is_pinned_square(true, j) == n2.is_pinned_square(true, j));
            assert(n1.ortographic_pins.contains(j) == n1.is_pinned_square(true, j));
            assert(n2.ortographic_pins.contains(j) == n2.is_pinned_square(true, j));
        }
        crate::bitboard::lemma_bits_ext(n1.ortographic_pins@, n2.ortographic_pins@);
        n1.ortographic_pins.lemma_view_injective(n2.ortographic_pins);
        assert forall|j: int| 0 <= j < 64 implies has_bit(n1.diagonal_pins@, j) == has_bit(n2.diagonal_pins@, j) by {
            assert(n1.is_pinned_square(false, j) == n2.is_pinned_square(false, j));
            assert(n1.diagonal_pins.contains(j) == n1.is_pinned_square(false, j));
            assert(n2.diagonal_pins.contains(j) == n2.is_pinned_square(false, j));
        }
        crate::bitboard::lemma_bits_ext(n1.diagonal_pins@, n2.diagonal_pins@);
        n1.diagonal_pins.lemma_view_injective(n2.diagonal_pins);
    }

    /// Plays `mv`: moves the pieces, updates the castling rights, the en passant
    /// square and the half-move clock, passes the turn, and recomputes the checkers and
    /// the pins of the side that is now to move.
    pub fn make_move(&mut self, attacks: &Attacks, mv: Move)
        requires
            attacks.wf(),
            old(self).wf(),
            old(self).piece_at(mv.from_of()) != 0,
            old(self).half_moves < 255,
            old(self).moved_piece_bits(mv, 6) & old(self).moved_side_bits(mv, 1 - old(self).side_to_move@) != 0,
        ensures
            forall|p: int| 1 <= p <= 6 ==> #[trigger] final(self).piece_bits(p) == old(self).moved_piece_bits(mv, p),
            forall|s: int| 0 <= s <= 1 ==> #[trigger] final(self).side_bits(s) == old(self).moved_side_bits(mv, s),
            final(self).castle_rights@ == old(self).moved_rights(mv),
            final(self).en_passant@ == if mv.flags_of() == 0x1000u16 {
                (mv.from_of() as u64 ^ 24u64) as int
            } else {
                64
            },
            final(self).half_moves == if mv.value & 0x4000u16 != 0 || old(self).mover_kind(mv) == 1 {
                0
            } else {
                old(self).half_moves + 1
            },
            final(self).side_to_move@ == 1 - old(self).side_to_move@,
            final(self).derived_ok(),
            *final(self) == old(self).after(mv),
            crate::board_form::move_keeps_form(*old(self), mv) ==> final(self).wf(),
    {
        let ghost b0 = *self;
        let from_square = mv.get_from_square();
        let to_square = mv.get_to_square();
        let castle_rights_offset = (self.side_to_move.current() * 2) as u8;
        let square_value_offset = self.side_to_move.current() * 56;
        let (moving_piece, target_piece) = self.move_pieces(mv);
        let ghost b1 = *self;
        if moving_piece.0 == Piece::KING {
            self.remove_castle_rights(castle_rights_offset);
        } else if moving_piece.0 == Piece::ROOK {
            let king_rook_position = Square::from_raw(7).add(square_value_offset);
            let queen_rook_position = Square::from_raw(0).add(square_value_offset);
            if from_square.equals(king_rook_position) {
                self.castle_rights.remove_right(CastleRights::WHITE_KING + castle_rights_offset);
            } else if from_square.equals(queen_rook_position) {
                self.castle_rights.remove_right(CastleRights::WHITE_QUEEN + castle_rights_offset);
            }
        }
        if target_piece.0 == Piece::ROOK {
            let opposite = self.side_to_move.opposite();
            let king_rook_position = Square::from_raw(7).add(opposite * 56);
            let queen_rook_position = Square::from_raw(0).add(opposite * 56);
            if to_square.equals(king_rook_position) {
                self.castle_rights.remove_right(CastleRights::WHITE_KING + (opposite * 2) as u8);
            } else if to_square.equals(queen_rook_position) {
                self.castle_rights.remove_right(CastleRights::WHITE_QUEEN + (opposite * 2) as u8);
            }
        }

        if mv.is_double_push() {
            self.en_passant = from_square.xor(24);
        } else if !self.en_passant.equals(Square::null()) {
            self.en_passant = Square::null();
        }

        self.half_moves += 1;
        if mv.is_capture() || moving_piece.0 == Piece::PAWN {
            self.half_moves = 0;
        }

        self.side_to_move.mut_flip();
        proof {
            assert(self.piece_bits(6) == b1.piece_bits(6));
            assert(self.side_bits(self.side_to_move@) == b1.side_bits(1 - b0.side_to_move@));
        }

        let checkers = attacks.generate_checkers_mask(self);
        let ortographic_pins = attacks.generate_ortographic_pins_mask(self);
        let diagonal_pins = attacks.generate_diagonal_pins_mask(self);
        let ghost s1 = *self;
        self.checkers = checkers;
        self.ortographic_pins = ortographic_pins;
        self.diagonal_pins = diagonal_pins;
        proof {
            assert forall|j: int| 0 <= j < 64 implies (#[trigger] self.checkers.contains(j) == self.is_checker(j)) by {
                assert(s1.is_checker(j) == self.is_checker(j));
            }
            assert forall|j: int| 0 <= j < 64 implies (#[trigger] self.ortographic_pins.contains(j) == self.is_pinned_square(true, j)) by {
                assert(s1.is_pinned_square(true, j) == self.is_pinned_square(true, j));
            }
            assert forall|j: int| 0 <= j < 64 implies (#[trigger] self.diagonal_pins.contains(j) == self.is_pinned_square(false, j)) by {
                assert(s1.is_pinned_square(false, j) == self.is_pinned_square(false, j));
            }
            assert(self.pieces == b1.pieces);
            assert(self.piece_maps == b1.piece_maps);
            assert forall|p: int| 1 <= p <= 6 implies #[trigger] self.piece_bits(p) == b0.moved_piece_bits(mv, p) by {
                assert(b1.piece_bits(p) == b0.moved_piece_bits(mv, p));
            }
            assert forall|s: int| 0 <= s <= 1 implies #[trigger] self.side_bits(s) == b0.moved_side_bits(mv, s) by {
                assert(b1.side_bits(s) == b0.moved_side_bits(mv, s));
            }
            assert(b0.moves_to(mv, *self));
            b0.lemma_moves_to_unique(mv, *self, b0.after(mv));
            if crate::board_form::move_keeps_form(b0, mv) {
                crate::board_form::lemma_move_keeps_well_formed(b0, mv, *self);
            }
        }
    }
}

} // verus!
