use vstd::prelude::*;

use crate::attacks::Attacks;
use crate::board::Board;
use crate::core_structs::Move;
use crate::move_list::{move_list_get, move_list_len, move_list_push, move_list_values, new_move_list, MoveList};
use crate::see::{estimated_move_value, exchange_beats, first_victim, SEE};

verus! {

/// The ordering value of a move in the quiescence search: for a capture, a hundred
/// times the kind of the piece taken (none for en passant) less the kind of the piece
/// that takes; for a promotion, a hundred times the kind promoted to.
pub open spec fn move_order_value(b: Board, mv: Move) -> int {
    (if mv.value & 0x4000u16 != 0 {
        b.piece_at(mv.to_of()) * 100 - b.piece_at(mv.from_of())
    } else {
        0
    }) + (if mv.value & 0x8000u16 != 0 {
        (((mv.value >> 12u16) & 3u16) + 2) * 100
    } else {
        0
    })
}

/// The ordering value adds up: that of a move is the value of the same move without its
/// promotion bit (the capture alone) plus that of the same move without its capture bit
/// (the promotion alone). A move that neither captures nor promotes is worth nothing, and
/// a promotion adds at least two hundred to the capture it makes.
pub proof fn lemma_move_value_adds_up(b: Board, mv: Move)
    ensures
        move_order_value(b, mv) == move_order_value(b, Move { value: mv.value & 0x7FFFu16 }) + move_order_value(
            b,
            Move { value: mv.value & 0xBFFFu16 },
        ),
        mv.value & 0x4000u16 == 0 && mv.value & 0x8000u16 == 0 ==> move_order_value(b, mv) == 0,
        mv.value & 0x8000u16 != 0 ==> move_order_value(b, mv) >= move_order_value(
            b,
            Move { value: mv.value & 0x7FFFu16 },
        ) + 200,
{
    crate::core_structs::lemma_flag_words();
    let x = mv.value;
    assert((x & 0x7FFFu16) & 0x8000u16 == 0);
    assert((x & 0xBFFFu16) & 0x4000u16 == 0);
    assert(((x >> 12u16) & 3u16) < 4u16);
}

/// Captures are ordered most valuable victim first, then least valuable attacker: of two
/// captures that promote nothing, the one that takes the more valuable kind of piece
/// comes first, and of two that take the same kind, the one made by the less valuable
/// kind of piece.
pub proof fn lemma_move_value_victim_then_attacker(b: Board, m1: Move, m2: Move)
    requires
        m1.value & 0x4000u16 != 0,
        m2.value & 0x4000u16 != 0,
        m1.value & 0x8000u16 == 0,
        m2.value & 0x8000u16 == 0,
    ensures
        b.piece_at(m1.to_of()) > b.piece_at(m2.to_of()) ==> move_order_value(b, m1) > move_order_value(b, m2),
        b.piece_at(m1.to_of()) == b.piece_at(m2.to_of()) && b.piece_at(m1.from_of()) < b.piece_at(m2.from_of())
            ==> move_order_value(b, m1) > move_order_value(b, m2),
{
    assert(0 <= b.piece_at(m1.from_of()) <= 6 && 0 <= b.piece_at(m2.from_of()) <= 6);
}

/// Whether the static exchange of `mv` can be evaluated against `threshold`: a piece
/// moves, the balance fits in an `i32`, and an en passant capture has its square.
pub open spec fn see_ready(b: Board, mv: Move, threshold: int) -> bool {
    &&& 1 <= first_victim(b, mv) <= 6
    &&& i32::MIN <= estimated_move_value(b, mv) - threshold <= i32::MAX
    &&& mv.flags_of() == 0x5000u16 ==> b.en_passant.on_board()
}

/// One pass of the orderer over `moves` from position `k`, with the moves marked as
/// used so far and the best move found so far with its value. A move already used is
/// passed over; one that loses its exchange is marked as used; of the others the
/// first with the highest value is the best. At the end the best move (the null move
/// when there is none) is marked as used too. The result is the used moves and the best.
pub open spec fn order_scan(
    b: Board,
    moves: Seq<Move>,
    k: int,
    used: Seq<u16>,
    threshold: int,
    best: Move,
    best_score: int,
) -> (Seq<u16>, Move)
    decreases moves.len() - k,
{
    if k < 0 || k >= moves.len() {
        (used.push(best.value), best)
    } else {
        let mv = moves[k];
        if used.contains(mv.value) {
            order_scan(b, moves, k + 1, used, threshold, best, best_score)
        } else if !exchange_beats(b, mv, threshold) {
            order_scan(b, moves, k + 1, used.push(mv.value), threshold, best, best_score)
        } else if move_order_value(b, mv) > best_score {
            order_scan(b, moves, k + 1, used, threshold, mv, move_order_value(b, mv))
        } else {
            order_scan(b, moves, k + 1, used, threshold, best, best_score)
        }
    }
}

/// A pass never marks fewer moves than it started with, plus the best one.
proof fn lemma_scan_grows(
    b: Board,
    moves: Seq<Move>,
    k: int,
    used: Seq<u16>,
    threshold: int,
    best: Move,
    best_score: int,
)
    ensures
        order_scan(b, moves, k, used, threshold, best, best_score).0.len() >= used.len() + 1,
    decreases moves.len() - k,
{
    if 0 <= k < moves.len() {
        let mv = moves[k];
        if used.contains(mv.value) {
            lemma_scan_grows(b, moves, k + 1, used, threshold, best, best_score);
        } else if !exchange_beats(b, mv, threshold) {
            lemma_scan_grows(b, moves, k + 1, used.push(mv.value), threshold, best, best_score);
        } else if move_order_value(b, mv) > best_score {
            lemma_scan_grows(b, moves, k + 1, used, threshold, mv, move_order_value(b, mv));
        } else {
            lemma_scan_grows(b, moves, k + 1, used, threshold, best, best_score);
        }
    }
}

/// Whether the list holds a move with the value of `mv`.
fn contains_move(list: &MoveList, mv: Move) -> (r: bool)
    ensures
        r == move_list_values(*list).contains(mv.value),
{
    let len = move_list_len(list);
    let mut index: usize = 0;
    while index < len
        invariant
            len == move_list_values(*list).len(),
            index <= len,
            forall|k: int| 0 <= k < index ==> move_list_values(*list)[k] != mv.value,
        decreases len - index,
    {
        if move_list_get(list, index).value == mv.value {
            return true;
        }
        index = index + 1;
    }
    false
}

/// The ordering value of `mv` on `board` (see `move_order_value`).
pub fn get_move_value(board: &Board, mv: &Move) -> (r: i32)
    requires
        board.wf(),
    ensures
        r == move_order_value(*board, *mv),
{
    let mut result: i32 = 0;
    if mv.is_capture() {
        let target_piece = board.get_piece_on_square(mv.get_to_square()).0;
        let moving_piece = board.get_piece_on_square(mv.get_from_square()).0;
        result = result + (target_piece as i32 * 100) - moving_piece as i32;
    }
    if mv.is_promotion() {
        result = result + (mv.get_promotion_piece() as i32) * 100;
    }
    result
}

/// Hands out the moves of a quiescence search best first, passing over those that
/// lose their exchange.
pub struct MoveOrderer<'a> {
    move_list: &'a Vec<Move>,
    used_indecies: MoveList,
}

impl<'a> MoveOrderer<'a> {
    pub closed spec fn moves_of(&self) -> Seq<Move> {
        self.move_list@
    }

    /// The values of the moves handed out or passed over so far.
    pub closed spec fn used_of(&self) -> Seq<u16> {
        move_list_values(self.used_indecies)
    }

    pub fn new(move_list: &'a Vec<Move>) -> (r: Self)
        ensures
            r.moves_of() == move_list@,
            r.used_of() == Seq::<u16>::empty(),
    {
        Self { move_list, used_indecies: new_move_list() }
    }

    /// The best move not handed out yet whose exchange reaches `see_threshold`, or the
    /// null move when there is none; the moves found to lose their exchange are not
    /// looked at again.
    pub fn get_next_move(&mut self, attacks: &Attacks, board: &Board, see_threshold: i32) -> (r: Move)
        requires
            attacks.wf(),
            board.wf(),
            forall|k: int|
                0 <= k < old(self).moves_of().len() && !old(self).used_of().contains(
                    #[trigger] old(self).moves_of()[k].value,
                ) ==> see_ready(*board, old(self).moves_of()[k], see_threshold as int),
            order_scan(
                *board,
                old(self).moves_of(),
                0,
                old(self).used_of(),
                see_threshold as int,
                Move { value: 0 },
                i32::MIN as int,
            ).0.len() <= 256,
        ensures
            (final(self).used_of(), r) == order_scan(
                *board,
                old(self).moves_of(),
                0,
                old(self).used_of(),
                see_threshold as int,
                Move { value: 0 },
                i32::MIN as int,
            ),
            final(self).moves_of() == old(self).moves_of(),
    {
        let ghost moves = self.move_list@;
        let ghost goal = order_scan(
            *board,
            moves,
            0,
            move_list_values(self.used_indecies),
            see_threshold as int,
            Move { value: 0 },
            i32::MIN as int,
        );
        let mut best_move = Move::null();
        let mut best_score = i32::MIN;
        let mut index: usize = 0;
        while index < self.move_list.len()
            invariant
                attacks.wf(),
                board.wf(),
                moves == self.move_list@,
                index <= moves.len(),
                forall|k: int|
                    0 <= k < moves.len() && !old(self).used_of().contains(#[trigger] moves[k].value) ==> see_ready(
                        *board,
                        moves[k],
                        see_threshold as int,
                    ),
                forall|v: u16| #[trigger] old(self).used_of().contains(v) ==> move_list_values(self.used_indecies).contains(v),
                order_scan(
                    *board,
                    moves,
                    index as int,
                    move_list_values(self.used_indecies),
                    see_threshold as int,
                    best_move,
                    best_score as int,
                ) == goal,
                goal.0.len() <= 256,
            decreases moves.len() - index,
        {
            let mv = self.move_list[index];
            let ghost used = move_list_values(self.used_indecies);
            if contains_move(&self.used_indecies, mv) {
            } else {
                proof {
                    assert(moves[index as int] == mv);
                }
                if !SEE::static_exchange_evaluation(attacks, board, mv, see_threshold) {
                    proof {
                        lemma_scan_grows(
                            *board,
                            moves,
                            index + 1,
                            used.push(mv.value),
                            see_threshold as int,
                            best_move,
                            best_score as int,
                        );
                    }
                    move_list_push(&mut self.used_indecies, mv);
                    proof {
                        assert forall|v: u16| #[trigger] old(self).used_of().contains(v) implies move_list_values(
                            self.used_indecies,
                        ).contains(v) by {
                            if used.contains(v) {
                                let j = choose|j: int| 0 <= j < used.len() && used[j] == v;
                                assert(move_list_values(self.used_indecies)[j] == v);
                            }
                        }
                    }
                } else {
                    let score = get_move_value(board, &mv);
                    if score > best_score {
                        best_score = score;
                        best_move = mv;
                    }
                }
            }
            index = index + 1;
        }
        proof {
            lemma_scan_grows(
                *board,
                moves,
                index as int,
                move_list_values(self.used_indecies),
                see_threshold as int,
                best_move,
                best_score as int,
            );
        }
        move_list_push(&mut self.used_indecies, best_move);
        best_move
    }
}

} // verus!
