use vstd::prelude::*;

use crate::attacks::Attacks;
use crate::board::Board;
use crate::core_structs::Move;
use crate::move_list::{move_list_get, move_list_len, new_move_list};
use crate::movegen::{generated_moves, generation_ready, MoveProvider};
use crate::movegen_laws::{from_in, lemma_generated_moves_leave_allied_squares};

verus! {

/// Whether `make_move` may play a generated move `mv` on `b`: the half-move clock has
/// room for one more move, and the side that is to move next keeps its king.
pub open spec fn playable(b: Board, mv: Move) -> bool {
    &&& b.half_moves < 255
    &&& b.moved_piece_bits(mv, 6) & b.moved_side_bits(mv, 1 - b.side_to_move@) != 0
}

/// Whether every position reached from `b` in fewer than `depth` moves is one the move
/// generator and `make_move` accept, with at most 256 moves each.
pub open spec fn perft_ready(b: Board, depth: nat) -> bool
    decreases depth,
{
    if depth == 0 {
        true
    } else {
        let moves = generated_moves(b, false);
        &&& b.wf()
        &&& generation_ready(b)
        &&& moves.len() <= 256
        &&& forall|i: int|
            0 <= i < moves.len() ==> playable(b, Move { value: #[trigger] moves[i] }) && perft_ready(
                b.after(Move { value: moves[i] }),
                (depth - 1) as nat,
            )
    }
}

/// The number of move sequences of length `depth` from `b`: one for depth 0, else the
/// sum over the generated moves of the count of the position each one leads to.
pub open spec fn perft_count(b: Board, depth: nat) -> nat
    decreases depth, 1nat, 0nat,
{
    if depth == 0 {
        1
    } else {
        perft_sum(b, generated_moves(b, false), depth)
    }
}

/// The counts, one level down, of the positions the moves `moves` lead to from `b`.
pub open spec fn perft_sum(b: Board, moves: Seq<u16>, depth: nat) -> nat
    decreases depth, 0nat, moves.len(),
{
    if depth == 0 || moves.len() == 0 {
        0
    } else {
        perft_sum(b, moves.drop_last(), depth) + perft_count(
            b.after(Move { value: moves.last() }),
            (depth - 1) as nat,
        )
    }
}

/// The breakdown of the count by first move: each generated move with the count of the
/// position it leads to.
pub open spec fn perft_divide(b: Board, depth: nat) -> Seq<(Move, u64)> {
    let moves = generated_moves(b, false);
    Seq::new(
        moves.len(),
        |i: int| (Move { value: moves[i] }, perft_count(b.after(Move { value: moves[i] }), (depth - 1) as nat) as u64),
    )
}

/// At depth one each move counts once.
proof fn lemma_perft_sum_one(b: Board, moves: Seq<u16>)
    ensures
        perft_sum(b, moves, 1) == moves.len(),
    decreases moves.len(),
{
    if moves.len() > 0 {
        lemma_perft_sum_one(b, moves.drop_last());
        assert(perft_count(b.after(Move { value: moves.last() }), 0) == 1);
    }
}

/// The sum over a prefix grows by one term per move and never exceeds the whole sum.
proof fn lemma_perft_sum_prefix(b: Board, moves: Seq<u16>, depth: nat, i: int)
    requires
        depth > 0,
        0 <= i < moves.len(),
    ensures
        perft_sum(b, moves.take(i + 1), depth) == perft_sum(b, moves.take(i), depth) + perft_count(
            b.after(Move { value: moves[i] }),
            (depth - 1) as nat,
        ),
        perft_sum(b, moves.take(i + 1), depth) <= perft_sum(b, moves, depth),
    decreases moves.len() - i,
{
    assert(moves.take(i + 1).drop_last() =~= moves.take(i));
    if i + 1 == moves.len() {
        assert(moves.take(i + 1) =~= moves);
    } else {
        lemma_perft_sum_prefix(b, moves, depth, i + 1);
    }
}

/// The sum of the counts of a breakdown.
pub open spec fn divide_total(report: Seq<(Move, u64)>) -> int
    decreases report.len(),
{
    if report.len() == 0 {
        0
    } else {
        divide_total(report.drop_last()) + report.last().1
    }
}

proof fn lemma_divide_prefix(b: Board, depth: nat, i: int)
    requires
        depth > 0,
        perft_count(b, depth) <= u64::MAX,
        0 <= i <= generated_moves(b, false).len(),
    ensures
        divide_total(perft_divide(b, depth).take(i)) == perft_sum(b, generated_moves(b, false).take(i), depth),
    decreases i,
{
    let moves = generated_moves(b, false);
    let report = perft_divide(b, depth);
    if i == 0 {
        assert(report.take(0) =~= Seq::<(Move, u64)>::empty());
        assert(moves.take(0) =~= Seq::<u16>::empty());
    } else {
        lemma_divide_prefix(b, depth, i - 1);
        lemma_perft_sum_prefix(b, moves, depth, i - 1);
        assert(report.take(i).drop_last() =~= report.take(i - 1));
    }
}

/// The counts of the first moves add up to the count of the position.
pub proof fn lemma_divide_sums_to_count(b: Board, depth: nat)
    requires
        depth > 0,
        perft_count(b, depth) <= u64::MAX,
    ensures
        divide_total(perft_divide(b, depth)) == perft_count(b, depth),
{
    let moves = generated_moves(b, false);
    let report = perft_divide(b, depth);
    lemma_divide_prefix(b, depth, moves.len() as int);
    assert(report.take(moves.len() as int) =~= report);
    assert(moves.take(moves.len() as int) =~= moves);
}

pub struct Perft;

impl Perft {
    /// Counts the move sequences of length `depth` (1 at depth 0) from `board`; when
    /// `first_iteration`, appends to `report` each first move with its own count. With
    /// `BULK`, the last level is counted by the length of the move list, which gives the
    /// same count.
    pub fn internal_execute<const BULK: bool>(
        attacks: &Attacks,
        board: &Board,
        depth: u8,
        first_iteration: bool,
        report: &mut Vec<(Move, u64)>,
    ) -> (r: u64)
        requires
            attacks.wf(),
            perft_ready(*board, depth as nat),
            perft_count(*board, depth as nat) <= u64::MAX,
        ensures
            r == perft_count(*board, depth as nat),
            final(report)@ == old(report)@ + if first_iteration && depth > 0 {
                perft_divide(*board, depth as nat)
            } else {
                Seq::empty()
            },
        decreases depth,
    {
        if depth == 0 {
            proof {
                assert(report@ =~= old(report)@ + Seq::<(Move, u64)>::empty());
            }
            return 1;
        }
        let ghost b = *board;
        let ghost moves = generated_moves(b, false);
        let ghost d = depth as nat;
        let mut nodes = 0u64;
        let mut move_list = new_move_list();
        MoveProvider::generate_moves::<false>(&mut move_list, attacks, board);
        proof {
            assert(crate::move_list::move_list_values(move_list) =~= moves);
        }
        if BULK && depth == 1 && !first_iteration {
            proof {
                lemma_perft_sum_one(b, moves);
                assert(report@ =~= old(report)@ + Seq::<(Move, u64)>::empty());
            }
            return move_list_len(&move_list) as u64;
        }
        let count = move_list_len(&move_list);
        let mut i: usize = 0;
        while i < count
            invariant
                attacks.wf(),
                b == *board,
                d == depth as nat,
                depth > 0,
                moves == generated_moves(b, false),
                crate::move_list::move_list_values(move_list) == moves,
                count == moves.len(),
                i <= count,
                perft_ready(b, d),
                perft_count(b, d) <= u64::MAX,
                nodes == perft_sum(b, moves.take(i as int), d),
                report@ == old(report)@ + if first_iteration {
                    perft_divide(b, d).take(i as int)
                } else {
                    Seq::empty()
                },
            decreases count - i,
        {
            let mv = move_list_get(&move_list, i);
            proof {
                assert(mv == Move { value: moves[i as int] });
                lemma_perft_sum_prefix(b, moves, d, i as int);
                lemma_generated_moves_leave_allied_squares(b, false);
                assert((from_in(b.side_bits(b.side_to_move@)))(moves[i as int]));
                assert(b.square_wf(mv.from_of()));
                crate::bitboard::lemma_bitwise(b.side_bits(0), b.side_bits(1), mv.from_of() as u64);
            }
            let mut new_board = *board;
            new_board.make_move(attacks, mv);
            let new_nodes = Self::internal_execute::<BULK>(attacks, &new_board, depth - 1, false, report);
            nodes = nodes + new_nodes;
            if first_iteration {
                report.push((mv, new_nodes));
            }
            proof {
                if first_iteration {
                    assert(perft_divide(b, d).take(i as int + 1) =~= perft_divide(b, d).take(i as int).push((mv, new_nodes)));
                }
                assert(report@ =~= old(report)@ + if first_iteration {
                    perft_divide(b, d).take(i as int + 1)
                } else {
                    Seq::empty()
                });
            }
            i = i + 1;
        }
        proof {
            assert(moves.take(count as int) =~= moves);
            if first_iteration {
                assert(perft_divide(b, d).take(count as int) =~= perft_divide(b, d));
            }
        }
        nodes
    }
}

} // verus!
