use vstd::prelude::*;
use vstd::std_specs::bits::u64_trailing_zeros;

use crate::bitboard::{Bitboard, byte_swap, has_bit, lemma_clear_lowest, lemma_single_bit_update, lemma_xor_on_board, lemma_zero_bits, single_bit};
use crate::board::Board;
use crate::core_structs::Side;

verus! {

/// The squares of `x` from `start` on, in ascending order.
pub open spec fn squares_from(x: u64, start: int) -> Seq<int>
    decreases 64 - start,
{
    if 0 <= start < 64 {
        (if has_bit(x, start) {
            seq![start]
        } else {
            Seq::empty()
        }) + squares_from(x, start + 1)
    } else {
        Seq::empty()
    }
}

/// The squares of `x` in ascending order.
pub open spec fn squares_of(x: u64) -> Seq<int> {
    squares_from(x, 0)
}

/// The input of square `sq` in a block that starts at `base`, the square mirrored
/// across files by `mirror` (7) or not (0).
pub open spec fn input_index(base: usize, sq: int, mirror: usize) -> usize {
    (base + ((sq as usize) ^ mirror)) as usize
}

/// The inputs of the squares of `x`, ascending by square.
pub open spec fn index_run(x: u64, base: usize, mirror: usize) -> Seq<usize> {
    squares_of(x).map_values(|sq: int| input_index(base, sq, mirror))
}

proof fn lemma_squares_agree(x: u64, y: u64, start: int)
    requires
        0 <= start <= 64,
        forall|j: int| start <= j < 64 ==> #[trigger] has_bit(x, j) == has_bit(y, j),
    ensures
        squares_from(x, start) == squares_from(y, start),
    decreases 64 - start,
{
    if start < 64 {
        lemma_squares_agree(x, y, start + 1);
    }
}

proof fn lemma_squares_skip(x: u64, start: int, stop: int)
    requires
        0 <= start <= stop <= 64,
        forall|j: int| start <= j < stop ==> !#[trigger] has_bit(x, j),
    ensures
        squares_from(x, start) == squares_from(x, stop),
    decreases stop - start,
{
    if start < stop {
        lemma_squares_skip(x, start + 1, stop);
        assert(squares_from(x, start) =~= squares_from(x, start + 1));
    }
}

/// The lowest square of a non-empty set comes first, then the rest of the set.
proof fn lemma_squares_pop(x: u64)
    requires
        x != 0,
    ensures
        squares_of(x) == seq![u64_trailing_zeros(x) as int] + squares_of(x & !single_bit(u64_trailing_zeros(x) as int)),
{
    lemma_clear_lowest(x);
    let t = u64_trailing_zeros(x) as int;
    let y = x & !single_bit(t);
    assert forall|j: int| 0 <= j < 64 implies #[trigger] has_bit(y, j) == (j != t && has_bit(x, j)) by {
        lemma_single_bit_update(x, t as u64, j as u64);
    }
    lemma_squares_skip(x, 0, t);
    lemma_squares_skip(y, 0, t + 1);
    lemma_squares_agree(x, y, t + 1);
    assert(squares_from(x, t) =~= seq![t] + squares_from(x, t + 1));
}

/// The empty set has no squares.
proof fn lemma_squares_empty()
    ensures
        squares_of(0u64) == Seq::<int>::empty(),
{
    lemma_zero_bits();
    lemma_squares_skip(0u64, 0, 64);
}

/// A square is listed exactly when it is in the set.
proof fn lemma_squares_contain(x: u64, start: int)
    requires
        0 <= start <= 64,
    ensures
        forall|j: int| #[trigger] squares_from(x, start).contains(j) <==> start <= j < 64 && has_bit(x, j),
    decreases 64 - start,
{
    if start < 64 {
        lemma_squares_contain(x, start + 1);
        let rest = squares_from(x, start + 1);
        let head: Seq<int> = if has_bit(x, start) { seq![start] } else { Seq::empty() };
        assert forall|j: int| #[trigger] squares_from(x, start).contains(j) <==> start <= j < 64 && has_bit(x, j) by {
            assert(squares_from(x, start) == head + rest);
            if (head + rest).contains(j) {
                let k = choose|k: int| 0 <= k < (head + rest).len() && (head + rest)[k] == j;
                if k >= head.len() {
                    assert(rest[k - head.len()] == j);
                    assert(squares_from(x, start + 1).contains(j));
                }
            }
            if start <= j < 64 && has_bit(x, j) {
                if j == start {
                    assert((head + rest)[0] == j);
                } else {
                    assert(squares_from(x, start + 1).contains(j));
                    let k = choose|k: int| 0 <= k < rest.len() && rest[k] == j;
                    assert((head + rest)[head.len() + k] == j);
                }
            }
        }
    } else {
        assert forall|j: int| #[trigger] squares_from(x, start).contains(j) <==> start <= j < 64 && has_bit(x, j) by {}
    }
}

/// Appends the inputs of the squares of `squares`, ascending by square.
fn push_indices(out: &mut Vec<usize>, squares: Bitboard, base: usize, mirror: usize)
    requires
        base <= 704,
        mirror < 64,
    ensures
        final(out)@ == old(out)@ + index_run(squares@, base, mirror),
{
    let ghost goal = old(out)@ + index_run(squares@, base, mirror);
    let mut remaining = squares;
    while remaining.is_not_empty()
        invariant
            base <= 704,
            mirror < 64,
            out@ + index_run(remaining@, base, mirror) == goal,
        decreases remaining@,
    {
        let ghost before = remaining@;
        let ghost cur = out@;
        let square = remaining.pop_ls1b_square();
        proof {
            lemma_xor_on_board(square@ as usize, mirror);
            lemma_squares_pop(before);
            let t = u64_trailing_zeros(before) as int;
            let rest = squares_of(remaining@);
            let f = |sq: int| input_index(base, sq, mirror);
            assert(squares_of(before).map_values(f) =~= seq![f(t)] + rest.map_values(f));
        }
        out.push(base + (square.get_value() ^ mirror));
        proof {
            assert(out@ + index_run(remaining@, base, mirror) =~= goal);
        }
    }
    proof {
        lemma_squares_empty();
        assert(index_run(remaining@, base, mirror) =~= Seq::<usize>::empty());
        assert(out@ =~= goal);
    }
}

/// The pieces of kind `piece` of side `side` as the side to move sees the board:
/// mirrored vertically when black is to move.
pub open spec fn side_view(b: Board, piece: int, side: int) -> u64 {
    let bits = b.piece_bits(piece) & b.side_bits(side);
    if b.side_to_move@ == 1 {
        byte_swap(bits)
    } else {
        bits
    }
}

/// The network inputs of the kinds from `piece` to the king: for each kind, the squares
/// of the side to move's pieces at 64 × (kind − 1), then those of the other side's at
/// 384 more, every square as `side_view` shows it and mirrored across files by
/// `mirror`.
pub open spec fn inputs_from(b: Board, piece: int, mirror: usize) -> Seq<usize>
    decreases 7 - piece,
{
    if 1 <= piece <= 6 {
        index_run(side_view(b, piece, b.side_to_move@), (64 * (piece - 1)) as usize, mirror) + index_run(
            side_view(b, piece, 1 - b.side_to_move@),
            (384 + 64 * (piece - 1)) as usize,
            mirror,
        ) + inputs_from(b, piece + 1, mirror)
    } else {
        Seq::empty()
    }
}

/// The inputs of the policy network: those of every piece, seen from the side to move.
pub open spec fn policy_inputs(b: Board) -> Seq<usize> {
    inputs_from(b, 1, 0)
}

/// The file mirror of the value network: 7 (mirror every square across files) when the
/// king of the side to move stands on files e to h, else 0.
pub open spec fn king_mirror(b: Board) -> usize {
    if u64_trailing_zeros(b.piece_bits(6) & b.side_bits(b.side_to_move@)) % 8 > 3 {
        7
    } else {
        0
    }
}

/// The inputs of the value network: those of every piece, seen from the side to move
/// and mirrored so that its king stands on files a to d.
pub open spec fn value_inputs(b: Board) -> Seq<usize> {
    inputs_from(b, 1, king_mirror(b))
}

/// The inputs of all pieces, seen from the side to move and mirrored by `mirror`.
fn collect_inputs(board: &Board, mirror: usize) -> (r: Vec<usize>)
    requires
        board.wf(),
        mirror < 64,
    ensures
        r@ == inputs_from(*board, 1, mirror),
{
    let ghost b = *board;
    let flip = board.side_to_move.current() == 1;
    let mut result: Vec<usize> = Vec::new();
    let mut piece: usize = 1;
    while piece <= 6
        invariant
            1 <= piece <= 7,
            b == *board,
            board.wf(),
            mirror < 64,
            flip == (board.side_to_move@ == 1),
            result@ + inputs_from(b, piece as int, mirror) == inputs_from(b, 1, mirror),
        decreases 7 - piece,
    {
        let piece_index = 64 * (piece - 1);
        let mut stm_bitboard = board.get_piece_mask(piece, board.side_to_move);
        let mut nstm_bitboard = board.get_piece_mask(piece, Side::from_raw(board.side_to_move.opposite()));
        if flip {
            stm_bitboard = stm_bitboard.flip();
            nstm_bitboard = nstm_bitboard.flip();
        }
        let ghost before = result@;
        push_indices(&mut result, stm_bitboard, piece_index, mirror);
        push_indices(&mut result, nstm_bitboard, 384 + piece_index, mirror);
        proof {
            assert(result@ + inputs_from(b, piece + 1, mirror) =~= before + inputs_from(b, piece as int, mirror));
        }
        piece = piece + 1;
    }
    proof {
        assert(result@ =~= result@ + inputs_from(b, piece as int, mirror));
    }
    result
}

/// The neural evaluation of positions; what the library holds of it is how a position
/// is turned into network inputs.
pub struct Evaluation;

impl Evaluation {
    /// The inputs of the policy network for `board`, as indices of the inputs that are
    /// set (see `policy_inputs`).
    pub fn get_policy_inputs(board: &Board) -> (r: Vec<usize>)
        requires
            board.wf(),
        ensures
            r@ == policy_inputs(*board),
    {
        collect_inputs(board, 0)
    }
}

/// The inputs of the value network for `board`, as indices of the inputs that are set
/// (see `value_inputs`).
pub fn map_value_inputs(board: &Board) -> (r: Vec<usize>)
    requires
        board.wf(),
    ensures
        r@ == value_inputs(*board),
{
    let king_square = board.get_piece_mask(6, board.side_to_move).ls1b_square();
    let horizontal_mirror: usize = if king_square.get_value() % 8 > 3 { 7 } else { 0 };
    collect_inputs(board, horizontal_mirror)
}

/// Input `i` comes from square `sq` of the pieces of kind `p` of the side to move
/// (`rel` 0) or of the other side (`rel` 1), as the side to move sees them.
pub open spec fn input_of(b: Board, mirror: usize, i: usize, p: int, rel: int, sq: int) -> bool {
    &&& 1 <= p <= 6
    &&& 0 <= rel <= 1
    &&& 0 <= sq < 64
    &&& has_bit(side_view(b, p, if rel == 0 { b.side_to_move@ } else { 1 - b.side_to_move@ }), sq)
    &&& i == input_index((384 * rel + 64 * (p - 1)) as usize, sq, mirror)
}

proof fn lemma_contains_concat(a: Seq<usize>, c: Seq<usize>, x: usize)
    ensures
        (a + c).contains(x) <==> a.contains(x) || c.contains(x),
{
    if (a + c).contains(x) {
        let k = choose|k: int| 0 <= k < (a + c).len() && (a + c)[k] == x;
        if k < a.len() {
            assert(a[k] == x);
        } else {
            assert(c[k - a.len()] == x);
        }
    }
    if a.contains(x) {
        let k = choose|k: int| 0 <= k < a.len() && a[k] == x;
        assert((a + c)[k] == x);
    }
    if c.contains(x) {
        let k = choose|k: int| 0 <= k < c.len() && c[k] == x;
        assert((a + c)[a.len() + k] == x);
    }
}

/// An input of a run comes from a square of the set.
proof fn lemma_run_contains(x: u64, base: usize, mirror: usize, i: usize)
    ensures
        index_run(x, base, mirror).contains(i) <==> exists|sq: int| 0 <= sq < 64 && #[trigger] has_bit(x, sq) && i == input_index(base, sq, mirror),
{
    let sqs = squares_of(x);
    let f = |sq: int| input_index(base, sq, mirror);
    lemma_squares_contain(x, 0);
    if index_run(x, base, mirror).contains(i) {
        let k = choose|k: int| 0 <= k < sqs.len() && sqs.map_values(f)[k] == i;
        assert(sqs.contains(sqs[k]));
        assert(has_bit(x, sqs[k]) && i == input_index(base, sqs[k], mirror));
    }
    if exists|sq: int| 0 <= sq < 64 && #[trigger] has_bit(x, sq) && i == input_index(base, sq, mirror) {
        let sq = choose|sq: int| 0 <= sq < 64 && #[trigger] has_bit(x, sq) && i == input_index(base, sq, mirror);
        assert(sqs.contains(sq));
        let k = choose|k: int| 0 <= k < sqs.len() && sqs[k] == sq;
        assert(sqs.map_values(f)[k] == i);
    }
}

/// The inputs of the kinds from `piece` on are those that come from a square of a
/// piece of such a kind.
proof fn lemma_inputs_contain(b: Board, piece: int, mirror: usize, i: usize)
    requires
        1 <= piece <= 7,
    ensures
        inputs_from(b, piece, mirror).contains(i) <==> exists|p: int, rel: int, sq: int|
            piece <= p && #[trigger] input_of(b, mirror, i, p, rel, sq),
    decreases 7 - piece,
{
    let stm = b.side_to_move@;
    if piece <= 6 {
        lemma_inputs_contain(b, piece + 1, mirror, i);
        let own = index_run(side_view(b, piece, stm), (64 * (piece - 1)) as usize, mirror);
        let other = index_run(side_view(b, piece, 1 - stm), (384 + 64 * (piece - 1)) as usize, mirror);
        let rest = inputs_from(b, piece + 1, mirror);
        lemma_contains_concat(own + other, rest, i);
        lemma_contains_concat(own, other, i);
        lemma_run_contains(side_view(b, piece, stm), (64 * (piece - 1)) as usize, mirror, i);
        lemma_run_contains(side_view(b, piece, 1 - stm), (384 + 64 * (piece - 1)) as usize, mirror, i);
        if exists|p: int, rel: int, sq: int| piece <= p && #[trigger] input_of(b, mirror, i, p, rel, sq) {
            let (p, rel, sq) = choose|p: int, rel: int, sq: int| piece <= p && #[trigger] input_of(b, mirror, i, p, rel, sq);
            if p > piece {
                assert(input_of(b, mirror, i, p, rel, sq));
            } else if rel == 0 {
                assert(has_bit(side_view(b, piece, stm), sq));
            } else {
                assert(has_bit(side_view(b, piece, 1 - stm), sq));
            }
        }
        if own.contains(i) {
            let sq = choose|sq: int| 0 <= sq < 64 && #[trigger] has_bit(side_view(b, piece, stm), sq) && i == input_index(
                (64 * (piece - 1)) as usize,
                sq,
                mirror,
            );
            assert(input_of(b, mirror, i, piece, 0, sq));
        }
        if other.contains(i) {
            let sq = choose|sq: int| 0 <= sq < 64 && #[trigger] has_bit(side_view(b, piece, 1 - stm), sq) && i == input_index(
                (384 + 64 * (piece - 1)) as usize,
                sq,
                mirror,
            );
            assert(input_of(b, mirror, i, piece, 1, sq));
        }
        if rest.contains(i) {
            let (p, rel, sq) = choose|p: int, rel: int, sq: int| piece + 1 <= p && #[trigger] input_of(b, mirror, i, p, rel, sq);
            assert(input_of(b, mirror, i, p, rel, sq));
        }
    } else {
        assert(inputs_from(b, piece, mirror) =~= Seq::<usize>::empty());
    }
}

/// Mirroring a square across files, and vertically, in terms of its index.
proof fn lemma_mirror_bits(x: u64, j: usize)
    by (bit_vector)
    requires
        j < 64,
    ensures
        ((byte_swap(x) >> (j as u64)) & 1u64 == 1u64) == ((x >> ((j ^ 56usize) as u64)) & 1u64 == 1u64),
        (j ^ 7usize) ^ 7usize == j,
        j ^ 7usize < 64,
        j ^ 56usize < 64,
        (j ^ 7usize) ^ 56usize == (j ^ 56usize) ^ 7usize,
        (j ^ 7usize) % 8 == 7 - j % 8,
        j ^ 0usize == j,
{
}

/// Whether `b2` is `b1` mirrored across files: the same side to move, and each piece of
/// `b1` on square `j` stands on square `j ^ 7` of `b2`.
pub open spec fn mirrored_boards(b1: Board, b2: Board) -> bool {
    &&& b1.side_to_move@ == b2.side_to_move@
    &&& b1.side_to_move.valid()
    &&& forall|p: int, s: int, j: int|
        1 <= p <= 6 && 0 <= s <= 1 && 0 <= j < 64 ==> #[trigger] has_bit(b2.piece_bits(p) & b2.side_bits(s), j)
            == has_bit(b1.piece_bits(p) & b1.side_bits(s), ((j as usize) ^ 7usize) as int)
}

/// Whether the side to move has exactly one king, on square `k`.
pub open spec fn single_king(b: Board, k: int) -> bool {
    &&& 0 <= k < 64
    &&& forall|j: int| #[trigger] has_bit(b.piece_bits(6) & b.side_bits(b.side_to_move@), j) <==> j == k
}

/// The king of a lone king's square is the lowest set bit.
proof fn lemma_lone_king_square(b: Board, k: int)
    requires
        single_king(b, k),
    ensures
        u64_trailing_zeros(b.piece_bits(6) & b.side_bits(b.side_to_move@)) == k,
{
    let kings = b.piece_bits(6) & b.side_bits(b.side_to_move@);
    if kings == 0 {
        lemma_zero_bits();
        assert(has_bit(kings, k));
    }
    lemma_clear_lowest(kings);
}

/// One direction of the mirror law: every value input of `b1` is one of `b2`.
proof fn lemma_value_inputs_mirror_into(b1: Board, b2: Board, k: int, i: usize)
    requires
        mirrored_boards(b1, b2),
        single_king(b1, k),
        single_king(b2, ((k as usize) ^ 7usize) as int),
        value_inputs(b1).contains(i),
    ensures
        value_inputs(b2).contains(i),
{
    let m1 = king_mirror(b1);
    let m2 = king_mirror(b2);
    let stm = b1.side_to_move@;
    lemma_lone_king_square(b1, k);
    lemma_lone_king_square(b2, ((k as usize) ^ 7usize) as int);
    lemma_mirror_bits(0u64, k as usize);
    assert(m2 == 7 - m1);
    lemma_inputs_contain(b1, 1, m1, i);
    lemma_inputs_contain(b2, 1, m2, i);
    let (p, rel, sq) = choose|p: int, rel: int, sq: int| 1 <= p && #[trigger] input_of(b1, m1, i, p, rel, sq);
    let s = if rel == 0 { stm } else { 1 - stm };
    let sq2 = ((sq as usize) ^ 7usize) as int;
    let x1 = b1.piece_bits(p) & b1.side_bits(s);
    let x2 = b2.piece_bits(p) & b2.side_bits(s);
    lemma_mirror_bits(x1, sq as usize);
    lemma_mirror_bits(x2, sq2 as usize);
    lemma_mirror_bits(0u64, (sq as usize) ^ 56usize);
    assert(has_bit(x2, sq2) == has_bit(x1, sq));
    assert(has_bit(x2, ((sq2 as usize) ^ 56usize) as int) == has_bit(x1, ((sq as usize) ^ 56usize) as int));
    assert(has_bit(side_view(b2, p, s), sq2) == has_bit(side_view(b1, p, s), sq));
    assert(input_of(b2, m2, i, p, rel, sq2));
}

/// The value network sees a position and its mirror image across files alike: when
/// the side to move has a single king, the two give the same set of inputs, as the
/// mirroring by the king's file undoes the mirror image.
pub proof fn lemma_value_inputs_mirror(b1: Board, b2: Board, k: int)
    requires
        mirrored_boards(b1, b2),
        single_king(b1, k),
    ensures
        value_inputs(b1).to_set() == value_inputs(b2).to_set(),
{
    let k2 = ((k as usize) ^ 7usize) as int;
    lemma_mirror_bits(0u64, k as usize);
    assert(single_king(b2, k2)) by {
        assert forall|j: int| #[trigger] has_bit(b2.piece_bits(6) & b2.side_bits(b2.side_to_move@), j) <==> j == k2 by {
            if 0 <= j < 64 {
                lemma_mirror_bits(0u64, j as usize);
            }
        }
    }
    assert(mirrored_boards(b2, b1)) by {
        assert forall|p: int, s: int, j: int|
            1 <= p <= 6 && 0 <= s <= 1 && 0 <= j < 64 implies #[trigger] has_bit(b1.piece_bits(p) & b1.side_bits(s), j)
            == has_bit(b2.piece_bits(p) & b2.side_bits(s), ((j as usize) ^ 7usize) as int) by {
            lemma_mirror_bits(0u64, j as usize);
            let j2 = ((j as usize) ^ 7usize) as int;
            assert(has_bit(b2.piece_bits(p) & b2.side_bits(s), j2) == has_bit(
                b1.piece_bits(p) & b1.side_bits(s),
                ((j2 as usize) ^ 7usize) as int,
            ));
        }
    }
    assert forall|i: usize| value_inputs(b1).to_set().contains(i) == value_inputs(b2).to_set().contains(i) by {
        if value_inputs(b1).contains(i) {
            lemma_value_inputs_mirror_into(b1, b2, k, i);
        }
        if value_inputs(b2).contains(i) {
            lemma_value_inputs_mirror_into(b2, b1, k2, i);
        }
    }
    assert(value_inputs(b1).to_set() =~= value_inputs(b2).to_set());
}

/// The squares of a set from `start` on are listed once each, every one from `start` on.
proof fn lemma_squares_distinct(x: u64, start: int)
    requires
        0 <= start <= 64,
    ensures
        squares_from(x, start).no_duplicates(),
        forall|k: int| 0 <= k < squares_from(x, start).len() ==> start <= #[trigger] squares_from(x, start)[k] < 64,
    decreases 64 - start,
{
    if start < 64 {
        lemma_squares_distinct(x, start + 1);
        let rest = squares_from(x, start + 1);
        let head: Seq<int> = if has_bit(x, start) { seq![start] } else { Seq::empty() };
        assert(squares_from(x, start) == head + rest);
        assert forall|i: int, j: int| 0 <= i < head.len() && 0 <= j < rest.len() implies head[i] != rest[j] by {
            assert(start + 1 <= rest[j]);
        }
        vstd::seq_lib::lemma_no_dup_in_concat(head, rest);
        assert forall|k: int| 0 <= k < (head + rest).len() implies start <= #[trigger] (head + rest)[k] < 64 by {
            if k >= head.len() {
                assert((head + rest)[k] == rest[k - head.len()]);
            }
        }
    }
}

/// The inputs of a run are listed once each, all in the block of 64 from `base`.
proof fn lemma_run_distinct(x: u64, base: usize, mirror: usize)
    requires
        base <= 704,
        mirror == 0 || mirror == 7,
    ensures
        index_run(x, base, mirror).no_duplicates(),
        forall|k: int|
            0 <= k < index_run(x, base, mirror).len() ==> base <= #[trigger] index_run(x, base, mirror)[k] < base + 64,
{
    let sqs = squares_of(x);
    let run = index_run(x, base, mirror);
    lemma_squares_distinct(x, 0);
    assert forall|k: int| 0 <= k < run.len() implies base <= #[trigger] run[k] < base + 64 by {
        let sq = sqs[k];
        lemma_xor_on_board(sq as usize, mirror);
        assert(run[k] == input_index(base, sq, mirror));
    }
    assert forall|i: int, j: int| 0 <= i < run.len() && 0 <= j < run.len() && i != j implies run[i] != run[j] by {
        let a = sqs[i];
        let c = sqs[j];
        lemma_xor_on_board(a as usize, mirror);
        lemma_xor_on_board(c as usize, mirror);
        lemma_mirror_bits(0u64, a as usize);
        lemma_mirror_bits(0u64, c as usize);
        assert(run[i] == input_index(base, a, mirror));
        assert(run[j] == input_index(base, c, mirror));
        if run[i] == run[j] {
            assert(((a as usize) ^ mirror) == ((c as usize) ^ mirror));
            assert(a == c);
        }
    }
}

/// The inputs of the kinds from `piece` on are listed once each: those of the side to move
/// from 64 × (`piece` − 1) up to 384, those of the other side from 384 more up to 768.
proof fn lemma_inputs_distinct(b: Board, piece: int, mirror: usize)
    requires
        1 <= piece <= 7,
        mirror == 0 || mirror == 7,
    ensures
        inputs_from(b, piece, mirror).no_duplicates(),
        forall|k: int|
            0 <= k < inputs_from(b, piece, mirror).len() ==> ({
                let x = #[trigger] inputs_from(b, piece, mirror)[k];
                (64 * (piece - 1) <= x < 384) || (384 + 64 * (piece - 1) <= x < 768)
            }),
    decreases 7 - piece,
{
    if piece <= 6 {
        lemma_inputs_distinct(b, piece + 1, mirror);
        let a = index_run(side_view(b, piece, b.side_to_move@), (64 * (piece - 1)) as usize, mirror);
        let c = index_run(side_view(b, piece, 1 - b.side_to_move@), (384 + 64 * (piece - 1)) as usize, mirror);
        let rest = inputs_from(b, piece + 1, mirror);
        lemma_run_distinct(side_view(b, piece, b.side_to_move@), (64 * (piece - 1)) as usize, mirror);
        lemma_run_distinct(side_view(b, piece, 1 - b.side_to_move@), (384 + 64 * (piece - 1)) as usize, mirror);
        assert forall|i: int, j: int| 0 <= i < a.len() && 0 <= j < c.len() implies a[i] != c[j] by {
            assert(a[i] < 64 * piece);
            assert(c[j] >= 384);
        }
        vstd::seq_lib::lemma_no_dup_in_concat(a, c);
        assert forall|i: int, j: int| 0 <= i < (a + c).len() && 0 <= j < rest.len() implies (a + c)[i] != rest[j] by {
            let x = rest[j];
            assert((64 * piece <= x < 384) || (384 + 64 * piece <= x < 768));
            if i < a.len() {
                assert((a + c)[i] == a[i]);
            } else {
                assert((a + c)[i] == c[i - a.len()]);
            }
        }
        vstd::seq_lib::lemma_no_dup_in_concat(a + c, rest);
        assert(inputs_from(b, piece, mirror) == a + c + rest);
        assert forall|k: int| 0 <= k < (a + c + rest).len() implies ({
            let x = #[trigger] (a + c + rest)[k];
            (64 * (piece - 1) <= x < 384) || (384 + 64 * (piece - 1) <= x < 768)
        }) by {
            if k < a.len() {
                assert((a + c + rest)[k] == a[k]);
            } else if k < a.len() + c.len() {
                assert((a + c + rest)[k] == c[k - a.len()]);
            } else {
                assert((a + c + rest)[k] == rest[k - a.len() - c.len()]);
            }
        }
    }
}

/// The value network sees a position and its mirror image across files alike, input for
/// input: when the side to move has a single king, the two give the same inputs the same
/// number of times, each input once and below 768.
pub proof fn lemma_value_inputs_mirror_multiset(b1: Board, b2: Board, k: int)
    requires
        mirrored_boards(b1, b2),
        single_king(b1, k),
    ensures
        value_inputs(b1).to_multiset() == value_inputs(b2).to_multiset(),
        value_inputs(b1).no_duplicates(),
        forall|i: int| 0 <= i < value_inputs(b1).len() ==> #[trigger] value_inputs(b1)[i] < 768,
{
    let s1 = value_inputs(b1);
    let s2 = value_inputs(b2);
    lemma_value_inputs_mirror(b1, b2, k);
    lemma_inputs_distinct(b1, 1, king_mirror(b1));
    lemma_inputs_distinct(b2, 1, king_mirror(b2));
    s1.lemma_multiset_has_no_duplicates();
    s2.lemma_multiset_has_no_duplicates();
    broadcast use vstd::seq_lib::group_to_multiset_ensures;
    assert forall|x: usize| s1.to_multiset().count(x) == s2.to_multiset().count(x) by {
        assert(s1.to_set().contains(x) == s2.to_set().contains(x));
        assert(s1.contains(x) == s1.to_set().contains(x));
        assert(s2.contains(x) == s2.to_set().contains(x));
    }
    assert(s1.to_multiset() =~= s2.to_multiset());
    assert forall|i: int| 0 <= i < s1.len() implies #[trigger] s1[i] < 768 by {
        let x = s1[i];
        assert((0 <= x < 384) || (384 <= x < 768));
    }
}

} // verus!
