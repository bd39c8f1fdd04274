use vstd::prelude::*;
use vstd::std_specs::bits::u64_trailing_zeros;

use crate::attacks::Attacks;
use crate::bitboard::{Bitboard, has_bit, lemma_bitwise, lemma_clear_lowest, lemma_single_bit_update, lemma_zero_bits, single_bit};
use crate::board::Board;
use crate::core_structs::{move_squares_bits, CastleRights, Move, Piece, Side, Square};
use crate::geometry::{bishop_attack, king_attack, knight_attack, pawn_attack, ray, rook_attack, slider_attack};
use crate::rays::Ray;
use crate::move_list::{move_list_push, move_list_values, MoveList};

verus! {

/// The value of the move from `from` to `to` with the flags `flags`.
pub open spec fn move_value(from: int, to: int, flags: u16) -> u16 {
    move_squares_bits(from as u16, to as u16) | flags
}

/// The squares whose bit is set in `x`.
pub open spec fn bits_of(x: u64) -> spec_fn(int) -> bool {
    |j: int| has_bit(x, j)
}

/// The single move from `from` to a given square, with the flags `flags`.
pub open spec fn one_move(from: int, flags: u16) -> spec_fn(int) -> Seq<u16> {
    |to: int| seq![move_value(from, to, flags)]
}

/// The four promotions of a pawn from `from` to a given square (knight, bishop, rook,
/// queen), with the extra flags `flags`.
pub open spec fn promotions(from: int, flags: u16) -> spec_fn(int) -> Seq<u16> {
    |to: int|
        seq![
            move_value(from, to, 0x8000u16 | flags),
            move_value(from, to, 0x9000u16 | flags),
            move_value(from, to, 0xA000u16 | flags),
            move_value(from, to, 0xB000u16 | flags),
        ]
}

/// The moves `f` gives for each square from `start` to 63 that `pred` holds of, the
/// squares taken in ascending order.
pub open spec fn moves_from(pred: spec_fn(int) -> bool, f: spec_fn(int) -> Seq<u16>, start: int) -> Seq<u16>
    decreases 64 - start,
{
    if 0 <= start < 64 {
        (if pred(start) {
            f(start)
        } else {
            Seq::empty()
        }) + moves_from(pred, f, start + 1)
    } else {
        Seq::empty()
    }
}

/// The moves `f` gives for each square of the board that `pred` holds of, in ascending
/// order of the squares.
pub open spec fn moves_over(pred: spec_fn(int) -> bool, f: spec_fn(int) -> Seq<u16>) -> Seq<u16> {
    moves_from(pred, f, 0)
}

proof fn lemma_moves_from_agree(p1: spec_fn(int) -> bool, p2: spec_fn(int) -> bool, f: spec_fn(int) -> Seq<u16>, start: int)
    requires
        0 <= start <= 64,
        forall|j: int| start <= j < 64 ==> #[trigger] p1(j) == p2(j),
    ensures
        moves_from(p1, f, start) == moves_from(p2, f, start),
    decreases 64 - start,
{
    if start < 64 {
        lemma_moves_from_agree(p1, p2, f, start + 1);
    }
}

/// Two conditions that agree on every square give the same moves.
pub proof fn lemma_moves_over_agree(p1: spec_fn(int) -> bool, p2: spec_fn(int) -> bool, f: spec_fn(int) -> Seq<u16>)
    requires
        forall|j: int| 0 <= j < 64 ==> #[trigger] p1(j) == p2(j),
    ensures
        moves_over(p1, f) == moves_over(p2, f),
{
    lemma_moves_from_agree(p1, p2, f, 0);
}

proof fn lemma_moves_from_skip(p: spec_fn(int) -> bool, f: spec_fn(int) -> Seq<u16>, start: int, stop: int)
    requires
        0 <= start <= stop <= 64,
        forall|j: int| start <= j < stop ==> !#[trigger] p(j),
    ensures
        moves_from(p, f, start) == moves_from(p, f, stop),
    decreases stop - start,
{
    if start < stop {
        lemma_moves_from_skip(p, f, start + 1, stop);
        assert(moves_from(p, f, start) =~= moves_from(p, f, start + 1));
    }
}

/// No square holds of the empty set: nothing is generated over it.
pub proof fn lemma_moves_over_empty(f: spec_fn(int) -> Seq<u16>)
    ensures
        moves_over(bits_of(0u64), f) == Seq::<u16>::empty(),
{
    lemma_zero_bits();
    lemma_moves_from_skip(bits_of(0u64), f, 0, 64);
}

/// Over a non-empty set, the moves of its lowest square come first, then those of the
/// rest of the set.
pub proof fn lemma_moves_over_pop(x: u64, f: spec_fn(int) -> Seq<u16>)
    requires
        x != 0,
    ensures
        moves_over(bits_of(x), f) == f(u64_trailing_zeros(x) as int) + moves_over(
            bits_of(x & !single_bit(u64_trailing_zeros(x) as int)),
            f,
        ),
{
    lemma_clear_lowest(x);
    let t = u64_trailing_zeros(x) as int;
    let y = x & !single_bit(t);
    let px = bits_of(x);
    let py = bits_of(y);
    assert forall|j: int| 0 <= j < 64 implies #[trigger] py(j) == (j != t && px(j)) by {
        lemma_single_bit_update(x, t as u64, j as u64);
    }
    lemma_moves_from_skip(px, f, 0, t);
    lemma_moves_from_skip(py, f, 0, t + 1);
    lemma_moves_from_agree(px, py, f, t + 1);
    assert(moves_from(px, f, t) == f(t) + moves_from(px, f, t + 1));
}

/// One step of a walk over a set of squares: with `total` the moves still owed after
/// `cur`, taking the lowest square of `before` leaves the moves of that square, then
/// those of the rest of the set.
proof fn lemma_walk_pop(total: Seq<u16>, cur: Seq<u16>, before: u64, f: spec_fn(int) -> Seq<u16>)
    requires
        before != 0,
        total == cur + moves_over(bits_of(before), f),
    ensures
        total == (cur + f(u64_trailing_zeros(before) as int)) + moves_over(
            bits_of(before & !single_bit(u64_trailing_zeros(before) as int)),
            f,
        ),
        cur.len() + f(u64_trailing_zeros(before) as int).len() <= total.len(),
{
    let t = u64_trailing_zeros(before) as int;
    let rest = moves_over(bits_of(before & !single_bit(t)), f);
    lemma_moves_over_pop(before, f);
    assert(cur + (f(t) + rest) =~= (cur + f(t)) + rest);
}

/// At the end of a walk nothing more is owed.
proof fn lemma_walk_done(total: Seq<u16>, cur: Seq<u16>, f: spec_fn(int) -> Seq<u16>)
    requires
        total == cur + moves_over(bits_of(0u64), f),
    ensures
        total == cur,
{
    lemma_moves_over_empty(f);
    assert(cur + Seq::<u16>::empty() =~= cur);
}

/// Appends, for each square of `moves` in ascending order, the move from
/// `piece_position` to it with the flags `move_masks`.
fn populate_pawn_moves(move_list: &mut MoveList, piece_position: Square, moves: Bitboard, move_masks: u16)
    requires
        piece_position.on_board(),
        move_list_values(*old(move_list)).len() + moves_over(
            bits_of(moves@),
            one_move(piece_position@, move_masks),
        ).len() <= 256,
    ensures
        move_list_values(*final(move_list)) == move_list_values(*old(move_list)) + moves_over(
            bits_of(moves@),
            one_move(piece_position@, move_masks),
        ),
{
    let ghost f = one_move(piece_position@, move_masks);
    let ghost total = move_list_values(*move_list) + moves_over(bits_of(moves@), f);
    let mut remaining = moves;
    while remaining.is_not_empty()
        invariant
            f == one_move(piece_position@, move_masks),
            piece_position.on_board(),
            total == move_list_values(*move_list) + moves_over(bits_of(remaining@), f),
            total.len() <= 256,
        decreases remaining@,
    {
        let ghost cur = move_list_values(*move_list);
        proof {
            lemma_walk_pop(total, cur, remaining@, f);
        }
        let pawn_move = remaining.pop_ls1b_square();
        let mv = Move::create_move(piece_position, pawn_move, move_masks);
        move_list_push(move_list, mv);
        proof {
            assert(move_list_values(*move_list) =~= cur + f(pawn_move@));
        }
    }
    proof {
        lemma_walk_done(total, move_list_values(*move_list), f);
    }
}

/// Appends, for each square of `moves` in ascending order, the four promotions of the
/// pawn on `piece_position` to it (knight, bishop, rook, queen) with the extra flags
/// `move_masks`.
fn populate_pawn_promotion_moves(move_list: &mut MoveList, piece_position: Square, moves: Bitboard, move_masks: u16)
    requires
        piece_position.on_board(),
        move_list_values(*old(move_list)).len() + moves_over(
            bits_of(moves@),
            promotions(piece_position@, move_masks),
        ).len() <= 256,
    ensures
        move_list_values(*final(move_list)) == move_list_values(*old(move_list)) + moves_over(
            bits_of(moves@),
            promotions(piece_position@, move_masks),
        ),
{
    let ghost f = promotions(piece_position@, move_masks);
    let ghost total = move_list_values(*move_list) + moves_over(bits_of(moves@), f);
    let mut remaining = moves;
    while remaining.is_not_empty()
        invariant
            f == promotions(piece_position@, move_masks),
            piece_position.on_board(),
            total == move_list_values(*move_list) + moves_over(bits_of(remaining@), f),
            total.len() <= 256,
        decreases remaining@,
    {
        let ghost cur = move_list_values(*move_list);
        proof {
            lemma_walk_pop(total, cur, remaining@, f);
        }
        let pawn_move = remaining.pop_ls1b_square();
        move_list_push(move_list, Move::create_move(piece_position, pawn_move, Move::PROMOTION_KNIGHT_MASK | move_masks));
        move_list_push(move_list, Move::create_move(piece_position, pawn_move, Move::PROMOTION_BISHOP_MASK | move_masks));
        move_list_push(move_list, Move::create_move(piece_position, pawn_move, Move::PROMOTION_ROOK_MASK | move_masks));
        move_list_push(move_list, Move::create_move(piece_position, pawn_move, Move::PROMOTION_QUEEN_MASK | move_masks));
        proof {
            assert(move_list_values(*move_list) =~= cur + f(pawn_move@));
        }
    }
    proof {
        lemma_walk_done(total, move_list_values(*move_list), f);
    }
}

/// The moves of the piece on `from` to the squares `targets` holds of: first the moves
/// to empty squares, then the captures of pieces of the side not to move, each group in
/// ascending order of the squares.
pub open spec fn piece_moves(b: Board, from: int, targets: spec_fn(int) -> bool) -> Seq<u16> {
    moves_over(|j: int| targets(j) && !b.occupied(j), one_move(from, 0))
        + moves_over(|j: int| targets(j) && has_bit(b.side_bits(1 - b.side_to_move@), j), one_move(from, 0x4000))
}

/// Targets that agree on every square give the same moves.
pub proof fn lemma_piece_moves_agree(b: Board, from: int, t1: spec_fn(int) -> bool, t2: spec_fn(int) -> bool)
    requires
        forall|j: int| 0 <= j < 64 ==> #[trigger] t1(j) == t2(j),
    ensures
        piece_moves(b, from, t1) == piece_moves(b, from, t2),
{
    lemma_moves_over_agree(|j: int| t1(j) && !b.occupied(j), |j: int| t2(j) && !b.occupied(j), one_move(from, 0));
    lemma_moves_over_agree(
        |j: int| t1(j) && has_bit(b.side_bits(1 - b.side_to_move@), j),
        |j: int| t2(j) && has_bit(b.side_bits(1 - b.side_to_move@), j),
        one_move(from, 0x4000),
    );
}

/// Appends the moves of the piece on `piece_position` to the squares of `moves`: the
/// moves to empty squares, then the captures.
fn populate_piece_moves(move_list: &mut MoveList, board: &Board, piece_position: Square, moves: Bitboard)
    requires
        piece_position.on_board(),
        board.side_to_move.valid(),
        move_list_values(*old(move_list)).len() + piece_moves(*board, piece_position@, bits_of(moves@)).len() <= 256,
    ensures
        move_list_values(*final(move_list)) == move_list_values(*old(move_list)) + piece_moves(
            *board,
            piece_position@,
            bits_of(moves@),
        ),
{
    let quiet_moves = moves.and(board.get_occupancy().inverse());
    let captures = moves.and(board.get_opponent_occupancy());
    let ghost b = *board;
    let ghost from = piece_position@;
    proof {
        let occ = b.side_bits(0) | b.side_bits(1);
        assert forall|j: int| 0 <= j < 64 implies #[trigger] bits_of(quiet_moves@)(j) == (bits_of(moves@)(j) && !b.occupied(j)) by {
            lemma_bitwise(moves@, !occ, j as u64);
            lemma_bitwise(occ, occ, j as u64);
            lemma_bitwise(b.side_bits(0), b.side_bits(1), j as u64);
        }
        assert forall|j: int| 0 <= j < 64 implies #[trigger] bits_of(captures@)(j) == (bits_of(moves@)(j) && has_bit(b.side_bits(1 - b.side_to_move@), j)) by {
            lemma_bitwise(moves@, b.side_bits(1 - b.side_to_move@), j as u64);
        }
        lemma_moves_over_agree(bits_of(quiet_moves@), |j: int| bits_of(moves@)(j) && !b.occupied(j), one_move(from, 0));
        lemma_moves_over_agree(
            bits_of(captures@),
            |j: int| bits_of(moves@)(j) && has_bit(b.side_bits(1 - b.side_to_move@), j),
            one_move(from, 0x4000),
        );
    }
    populate_pawn_moves(move_list, piece_position, quiet_moves, 0);
    populate_pawn_moves(move_list, piece_position, captures, Move::CAPTURE_MASK);
    proof {
        assert(move_list_values(*move_list) =~= move_list_values(*old(move_list)) + piece_moves(b, from, bits_of(moves@)));
    }
}

/// For a knight on a given square: its moves to the squares of `restrict` it attacks.
pub open spec fn knight_square_moves(b: Board, restrict: u64) -> spec_fn(int) -> Seq<u16> {
    |s: int| piece_moves(b, s, |j: int| knight_attack(s, j) && has_bit(restrict, j))
}

/// For a bishop (`is_bishop`) or rook on a given square: its moves to the squares of
/// `restrict` it attacks on this board.
pub open spec fn slider_square_moves(b: Board, is_bishop: bool, restrict: u64) -> spec_fn(int) -> Seq<u16> {
    |s: int| piece_moves(b, s, |j: int| slider_attack(is_bishop, s, b.side_bits(0) | b.side_bits(1), j) && has_bit(restrict, j))
}

/// The knight moves: those of the knights of the side to move that no line pins, to the
/// squares of `move_mask`.
pub open spec fn knight_moves(b: Board, move_mask: u64) -> Seq<u16> {
    moves_over(
        bits_of((b.piece_bits(2) & b.side_bits(b.side_to_move@)) & !(b.ortographic_pins@ | b.diagonal_pins@)),
        knight_square_moves(b, move_mask),
    )
}

fn generate_knight_moves(move_list: &mut MoveList, attacks: &Attacks, board: &Board, move_mask: Bitboard)
    requires
        attacks.wf(),
        board.side_to_move.valid(),
        move_list_values(*old(move_list)).len() + knight_moves(*board, move_mask@).len() <= 256,
    ensures
        move_list_values(*final(move_list)) == move_list_values(*old(move_list)) + knight_moves(*board, move_mask@),
{
    let ghost b = *board;
    let ghost f = knight_square_moves(b, move_mask@);
    let pin_mask = board.ortographic_pins.or(board.diagonal_pins);
    let mut remaining = board.get_piece_mask(Piece::KNIGHT, board.side_to_move).and(pin_mask.inverse());
    let ghost total = move_list_values(*move_list) + moves_over(bits_of(remaining@), f);
    while remaining.is_not_empty()
        invariant
            attacks.wf(),
            b == *board,
            b.side_to_move.valid(),
            f == knight_square_moves(b, move_mask@),
            total == move_list_values(*move_list) + moves_over(bits_of(remaining@), f),
            total.len() <= 256,
        decreases remaining@,
    {
        let ghost cur = move_list_values(*move_list);
        proof {
            lemma_walk_pop(total, cur, remaining@, f);
        }
        let knight_square = remaining.pop_ls1b_square();
        let reach = attacks.get_knight_attacks_for_square(knight_square);
        let knight_attacks = reach.and(move_mask);
        proof {
            let s = knight_square@;
            assert forall|j: int| 0 <= j < 64 implies #[trigger] bits_of(knight_attacks@)(j) == (knight_attack(s, j) && has_bit(move_mask@, j)) by {
                lemma_bitwise(reach@, move_mask@, j as u64);
                assert(reach.contains(j) == knight_attack(s, j));
            }
            lemma_piece_moves_agree(b, s, bits_of(knight_attacks@), |j: int| knight_attack(s, j) && has_bit(move_mask@, j));
        }
        populate_piece_moves(move_list, board, knight_square, knight_attacks);
    }
    proof {
        lemma_walk_done(total, move_list_values(*move_list), f);
    }
}

/// Appends, for each square of `sources` in ascending order, the moves of the bishop
/// (`is_bishop`) or rook on it to the squares of `restrict` it attacks.
fn walk_slider(
    move_list: &mut MoveList,
    attacks: &Attacks,
    board: &Board,
    sources: Bitboard,
    is_bishop: bool,
    restrict: Bitboard,
)
    requires
        attacks.wf(),
        board.side_to_move.valid(),
        move_list_values(*old(move_list)).len() + moves_over(
            bits_of(sources@),
            slider_square_moves(*board, is_bishop, restrict@),
        ).len() <= 256,
    ensures
        move_list_values(*final(move_list)) == move_list_values(*old(move_list)) + moves_over(
            bits_of(sources@),
            slider_square_moves(*board, is_bishop, restrict@),
        ),
{
    let ghost b = *board;
    let ghost f = slider_square_moves(b, is_bishop, restrict@);
    let occupancy = board.get_occupancy();
    let mut remaining = sources;
    let ghost total = move_list_values(*move_list) + moves_over(bits_of(remaining@), f);
    while remaining.is_not_empty()
        invariant
            attacks.wf(),
            b == *board,
            b.side_to_move.valid(),
            occupancy@ == b.side_bits(0) | b.side_bits(1),
            f == slider_square_moves(b, is_bishop, restrict@),
            total == move_list_values(*move_list) + moves_over(bits_of(remaining@), f),
            total.len() <= 256,
        decreases remaining@,
    {
        let ghost cur = move_list_values(*move_list);
        proof {
            lemma_walk_pop(total, cur, remaining@, f);
        }
        let square = remaining.pop_ls1b_square();
        let reach = if is_bishop {
            attacks.get_bishop_attacks_for_square(square, occupancy)
        } else {
            attacks.get_rook_attacks_for_square(square, occupancy)
        };
        let targets = reach.and(restrict);
        proof {
            let sq = square@;
            let occ = occupancy@;
            assert forall|j: int| 0 <= j < 64 implies #[trigger] bits_of(targets@)(j) == (slider_attack(is_bishop, sq, occ, j) && has_bit(restrict@, j)) by {
                lemma_bitwise(reach@, restrict@, j as u64);
                assert(reach.contains(j) == slider_attack(is_bishop, sq, occ, j));
            }
            lemma_piece_moves_agree(b, sq, bits_of(targets@), |j: int| slider_attack(is_bishop, sq, occ, j) && has_bit(restrict@, j));
        }
        populate_piece_moves(move_list, board, square, targets);
    }
    proof {
        lemma_walk_done(total, move_list_values(*move_list), f);
    }
}

/// The bishop moves, queens included: those of the pieces no line pins, to the squares of
/// `move_mask`, then those of the pieces a diagonal pins, along that diagonal.
pub open spec fn bishop_moves(b: Board, move_mask: u64) -> Seq<u16> {
    let stm = b.side_to_move@;
    let pieces = (b.piece_bits(3) & b.side_bits(stm)) | (b.piece_bits(5) & b.side_bits(stm));
    let movable = pieces & !b.ortographic_pins@;
    let pinned = movable & b.diagonal_pins@;
    moves_over(bits_of(movable & !pinned), slider_square_moves(b, true, move_mask))
        + moves_over(bits_of(pinned), slider_square_moves(b, true, move_mask & b.diagonal_pins@))
}

/// The rook moves, queens included: those of the pieces no line pins, to the squares of
/// `move_mask`, then those of the pieces a rank or file pins, along that line.
pub open spec fn rook_moves(b: Board, move_mask: u64) -> Seq<u16> {
    let stm = b.side_to_move@;
    let pieces = (b.piece_bits(4) & b.side_bits(stm)) | (b.piece_bits(5) & b.side_bits(stm));
    let movable = pieces & !b.diagonal_pins@;
    let pinned = movable & b.ortographic_pins@;
    moves_over(bits_of(movable & !pinned), slider_square_moves(b, false, move_mask))
        + moves_over(bits_of(pinned), slider_square_moves(b, false, move_mask & b.ortographic_pins@))
}

fn generate_bishop_moves(move_list: &mut MoveList, attacks: &Attacks, board: &Board, move_mask: Bitboard)
    requires
        attacks.wf(),
        board.side_to_move.valid(),
        move_list_values(*old(move_list)).len() + bishop_moves(*board, move_mask@).len() <= 256,
    ensures
        move_list_values(*final(move_list)) == move_list_values(*old(move_list)) + bishop_moves(*board, move_mask@),
{
    let piece_mask = board.get_piece_mask(Piece::BISHOP, board.side_to_move).or(
        board.get_piece_mask(Piece::QUEEN, board.side_to_move),
    );
    let movable_bishops = piece_mask.and(board.ortographic_pins.inverse());
    let pinned_bishops = movable_bishops.and(board.diagonal_pins);
    walk_slider(move_list, attacks, board, movable_bishops.and(pinned_bishops.inverse()), true, move_mask);
    walk_slider(move_list, attacks, board, pinned_bishops, true, move_mask.and(board.diagonal_pins));
    proof {
        assert(move_list_values(*move_list) =~= move_list_values(*old(move_list)) + bishop_moves(*board, move_mask@));
    }
}

fn generate_rooks_moves(move_list: &mut MoveList, attacks: &Attacks, board: &Board, move_mask: Bitboard)
    requires
        attacks.wf(),
        board.side_to_move.valid(),
        move_list_values(*old(move_list)).len() + rook_moves(*board, move_mask@).len() <= 256,
    ensures
        move_list_values(*final(move_list)) == move_list_values(*old(move_list)) + rook_moves(*board, move_mask@),
{
    let piece_mask = board.get_piece_mask(Piece::ROOK, board.side_to_move).or(
        board.get_piece_mask(Piece::QUEEN, board.side_to_move),
    );
    let movable_rooks = piece_mask.and(board.diagonal_pins.inverse());
    let pinned_rooks = movable_rooks.and(board.ortographic_pins);
    walk_slider(move_list, attacks, board, movable_rooks.and(pinned_rooks.inverse()), false, move_mask);
    walk_slider(move_list, attacks, board, pinned_rooks, false, move_mask.and(board.ortographic_pins));
    proof {
        assert(move_list_values(*move_list) =~= move_list_values(*old(move_list)) + rook_moves(*board, move_mask@));
    }
}

/// For the king on `k`: the move to a given square unless a piece of the other side
/// attacks that square once the king has left `k`, flagged a capture when the square
/// holds a piece of the other side.
pub open spec fn king_step(b: Board, k: int) -> spec_fn(int) -> Seq<u16> {
    let stm = b.side_to_move@;
    let occ_mask = (b.side_bits(0) | b.side_bits(1)) & !single_bit(k);
    |t: int|
        if b.square_attacked(t, 1 - stm, occ_mask) {
            Seq::empty()
        } else {
            seq![move_value(k, t, if has_bit(b.side_bits(1 - stm), t) { 0x4000u16 } else { 0u16 })]
        }
}

/// The king moves: to each square next to the king that no piece of its side holds and
/// that is not attacked once the king has moved.
pub open spec fn king_moves(b: Board) -> Seq<u16> {
    let stm = b.side_to_move@;
    let k = b.king_square(stm);
    moves_over(|t: int| king_attack(k, t) && !has_bit(b.side_bits(stm), t), king_step(b, k))
}

/// The king captures: the king moves to squares that hold a piece of the other side.
pub open spec fn king_captures(b: Board) -> Seq<u16> {
    let stm = b.side_to_move@;
    let k = b.king_square(stm);
    moves_over(
        |t: int| king_attack(k, t) && !has_bit(b.side_bits(stm), t) && has_bit(b.side_bits(1 - stm), t),
        king_step(b, k),
    )
}

/// Appends the king moves to the squares of `targets`.
fn walk_king(move_list: &mut MoveList, attacks: &Attacks, board: &Board, targets: Bitboard)
    requires
        attacks.wf(),
        board.side_to_move.valid(),
        board.has_king(board.side_to_move@),
        move_list_values(*old(move_list)).len() + moves_over(
            bits_of(targets@),
            king_step(*board, board.king_square(board.side_to_move@)),
        ).len() <= 256,
    ensures
        move_list_values(*final(move_list)) == move_list_values(*old(move_list)) + moves_over(
            bits_of(targets@),
            king_step(*board, board.king_square(board.side_to_move@)),
        ),
{
    let ghost b = *board;
    let king_square = board.get_king_square(board.side_to_move);
    proof {
        lemma_clear_lowest(b.piece_bits(6) & b.side_bits(b.side_to_move@));
    }
    let ghost f = king_step(b, king_square@);
    let occupnacy_mask = board.get_occupancy().exclude(king_square);
    let opponent_occupancy = board.get_opponent_occupancy();
    let opponent = board.side_to_move.flipped();
    let mut remaining = targets;
    let ghost total = move_list_values(*move_list) + moves_over(bits_of(remaining@), f);
    while remaining.is_not_empty()
        invariant
            attacks.wf(),
            b == *board,
            king_square.on_board(),
            opponent.valid(),
            opponent@ == 1 - b.side_to_move@,
            occupnacy_mask@ == (b.side_bits(0) | b.side_bits(1)) & !single_bit(king_square@),
            opponent_occupancy@ == b.side_bits(1 - b.side_to_move@),
            f == king_step(b, king_square@),
            total == move_list_values(*move_list) + moves_over(bits_of(remaining@), f),
            total.len() <= 256,
        decreases remaining@,
    {
        let ghost cur = move_list_values(*move_list);
        proof {
            lemma_walk_pop(total, cur, remaining@, f);
        }
        let king_move = remaining.pop_ls1b_square();
        if !board.is_square_attacked_extended(attacks, king_move, opponent, occupnacy_mask) {
            let is_capture = opponent_occupancy.get_bit(king_move);
            let move_mask = if is_capture { Move::CAPTURE_MASK } else { 0 };
            let mv = Move::create_move(king_square, king_move, move_mask);
            move_list_push(move_list, mv);
            proof {
                assert(move_list_values(*move_list) =~= cur + f(king_move@));
            }
        } else {
            proof {
                assert(cur =~= cur + f(king_move@));
            }
        }
    }
    proof {
        lemma_walk_done(total, move_list_values(*move_list), f);
    }
}

fn generate_king_moves(move_list: &mut MoveList, attacks: &Attacks, board: &Board)
    requires
        attacks.wf(),
        board.side_to_move.valid(),
        board.has_king(board.side_to_move@),
        move_list_values(*old(move_list)).len() + king_moves(*board).len() <= 256,
    ensures
        move_list_values(*final(move_list)) == move_list_values(*old(move_list)) + king_moves(*board),
{
    let ghost b = *board;
    let king_square = board.get_king_square(board.side_to_move);
    proof {
        lemma_clear_lowest(b.piece_bits(6) & b.side_bits(b.side_to_move@));
    }
    let king_moves = attacks.get_king_attacks_for_square(king_square);
    let king_move_mask = king_moves.and(board.get_allied_occupancy().inverse());
    proof {
        let k = king_square@;
        let stm = b.side_to_move@;
        assert forall|t: int| 0 <= t < 64 implies #[trigger] bits_of(king_move_mask@)(t) == (king_attack(k, t) && !has_bit(b.side_bits(stm), t)) by {
            lemma_bitwise(king_moves@, !b.side_bits(stm), t as u64);
            lemma_bitwise(b.side_bits(stm), 0, t as u64);
            assert(king_moves.contains(t) == king_attack(k, t));
        }
        lemma_moves_over_agree(bits_of(king_move_mask@), |t: int| king_attack(k, t) && !has_bit(b.side_bits(stm), t), king_step(b, k));
    }
    walk_king(move_list, attacks, board, king_move_mask);
}

fn generate_king_captures(move_list: &mut MoveList, attacks: &Attacks, board: &Board)
    requires
        attacks.wf(),
        board.side_to_move.valid(),
        board.has_king(board.side_to_move@),
        move_list_values(*old(move_list)).len() + king_captures(*board).len() <= 256,
    ensures
        move_list_values(*final(move_list)) == move_list_values(*old(move_list)) + king_captures(*board),
{
    let ghost b = *board;
    let king_square = board.get_king_square(board.side_to_move);
    proof {
        lemma_clear_lowest(b.piece_bits(6) & b.side_bits(b.side_to_move@));
    }
    let king_moves = attacks.get_king_attacks_for_square(king_square);
    let free = king_moves.and(board.get_allied_occupancy().inverse());
    let king_move_mask = free.and(board.get_opponent_occupancy());
    proof {
        let k = king_square@;
        let stm = b.side_to_move@;
        assert forall|t: int| 0 <= t < 64 implies #[trigger] bits_of(king_move_mask@)(t) == (king_attack(k, t) && !has_bit(b.side_bits(stm), t) && has_bit(b.side_bits(1 - stm), t)) by {
            lemma_bitwise(free@, b.side_bits(1 - stm), t as u64);
            lemma_bitwise(king_moves@, !b.side_bits(stm), t as u64);
            lemma_bitwise(b.side_bits(stm), 0, t as u64);
            assert(king_moves.contains(t) == king_attack(k, t));
        }
        lemma_moves_over_agree(
            bits_of(king_move_mask@),
            |t: int| king_attack(k, t) && !has_bit(b.side_bits(stm), t) && has_bit(b.side_bits(1 - stm), t),
            king_step(b, k),
        );
    }
    walk_king(move_list, attacks, board, king_move_mask);
}

/// Whether the king of the side to move may castle to `dest` with the rook on `rook`:
/// the squares between the king and its destination, and between the king and the rook,
/// hold nothing but that rook, and no piece of the other side attacks a square the king
/// crosses or reaches.
pub open spec fn castle_path_ok(b: Board, dest: int, rook: int) -> bool {
    let stm = b.side_to_move@;
    let k = b.king_square(stm);
    let occ = b.side_bits(0) | b.side_bits(1);
    &&& forall|j: int|
        0 <= j < 64 && (ray(k, dest, j) || j == dest || ray(k, rook, j)) && j != rook ==> !#[trigger] b.occupied(j)
    &&& !exists|j: int| 0 <= j < 64 && (ray(k, dest, j) || j == dest) && #[trigger] b.square_attacked(j, 1 - stm, occ)
}

/// The castling moves: king side first, then queen side, each when the right is held and
/// the path is free.
pub open spec fn castle_moves(b: Board) -> Seq<u16> {
    let stm = b.side_to_move@;
    let off = 56 * stm;
    let k = b.king_square(stm);
    (if b.castle_rights.has(2 * stm) && castle_path_ok(b, 6 + off, 7 + off) {
        seq![move_value(k, 6 + off, 0x2000u16)]
    } else {
        Seq::empty()
    }) + (if b.castle_rights.has(2 * stm + 1) && castle_path_ok(b, 2 + off, off) {
        seq![move_value(k, 2 + off, 0x3000u16)]
    } else {
        Seq::empty()
    })
}

/// Whether the king may castle to `king_destination` with the rook on `rook_position`.
fn is_castle_path_clear(attacks: &Attacks, board: &Board, king_destination: Square, rook_position: Square) -> (r: bool)
    requires
        attacks.wf(),
        board.side_to_move.valid(),
        board.has_king(board.side_to_move@),
        king_destination.on_board(),
        rook_position.on_board(),
    ensures
        r == castle_path_ok(*board, king_destination@, rook_position@),
{
    let ghost b = *board;
    let king_position = board.get_king_square(board.side_to_move);
    proof {
        lemma_clear_lowest(b.piece_bits(6) & b.side_bits(b.side_to_move@));
    }
    let occupancy = board.get_occupancy();
    let to_dest = Ray::get_ray(king_position, king_destination);
    let king_ray = to_dest.with_square(king_destination);
    let rook_ray = Ray::get_ray(king_position, rook_position);
    let blockers = king_ray.or(rook_ray).and(occupancy.exclude(rook_position));
    let is_line_empty = blockers.is_empty();
    let attacked = board.any_squares_attacked(attacks, king_ray, board.side_to_move.flipped());
    proof {
        let k = king_position@;
        let dest = king_destination@;
        let rook = rook_position@;
        let stm = b.side_to_move@;
        let occ = b.side_bits(0) | b.side_bits(1);
        assert forall|j: int| 0 <= j < 64 implies #[trigger] king_ray.contains(j) == (ray(k, dest, j) || j == dest) by {
            lemma_single_bit_update(to_dest@, dest as u64, j as u64);
            assert(to_dest.contains(j) == ray(k, dest, j));
        }
        assert forall|j: int| 0 <= j < 64 implies #[trigger] has_bit(blockers@, j) == ((ray(k, dest, j) || j == dest || ray(k, rook, j)) && j != rook && b.occupied(j)) by {
            lemma_bitwise(king_ray@ | rook_ray@, occ & !single_bit(rook), j as u64);
            lemma_bitwise(king_ray@, rook_ray@, j as u64);
            lemma_single_bit_update(occ, rook as u64, j as u64);
            lemma_bitwise(b.side_bits(0), b.side_bits(1), j as u64);
            assert(rook_ray.contains(j) == ray(k, rook, j));
            assert(king_ray.contains(j) == (ray(k, dest, j) || j == dest));
        }
        crate::bitboard::lemma_nonzero(blockers@);
        if is_line_empty {
            assert forall|j: int|
                0 <= j < 64 && (ray(k, dest, j) || j == dest || ray(k, rook, j)) && j != rook implies !#[trigger] b.occupied(j) by {
                assert(!has_bit(blockers@, j));
            }
        } else {
            let j = choose|j: int| 0 <= j < 64 && #[trigger] has_bit(blockers@, j);
            assert(b.occupied(j));
        }
        if attacked {
            let j = choose|j: int| 0 <= j < 64 && #[trigger] king_ray.contains(j) && b.square_attacked(j, 1 - stm, occ);
            assert(b.square_attacked(j, 1 - stm, occ));
        } else {
            assert forall|j: int| 0 <= j < 64 && (ray(k, dest, j) || j == dest) implies !#[trigger] b.square_attacked(j, 1 - stm, occ) by {
                assert(king_ray.contains(j));
            }
        }
    }
    !attacked && is_line_empty
}

fn generate_casting_moves(move_list: &mut MoveList, attacks: &Attacks, board: &Board)
    requires
        attacks.wf(),
        board.side_to_move.valid(),
        board.has_king(board.side_to_move@),
        move_list_values(*old(move_list)).len() + castle_moves(*board).len() <= 256,
    ensures
        move_list_values(*final(move_list)) == move_list_values(*old(move_list)) + castle_moves(*board),
{
    let ghost b = *board;
    let ghost start = move_list_values(*move_list);
    let king_position = board.get_king_square(board.side_to_move);
    proof {
        lemma_clear_lowest(b.piece_bits(6) & b.side_bits(b.side_to_move@));
    }
    let side_multiplier = (board.side_to_move.current() * 2) as u8;
    let square_offset = board.side_to_move.current() * 56;
    let king_side_rook_position = Square::from_raw(7).add(square_offset);
    let queen_side_rook_position = Square::from_raw(0).add(square_offset);

    let king_destination = Square::from_raw(6).add(square_offset);
    if board.castle_rights.get_right(CastleRights::WHITE_KING + side_multiplier)
        && is_castle_path_clear(attacks, board, king_destination, king_side_rook_position) {
        move_list_push(move_list, Move::create_move(king_position, king_destination, Move::KING_CASTLE_MASK));
    }
    let ghost mid = move_list_values(*move_list);

    let king_destination = Square::from_raw(2).add(square_offset);
    if board.castle_rights.get_right(CastleRights::WHITE_QUEEN + side_multiplier)
        && is_castle_path_clear(attacks, board, king_destination, queen_side_rook_position) {
        move_list_push(move_list, Move::create_move(king_position, king_destination, Move::QUEEN_CASTLE_MASK));
    }
    proof {
        let stm = b.side_to_move@;
        let off = 56 * stm;
        let k = b.king_square(stm);
        let first: Seq<u16> = if b.castle_rights.has(2 * stm) && castle_path_ok(b, 6 + off, 7 + off) {
            seq![move_value(k, 6 + off, 0x2000u16)]
        } else {
            Seq::empty()
        };
        assert(mid =~= start + first);
        assert(move_list_values(*move_list) =~= start + castle_moves(b));
    }
}

pub const RANK_2: u64 = 0x000000000000FF00;
pub const RANK_7: u64 = 0x00FF000000000000;

/// The square in front of a pawn of `side` on `s`, as a set (empty off the board).
pub open spec fn pawn_push(side: int, s: int) -> u64 {
    if side == 0 {
        single_bit(s) << 8u32
    } else {
        single_bit(s) >> 8u32
    }
}

/// The rank from which the pawns of `side` promote with their next step.
pub open spec fn promotion_rank(side: int) -> u64 {
    if side == 0 {
        RANK_7
    } else {
        RANK_7 >> 40u32
    }
}

/// The rank from which the pawns of `side` may advance two squares.
pub open spec fn double_push_rank(side: int) -> u64 {
    if side == 0 {
        RANK_2
    } else {
        RANK_2 << 40u32
    }
}

/// The pawns of the side to move.
pub open spec fn pawn_set(b: Board) -> u64 {
    b.piece_bits(1) & b.side_bits(b.side_to_move@)
}

/// The pawns no diagonal pins: those that may advance.
pub open spec fn movable_pawns(b: Board) -> u64 {
    pawn_set(b) & !b.diagonal_pins@
}

pub open spec fn movable_pinned_pawns(b: Board) -> u64 {
    movable_pawns(b) & b.ortographic_pins@
}

pub open spec fn double_pushable_pawns(b: Board) -> u64 {
    movable_pawns(b) & double_push_rank(b.side_to_move@)
}

/// The pawns no rank or file pins: those that may capture.
pub open spec fn agressive_pawns(b: Board) -> u64 {
    pawn_set(b) & !b.ortographic_pins@
}

pub open spec fn agressive_pinned_pawns(b: Board) -> u64 {
    agressive_pawns(b) & b.diagonal_pins@
}

/// Whether a pawn of the side to move on `s` reaches `t`: by a capture of a piece of the
/// other side (`capture`), or by a step to the square in front that no piece of the other
/// side holds.
pub open spec fn pawn_reach(b: Board, capture: bool, s: int, t: int) -> bool {
    let stm = b.side_to_move@;
    if capture {
        pawn_attack(stm, s, t) && has_bit(b.side_bits(1 - stm), t)
    } else {
        has_bit(pawn_push(stm, s), t) && !has_bit(b.side_bits(1 - stm), t)
    }
}

/// For a pawn on a given square: its moves to the squares of `restrict` it reaches, with
/// the flags `flags`, as the four promotions each when `promote`.
pub open spec fn pawn_square_moves(b: Board, capture: bool, restrict: u64, flags: u16, promote: bool) -> spec_fn(int) -> Seq<u16> {
    |s: int|
        moves_over(
            |t: int| pawn_reach(b, capture, s, t) && has_bit(restrict, t),
            if promote {
                promotions(s, flags)
            } else {
                one_move(s, flags)
            },
        )
}

/// The pawn moves of the pawns of `sources`, taken in ascending order.
pub open spec fn pawn_family(b: Board, sources: u64, capture: bool, restrict: u64, flags: u16, promote: bool) -> Seq<u16> {
    moves_over(bits_of(sources), pawn_square_moves(b, capture, restrict, flags, promote))
}

/// For a pawn on its starting rank: nothing when the square in front is taken, else its
/// single step and then its double step, to squares of `restrict` that no piece of the
/// other side holds.
pub open spec fn double_step(b: Board, restrict: u64) -> spec_fn(int) -> Seq<u16> {
    let stm = b.side_to_move@;
    let opp = b.side_bits(1 - stm);
    |s: int| {
        let m = (s as usize ^ 24usize) as int;
        if b.occupied(m) {
            Seq::empty()
        } else {
            moves_over(|t: int| has_bit(pawn_push(stm, s), t) && !has_bit(opp, t) && has_bit(restrict, t), one_move(s, 0))
                + moves_over(
                |t: int| has_bit(pawn_push(stm, m), t) && !has_bit(opp, t) && has_bit(restrict, t),
                one_move(s, 0x1000),
            )
        }
    }
}

/// The square in front of a pawn of `side` on `square`.
fn pawn_push_squares(side: Side, square: Square) -> (r: Bitboard)
    requires
        side.valid(),
        square.on_board(),
    ensures
        r@ == pawn_push(side@, square@),
{
    if side.current() == 0 {
        square.get_bit().shift_left(8)
    } else {
        square.get_bit().shift_right(8)
    }
}

/// Appends the moves of the pawns of `sources` to the squares of `restrict` they reach.
fn walk_pawns(
    move_list: &mut MoveList,
    attacks: &Attacks,
    board: &Board,
    sources: Bitboard,
    capture: bool,
    restrict: Bitboard,
    flags: u16,
    promote: bool,
)
    requires
        attacks.wf(),
        board.side_to_move.valid(),
        move_list_values(*old(move_list)).len() + pawn_family(*board, sources@, capture, restrict@, flags, promote).len() <= 256,
    ensures
        move_list_values(*final(move_list)) == move_list_values(*old(move_list)) + pawn_family(
            *board,
            sources@,
            capture,
            restrict@,
            flags,
            promote,
        ),
{
    let ghost b = *board;
    let ghost f = pawn_square_moves(b, capture, restrict@, flags, promote);
    let opponent_occupancy = board.get_opponent_occupancy();
    let mut remaining = sources;
    let ghost total = move_list_values(*move_list) + moves_over(bits_of(remaining@), f);
    while remaining.is_not_empty()
        invariant
            attacks.wf(),
            b == *board,
            b.side_to_move.valid(),
            opponent_occupancy@ == b.side_bits(1 - b.side_to_move@),
            f == pawn_square_moves(b, capture, restrict@, flags, promote),
            total == move_list_values(*move_list) + moves_over(bits_of(remaining@), f),
            total.len() <= 256,
        decreases remaining@,
    {
        let ghost cur = move_list_values(*move_list);
        proof {
            lemma_walk_pop(total, cur, remaining@, f);
        }
        let square = remaining.pop_ls1b_square();
        let step = if capture {
            attacks.get_pawn_attacks_for_square(square, board.side_to_move)
        } else {
            pawn_push_squares(board.side_to_move, square)
        };
        let reach = if capture {
            step.and(opponent_occupancy)
        } else {
            step.and(opponent_occupancy.inverse())
        };
        let targets = reach.and(restrict);
        proof {
            let sq = square@;
            let stm = b.side_to_move@;
            assert forall|t: int| 0 <= t < 64 implies #[trigger] bits_of(targets@)(t) == (pawn_reach(b, capture, sq, t) && has_bit(restrict@, t)) by {
                lemma_bitwise(reach@, restrict@, t as u64);
                if capture {
                    lemma_bitwise(step@, b.side_bits(1 - stm), t as u64);
                    assert(step.contains(t) == pawn_attack(stm, sq, t));
                } else {
                    lemma_bitwise(step@, !b.side_bits(1 - stm), t as u64);
                    lemma_bitwise(b.side_bits(1 - stm), 0, t as u64);
                }
            }
        }
        if promote {
            proof {
                lemma_moves_over_agree(bits_of(targets@), |t: int| pawn_reach(b, capture, square@, t) && has_bit(restrict@, t), promotions(square@, flags));
            }
            populate_pawn_promotion_moves(move_list, square, targets, flags);
        } else {
            proof {
                lemma_moves_over_agree(bits_of(targets@), |t: int| pawn_reach(b, capture, square@, t) && has_bit(restrict@, t), one_move(square@, flags));
            }
            populate_pawn_moves(move_list, square, targets, flags);
        }
    }
    proof {
        lemma_walk_done(total, move_list_values(*move_list), f);
    }
}

/// Appends the single and double steps of the pawns of `sources` on their starting rank.
fn walk_double_pushes(move_list: &mut MoveList, board: &Board, sources: Bitboard, restrict: Bitboard)
    requires
        board.side_to_move.valid(),
        move_list_values(*old(move_list)).len() + moves_over(bits_of(sources@), double_step(*board, restrict@)).len() <= 256,
    ensures
        move_list_values(*final(move_list)) == move_list_values(*old(move_list)) + moves_over(
            bits_of(sources@),
            double_step(*board, restrict@),
        ),
{
    let ghost b = *board;
    let ghost f = double_step(b, restrict@);
    let occupancy = board.get_occupancy();
    let opponent_occupancy = board.get_opponent_occupancy();
    let mut remaining = sources;
    let ghost total = move_list_values(*move_list) + moves_over(bits_of(remaining@), f);
    while remaining.is_not_empty()
        invariant
            b == *board,
            b.side_to_move.valid(),
            occupancy@ == b.side_bits(0) | b.side_bits(1),
            opponent_occupancy@ == b.side_bits(1 - b.side_to_move@),
            f == double_step(b, restrict@),
            total == move_list_values(*move_list) + moves_over(bits_of(remaining@), f),
            total.len() <= 256,
        decreases remaining@,
    {
        let ghost cur = move_list_values(*move_list);
        proof {
            lemma_walk_pop(total, cur, remaining@, f);
        }
        let double_push_pawn = remaining.pop_ls1b_square();
        let front = double_push_pawn.xor(24);
        proof {
            crate::bitboard::lemma_xor_on_board(double_push_pawn@ as usize, 24);
        }
        let ghost sq = double_push_pawn@;
        let ghost m = front@;
        let ghost stm = b.side_to_move@;
        let ghost opp = b.side_bits(1 - stm);
        if front.get_bit().and(occupancy).is_not_empty() {
            proof {
                crate::bitboard::lemma_single_bit_and(occupancy@, m as u64);
                lemma_bitwise(b.side_bits(0), b.side_bits(1), m as u64);
                crate::bitboard::lemma_and_commutes(occupancy@, single_bit(m));
                assert(cur =~= cur + f(sq));
            }
        } else {
            proof {
                crate::bitboard::lemma_single_bit_and(occupancy@, m as u64);
                lemma_bitwise(b.side_bits(0), b.side_bits(1), m as u64);
                crate::bitboard::lemma_and_commutes(occupancy@, single_bit(m));
                assert(!b.occupied(m));
            }
            let single = pawn_push_squares(board.side_to_move, double_push_pawn).and(opponent_occupancy.inverse()).and(restrict);
            let double = pawn_push_squares(board.side_to_move, front).and(opponent_occupancy.inverse()).and(restrict);
            proof {
                assert forall|t: int| 0 <= t < 64 implies #[trigger] bits_of(single@)(t) == (has_bit(pawn_push(stm, sq), t) && !has_bit(opp, t) && has_bit(restrict@, t)) by {
                    lemma_bitwise(pawn_push(stm, sq) & !opp, restrict@, t as u64);
                    lemma_bitwise(pawn_push(stm, sq), !opp, t as u64);
                    lemma_bitwise(opp, 0, t as u64);
                }
                assert forall|t: int| 0 <= t < 64 implies #[trigger] bits_of(double@)(t) == (has_bit(pawn_push(stm, m), t) && !has_bit(opp, t) && has_bit(restrict@, t)) by {
                    lemma_bitwise(pawn_push(stm, m) & !opp, restrict@, t as u64);
                    lemma_bitwise(pawn_push(stm, m), !opp, t as u64);
                    lemma_bitwise(opp, 0, t as u64);
                }
                lemma_moves_over_agree(bits_of(single@), |t: int| has_bit(pawn_push(stm, sq), t) && !has_bit(opp, t) && has_bit(restrict@, t), one_move(sq, 0));
                lemma_moves_over_agree(bits_of(double@), |t: int| has_bit(pawn_push(stm, m), t) && !has_bit(opp, t) && has_bit(restrict@, t), one_move(sq, 0x1000));
            }
            populate_pawn_moves(move_list, double_push_pawn, single, 0);
            populate_pawn_moves(move_list, double_push_pawn, double, Move::DOUBLE_PUSH_MASK);
            proof {
                assert(move_list_values(*move_list) =~= cur + f(sq));
            }
        }
    }
    proof {
        lemma_walk_done(total, move_list_values(*move_list), f);
    }
}

/// Whether the pawn on `attacker` may take en passant: the pawn it takes stands on a
/// square of `move_mask`, and once both pawns have left their squares and the capturing
/// pawn stands on the en passant square, no bishop or queen (rook or queen) of the other
/// side sees the king of the side to move along a diagonal (line) through the square of
/// the taken pawn.
pub open spec fn en_passant_ok(b: Board, attacker: int, move_mask: u64) -> bool {
    let stm = b.side_to_move@;
    let opp = 1 - stm;
    let ep = b.en_passant@;
    let target = (ep as usize ^ 8usize) as int;
    let k = b.king_square(stm);
    let occ = (((b.side_bits(0) | b.side_bits(1)) & !single_bit(target)) & !single_bit(attacker)) | single_bit(ep);
    let dx = bishop_attack(k, occ, target);
    let ox = rook_attack(k, occ, target);
    let bq = (b.piece_bits(3) & b.side_bits(opp)) | (b.piece_bits(5) & b.side_bits(opp));
    let rq = (b.piece_bits(4) & b.side_bits(opp)) | (b.piece_bits(5) & b.side_bits(opp));
    if !has_bit(move_mask, target) {
        false
    } else if !(dx || ox) {
        true
    } else if dx && exists|j: int| 0 <= j < 64 && #[trigger] bishop_attack(k, occ, j) && has_bit(bq, j) {
        false
    } else if ox && exists|j: int| 0 <= j < 64 && #[trigger] rook_attack(k, occ, j) && has_bit(rq, j) {
        false
    } else {
        true
    }
}

/// For a pawn on a given square: its en passant capture to the squares of `restrict` it
/// attacks, when the capture is allowed.
pub open spec fn en_passant_step(b: Board, move_mask: u64, restrict: u64) -> spec_fn(int) -> Seq<u16> {
    |s: int|
        if en_passant_ok(b, s, move_mask) {
            moves_over(|t: int| pawn_attack(b.side_to_move@, s, t) && has_bit(restrict, t), one_move(s, 0x5000))
        } else {
            Seq::empty()
        }
}

/// Whether a pawn that `attacker` would take en passant may be taken.
fn en_passant_allowed(attacks: &Attacks, board: &Board, target: Square, attacker: Square, move_mask: Bitboard) -> (r: bool)
    requires
        attacks.wf(),
        board.side_to_move.valid(),
        board.has_king(board.side_to_move@),
        board.en_passant.on_board(),
        target@ == (board.en_passant@ as usize ^ 8usize) as int,
        target.on_board(),
        attacker.on_board(),
    ensures
        r == en_passant_ok(*board, attacker@, move_mask@),
{
    let ghost b = *board;
    let ghost stm = b.side_to_move@;
    let ghost opp = 1 - stm;
    let target_bit = target.get_bit();
    proof {
        crate::bitboard::lemma_single_bit_and(move_mask@, target@ as u64);
        crate::bitboard::lemma_and_commutes(move_mask@, single_bit(target@));
    }
    if target_bit.and(move_mask).is_empty() {
        return false;
    }
    let king_square = board.get_king_square(board.side_to_move);
    proof {
        lemma_clear_lowest(b.piece_bits(6) & b.side_bits(stm));
    }
    let occupancy = board.get_occupancy().exclude(target).exclude(attacker).with_square(board.en_passant);
    let diagonal_xray = attacks.get_bishop_attacks_for_square(king_square, occupancy);
    let ortographic_xray = attacks.get_rook_attacks_for_square(king_square, occupancy);
    let ghost k = king_square@;
    let ghost occ = occupancy@;
    let ghost tg = target@;
    proof {
        crate::bitboard::lemma_single_bit_and(diagonal_xray@ | ortographic_xray@, tg as u64);
        crate::bitboard::lemma_single_bit_and(diagonal_xray@, tg as u64);
        crate::bitboard::lemma_single_bit_and(ortographic_xray@, tg as u64);
        lemma_bitwise(diagonal_xray@, ortographic_xray@, tg as u64);
        assert(diagonal_xray.contains(tg) == bishop_attack(k, occ, tg));
        assert(ortographic_xray.contains(tg) == rook_attack(k, occ, tg));
    }
    if diagonal_xray.or(ortographic_xray).and(target_bit).is_empty() {
        return true;
    }
    let piece_mask = board.get_piece_mask(Piece::BISHOP, board.side_to_move.flipped()).or(
        board.get_piece_mask(Piece::QUEEN, board.side_to_move.flipped()),
    );
    let seen = diagonal_xray.and(piece_mask);
    proof {
        crate::bitboard::lemma_nonzero(seen@);
        let bq = (b.piece_bits(3) & b.side_bits(opp)) | (b.piece_bits(5) & b.side_bits(opp));
        if seen@ != 0 {
            let j = choose|j: int| 0 <= j < 64 && #[trigger] has_bit(seen@, j);
            lemma_bitwise(diagonal_xray@, piece_mask@, j as u64);
            assert(diagonal_xray.contains(j));
        }
        if exists|j: int| 0 <= j < 64 && #[trigger] bishop_attack(k, occ, j) && has_bit(bq, j) {
            let j = choose|j: int| 0 <= j < 64 && #[trigger] bishop_attack(k, occ, j) && has_bit(bq, j);
            lemma_bitwise(diagonal_xray@, piece_mask@, j as u64);
            assert(diagonal_xray.contains(j));
            assert(has_bit(seen@, j));
        }
    }
    if diagonal_xray.and(target_bit).is_not_empty() && seen.is_not_empty() {
        return false;
    }
    let piece_mask = board.get_piece_mask(Piece::ROOK, board.side_to_move.flipped()).or(
        board.get_piece_mask(Piece::QUEEN, board.side_to_move.flipped()),
    );
    let seen = ortographic_xray.and(piece_mask);
    proof {
        crate::bitboard::lemma_nonzero(seen@);
        let rq = (b.piece_bits(4) & b.side_bits(opp)) | (b.piece_bits(5) & b.side_bits(opp));
        if seen@ != 0 {
            let j = choose|j: int| 0 <= j < 64 && #[trigger] has_bit(seen@, j);
            lemma_bitwise(ortographic_xray@, piece_mask@, j as u64);
            assert(ortographic_xray.contains(j));
        }
        if exists|j: int| 0 <= j < 64 && #[trigger] rook_attack(k, occ, j) && has_bit(rq, j) {
            let j = choose|j: int| 0 <= j < 64 && #[trigger] rook_attack(k, occ, j) && has_bit(rq, j);
            lemma_bitwise(ortographic_xray@, piece_mask@, j as u64);
            assert(ortographic_xray.contains(j));
            assert(has_bit(seen@, j));
        }
    }
    if ortographic_xray.and(target_bit).is_not_empty() && seen.is_not_empty() {
        return false;
    }
    true
}

/// Appends the en passant captures of the pawns of `sources` to the squares of
/// `restrict` they attack.
fn walk_en_passant(
    move_list: &mut MoveList,
    attacks: &Attacks,
    board: &Board,
    sources: Bitboard,
    restrict: Bitboard,
    move_mask: Bitboard,
)
    requires
        attacks.wf(),
        board.side_to_move.valid(),
        board.has_king(board.side_to_move@),
        board.en_passant.on_board(),
        move_list_values(*old(move_list)).len() + moves_over(
            bits_of(sources@),
            en_passant_step(*board, move_mask@, restrict@),
        ).len() <= 256,
    ensures
        move_list_values(*final(move_list)) == move_list_values(*old(move_list)) + moves_over(
            bits_of(sources@),
            en_passant_step(*board, move_mask@, restrict@),
        ),
{
    let ghost b = *board;
    let ghost f = en_passant_step(b, move_mask@, restrict@);
    let attacked_pawn = board.en_passant.xor(8);
    proof {
        b.en_passant.lemma_index_nonnegative();
        crate::bitboard::lemma_xor_on_board(b.en_passant@ as usize, 8);
    }
    let mut remaining = sources;
    let ghost total = move_list_values(*move_list) + moves_over(bits_of(remaining@), f);
    while remaining.is_not_empty()
        invariant
            attacks.wf(),
            b == *board,
            b.side_to_move.valid(),
            b.has_king(b.side_to_move@),
            b.en_passant.on_board(),
            attacked_pawn@ == (b.en_passant@ as usize ^ 8usize) as int,
            attacked_pawn.on_board(),
            f == en_passant_step(b, move_mask@, restrict@),
            total == move_list_values(*move_list) + moves_over(bits_of(remaining@), f),
            total.len() <= 256,
        decreases remaining@,
    {
        let ghost cur = move_list_values(*move_list);
        proof {
            lemma_walk_pop(total, cur, remaining@, f);
        }
        let en_passant_pawn = remaining.pop_ls1b_square();
        let reach = attacks.get_pawn_attacks_for_square(en_passant_pawn, board.side_to_move);
        let pawn_attack_mask = reach.and(restrict);
        let allowed = en_passant_allowed(attacks, board, attacked_pawn, en_passant_pawn, move_mask);
        let adjusted_move_mask = if allowed { pawn_attack_mask } else { Bitboard::empty() };
        proof {
            let sq = en_passant_pawn@;
            if allowed {
                assert forall|t: int| 0 <= t < 64 implies #[trigger] bits_of(adjusted_move_mask@)(t) == (pawn_attack(b.side_to_move@, sq, t) && has_bit(restrict@, t)) by {
                    lemma_bitwise(reach@, restrict@, t as u64);
                    assert(reach.contains(t) == pawn_attack(b.side_to_move@, sq, t));
                }
                lemma_moves_over_agree(bits_of(adjusted_move_mask@), |t: int| pawn_attack(b.side_to_move@, sq, t) && has_bit(restrict@, t), one_move(sq, 0x5000));
            } else {
                lemma_moves_over_empty(one_move(sq, 0x5000));
            }
        }
        proof {
            crate::core_structs::lemma_en_passant_flags();
        }
        populate_pawn_moves(move_list, en_passant_pawn, adjusted_move_mask, Move::CAPTURE_MASK | Move::EN_PASSANT_MASK);
    }
    proof {
        lemma_walk_done(total, move_list_values(*move_list), f);
    }
}

/// The pawn steps: plain steps of the pawns no line pins, steps along the pinning line,
/// promotions by a step, then the single and double steps from the starting rank, all to
/// squares of `move_mask`.
pub open spec fn pawn_quiet_moves(b: Board, move_mask: u64) -> Seq<u16> {
    let promo = promotion_rank(b.side_to_move@);
    let movable = movable_pawns(b);
    let pinned = movable_pinned_pawns(b);
    let double = double_pushable_pawns(b);
    let orth = b.ortographic_pins@;
    pawn_family(b, ((movable & !double) & !pinned) & !promo, false, move_mask, 0, false)
        + pawn_family(b, (pinned & !double) & !promo, false, move_mask & orth, 0, false)
        + pawn_family(b, (movable & !pinned) & promo, false, move_mask, 0, true)
        + moves_over(bits_of(double & !pinned), double_step(b, move_mask))
        + moves_over(bits_of(double & pinned), double_step(b, move_mask & orth))
}

/// The pawn captures: those of the pawns no line pins, those along a pinning diagonal,
/// the capturing promotions likewise, then, when there is an en passant square, the en
/// passant captures; all to squares of `move_mask`.
pub open spec fn pawn_capture_moves(b: Board, move_mask: u64) -> Seq<u16> {
    let promo = promotion_rank(b.side_to_move@);
    let agressive = agressive_pawns(b);
    let pinned = agressive_pinned_pawns(b);
    let diag = b.diagonal_pins@;
    let ep = b.en_passant@;
    pawn_family(b, (agressive & !pinned) & !promo, true, move_mask, 0x4000, false)
        + pawn_family(b, pinned & !promo, true, move_mask & diag, 0x4000, false)
        + pawn_family(b, (agressive & !pinned) & promo, true, move_mask, 0x4000, true)
        + pawn_family(b, pinned & promo, true, move_mask & diag, 0x4000, true)
        + (if ep == 64 {
        Seq::empty()
    } else {
        moves_over(bits_of(agressive & !pinned), en_passant_step(b, move_mask, single_bit(ep)))
            + moves_over(bits_of(pinned), en_passant_step(b, move_mask, single_bit(ep) & diag))
    })
}

/// The pawn moves: the steps, then the captures.
pub open spec fn pawn_moves(b: Board, move_mask: u64) -> Seq<u16> {
    pawn_quiet_moves(b, move_mask) + pawn_capture_moves(b, move_mask)
}

#[verifier::spinoff_prover]
#[verifier::rlimit(40)]
fn generate_pawn_captures(move_list: &mut MoveList, attacks: &Attacks, board: &Board, move_mask: Bitboard)
    requires
        attacks.wf(),
        board.side_to_move.valid(),
        board.has_king(board.side_to_move@),
        board.en_passant@ <= 64,
        move_list_values(*old(move_list)).len() + pawn_capture_moves(*board, move_mask@).len() <= 256,
    ensures
        move_list_values(*final(move_list)) == move_list_values(*old(move_list)) + pawn_capture_moves(*board, move_mask@),
{
    let ghost b = *board;
    let ghost start = move_list_values(*move_list);
    let promotion_rank = if board.side_to_move.current() == 0 {
        Bitboard::from_raw(RANK_7)
    } else {
        Bitboard::from_raw(RANK_7).shift_right(40)
    };
    let pawns = board.get_piece_mask(Piece::PAWN, board.side_to_move);
    let agressive_pawns = pawns.and(board.ortographic_pins.inverse());
    let agressive_pinned_pawns = agressive_pawns.and(board.diagonal_pins);
    let free = agressive_pawns.and(agressive_pinned_pawns.inverse());
    let pinned_mask = move_mask.and(board.diagonal_pins);

    walk_pawns(move_list, attacks, board, free.and(promotion_rank.inverse()), true, move_mask, Move::CAPTURE_MASK, false);
    walk_pawns(move_list, attacks, board, agressive_pinned_pawns.and(promotion_rank.inverse()), true, pinned_mask, Move::CAPTURE_MASK, false);
    walk_pawns(move_list, attacks, board, free.and(promotion_rank), true, move_mask, Move::CAPTURE_MASK, true);
    walk_pawns(move_list, attacks, board, agressive_pinned_pawns.and(promotion_rank), true, pinned_mask, Move::CAPTURE_MASK, true);
    let ghost before_ep = move_list_values(*move_list);

    if board.en_passant.equals(Square::null()) {
        proof {
            assert(move_list_values(*move_list) =~= start + pawn_capture_moves(b, move_mask@));
        }
        return;
    }
    proof {
        board.en_passant.lemma_index_nonnegative();
    }
    let en_passant_bit = board.en_passant.get_bit();
    walk_en_passant(move_list, attacks, board, free, en_passant_bit, move_mask);
    walk_en_passant(move_list, attacks, board, agressive_pinned_pawns, en_passant_bit.and(board.diagonal_pins), move_mask);
    proof {
        assert(move_list_values(*move_list) =~= start + pawn_capture_moves(b, move_mask@));
    }
}

#[verifier::spinoff_prover]
#[verifier::rlimit(40)]
fn generate_pawn_moves(move_list: &mut MoveList, attacks: &Attacks, board: &Board, move_mask: Bitboard)
    requires
        attacks.wf(),
        board.side_to_move.valid(),
        board.has_king(board.side_to_move@),
        board.en_passant@ <= 64,
        move_list_values(*old(move_list)).len() + pawn_moves(*board, move_mask@).len() <= 256,
    ensures
        move_list_values(*final(move_list)) == move_list_values(*old(move_list)) + pawn_moves(*board, move_mask@),
{
    let ghost b = *board;
    let ghost start = move_list_values(*move_list);
    let promotion_rank = if board.side_to_move.current() == 0 {
        Bitboard::from_raw(RANK_7)
    } else {
        Bitboard::from_raw(RANK_7).shift_right(40)
    };
    let double_push_rank = if board.side_to_move.current() == 0 {
        Bitboard::from_raw(RANK_2)
    } else {
        Bitboard::from_raw(RANK_2).shift_left(40)
    };
    let pawns = board.get_piece_mask(Piece::PAWN, board.side_to_move);
    let movable_pawns = pawns.and(board.diagonal_pins.inverse());
    let movable_pinned_pawns = movable_pawns.and(board.ortographic_pins);
    let double_pushable_pawns = movable_pawns.and(double_push_rank);
    let pinned_mask = move_mask.and(board.ortographic_pins);

    walk_pawns(
        move_list,
        attacks,
        board,
        movable_pawns.and(double_pushable_pawns.inverse()).and(movable_pinned_pawns.inverse()).and(promotion_rank.inverse()),
        false,
        move_mask,
        0,
        false,
    );
    walk_pawns(
        move_list,
        attacks,
        board,
        movable_pinned_pawns.and(double_pushable_pawns.inverse()).and(promotion_rank.inverse()),
        false,
        pinned_mask,
        0,
        false,
    );
    walk_pawns(move_list, attacks, board, movable_pawns.and(movable_pinned_pawns.inverse()).and(promotion_rank), false, move_mask, 0, true);
    walk_double_pushes(move_list, board, double_pushable_pawns.and(movable_pinned_pawns.inverse()), move_mask);
    walk_double_pushes(move_list, board, double_pushable_pawns.and(movable_pinned_pawns), pinned_mask);
    proof {
        assert(move_list_values(*move_list) =~= start + pawn_quiet_moves(b, move_mask@));
    }
    generate_pawn_captures(move_list, attacks, board, move_mask);
    proof {
        assert(move_list_values(*move_list) =~= start + pawn_moves(b, move_mask@));
    }
}

/// The set of the squares below `n` that `pred` holds of.
pub open spec fn squares_mask(pred: spec_fn(int) -> bool, n: int) -> u64
    decreases n,
{
    if n <= 0 {
        0
    } else {
        squares_mask(pred, n - 1) | (if pred(n - 1) {
            single_bit(n - 1)
        } else {
            0u64
        })
    }
}

/// A square is in `squares_mask(pred, n)` exactly when it lies below `n` and `pred`
/// holds of it.
pub proof fn lemma_squares_mask(pred: spec_fn(int) -> bool, n: int, j: int)
    requires
        0 <= n <= 64,
        0 <= j < 64,
    ensures
        has_bit(squares_mask(pred, n), j) == (j < n && pred(j)),
    decreases n,
{
    if n == 0 {
        lemma_zero_bits();
    } else {
        lemma_squares_mask(pred, n - 1, j);
        let low = squares_mask(pred, n - 1);
        lemma_bitwise(low, if pred(n - 1) { single_bit(n - 1) } else { 0u64 }, j as u64);
        lemma_single_bit_update(0, (n - 1) as u64, j as u64);
        lemma_zero_bits();
    }
}

/// The squares from `from` (excluded) to `to` (included) along their shared line.
pub open spec fn ray_mask(from: int, to: int) -> u64 {
    squares_mask(|j: int| ray(from, to, j), 64)
}

/// Whether more than one piece gives check.
pub open spec fn double_check(b: Board) -> bool {
    let c = b.checkers@;
    c != 0 && c & ((c - 1) as u64) != 0
}

/// The squares the pieces other than the king may move to: any square the side to move
/// does not hold (the pieces of the other side, for captures) when there is no check;
/// else the checking piece, and for all moves also the squares between it and the king.
pub open spec fn evasion_mask(b: Board, only_captures: bool) -> u64 {
    let stm = b.side_to_move@;
    let c = b.checkers@;
    if c == 0 {
        if only_captures {
            b.side_bits(1 - stm)
        } else {
            !b.side_bits(stm)
        }
    } else if only_captures {
        c
    } else {
        let checker = u64_trailing_zeros(c) as int;
        ray_mask(b.king_square(stm), checker) | single_bit(checker)
    }
}

/// The moves the generator lists, in order: the king moves (king captures only, for
/// captures); nothing more in double check; else the castling moves when there is no
/// check and all moves are asked for, then the pawn, knight, bishop and rook moves to
/// the squares of the evasion mask.
pub open spec fn generated_moves(b: Board, only_captures: bool) -> Seq<u16> {
    let king_part = if only_captures {
        king_captures(b)
    } else {
        king_moves(b)
    };
    if double_check(b) {
        king_part
    } else {
        let mask = evasion_mask(b, only_captures);
        let castle_part = if !only_captures && b.checkers@ == 0 {
            castle_moves(b)
        } else {
            Seq::empty()
        };
        let pawn_part = if only_captures {
            pawn_capture_moves(b, mask)
        } else {
            pawn_moves(b, mask)
        };
        king_part + castle_part + pawn_part + knight_moves(b, mask) + bishop_moves(b, mask) + rook_moves(b, mask)
    }
}

/// Whether the board is one the generator can read: a side to move, a king of that side
/// and an en passant square on the board or none.
pub open spec fn generation_ready(b: Board) -> bool {
    &&& b.side_to_move.valid()
    &&& b.has_king(b.side_to_move@)
    &&& b.en_passant@ <= 64
}

pub struct MoveProvider;

impl MoveProvider {
    /// Appends the moves of the position to `move_list` (only the captures when
    /// `ONLY_CAPTURE`), in the order of `generated_moves`.
    #[verifier::spinoff_prover]
    #[verifier::rlimit(30)]
    pub fn generate_moves<const ONLY_CAPTURE: bool>(move_list: &mut MoveList, attacks: &Attacks, board: &Board)
        requires
            attacks.wf(),
            generation_ready(*board),
            move_list_values(*old(move_list)).len() + generated_moves(*board, ONLY_CAPTURE).len() <= 256,
        ensures
            move_list_values(*final(move_list)) == move_list_values(*old(move_list)) + generated_moves(*board, ONLY_CAPTURE),
    {
        let ghost b = *board;
        let ghost start = move_list_values(*move_list);
        if ONLY_CAPTURE {
            generate_king_captures(move_list, attacks, board);
        } else {
            generate_king_moves(move_list, attacks, board);
        }
        let checkers = board.checkers;
        let no_checks = checkers.is_empty();
        if checkers.multiple_one_bits() {
            return;
        } else if !ONLY_CAPTURE && no_checks {
            generate_casting_moves(move_list, attacks, board);
        }
        let ghost after_castle = move_list_values(*move_list);

        let move_mask = if no_checks {
            if ONLY_CAPTURE {
                board.get_opponent_occupancy()
            } else {
                board.get_allied_occupancy().inverse()
            }
        } else {
            if ONLY_CAPTURE {
                checkers
            } else {
                let checker = checkers.ls1b_square();
                let king_square = board.get_king_square(board.side_to_move);
                proof {
                    lemma_clear_lowest(checkers@);
                    lemma_clear_lowest(b.piece_bits(6) & b.side_bits(b.side_to_move@));
                }
                let between = Ray::get_ray(king_square, checker);
                proof {
                    let k = king_square@;
                    let c = checker@;
                    assert forall|j: int| 0 <= j < 64 implies has_bit(between@, j) == has_bit(ray_mask(k, c), j) by {
                        lemma_squares_mask(|i: int| ray(k, c, i), 64, j);
                        assert(between.contains(j) == ray(k, c, j));
                    }
                    crate::bitboard::lemma_bits_ext(between@, ray_mask(k, c));
                }
                between.with_square(checker)
            }
        };
        proof {
            assert(move_mask@ == evasion_mask(b, ONLY_CAPTURE));
        }
        if ONLY_CAPTURE {
            generate_pawn_captures(move_list, attacks, board, move_mask);
        } else {
            generate_pawn_moves(move_list, attacks, board, move_mask);
        }
        generate_knight_moves(move_list, attacks, board, move_mask);
        generate_bishop_moves(move_list, attacks, board, move_mask);
        generate_rooks_moves(move_list, attacks, board, move_mask);
        proof {
            assert(move_list_values(*move_list) =~= start + generated_moves(b, ONLY_CAPTURE));
        }
    }
}

} // verus!
