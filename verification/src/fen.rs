use vstd::prelude::*;
use vstd::string::StringSliceAdditionalSpecFns;

use crate::attacks::Attacks;
use crate::bitboard::{has_bit, lemma_single_bit_update, single_bit};
use crate::board::Board;
use crate::bit_ops::{lemma_set_bit_to_one, u8_bit};
use crate::core_structs::{castle_rights_text, CastleRights, Side, Square};

verus! {

/// The ASCII characters `char::is_whitespace` accepts: tab, line feed, vertical tab,
/// form feed, carriage return and space.
pub open spec fn is_space(c: u8) -> bool {
    c == 9 || c == 10 || c == 11 || c == 12 || c == 13 || c == 32
}

/// The words of `s`: its maximal runs of characters other than white space, in order.
pub open spec fn words(s: Seq<u8>) -> Seq<Seq<u8>>
    decreases s.len(),
{
    if s.len() == 0 {
        Seq::empty()
    } else {
        let w = words(s.drop_last());
        let c = s.last();
        if is_space(c) {
            w
        } else if s.len() >= 2 && !is_space(s[s.len() - 2]) {
            w.drop_last().push(w.last().push(c))
        } else {
            w.push(seq![c])
        }
    }
}

/// The pieces of `s` between the separators `sep`, empty pieces included: one more
/// piece than there are separators.
pub open spec fn pieces_of(s: Seq<u8>, sep: u8) -> Seq<Seq<u8>>
    decreases s.len(),
{
    if s.len() == 0 {
        seq![Seq::empty()]
    } else {
        let p = pieces_of(s.drop_last(), sep);
        if s.last() == sep {
            p.push(Seq::empty())
        } else {
            p.drop_last().push(p.last().push(s.last()))
        }
    }
}

proof fn lemma_pieces_nonempty(s: Seq<u8>, sep: u8)
    ensures
        pieces_of(s, sep).len() >= 1,
    decreases s.len(),
{
    if s.len() > 0 {
        lemma_pieces_nonempty(s.drop_last(), sep);
    }
}

proof fn lemma_words_last(s: Seq<u8>)
    requires
        s.len() >= 1,
        !is_space(s.last()),
    ensures
        words(s).len() >= 1,
    decreases s.len(),
{
    if s.len() >= 2 && !is_space(s[s.len() - 2]) {
        lemma_words_last(s.drop_last());
    }
}

/// The text of `s` from `span.0` up to `span.1`.
pub open spec fn span_text(s: Seq<u8>, span: (usize, usize)) -> Seq<u8> {
    s.subrange(span.0 as int, span.1 as int)
}

/// Whether the spans `spans` lie in order within `s` and hold exactly the texts `texts`.
pub open spec fn spans_hold(s: Seq<u8>, spans: Seq<(usize, usize)>, texts: Seq<Seq<u8>>) -> bool {
    &&& spans.len() == texts.len()
    &&& forall|k: int|
        0 <= k < spans.len() ==> #[trigger] spans[k].0 <= spans[k].1 <= s.len() && span_text(s, spans[k])
            == texts[k]
}

proof fn lemma_span_at(s: Seq<u8>, spans: Seq<(usize, usize)>, texts: Seq<Seq<u8>>, k: int)
    requires
        spans_hold(s, spans, texts),
        0 <= k < spans.len(),
    ensures
        spans[k].0 <= spans[k].1 <= s.len(),
        span_text(s, spans[k]) == texts[k],
{
    assert(spans[k].0 <= spans[k].1 <= s.len());
}

/// The positions of the words of `bytes`.
pub(crate) fn word_spans(bytes: &[u8]) -> (r: Vec<(usize, usize)>)
    ensures
        spans_hold(bytes@, r@, words(bytes@)),
{
    let mut spans: Vec<(usize, usize)> = Vec::new();
    let mut i: usize = 0;
    while i < bytes.len()
        invariant
            i <= bytes@.len(),
            spans_hold(bytes@, spans@, words(bytes@.take(i as int))),
            i > 0 && !is_space(bytes@[i - 1]) ==> spans@.len() >= 1 && spans@.last().1 == i,
        decreases bytes.len() - i,
    {
        let c = bytes[i];
        let ghost s = bytes@.take(i as int + 1);
        proof {
            assert(s.drop_last() =~= bytes@.take(i as int));
        }
        let space = c == 9 || c == 10 || c == 11 || c == 12 || c == 13 || c == 32;
        if space {
        } else if i > 0 && !(bytes[i - 1] == 9 || bytes[i - 1] == 10 || bytes[i - 1] == 11 || bytes[i - 1] == 12
            || bytes[i - 1] == 13 || bytes[i - 1] == 32) {
            let ghost before = spans@;
            let last = spans.pop().unwrap();
            spans.push((last.0, i + 1));
            proof {
                let w = words(bytes@.take(i as int));
                assert(s[s.len() - 2] == bytes@[i - 1]);
                assert(span_text(bytes@, (last.0, (i + 1) as usize)) =~= w.last().push(c));
                assert forall|k: int| 0 <= k < spans@.len() implies #[trigger] spans@[k].0 <= spans@[k].1 <= bytes@.len()
                    && span_text(bytes@, spans@[k]) == words(s)[k] by {
                    if k < spans@.len() - 1 {
                        assert(spans@[k] == before[k]);
                    }
                }
            }
        } else {
            spans.push((i, i + 1));
            proof {
                assert(span_text(bytes@, (i, (i + 1) as usize)) =~= seq![c]);
                assert forall|k: int| 0 <= k < spans@.len() implies #[trigger] spans@[k].0 <= spans@[k].1 <= bytes@.len()
                    && span_text(bytes@, spans@[k]) == words(s)[k] by {
                }
            }
        }
        i = i + 1;
    }
    proof {
        assert(bytes@.take(i as int) =~= bytes@);
    }
    spans
}

/// The positions of the pieces between the separators `sep` of `bytes` from `start` up
/// to `end`.
#[verifier::spinoff_prover]
pub(crate) fn piece_spans(bytes: &[u8], start: usize, end: usize, sep: u8) -> (r: Vec<(usize, usize)>)
    requires
        start <= end <= bytes@.len(),
    ensures
        spans_hold(bytes@, r@, pieces_of(bytes@.subrange(start as int, end as int), sep)),
{
    let mut spans: Vec<(usize, usize)> = Vec::new();
    spans.push((start, start));
    let mut i: usize = start;
    proof {
        assert(bytes@.subrange(start as int, start as int) =~= Seq::<u8>::empty());
        assert(span_text(bytes@, (start, start)) =~= Seq::<u8>::empty());
    }
    while i < end
        invariant
            start <= i <= end <= bytes@.len(),
            spans_hold(bytes@, spans@, pieces_of(bytes@.subrange(start as int, i as int), sep)),
            spans@.len() >= 1,
            spans@.last().1 == i,
        decreases end - i,
    {
        let c = bytes[i];
        let ghost s = bytes@.subrange(start as int, i as int + 1);
        let ghost before = spans@;
        proof {
            assert(s.drop_last() =~= bytes@.subrange(start as int, i as int));
            assert(s.last() == c);
        }
        if c == sep {
            spans.push((i + 1, i + 1));
            proof {
                let p = pieces_of(bytes@.subrange(start as int, i as int), sep);
                assert(pieces_of(s, sep) == p.push(Seq::empty()));
                assert(span_text(bytes@, ((i + 1) as usize, (i + 1) as usize)) =~= Seq::<u8>::empty());
                assert forall|k: int| 0 <= k < spans@.len() implies #[trigger] spans@[k].0 <= spans@[k].1 <= bytes@.len()
                    && span_text(bytes@, spans@[k]) == pieces_of(s, sep)[k] by {
                    if k < spans@.len() - 1 {
                        assert(spans@[k] == before[k]);
                        assert(before[k].0 <= before[k].1 <= bytes@.len());
                        assert(span_text(bytes@, before[k]) == p[k]);
                    } else {
                        assert(k == before.len() - 1 + (spans@.len() - before.len()));
                    }
                }
            }
        } else {
            let last = spans.pop().unwrap();
            spans.push((last.0, i + 1));
            proof {
                let p = pieces_of(bytes@.subrange(start as int, i as int), sep);
                assert(pieces_of(s, sep) == p.drop_last().push(p.last().push(c)));
                assert(span_text(bytes@, (last.0, (i + 1) as usize)) =~= p.last().push(c));
                assert forall|k: int| 0 <= k < spans@.len() implies #[trigger] spans@[k].0 <= spans@[k].1 <= bytes@.len()
                    && span_text(bytes@, spans@[k]) == pieces_of(s, sep)[k] by {
                    if k < spans@.len() - 1 {
                        assert(spans@[k] == before[k]);
                        assert(before[k].0 <= before[k].1 <= bytes@.len());
                        assert(span_text(bytes@, before[k]) == p[k]);
                    } else {
                        assert(k == before.len() - 1 + (spans@.len() - before.len()));
                    }
                }
            }
        }
        i = i + 1;
    }
    spans
}

pub open spec fn is_digit(c: u8) -> bool {
    48 <= c <= 57
}

/// Whether reading a rank from position `index`, with the next square on file `file`,
/// stays within the rank's text until eight files are filled: a digit skips that many
/// files, any other character fills one.
pub open spec fn rank_ok(rank: Seq<u8>, index: int, file: int) -> bool
    decreases rank.len() - index,
{
    if file >= 8 {
        true
    } else if index < 0 || index >= rank.len() {
        false
    } else if is_digit(rank[index]) {
        rank_ok(rank, index + 1, file + rank[index] - 48)
    } else {
        rank_ok(rank, index + 1, file + 1)
    }
}

/// The character that fills file `f` when a rank is read from position `index` with the
/// next square on file `file`; 0 when no character does.
pub open spec fn placed(rank: Seq<u8>, index: int, file: int, f: int) -> u8
    decreases rank.len() - index,
{
    if file >= 8 || index < 0 || index >= rank.len() {
        0
    } else if is_digit(rank[index]) {
        placed(rank, index + 1, file + rank[index] - 48, f)
    } else if f == file {
        rank[index]
    } else {
        placed(rank, index + 1, file + 1, f)
    }
}

/// Files before the next square are never filled again.
proof fn lemma_placed_behind(rank: Seq<u8>, index: int, file: int, f: int)
    requires
        f < file,
    ensures
        placed(rank, index, file, f) == 0,
    decreases rank.len() - index,
{
    if file >= 8 || index < 0 || index >= rank.len() {
    } else if is_digit(rank[index]) {
        lemma_placed_behind(rank, index + 1, file + rank[index] - 48, f);
    } else {
        lemma_placed_behind(rank, index + 1, file + 1, f);
    }
}

/// The kind of piece a FEN letter stands for (1 pawn to 6 king), 0 for any other
/// character.
pub open spec fn letter_piece(c: u8) -> int {
    if c == 112 || c == 80 {
        1
    } else if c == 110 || c == 78 {
        2
    } else if c == 98 || c == 66 {
        3
    } else if c == 114 || c == 82 {
        4
    } else if c == 113 || c == 81 {
        5
    } else if c == 107 || c == 75 {
        6
    } else {
        0
    }
}

/// The side of a FEN letter: black for the characters after `a`, else white.
pub open spec fn letter_side(c: u8) -> int {
    if c > 97 {
        1
    } else {
        0
    }
}

/// Whether `b` holds on each square the piece the letter `letters` gives it, and
/// nothing where the letter stands for no piece.
pub open spec fn board_shows(b: Board, letters: spec_fn(int) -> u8) -> bool {
    forall|j: int|
        0 <= j < 64 ==> {
            &&& #[trigger] b.square_wf(j)
            &&& b.piece_at(j) == letter_piece(letters(j))
            &&& letter_piece(letters(j)) != 0 ==> b.color_at(j) == letter_side(letters(j))
        }
}

/// Placing a piece on an empty square changes what the board shows on that square only.
proof fn lemma_place(
    b0: Board,
    b1: Board,
    sq: int,
    c: u8,
    l0: spec_fn(int) -> u8,
    l1: spec_fn(int) -> u8,
)
    requires
        0 <= sq < 64,
        board_shows(b0, l0),
        letter_piece(l0(sq)) == 0,
        letter_piece(c) != 0,
        l1(sq) == c,
        forall|j: int| 0 <= j < 64 && j != sq ==> #[trigger] l1(j) == l0(j),
        forall|p: int| 1 <= p <= 6 ==> #[trigger] b1.piece_bits(p) == if p == letter_piece(c) {
            b0.piece_bits(p) | single_bit(sq)
        } else {
            b0.piece_bits(p)
        },
        forall|s: int| 0 <= s <= 1 ==> #[trigger] b1.side_bits(s) == if s == letter_side(c) {
            b0.side_bits(s) | single_bit(sq)
        } else {
            b0.side_bits(s)
        },
    ensures
        board_shows(b1, l1),
{
    assert forall|j: int| 0 <= j < 64 implies {
        &&& #[trigger] b1.square_wf(j)
        &&& b1.piece_at(j) == letter_piece(l1(j))
        &&& letter_piece(l1(j)) != 0 ==> b1.color_at(j) == letter_side(l1(j))
    } by {
        assert(b0.square_wf(j));
        assert forall|p: int| 1 <= p <= 6 implies #[trigger] has_bit(b1.piece_bits(p), j) == (has_bit(
            b0.piece_bits(p),
            j,
        ) || (p == letter_piece(c) && j == sq)) by {
            lemma_single_bit_update(b0.piece_bits(p), sq as u64, j as u64);
        }
        assert forall|s: int| 0 <= s <= 1 implies #[trigger] has_bit(b1.side_bits(s), j) == (has_bit(
            b0.side_bits(s),
            j,
        ) || (s == letter_side(c) && j == sq)) by {
            lemma_single_bit_update(b0.side_bits(s), sq as u64, j as u64);
        }
        assert(has_bit(b1.piece_bits(1), j) == (has_bit(b0.piece_bits(1), j) || (1 == letter_piece(c) && j == sq)));
        assert(has_bit(b1.piece_bits(2), j) == (has_bit(b0.piece_bits(2), j) || (2 == letter_piece(c) && j == sq)));
        assert(has_bit(b1.piece_bits(3), j) == (has_bit(b0.piece_bits(3), j) || (3 == letter_piece(c) && j == sq)));
        assert(has_bit(b1.piece_bits(4), j) == (has_bit(b0.piece_bits(4), j) || (4 == letter_piece(c) && j == sq)));
        assert(has_bit(b1.piece_bits(5), j) == (has_bit(b0.piece_bits(5), j) || (5 == letter_piece(c) && j == sq)));
        assert(has_bit(b1.piece_bits(6), j) == (has_bit(b0.piece_bits(6), j) || (6 == letter_piece(c) && j == sq)));
        assert(has_bit(b1.side_bits(0), j) == (has_bit(b0.side_bits(0), j) || (0 == letter_side(c) && j == sq)));
        assert(has_bit(b1.side_bits(1), j) == (has_bit(b0.side_bits(1), j) || (1 == letter_side(c) && j == sq)));
    }
}

/// Letters that give the same pieces show the same board.
#[verifier::spinoff_prover]
proof fn lemma_shows_same(b: Board, l0: spec_fn(int) -> u8, l1: spec_fn(int) -> u8)
    requires
        board_shows(b, l0),
        forall|j: int|
            0 <= j < 64 ==> letter_piece(#[trigger] l1(j)) == letter_piece(l0(j)) && (letter_piece(l0(j)) != 0
                ==> letter_side(l1(j)) == letter_side(l0(j))),
    ensures
        board_shows(b, l1),
{
    assert forall|j: int| 0 <= j < 64 implies {
        &&& #[trigger] b.square_wf(j)
        &&& b.piece_at(j) == letter_piece(l1(j))
        &&& letter_piece(l1(j)) != 0 ==> b.color_at(j) == letter_side(l1(j))
    } by {
        assert(b.square_wf(j));
        assert(b.piece_at(j) == letter_piece(l0(j)));
        assert(letter_piece(l1(j)) == letter_piece(l0(j)));
    }
}

/// What a board shows depends on its pieces and sides alone.
proof fn lemma_shows_pieces(b1: Board, b2: Board, letters: spec_fn(int) -> u8)
    requires
        board_shows(b1, letters),
        b1.pieces == b2.pieces,
        b1.piece_maps == b2.piece_maps,
    ensures
        board_shows(b2, letters),
{
    assert forall|j: int| 0 <= j < 64 implies {
        &&& #[trigger] b2.square_wf(j)
        &&& b2.piece_at(j) == letter_piece(letters(j))
        &&& letter_piece(letters(j)) != 0 ==> b2.color_at(j) == letter_side(letters(j))
    } by {
        assert(b1.square_wf(j));
        assert(forall|p: int| 1 <= p <= 6 ==> #[trigger] b2.piece_bits(p) == b1.piece_bits(p));
        assert(forall|c: int| 0 <= c <= 1 ==> #[trigger] b2.side_bits(c) == b1.side_bits(c));
        assert(b2.piece_at(j) == b1.piece_at(j));
        assert(b2.color_at(j) == b1.color_at(j));
        assert(b2.occupied(j) == b1.occupied(j));
    }
}

/// An empty board shows letters that stand for no piece.
proof fn lemma_shows_empty(b: Board, letters: spec_fn(int) -> u8)
    requires
        b.wf(),
        forall|j: int| 0 <= j < 64 ==> !#[trigger] b.occupied(j),
        forall|j: int| 0 <= j < 64 ==> letter_piece(#[trigger] letters(j)) == 0,
    ensures
        board_shows(b, letters),
{
    assert forall|j: int| 0 <= j < 64 implies {
        &&& #[trigger] b.square_wf(j)
        &&& b.piece_at(j) == letter_piece(letters(j))
        &&& letter_piece(letters(j)) != 0 ==> b.color_at(j) == letter_side(letters(j))
    } by {
        assert(b.square_wf(j));
        assert(!b.occupied(j));
        assert(letter_piece(letters(j)) == 0);
    }
}

/// What the first `upto` ranks of `ranks` put on square `j`; rank 0 of the text is the
/// eighth rank of the board.
pub open spec fn rank_letter(ranks: Seq<Seq<u8>>, upto: int, j: int) -> u8 {
    let r = 7 - j / 8;
    if r < upto && r < ranks.len() {
        placed(ranks[r], 0, 0, j % 8)
    } else {
        0
    }
}

/// Reads one rank of the piece placement onto `board`.
fn read_rank(
    board: &mut Board,
    bytes: &[u8],
    span: (usize, usize),
    rank_index: usize,
    Ghost(ranks): Ghost<Seq<Seq<u8>>>,
)
    requires
        span.0 <= span.1 <= bytes@.len(),
        rank_index < 8,
        rank_index < ranks.len(),
        ranks[rank_index as int] == span_text(bytes@, span),
        rank_ok(span_text(bytes@, span), 0, 0),
        board_shows(*old(board), |j: int| rank_letter(ranks, rank_index as int, j)),
    ensures
        board_shows(*final(board), |j: int| rank_letter(ranks, rank_index + 1, j)),
        final(board).castle_rights == old(board).castle_rights,
        final(board).checkers == old(board).checkers,
        final(board).ortographic_pins == old(board).ortographic_pins,
        final(board).diagonal_pins == old(board).diagonal_pins,
        final(board).half_moves == old(board).half_moves,
        final(board).en_passant == old(board).en_passant,
        final(board).side_to_move == old(board).side_to_move,
{
    let ghost rank = span_text(bytes@, span);
    let ghost r = rank_index as int;
    let ghost b0 = *board;
    let mut index: usize = 0;
    let mut file: usize = 0;
    proof {
        let l0 = |j: int| rank_letter(ranks, rank_index as int, j);
        let l1 = |j: int|
            if 7 - j / 8 == r && j % 8 < 0 {
                placed(rank, 0, 0, j % 8)
            } else {
                rank_letter(ranks, r, j)
            };
        assert forall|j: int| 0 <= j < 64 implies letter_piece(#[trigger] l1(j)) == letter_piece(l0(j)) && (
        letter_piece(l0(j)) != 0 ==> letter_side(l1(j)) == letter_side(l0(j))) by {}
        lemma_shows_same(*board, l0, l1);
    }
    while file < 8
        invariant
            span.0 <= span.1 <= bytes@.len(),
            rank == span_text(bytes@, span),
            rank_ok(rank, index as int, file as int),
            r == rank_index,
            r < 8,
            r < ranks.len(),
            ranks[r] == rank,
            forall|f: int| file <= f < 8 ==> placed(rank, 0, 0, f) == #[trigger] placed(rank, index as int, file as int, f),
            board_shows(
                *board,
                |j: int|
                    if 7 - j / 8 == r && j % 8 < file {
                        placed(rank, 0, 0, j % 8)
                    } else {
                        rank_letter(ranks, r, j)
                    },
            ),
            board.castle_rights == b0.castle_rights,
            board.checkers == b0.checkers,
            board.ortographic_pins == b0.ortographic_pins,
            board.diagonal_pins == b0.diagonal_pins,
            board.half_moves == b0.half_moves,
            board.en_passant == b0.en_passant,
            board.side_to_move == b0.side_to_move,
        decreases span.1 - span.0 - index,
    {
        let c = bytes[span.0 + index];
        let ghost before_file = file as int;
        let ghost l0 = |j: int|
            if 7 - j / 8 == r && j % 8 < before_file {
                placed(rank, 0, 0, j % 8)
            } else {
                rank_letter(ranks, r, j)
            };
        if c >= 48 && c <= 57 {
            let ghost new_file = file as int + c - 48;
            proof {
                assert forall|f: int| new_file <= f < 8 implies placed(rank, 0, 0, f) == #[trigger] placed(rank, index + 1, new_file, f) by {
                    assert(placed(rank, index as int, file as int, f) == placed(rank, index + 1, new_file, f));
                }
                assert forall|f: int| file <= f < new_file && f < 8 implies placed(rank, 0, 0, f) == 0 by {
                    assert(placed(rank, index as int, file as int, f) == placed(rank, index + 1, new_file, f));
                    lemma_placed_behind(rank, index + 1, new_file, f);
                }
            }
            file = file + (c - 48) as usize;
            index = index + 1;
            proof {
                let l1 = |j: int|
                    if 7 - j / 8 == r && j % 8 < file {
                        placed(rank, 0, 0, j % 8)
                    } else {
                        rank_letter(ranks, r, j)
                    };
                assert forall|j: int| 0 <= j < 64 implies letter_piece(#[trigger] l1(j)) == letter_piece(l0(j)) && (
                letter_piece(l0(j)) != 0 ==> letter_side(l1(j)) == letter_side(l0(j))) by {
                    if 7 - j / 8 == r && before_file <= j % 8 < file {
                        assert(placed(rank, 0, 0, j % 8) == 0);
                    }
                }
                lemma_shows_same(*board, l0, l1);
            }
            continue;
        }
        let side_to_move = if c > 97 { Side::black() } else { Side::white() };
        let square = Square::from_coords(7 - rank_index, file);
        let piece: usize = if c == 112 || c == 80 {
            1
        } else if c == 110 || c == 78 {
            2
        } else if c == 98 || c == 66 {
            3
        } else if c == 114 || c == 82 {
            4
        } else if c == 113 || c == 81 {
            5
        } else if c == 107 || c == 75 {
            6
        } else {
            0
        };
        proof {
            assert(placed(rank, index as int, file as int, file as int) == c);
            assert forall|f: int| file + 1 <= f < 8 implies placed(rank, 0, 0, f) == #[trigger] placed(rank, index + 1, file + 1, f) by {
                assert(placed(rank, index as int, file as int, f) == placed(rank, index + 1, file + 1, f));
            }
        }
        let ghost sq = square@;
        if piece != 0 {
            let ghost before = *board;
            board.set_piece_on_square(square, side_to_move, piece);
            proof {
                let l1 = |j: int|
                    if 7 - j / 8 == r && j % 8 < file + 1 {
                        placed(rank, 0, 0, j % 8)
                    } else {
                        rank_letter(ranks, r, j)
                    };
                assert(sq / 8 == 7 - r && sq % 8 == file);
                assert forall|j: int| 0 <= j < 64 && j != sq implies #[trigger] l1(j) == l0(j) by {}
                lemma_place(before, *board, sq, c, l0, l1);
            }
        } else {
            proof {
                let l1 = |j: int|
                    if 7 - j / 8 == r && j % 8 < file + 1 {
                        placed(rank, 0, 0, j % 8)
                    } else {
                        rank_letter(ranks, r, j)
                    };
                assert(sq / 8 == 7 - r && sq % 8 == file);
                assert forall|j: int| 0 <= j < 64 implies letter_piece(#[trigger] l1(j)) == letter_piece(l0(j)) && (
                letter_piece(l0(j)) != 0 ==> letter_side(l1(j)) == letter_side(l0(j))) by {}
                lemma_shows_same(*board, l0, l1);
            }
        }
        index = index + 1;
        file = file + 1;
    }
    proof {
        let l0 = |j: int|
            if 7 - j / 8 == r && j % 8 < file {
                placed(rank, 0, 0, j % 8)
            } else {
                rank_letter(ranks, r, j)
            };
        let l1 = |j: int| rank_letter(ranks, r + 1, j);
        assert forall|j: int| 0 <= j < 64 implies letter_piece(#[trigger] l1(j)) == letter_piece(l0(j)) && (
        letter_piece(l0(j)) != 0 ==> letter_side(l1(j)) == letter_side(l0(j))) by {}
        lemma_shows_same(*board, l0, l1);
    }
}

/// Boards that show the same letters have the same pieces and sides.
proof fn lemma_shows_unique(b1: Board, b2: Board, letters: spec_fn(int) -> u8)
    requires
        board_shows(b1, letters),
        board_shows(b2, letters),
    ensures
        forall|p: int| 1 <= p <= 6 ==> #[trigger] b1.piece_bits(p) == b2.piece_bits(p),
        forall|c: int| 0 <= c <= 1 ==> #[trigger] b1.side_bits(c) == b2.side_bits(c),
{
    assert forall|p: int| 1 <= p <= 6 implies #[trigger] b1.piece_bits(p) == b2.piece_bits(p) by {
        assert forall|j: int| 0 <= j < 64 implies has_bit(b1.piece_bits(p), j) == has_bit(b2.piece_bits(p), j) by {
            assert(b1.square_wf(j) && b2.square_wf(j));
        }
        crate::bitboard::lemma_bits_ext(b1.piece_bits(p), b2.piece_bits(p));
    }
    assert forall|c: int| 0 <= c <= 1 implies #[trigger] b1.side_bits(c) == b2.side_bits(c) by {
        assert forall|j: int| 0 <= j < 64 implies has_bit(b1.side_bits(c), j) == has_bit(b2.side_bits(c), j) by {
            assert(b1.square_wf(j) && b2.square_wf(j));
        }
        crate::bitboard::lemma_bits_ext(b1.side_bits(c), b2.side_bits(c));
    }
}

/// The fields of a FEN record: its words.
pub open spec fn fen_fields(s: Seq<u8>) -> Seq<Seq<u8>> {
    words(s)
}

/// The ranks of the piece placement, eighth rank first.
pub open spec fn fen_ranks(s: Seq<u8>) -> Seq<Seq<u8>> {
    pieces_of(fen_fields(s)[0], 47)
}

/// The character the piece placement puts on square `j`, 0 when none.
pub open spec fn fen_letter(s: Seq<u8>, j: int) -> u8 {
    rank_letter(fen_ranks(s), 8, j)
}

/// The characters the piece placement puts on the squares.
pub open spec fn fen_letters(s: Seq<u8>) -> spec_fn(int) -> u8 {
    |j: int| fen_letter(s, j)
}

/// The side to move: white when the second field is `w`, else black.
pub open spec fn fen_side(s: Seq<u8>) -> int {
    if fen_fields(s)[1] =~= seq![119u8] {
        0
    } else {
        1
    }
}

/// Whether the piece placement has a king of `side`.
pub open spec fn fen_has_king(s: Seq<u8>, side: int) -> bool {
    exists|j: int| 0 <= j < 64 && letter_piece(#[trigger] fen_letter(s, j)) == 6 && letter_side(fen_letter(s, j)) == side
}

/// A board holding the pieces of the placement.
pub open spec fn fen_placement(s: Seq<u8>) -> Board {
    choose|b: Board| #[trigger] board_shows(b, fen_letters(s))
}

/// Whether the king of the side not to move stands attacked.
pub open spec fn fen_illegal(s: Seq<u8>) -> bool {
    let b = fen_placement(s);
    let stm = fen_side(s);
    b.square_attacked(b.king_square(1 - stm), stm, b.side_bits(0) | b.side_bits(1))
}

/// The castling rights of the third field: `K`, `Q`, `k`, `q` give bits 0 to 3.
pub open spec fn fen_rights(s: Seq<u8>) -> u8 {
    let w = fen_fields(s)[2];
    let r1 = if w.contains(75u8) { 0u8 | (1u8 << 0u8) } else { 0u8 };
    let r2 = if w.contains(81u8) { r1 | (1u8 << 1u8) } else { r1 };
    let r3 = if w.contains(107u8) { r2 | (1u8 << 2u8) } else { r2 };
    if w.contains(113u8) { r3 | (1u8 << 3u8) } else { r3 }
}

/// Whether the en passant field is `-` or starts with a letter from `a` and a digit
/// from `1`.
pub open spec fn en_passant_text_ok(w: Seq<u8>) -> bool {
    w =~= seq![45u8] || (w.len() >= 2 && 97 <= w[0] && 49 <= w[1] <= 57)
}

/// The en passant square of the field: 64 for `-`, else from its file letter and rank
/// digit.
pub open spec fn en_passant_text_square(w: Seq<u8>) -> int {
    if w =~= seq![45u8] {
        64
    } else {
        (w[1] - 49) * 8 + (w[0] - 97)
    }
}

/// The value of a run of decimal digits.
pub open spec fn digits_value(d: Seq<u8>) -> nat
    decreases d.len(),
{
    if d.len() == 0 {
        0
    } else {
        digits_value(d.drop_last()) * 10 + (d.last() - 48) as nat
    }
}

/// The digits of a number's text, after an optional `+`.
pub open spec fn unsigned_digits(w: Seq<u8>) -> Seq<u8> {
    if w.len() > 0 && w[0] == 43 {
        w.drop_first()
    } else {
        w
    }
}

/// Whether `w` is the text of a `u8`, as `u8::from_str` reads it: an optional `+`, then
/// at least one digit, for a value of at most 255.
pub open spec fn u8_text_ok(w: Seq<u8>) -> bool {
    let d = unsigned_digits(w);
    &&& d.len() >= 1
    &&& forall|i: int| 0 <= i < d.len() ==> is_digit(#[trigger] d[i])
    &&& digits_value(d) <= 255
}

/// The half-move clock: the fifth field when there is one, else 0.
pub open spec fn fen_half_moves(s: Seq<u8>) -> int {
    if fen_fields(s).len() > 4 {
        digits_value(unsigned_digits(fen_fields(s)[4])) as int
    } else {
        0
    }
}

/// Whether `create_board` reads `fen` without failing: ASCII text with at least four
/// fields, at most eight ranks that each fill their eight files, a king of the side not to
/// move, and, unless that king is attacked, a king of the side to move, an en passant
/// field that names a square or is `-`, and a half-move clock that fits a `u8` when given.
pub open spec fn fen_ready(fen: &str) -> bool {
    let s = fen.spec_bytes();
    let fields = fen_fields(s);
    let ranks = fen_ranks(s);
    &&& vstd::string::is_ascii(fen)
    &&& fields.len() >= 4
    &&& ranks.len() <= 8
    &&& forall|r: int| 0 <= r < ranks.len() ==> rank_ok(#[trigger] ranks[r], 0, 0)
    &&& fen_has_king(s, 1 - fen_side(s))
    &&& fen_illegal(s) || {
        &&& fen_has_king(s, fen_side(s))
        &&& en_passant_text_ok(fields[3])
        &&& fields.len() > 4 ==> u8_text_ok(fields[4])
    }
}

proof fn lemma_digits_prefix(d: Seq<u8>, i: int)
    requires
        0 <= i <= d.len(),
        forall|k: int| 0 <= k < d.len() ==> is_digit(#[trigger] d[k]),
    ensures
        digits_value(d.take(i)) <= digits_value(d),
    decreases d.len(),
{
    if i < d.len() {
        assert(d.drop_last().take(i) =~= d.take(i));
        lemma_digits_prefix(d.drop_last(), i);
    } else {
        assert(d.take(i) =~= d);
    }
}

/// Whether the span holds `c`.
fn span_contains(bytes: &[u8], span: (usize, usize), c: u8) -> (r: bool)
    requires
        span.0 <= span.1 <= bytes@.len(),
    ensures
        r == span_text(bytes@, span).contains(c),
{
    let mut i = span.0;
    while i < span.1
        invariant
            span.0 <= i <= span.1 <= bytes@.len(),
            forall|k: int| span.0 <= k < i ==> bytes@[k] != c,
        decreases span.1 - i,
    {
        if bytes[i] == c {
            proof {
                assert(span_text(bytes@, span)[i - span.0] == c);
            }
            return true;
        }
        i = i + 1;
    }
    proof {
        if span_text(bytes@, span).contains(c) {
            let k = choose|k: int| 0 <= k < span_text(bytes@, span).len() && span_text(bytes@, span)[k] == c;
            assert(bytes@[span.0 + k] == c);
        }
    }
    false
}

/// Whether the span holds exactly the one character `c`.
fn span_is(bytes: &[u8], span: (usize, usize), c: u8) -> (r: bool)
    requires
        span.0 <= span.1 <= bytes@.len(),
    ensures
        r == (span_text(bytes@, span) =~= seq![c]),
{
    if span.1 - span.0 == 1 && bytes[span.0] == c {
        proof {
            assert(span_text(bytes@, span) =~= seq![c]);
        }
        true
    } else {
        proof {
            if span_text(bytes@, span) =~= seq![c] {
                assert(span_text(bytes@, span)[0] == c);
            }
        }
        false
    }
}

/// Reads the `u8` the span holds.
fn parse_u8(bytes: &[u8], span: (usize, usize)) -> (r: u8)
    requires
        span.0 <= span.1 <= bytes@.len(),
        u8_text_ok(span_text(bytes@, span)),
    ensures
        r == digits_value(unsigned_digits(span_text(bytes@, span))),
{
    let ghost w = span_text(bytes@, span);
    let mut start = span.0;
    if start < span.1 && bytes[start] == 43 {
        start = start + 1;
    }
    let ghost d = bytes@.subrange(start as int, span.1 as int);
    proof {
        assert(unsigned_digits(w) =~= d);
    }
    let mut value: u32 = 0;
    let mut i = start;
    while i < span.1
        invariant
            span.0 <= start <= i <= span.1 <= bytes@.len(),
            d == bytes@.subrange(start as int, span.1 as int),
            forall|k: int| 0 <= k < d.len() ==> is_digit(#[trigger] d[k]),
            digits_value(d) <= 255,
            value == digits_value(d.take(i - start)),
        decreases span.1 - i,
    {
        let c = bytes[i];
        proof {
            assert(d[i - start] == c);
            assert(d.take(i - start + 1).drop_last() =~= d.take(i - start));
            lemma_digits_prefix(d, i - start + 1);
        }
        value = value * 10 + (c - 48) as u32;
        i = i + 1;
    }
    proof {
        assert(d.take(i - start) =~= d);
    }
    value as u8
}

/// Reads the piece placement held by `span` onto an empty board, white to move.
fn read_placement(bytes: &[u8], span: (usize, usize)) -> (r: Board)
    requires
        span.0 <= span.1 <= bytes@.len(),
        pieces_of(span_text(bytes@, span), 47).len() <= 8,
        forall|k: int|
            0 <= k < pieces_of(span_text(bytes@, span), 47).len() ==> rank_ok(
                #[trigger] pieces_of(span_text(bytes@, span), 47)[k],
                0,
                0,
            ),
    ensures
        board_shows(r, |j: int| rank_letter(pieces_of(span_text(bytes@, span), 47), 8, j)),
        r.side_to_move@ == 0,
        r.castle_rights@ == 0,
        r.half_moves == 0,
        r.en_passant@ == 64,
{
    let ranks = piece_spans(bytes, span.0, span.1, 47);
    let ghost rank_texts = pieces_of(span_text(bytes@, span), 47);
    let mut board = Board::new();
    let mut rank_index: usize = 0;
    proof {
        lemma_shows_empty(board, |j: int| rank_letter(rank_texts, rank_index as int, j));
    }
    while rank_index < ranks.len()
        invariant
            spans_hold(bytes@, ranks@, rank_texts),
            rank_texts.len() <= 8,
            forall|k: int| 0 <= k < rank_texts.len() ==> rank_ok(#[trigger] rank_texts[k], 0, 0),
            rank_index <= ranks@.len(),
            board_shows(board, |j: int| rank_letter(rank_texts, rank_index as int, j)),
            board.side_to_move@ == 0,
            board.castle_rights@ == 0,
            board.half_moves == 0,
            board.en_passant@ == 64,
        decreases ranks@.len() - rank_index,
    {
        let rank_span = ranks[rank_index];
        proof {
            assert(ranks@[rank_index as int] == rank_span);
            assert(rank_span.0 <= rank_span.1 <= bytes@.len());
            assert(rank_ok(rank_texts[rank_index as int], 0, 0));
        }
        read_rank(&mut board, bytes, rank_span, rank_index, Ghost(rank_texts));
        rank_index = rank_index + 1;
    }
    proof {
        let l0 = |j: int| rank_letter(rank_texts, rank_index as int, j);
        let l1 = |j: int| rank_letter(rank_texts, 8, j);
        assert forall|j: int| 0 <= j < 64 implies letter_piece(#[trigger] l1(j)) == letter_piece(l0(j)) && (
        letter_piece(l0(j)) != 0 ==> letter_side(l1(j)) == letter_side(l0(j))) by {}
        lemma_shows_same(board, l0, l1);
    }
    board
}

/// A board showing the placement, with the side to move of the record, has its
/// attacked-king test equal to `fen_illegal`, and a king of each side the placement has.
proof fn lemma_placement_facts(b: Board, s: Seq<u8>)
    requires
        board_shows(b, fen_letters(s)),
        b.side_to_move@ == fen_side(s),
    ensures
        b.square_attacked(b.king_square(1 - fen_side(s)), fen_side(s), b.side_bits(0) | b.side_bits(1))
            == fen_illegal(s),
        forall|c: int| 0 <= c <= 1 && #[trigger] fen_has_king(s, c) ==> b.has_king(c),
{
    let stm = fen_side(s);
    let p = fen_placement(s);
    assert(board_shows(p, fen_letters(s)));
    lemma_shows_unique(b, p, fen_letters(s));
    let occ = b.side_bits(0) | b.side_bits(1);
    assert(occ == p.side_bits(0) | p.side_bits(1));
    assert(b.king_square(1 - stm) == p.king_square(1 - stm));
    let k = b.king_square(1 - stm);
    assert forall|a: int| #[trigger] b.attacks_square_from(a, k, stm, occ) == p.attacks_square_from(a, k, stm, occ) by {
        assert(b.piece_bits(1) == p.piece_bits(1));
        assert(b.piece_bits(2) == p.piece_bits(2));
        assert(b.piece_bits(3) == p.piece_bits(3));
        assert(b.piece_bits(4) == p.piece_bits(4));
        assert(b.piece_bits(5) == p.piece_bits(5));
        assert(b.piece_bits(6) == p.piece_bits(6));
        assert(b.side_bits(stm) == p.side_bits(stm));
    }
    if b.square_attacked(k, stm, occ) {
        let a = choose|a: int| 0 <= a < 64 && #[trigger] b.attacks_square_from(a, k, stm, occ);
        assert(p.attacks_square_from(a, k, stm, occ));
    }
    if p.square_attacked(k, stm, occ) {
        let a = choose|a: int| 0 <= a < 64 && #[trigger] p.attacks_square_from(a, k, stm, occ);
        assert(b.attacks_square_from(a, k, stm, occ));
    }
    assert forall|c: int| 0 <= c <= 1 && #[trigger] fen_has_king(s, c) implies b.has_king(c) by {
        let j = choose|j: int| 0 <= j < 64 && letter_piece(#[trigger] fen_letter(s, j)) == 6 && letter_side(fen_letter(s, j)) == c;
        assert(b.square_wf(j));
        assert((fen_letters(s))(j) == fen_letter(s, j));
        crate::bitboard::lemma_bitwise(b.piece_bits(6), b.side_bits(c), j as u64);
        crate::bitboard::lemma_nonzero(b.piece_bits(6) & b.side_bits(c));
    }
}

/// The text of castling rights `v` holds `K`, `Q`, `k`, `q` exactly when it holds the
/// right of that number (0 to 3).
proof fn lemma_castle_text_letters(v: u8)
    ensures
        castle_rights_text(v).contains('K') == u8_bit(v, 0),
        castle_rights_text(v).contains('Q') == u8_bit(v, 1),
        castle_rights_text(v).contains('k') == u8_bit(v, 2),
        castle_rights_text(v).contains('q') == u8_bit(v, 3),
{
    let p0: Seq<char> = if u8_bit(v, 0) { seq!['K'] } else { Seq::empty() };
    let p1: Seq<char> = if u8_bit(v, 1) { seq!['Q'] } else { Seq::empty() };
    let p2: Seq<char> = if u8_bit(v, 2) { seq!['k'] } else { Seq::empty() };
    let p3: Seq<char> = if u8_bit(v, 3) { seq!['q'] } else { Seq::empty() };
    let t = p0 + p1 + p2 + p3;
    assert(castle_rights_text(v) == if t.len() == 0 { seq!['-'] } else { t });
    let n0 = p0.len() as int;
    let n1 = n0 + p1.len();
    let n2 = n1 + p2.len();
    assert forall|i: int| 0 <= i < t.len() implies #[trigger] t[i] == (if i < n0 {
        'K'
    } else if i < n1 {
        'Q'
    } else if i < n2 {
        'k'
    } else {
        'q'
    }) by {
        assert((p0 + p1 + p2 + p3)[i] == (if i < n2 { (p0 + p1 + p2)[i] } else { p3[i - n2] }));
        if i < n2 {
            assert((p0 + p1 + p2)[i] == (if i < n1 { (p0 + p1)[i] } else { p2[i - n1] }));
        }
    }
    if u8_bit(v, 0) {
        assert(t[0] == 'K');
    }
    if u8_bit(v, 1) {
        assert(t[n0] == 'Q');
    }
    if u8_bit(v, 2) {
        assert(t[n1] == 'k');
    }
    if u8_bit(v, 3) {
        assert(t[n2] == 'q');
    }
    if t.len() == 0 {
        assert(seq!['-'][0] == '-');
    }
}

/// The castling rights read from FEN text are those its third field names: the rights'
/// own text lists exactly the letters `K`, `Q`, `k`, `q` the field holds, and a side's
/// king-side right (the one its castle toward the king-side rook needs) is held exactly
/// when the field holds that side's `K` or `k`, its queen-side right when it holds its
/// `Q` or `q`. (A position whose side not to move stands in check is read as an empty
/// board, without rights.)
pub proof fn lemma_fen_castling_letters(r: Board, s: Seq<u8>)
    requires
        board_from_fen(r, s),
        !fen_illegal(s),
    ensures
        castle_rights_text(r.castle_rights@).contains('K') == fen_fields(s)[2].contains(75u8),
        castle_rights_text(r.castle_rights@).contains('Q') == fen_fields(s)[2].contains(81u8),
        castle_rights_text(r.castle_rights@).contains('k') == fen_fields(s)[2].contains(107u8),
        castle_rights_text(r.castle_rights@).contains('q') == fen_fields(s)[2].contains(113u8),
        r.castle_rights.has(2 * 0int) == fen_fields(s)[2].contains(75u8),
        r.castle_rights.has(2 * 0int + 1) == fen_fields(s)[2].contains(81u8),
        r.castle_rights.has(2 * 1int) == fen_fields(s)[2].contains(107u8),
        r.castle_rights.has(2 * 1int + 1) == fen_fields(s)[2].contains(113u8),
{
    let w = fen_fields(s)[2];
    let r1 = if w.contains(75u8) { 0u8 | (1u8 << 0u8) } else { 0u8 };
    let r2 = if w.contains(81u8) { r1 | (1u8 << 1u8) } else { r1 };
    let r3 = if w.contains(107u8) { r2 | (1u8 << 2u8) } else { r2 };
    let r4 = if w.contains(113u8) { r3 | (1u8 << 3u8) } else { r3 };
    assert(r.castle_rights@ == r4);
    assert forall|j: u8| j < 4 implies (#[trigger] u8_bit(r4, j as int)) == (if j == 0 {
        w.contains(75u8)
    } else if j == 1 {
        w.contains(81u8)
    } else if j == 2 {
        w.contains(107u8)
    } else {
        w.contains(113u8)
    }) by {
        lemma_set_bit_to_one(0u8, 0u8, j);
        lemma_set_bit_to_one(r1, 1u8, j);
        lemma_set_bit_to_one(r2, 2u8, j);
        lemma_set_bit_to_one(r3, 3u8, j);
    }
    assert(u8_bit(r4, 0) == w.contains(75u8)) by {
        assert(u8_bit(r4, 0u8 as int) == w.contains(75u8));
    }
    assert(u8_bit(r4, 1) == w.contains(81u8)) by {
        assert(u8_bit(r4, 1u8 as int) == w.contains(81u8));
    }
    assert(u8_bit(r4, 2) == w.contains(107u8)) by {
        assert(u8_bit(r4, 2u8 as int) == w.contains(107u8));
    }
    assert(u8_bit(r4, 3) == w.contains(113u8)) by {
        assert(u8_bit(r4, 3u8 as int) == w.contains(113u8));
    }
    lemma_castle_text_letters(r4);
}

/// What `create_board` gives for the text `s`: an empty board, white to move, when the
/// king of the side not to move stands attacked; else the placement, the side to move,
/// the castling rights, the en passant square and the half-move clock the fields give,
/// with the checkers and pins of the position.
pub open spec fn board_from_fen(r: Board, s: Seq<u8>) -> bool {
    if fen_illegal(s) {
        &&& r.wf()
        &&& forall|j: int| 0 <= j < 64 ==> !r.occupied(j)
        &&& r.castle_rights@ == 0
        &&& r.half_moves == 0
        &&& r.en_passant@ == 64
        &&& r.side_to_move@ == 0
        &&& r.checkers@ == 0
        &&& r.ortographic_pins@ == 0
        &&& r.diagonal_pins@ == 0
    } else {
        &&& board_shows(r, fen_letters(s))
        &&& r.side_to_move@ == fen_side(s)
        &&& r.castle_rights@ == fen_rights(s)
        &&& r.en_passant@ == en_passant_text_square(fen_fields(s)[3])
        &&& r.half_moves == fen_half_moves(s)
        &&& r.derived_ok()
        &&& r.en_passant@ <= 64 ==> r.wf()
    }
}

/// Reads a position from FEN text: the piece placement, the side to move, then, when
/// the king of the side not to move is not attacked, the castling rights, the en passant
/// square and the half-move clock, and the checkers and pins; an empty board when that
/// king is attacked.
pub fn create_board(attacks: &Attacks, fen: &str) -> (r: Board)
    requires
        attacks.wf(),
        fen_ready(fen),
    ensures
        board_from_fen(r, fen.spec_bytes()),
{
    let ghost s = fen.spec_bytes();
    let bytes = fen.as_bytes();
    let fields = word_spans(bytes);
    let f0 = fields[0];
    let f1 = fields[1];
    let f2 = fields[2];
    let f3 = fields[3];
    let half_span = if fields.len() > 4 { Some(fields[4]) } else { None };
    proof {
        if fields@.len() > 4 {
            lemma_span_at(bytes@, fields@, words(bytes@), 4);
        }
        assert(fields@[0] == f0 && fields@[1] == f1 && fields@[2] == f2 && fields@[3] == f3);
        assert(span_text(bytes@, f0) == fen_fields(s)[0]);
        assert(span_text(bytes@, f1) == fen_fields(s)[1]);
        assert(span_text(bytes@, f2) == fen_fields(s)[2]);
        assert(span_text(bytes@, f3) == fen_fields(s)[3]);
    }
    let mut board = read_placement(bytes, f0);
    proof {
        let l0 = |j: int| rank_letter(pieces_of(span_text(bytes@, f0), 47), 8, j);
        assert forall|j: int| 0 <= j < 64 implies letter_piece(#[trigger] (fen_letters(s))(j)) == letter_piece(l0(j)) && (
        letter_piece(l0(j)) != 0 ==> letter_side((fen_letters(s))(j)) == letter_side(l0(j))) by {}
        lemma_shows_same(board, l0, fen_letters(s));
    }
    let ghost placement = board;
    if span_is(bytes, f1, 119) {
        board.side_to_move = Side::white();
    } else {
        board.side_to_move = Side::black();
    }
    let ghost stm = fen_side(s);
    proof {
        lemma_shows_pieces(placement, board, fen_letters(s));
        lemma_placement_facts(board, s);
        assert(fen_has_king(s, 1 - stm));
        crate::bitboard::lemma_clear_lowest(board.piece_bits(6) & board.side_bits(1 - stm));
    }
    let opponent_king = board.get_king_square(board.side_to_move.flipped());
    if board.is_square_attacked(attacks, opponent_king, board.side_to_move) {
        return Board::new();
    }

    if span_contains(bytes, f2, 75) {
        board.castle_rights.set_right(CastleRights::WHITE_KING);
    }
    if span_contains(bytes, f2, 81) {
        board.castle_rights.set_right(CastleRights::WHITE_QUEEN);
    }
    if span_contains(bytes, f2, 107) {
        board.castle_rights.set_right(CastleRights::BLACK_KING);
    }
    if span_contains(bytes, f2, 113) {
        board.castle_rights.set_right(CastleRights::BLACK_QUEEN);
    }

    board.en_passant = Square::null();
    if !span_is(bytes, f3, 45) {
        let file = bytes[f3.0];
        let rank = bytes[f3.0 + 1];
        proof {
            assert(span_text(bytes@, f3)[0] == file);
            assert(span_text(bytes@, f3)[1] == rank);
        }
        board.en_passant = Square::from_coords((rank - 49) as usize, (file - 97) as usize);
    }

    board.half_moves = 0;
    if let Some(f4) = half_span {
        board.half_moves = parse_u8(bytes, f4);
    }

    proof {
        lemma_shows_pieces(placement, board, fen_letters(s));
        lemma_placement_facts(board, s);
        assert(fen_has_king(s, stm));
    }
    let checkers = attacks.generate_checkers_mask(&board);
    let ortographic_pins = attacks.generate_ortographic_pins_mask(&board);
    let diagonal_pins = attacks.generate_diagonal_pins_mask(&board);
    let ghost placed_board = board;
    board.checkers = checkers;
    board.ortographic_pins = ortographic_pins;
    board.diagonal_pins = diagonal_pins;
    proof {
        lemma_shows_pieces(placement, board, fen_letters(s));
        assert forall|j: int| 0 <= j < 64 implies (#[trigger] board.checkers.contains(j) == board.is_checker(j)) by {
            assert(placed_board.is_checker(j) == board.is_checker(j));
        }
        assert forall|j: int| 0 <= j < 64 implies (#[trigger] board.ortographic_pins.contains(j) == board.is_pinned_square(true, j)) by {
            assert(placed_board.is_pinned_square(true, j) == board.is_pinned_square(true, j));
        }
        assert forall|j: int| 0 <= j < 64 implies (#[trigger] board.diagonal_pins.contains(j) == board.is_pinned_square(false, j)) by {
            assert(placed_board.is_pinned_square(false, j) == board.is_pinned_square(false, j));
        }
        assert forall|j: int| 0 <= j < 64 implies #[trigger] board.square_wf(j) by {
            assert(placed_board.square_wf(j));
        }
    }
    board
}

/// Whether the rank the span holds fills its eight files within its text.
fn rank_text_ok(bytes: &[u8], span: (usize, usize)) -> (r: bool)
    requires
        span.0 <= span.1 <= bytes@.len(),
    ensures
        r == rank_ok(span_text(bytes@, span), 0, 0),
{
    let ghost rank = span_text(bytes@, span);
    let mut i = span.0;
    let mut file: usize = 0;
    while file < 8
        invariant
            span.0 <= i <= span.1 <= bytes@.len(),
            rank == span_text(bytes@, span),
            file < 8 + 10,
            rank_ok(rank, 0, 0) == rank_ok(rank, i - span.0, file as int),
        decreases span.1 - i,
    {
        if i >= span.1 {
            return false;
        }
        let c = bytes[i];
        proof {
            assert(rank[i - span.0] == c);
        }
        if 48 <= c && c <= 57 {
            file = file + (c - 48) as usize;
        } else {
            file = file + 1;
        }
        i = i + 1;
    }
    true
}

/// Whether the span holds the text of a `u8`: an optional `+`, then digits for a value
/// of at most 255.
fn u8_text_checked(bytes: &[u8], span: (usize, usize)) -> (r: bool)
    requires
        span.0 <= span.1 <= bytes@.len(),
    ensures
        r == u8_text_ok(span_text(bytes@, span)),
{
    let ghost w = span_text(bytes@, span);
    let mut start = span.0;
    if start < span.1 && bytes[start] == 43 {
        start = start + 1;
    }
    let ghost d = bytes@.subrange(start as int, span.1 as int);
    proof {
        assert(unsigned_digits(w) =~= d);
    }
    if start == span.1 {
        return false;
    }
    let mut i = start;
    while i < span.1
        invariant
            span.0 <= start <= i <= span.1 <= bytes@.len(),
            d == bytes@.subrange(start as int, span.1 as int),
            w == span_text(bytes@, span),
            unsigned_digits(w) == d,
            d.len() >= 1,
            forall|k: int| 0 <= k < i - start ==> is_digit(#[trigger] d[k]),
        decreases span.1 - i,
    {
        if !(48 <= bytes[i] && bytes[i] <= 57) {
            proof {
                assert(d[i - start] == bytes@[i as int]);
                assert(!is_digit(unsigned_digits(w)[i - start]));
            }
            return false;
        }
        i = i + 1;
    }
    let mut value: u32 = 0;
    let mut i = start;
    while i < span.1
        invariant
            span.0 <= start <= i <= span.1 <= bytes@.len(),
            d == bytes@.subrange(start as int, span.1 as int),
            forall|k: int| 0 <= k < d.len() ==> is_digit(#[trigger] d[k]),
            w == span_text(bytes@, span),
            unsigned_digits(w) == d,
            value == digits_value(d.take(i - start)),
            value <= 255,
        decreases span.1 - i,
    {
        let c = bytes[i];
        proof {
            assert(d[i - start] == c);
            assert(d.take(i - start + 1).drop_last() =~= d.take(i - start));
            assert(d.take(i - start + 1).last() == c);
        }
        value = value * 10 + (c - 48) as u32;
        if value > 255 {
            proof {
                lemma_digits_prefix(d, i - start + 1);
            }
            return false;
        }
        i = i + 1;
    }
    proof {
        assert(d.take(i - start) =~= d);
    }
    true
}

/// Whether the span holds `-` or a letter from `a` followed by a digit from `1`.
fn en_passant_text_checked(bytes: &[u8], span: (usize, usize)) -> (r: bool)
    requires
        span.0 <= span.1 <= bytes@.len(),
    ensures
        r == en_passant_text_ok(span_text(bytes@, span)),
{
    if span_is(bytes, span, 45) {
        return true;
    }
    if span.1 - span.0 >= 2 && 97 <= bytes[span.0] && 49 <= bytes[span.0 + 1] && bytes[span.0 + 1] <= 57 {
        proof {
            assert(span_text(bytes@, span)[0] == bytes@[span.0 as int]);
            assert(span_text(bytes@, span)[1] == bytes@[span.0 + 1]);
        }
        true
    } else {
        proof {
            if span_text(bytes@, span).len() >= 2 {
                assert(span_text(bytes@, span)[0] == bytes@[span.0 as int]);
                assert(span_text(bytes@, span)[1] == bytes@[span.0 + 1]);
            }
        }
        false
    }
}

/// A board that shows the placement has a king of a side exactly when the placement has
/// one.
proof fn lemma_king_shown(b: Board, s: Seq<u8>, c: int)
    requires
        board_shows(b, fen_letters(s)),
        0 <= c <= 1,
    ensures
        b.has_king(c) == fen_has_king(s, c),
{
    let x = b.piece_bits(6) & b.side_bits(c);
    if fen_has_king(s, c) {
        let j = choose|j: int| 0 <= j < 64 && letter_piece(#[trigger] fen_letter(s, j)) == 6 && letter_side(fen_letter(s, j)) == c;
        assert((fen_letters(s))(j) == fen_letter(s, j));
        assert(b.square_wf(j));
        crate::bitboard::lemma_bitwise(b.piece_bits(6), b.side_bits(c), j as u64);
        crate::bitboard::lemma_bitwise(b.side_bits(0), b.side_bits(1), j as u64);
        crate::bitboard::lemma_zero_bits();
    }
    if b.has_king(c) {
        crate::bitboard::lemma_clear_lowest(x);
        let j = vstd::std_specs::bits::u64_trailing_zeros(x) as int;
        crate::bitboard::lemma_bitwise(b.piece_bits(6), b.side_bits(c), j as u64);
        crate::bitboard::lemma_bitwise(b.side_bits(0), b.side_bits(1), j as u64);
        assert(b.square_wf(j));
        assert((fen_letters(s))(j) == fen_letter(s, j));
        assert(letter_piece(fen_letter(s, j)) == 6 && letter_side(fen_letter(s, j)) == c);
    }
}

/// Reads a position from FEN text when `create_board` can read it, and gives `None` when
/// it cannot: the text must be ASCII with at least four fields, at most eight ranks that
/// each fill their eight files and a king of the side not to move; and, unless that king
/// is attacked, a king of the side to move, an en passant field that names a square or is
/// `-`, and a half-move clock that fits a `u8` when given.
pub fn try_create_board(attacks: &Attacks, fen: &str) -> (r: Option<Board>)
    requires
        attacks.wf(),
    ensures
        r is Some <==> fen_ready(fen),
        r matches Some(b) ==> board_from_fen(b, fen.spec_bytes()),
{
    if !fen.is_ascii() {
        return None;
    }
    let ghost s = fen.spec_bytes();
    let bytes = fen.as_bytes();
    let fields = word_spans(bytes);
    if fields.len() < 4 {
        return None;
    }
    let f0 = fields[0];
    let f1 = fields[1];
    let f3 = fields[3];
    proof {
        lemma_span_at(bytes@, fields@, words(bytes@), 0);
        lemma_span_at(bytes@, fields@, words(bytes@), 1);
        lemma_span_at(bytes@, fields@, words(bytes@), 3);
        assert(span_text(bytes@, f0) == fen_fields(s)[0]);
        assert(span_text(bytes@, f3) == fen_fields(s)[3]);
    }
    let ranks = piece_spans(bytes, f0.0, f0.1, 47);
    if ranks.len() > 8 {
        return None;
    }
    let mut k: usize = 0;
    while k < ranks.len()
        invariant
            k <= ranks@.len() <= 8,
            spans_hold(bytes@, ranks@, fen_ranks(s)),
            s == bytes@,
            s == fen.spec_bytes(),
            forall|q: int| 0 <= q < k ==> rank_ok(#[trigger] fen_ranks(s)[q], 0, 0),
        decreases ranks@.len() - k,
    {
        proof {
            lemma_span_at(bytes@, ranks@, fen_ranks(s), k as int);
        }
        if !rank_text_ok(bytes, ranks[k]) {
            proof {
                assert(!rank_ok(fen_ranks(s)[k as int], 0, 0));
            }
            return None;
        }
        k = k + 1;
    }
    let mut board = read_placement(bytes, f0);
    proof {
        let l0 = |j: int| rank_letter(pieces_of(span_text(bytes@, f0), 47), 8, j);
        assert forall|j: int| 0 <= j < 64 implies letter_piece(#[trigger] (fen_letters(s))(j)) == letter_piece(l0(j)) && (
        letter_piece(l0(j)) != 0 ==> letter_side((fen_letters(s))(j)) == letter_side(l0(j))) by {}
        lemma_shows_same(board, l0, fen_letters(s));
    }
    let ghost placement = board;
    if span_is(bytes, f1, 119) {
        board.side_to_move = Side::white();
    } else {
        board.side_to_move = Side::black();
    }
    let ghost stm = fen_side(s);
    proof {
        lemma_shows_pieces(placement, board, fen_letters(s));
        lemma_king_shown(board, s, 0);
        lemma_king_shown(board, s, 1);
    }
    let opponent = board.side_to_move.flipped();
    if board.get_piece_mask(6, opponent).is_empty() {
        return None;
    }
    proof {
        lemma_placement_facts(board, s);
        crate::bitboard::lemma_clear_lowest(board.piece_bits(6) & board.side_bits(1 - stm));
    }
    let opponent_king = board.get_king_square(opponent);
    if board.is_square_attacked(attacks, opponent_king, board.side_to_move) {
        return Some(create_board(attacks, fen));
    }
    if board.get_piece_mask(6, board.side_to_move).is_empty() {
        return None;
    }
    if !en_passant_text_checked(bytes, f3) {
        return None;
    }
    if fields.len() > 4 {
        let f4 = fields[4];
        proof {
            lemma_span_at(bytes@, fields@, words(bytes@), 4);
        }
        if !u8_text_checked(bytes, f4) {
            return None;
        }
    }
    Some(create_board(attacks, fen))
}

} // verus!
