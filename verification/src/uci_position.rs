use vstd::prelude::*;

use crate::attacks::Attacks;
use crate::board::Board;
use crate::core_structs::{move_text, string_from_chars, Move};
use crate::move_list::{move_list_get, move_list_len, move_list_values, new_move_list};
use crate::movegen::{generated_moves, generation_ready, MoveProvider};
use crate::movegen_laws::{from_in, lemma_generated_moves_leave_allied_squares};

verus! {

/// The word after which a `position` command lists its moves.
pub open spec fn moves_word() -> Seq<char> {
    seq!['m', 'o', 'v', 'e', 's']
}

/// The texts of `texts` after its first word `moves`; none when there is no such word.
pub open spec fn texts_after_moves(texts: Seq<Seq<char>>) -> Seq<Seq<char>>
    decreases texts.len(),
{
    if texts.len() == 0 {
        Seq::empty()
    } else if texts[0] == moves_word() {
        texts.drop_first()
    } else {
        texts_after_moves(texts.drop_first())
    }
}

/// The index of the first move of `moves`, from `i` on, whose UCI text is `text`; the
/// length of `moves` when there is none.
pub open spec fn first_named(moves: Seq<u16>, text: Seq<char>, i: int) -> int
    decreases moves.len() - i,
{
    if 0 <= i < moves.len() {
        if move_text(Move { value: moves[i] }) == text {
            i
        } else {
            first_named(moves, text, i + 1)
        }
    } else {
        moves.len() as int
    }
}

/// The move the UCI text `text` names on `b`: the first generated move whose text it is.
pub open spec fn named_move(b: Board, text: Seq<char>) -> Move {
    Move { value: generated_moves(b, false)[first_named(generated_moves(b, false), text, 0)] }
}

/// Whether the UCI text `text` names a generated move of `b`.
pub open spec fn names_a_move(b: Board, text: Seq<char>) -> bool {
    first_named(generated_moves(b, false), text, 0) < generated_moves(b, false).len()
}

/// The board once the move `text` names is played; `b` itself when it names none.
pub open spec fn play_text(b: Board, text: Seq<char>) -> Board {
    if names_a_move(b, text) {
        b.after(named_move(b, text))
    } else {
        b
    }
}

/// The board once the moves the texts name are played in turn, each text that names no
/// move of its board passed over.
pub open spec fn play_texts(b: Board, texts: Seq<Seq<char>>) -> Board
    decreases texts.len(),
{
    if texts.len() == 0 {
        b
    } else {
        play_texts(play_text(b, texts[0]), texts.drop_first())
    }
}

/// The board a `position` command sets up from `b` with the words `texts` after its
/// position: the moves listed after the word `moves`, played in turn.
pub open spec fn uci_moves_applied(b: Board, texts: Seq<Seq<char>>) -> Board {
    play_texts(b, texts_after_moves(texts))
}

/// The character sequences of a list of strings.
pub open spec fn texts_of(texts: Seq<String>) -> Seq<Seq<char>> {
    texts.map_values(|t: String| t@)
}

/// Whether playing the texts in turn from `b` meets only boards that the move generator
/// and `make_move` accept: each is well formed and ready for the generator with at most
/// 256 moves, and the move a text names leaves the other side its king.
pub open spec fn texts_ready(b: Board, texts: Seq<Seq<char>>) -> bool
    decreases texts.len(),
{
    if texts.len() == 0 {
        true
    } else {
        &&& b.wf()
        &&& generation_ready(b)
        &&& generated_moves(b, false).len() <= 256
        &&& names_a_move(b, texts[0]) ==> b.moved_piece_bits(named_move(b, texts[0]), 6) & b.moved_side_bits(
            named_move(b, texts[0]),
            1 - b.side_to_move@,
        ) != 0
        &&& texts_ready(play_text(b, texts[0]), texts.drop_first())
    }
}

/// The words before the `i`-th are not `moves`: the texts after the first such word are
/// those after it in the words from the `i`-th on.
proof fn lemma_after_moves_skip(texts: Seq<Seq<char>>, i: int)
    requires
        0 <= i <= texts.len(),
        forall|k: int| 0 <= k < i ==> texts[k] != moves_word(),
    ensures
        texts_after_moves(texts) == texts_after_moves(texts.skip(i)),
    decreases i,
{
    if i > 0 {
        lemma_after_moves_skip(texts.drop_first(), i - 1);
        assert(texts.drop_first().skip(i - 1) =~= texts.skip(i));
    } else {
        assert(texts.skip(0) =~= texts);
    }
}

/// Moves before the `i`-th that are not named `text` are passed over.
proof fn lemma_first_named_skip(moves: Seq<u16>, text: Seq<char>, i: int)
    requires
        0 <= i <= moves.len(),
        forall|q: int| 0 <= q < i ==> move_text(Move { value: #[trigger] moves[q] }) != text,
    ensures
        first_named(moves, text, 0) == first_named(moves, text, i),
    decreases i,
{
    if i > 0 {
        lemma_first_named_skip(moves, text, i - 1);
    }
}

/// Playing one more text after some texts plays it on the board they lead to.
proof fn lemma_play_texts_push(b: Board, texts: Seq<Seq<char>>, t: Seq<char>)
    ensures
        play_texts(b, texts.push(t)) == play_text(play_texts(b, texts), t),
    decreases texts.len(),
{
    if texts.len() == 0 {
        assert(texts.push(t).drop_first() =~= Seq::<Seq<char>>::empty());
        assert(texts.push(t)[0] == t);
        assert(play_texts(play_text(b, t), Seq::<Seq<char>>::empty()) == play_text(b, t));
    } else {
        lemma_play_texts_push(play_text(b, texts[0]), texts.drop_first(), t);
        assert(texts.push(t).drop_first() =~= texts.drop_first().push(t));
        assert(texts.push(t)[0] == texts[0]);
    }
}

/// Whether playing the listed texts from `b` stopped, at `end`, before the `k`-th of them:
/// `end` is the board the texts before it lead to, the `k`-th names a move there, and the
/// half-move clock of `end` is full.
pub open spec fn stopped_before(b: Board, listed: Seq<Seq<char>>, k: int, end: Board) -> bool {
    &&& 0 <= k < listed.len()
    &&& end == play_texts(b, listed.take(k))
    &&& names_a_move(end, listed[k])
    &&& end.half_moves >= 255
}

/// Plays on `board` the moves that the words `texts` of a `position` command list after
/// the word `moves`: for each, the first generated move whose UCI text it is, passing over
/// a word that names none. Where a move would need a half-move clock beyond its byte, the
/// moves stop there: `Err(k)` tells that the `k`-th of the listed moves was not played.
pub fn apply_uci_moves(attacks: &Attacks, board: &mut Board, texts: &Vec<String>) -> (r: Result<(), usize>)
    requires
        attacks.wf(),
        texts_ready(*old(board), texts_after_moves(texts_of(texts@))),
    ensures
        r is Ok ==> *final(board) == uci_moves_applied(*old(board), texts_of(texts@)),
        r is Err ==> stopped_before(*old(board), texts_after_moves(texts_of(texts@)), r->Err_0 as int, *final(board)),
{
    let ghost b0 = *board;
    let ghost all = texts_of(texts@);
    let ghost listed = texts_after_moves(all);
    let word = string_from_chars(&vec!['m', 'o', 'v', 'e', 's']);
    let mut start: usize = 0;
    let mut found = false;
    while start < texts.len() && !found
        invariant
            start <= texts.len(),
            all == texts_of(texts@),
            word@ == moves_word(),
            found ==> start < texts.len() && all[start as int] == moves_word(),
            forall|k: int| 0 <= k < start ==> all[k] != moves_word(),
        decreases texts.len() - start, if found { 0int } else { 1int },
    {
        if texts[start] == word {
            found = true;
        } else {
            start = start + 1;
        }
    }
    proof {
        lemma_after_moves_skip(all, start as int);
    }
    if !found {
        proof {
            assert(all.skip(start as int) =~= Seq::<Seq<char>>::empty());
            assert(listed =~= Seq::<Seq<char>>::empty());
        }
        return Ok(());
    }
    let first = start + 1;
    proof {
        assert(listed =~= all.skip(first as int));
        assert(listed.take(0) =~= Seq::<Seq<char>>::empty());
        assert(listed.skip(0) =~= listed);
    }
    let mut i: usize = first;
    while i < texts.len()
        invariant
            attacks.wf(),
            first <= i <= texts.len(),
            all == texts_of(texts@),
            listed == all.skip(first as int),
            listed == texts_after_moves(all),
            b0 == *old(board),
            *board == play_texts(b0, listed.take(i - first)),
            texts_ready(*board, listed.skip(i - first)),
        decreases texts.len() - i,
    {
        let ghost m = (i - first) as int;
        let ghost b = *board;
        let ghost text = listed[m];
        let ghost moves = generated_moves(b, false);
        proof {
            assert(listed.skip(m)[0] == text);
            assert(listed.skip(m).drop_first() =~= listed.skip(m + 1));
            assert(listed.take(m + 1) =~= listed.take(m).push(text));
            lemma_play_texts_push(b0, listed.take(m), text);
            assert(text == texts[i as int]@);
        }
        let mut move_list = new_move_list();
        MoveProvider::generate_moves::<false>(&mut move_list, attacks, board);
        proof {
            assert(move_list_values(move_list) =~= moves);
        }
        let count = move_list_len(&move_list);
        let mut idx: usize = 0;
        let mut matched = false;
        while idx < count && !matched
            invariant
                idx <= count,
                count == moves.len(),
                move_list_values(move_list) == moves,
                text == texts[i as int]@,
                i < texts.len(),
                matched ==> idx < count && move_text(Move { value: moves[idx as int] }) == text,
                forall|q: int| 0 <= q < idx ==> move_text(Move { value: #[trigger] moves[q] }) != text,
            decreases count - idx, if matched { 0int } else { 1int },
        {
            let mv = move_list_get(&move_list, idx);
            let name = mv.to_string();
            if name == texts[i] {
                matched = true;
            } else {
                idx = idx + 1;
            }
        }
        proof {
            lemma_first_named_skip(moves, text, idx as int);
        }
        if matched {
            let mv = move_list_get(&move_list, idx);
            proof {
                assert(mv == named_move(b, text));
            }
            if board.half_moves >= 255 {
                proof {
                    assert(listed.len() == texts.len() - first);
                    assert(first_named(moves, text, 0) == idx as int);
                    assert(names_a_move(b, text));
                    assert(listed[m] == text);
                    assert(m < listed.len());
                    assert(*board == play_texts(b0, listed.take(m)));
                    assert(names_a_move(*board, listed[m]));
                    assert(board.half_moves >= 255);
                    assert((i - first) as int == m);
                }
                return Err(i - first);
            }
            proof {
                lemma_generated_moves_leave_allied_squares(b, false);
                assert((from_in(b.side_bits(b.side_to_move@)))(moves[idx as int]));
                assert(b.square_wf(mv.from_of()));
                crate::bitboard::lemma_bitwise(b.side_bits(0), b.side_bits(1), mv.from_of() as u64);
            }
            board.make_move(attacks, mv);
        }
        i = i + 1;
    }
    proof {
        assert(listed.take(listed.len() as int) =~= listed);
    }
    Ok(())
}

} // verus!
