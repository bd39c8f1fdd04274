use vstd::prelude::*;
use colored::Colorize;

use crate::bitboard::{Bitboard, has_bit};
use crate::board::Board;
use crate::core_structs::{castle_rights_text, decimal, push_decimal, square_name, string_from_chars, Square};
use crate::records::{get_piece_tuple, piece_tuple_from};

verus! {

/// `ESC[<code>m`, the text, `ESC[0m`: the text in a terminal colour.
pub open spec fn ansi_colored(code: Seq<char>, text: Seq<char>) -> Seq<char> {
    seq!['\x1b', '['] + code + seq!['m'] + text + seq!['\x1b', '[', '0', 'm']
}

/// Whether the text holds no escape character.
pub open spec fn no_escape(text: Seq<char>) -> bool {
    forall|i: int| 0 <= i < text.len() ==> text[i] != '\x1b'
}

/// Whether `shown` is `text` as a terminal shows it: in the colour of `code`, or
/// unchanged when colouring is off.
pub open spec fn shown_as(shown: Seq<char>, code: Seq<char>, text: Seq<char>) -> bool {
    shown == text || shown == ansi_colored(code, text)
}

/// `Colorize::yellow` on a text, shown with `to_string`: the text between the escape
/// codes of yellow (33) and of the reset, or the text alone when the environment turns
/// colouring off (which of the two is not stated).
#[verifier::external_body]
fn yellow_text(text: &str) -> (r: String)
    requires
        no_escape(text@),
    ensures
        shown_as(r@, seq!['3', '3'], text@),
{
    text.yellow().to_string()
}

/// `Colorize::blue` on a text, shown with `to_string`: as `yellow_text`, with the code of
/// blue (34).
#[verifier::external_body]
fn blue_text(text: &str) -> (r: String)
    requires
        no_escape(text@),
    ensures
        shown_as(r@, seq!['3', '4'], text@),
{
    text.blue().to_string()
}

/// `Colorize::green` on a text, shown with `to_string`: as `yellow_text`, with the code
/// of green (32).
#[verifier::external_body]
fn green_text(text: &str) -> (r: String)
    requires
        no_escape(text@),
    ensures
        shown_as(r@, seq!['3', '2'], text@),
{
    text.green().to_string()
}

/// `Colorize::red` on a text, shown with `to_string`: as `yellow_text`, with the code of
/// red (31).
#[verifier::external_body]
fn red_text(text: &str) -> (r: String)
    requires
        no_escape(text@),
    ensures
        shown_as(r@, seq!['3', '1'], text@),
{
    text.red().to_string()
}

/// The line above and below a diagram.
pub open spec fn frame_line() -> Seq<char> {
    " ------------------------\n"@
}

/// The cells of the first `n` files of `rank`, each drawn by `cell` from its square.
pub open spec fn cells_text(cell: spec_fn(int) -> Seq<char>, rank: int, n: int) -> Seq<char>
    decreases n,
{
    if n <= 0 {
        Seq::empty()
    } else {
        cells_text(cell, rank, n - 1) + cell(rank * 8 + n - 1)
    }
}

/// The first `n` rows of a diagram, from rank 7 down: a bar, the cells of the rank, and
/// the end of the rank's line.
pub open spec fn rows_text(cell: spec_fn(int) -> Seq<char>, ending: spec_fn(int) -> Seq<char>, n: int) -> Seq<char>
    decreases n,
{
    if n <= 0 {
        Seq::empty()
    } else {
        rows_text(cell, ending, n - 1) + "|"@ + cells_text(cell, 8 - n, 8) + ending(8 - n)
    }
}

/// A diagram: the frame, the eight rows, the frame.
pub open spec fn diagram_text(cell: spec_fn(int) -> Seq<char>, ending: spec_fn(int) -> Seq<char>) -> Seq<char> {
    frame_line() + rows_text(cell, ending, 8) + frame_line()
}

/// Appends the eight rows of a diagram whose cells and line ends are given by square
/// and by rank.
fn push_rows(
    result: &mut String,
    cells: &Vec<String>,
    endings: &Vec<String>,
    Ghost(cell): Ghost<spec_fn(int) -> Seq<char>>,
    Ghost(ending): Ghost<spec_fn(int) -> Seq<char>>,
)
    requires
        cells@.len() == 64,
        endings@.len() == 8,
        forall|sq: int| 0 <= sq < 64 ==> #[trigger] cells@[sq]@ == cell(sq),
        forall|rank: int| 0 <= rank < 8 ==> #[trigger] endings@[rank]@ == ending(rank),
    ensures
        final(result)@ == old(result)@ + rows_text(cell, ending, 8),
{
    let ghost start = result@;
    let mut n: usize = 0;
    while n < 8
        invariant
            n <= 8,
            cells@.len() == 64,
            endings@.len() == 8,
            forall|sq: int| 0 <= sq < 64 ==> #[trigger] cells@[sq]@ == cell(sq),
            forall|rank: int| 0 <= rank < 8 ==> #[trigger] endings@[rank]@ == ending(rank),
            result@ == start + rows_text(cell, ending, n as int),
        decreases 8 - n,
    {
        let rank = 7 - n;
        let ghost row_start = result@;
        result.append("|");
        let mut file: usize = 0;
        while file < 8
            invariant
                file <= 8,
                rank < 8,
                cells@.len() == 64,
                forall|sq: int| 0 <= sq < 64 ==> #[trigger] cells@[sq]@ == cell(sq),
                result@ == row_start + "|"@ + cells_text(cell, rank as int, file as int),
            decreases 8 - file,
        {
            result.append(cells[rank * 8 + file].as_str());
            proof {
                assert(result@ =~= row_start + "|"@ + cells_text(cell, rank as int, file + 1));
            }
            file = file + 1;
        }
        result.append(endings[rank].as_str());
        proof {
            assert(result@ =~= start + rows_text(cell, ending, n + 1));
        }
        n = n + 1;
    }
}

/// The piece icon of index `k`: white pawn to king for 0 to 5, black ones for 6 to 11.
pub open spec fn piece_icon(k: int) -> Seq<char> {
    if k == 0 {
        " P "@
    } else if k == 1 {
        " N "@
    } else if k == 2 {
        " B "@
    } else if k == 3 {
        " R "@
    } else if k == 4 {
        " Q "@
    } else if k == 5 {
        " K "@
    } else if k == 6 {
        " p "@
    } else if k == 7 {
        " n "@
    } else if k == 8 {
        " b "@
    } else if k == 9 {
        " r "@
    } else if k == 10 {
        " q "@
    } else {
        " k "@
    }
}

/// Whether `icons` are the twelve piece icons as a terminal shows them: the white ones
/// yellow, the black ones blue.
pub open spec fn icons_shown(icons: Seq<Seq<char>>) -> bool {
    &&& icons.len() == 12
    &&& forall|k: int| 0 <= k < 6 ==> shown_as(#[trigger] icons[k], seq!['3', '3'], piece_icon(k))
    &&& forall|k: int| 6 <= k < 12 ==> shown_as(#[trigger] icons[k], seq!['3', '4'], piece_icon(k))
}

/// The twelve piece icons, coloured for the terminal.
fn piece_icons() -> (r: Vec<String>)
    ensures
        icons_shown(r@.map_values(|s: String| s@)),
{
    proof {
        reveal_strlit(" P ");
        reveal_strlit(" N ");
        reveal_strlit(" B ");
        reveal_strlit(" R ");
        reveal_strlit(" Q ");
        reveal_strlit(" K ");
        reveal_strlit(" p ");
        reveal_strlit(" n ");
        reveal_strlit(" b ");
        reveal_strlit(" r ");
        reveal_strlit(" q ");
        reveal_strlit(" k ");
    }
    let mut icons: Vec<String> = Vec::new();
    icons.push(yellow_text(" P "));
    icons.push(yellow_text(" N "));
    icons.push(yellow_text(" B "));
    icons.push(yellow_text(" R "));
    icons.push(yellow_text(" Q "));
    icons.push(yellow_text(" K "));
    icons.push(blue_text(" p "));
    icons.push(blue_text(" n "));
    icons.push(blue_text(" b "));
    icons.push(blue_text(" r "));
    icons.push(blue_text(" q "));
    icons.push(blue_text(" k "));
    proof {
        let v = icons@.map_values(|s: String| s@);
        assert forall|k: int| 0 <= k < 6 implies shown_as(#[trigger] v[k], seq!['3', '3'], piece_icon(k)) by {}
        assert forall|k: int| 6 <= k < 12 implies shown_as(#[trigger] v[k], seq!['3', '4'], piece_icon(k)) by {}
    }
    icons
}

/// What square `sq` of `b` shows: `x` on the en passant square, a dot on an empty one,
/// else the icon of its piece.
pub open spec fn board_cell(b: Board, icons: Seq<Seq<char>>, sq: int) -> Seq<char> {
    if sq == b.en_passant@ {
        " x "@
    } else if b.piece_at(sq) == 0 {
        " . "@
    } else if b.color_at(sq) == 1 {
        icons[b.piece_at(sq) + 5]
    } else {
        icons[b.piece_at(sq) - 1]
    }
}

pub open spec fn board_cells(b: Board, icons: Seq<Seq<char>>) -> spec_fn(int) -> Seq<char> {
    |sq: int| board_cell(b, icons, sq)
}

/// The lines beside the rows of the board diagram: position facts, from the top rank.
pub open spec fn board_info(b: Board) -> Seq<Seq<char>> {
    seq![
        "FEN: TBA"@,
        "Castle Rights: "@ + castle_rights_text(b.castle_rights@),
        "Side To Move: "@ + (if b.side_to_move@ == 1 { "Black"@ } else { "White"@ }),
        "En Passant: "@ + square_name(b.en_passant@),
        "Half Moves: "@ + decimal(b.half_moves as nat),
        "In Check: "@ + (if b.checkers@ != 0 { "true"@ } else { "false"@ }),
        Seq::<char>::empty(),
        Seq::<char>::empty(),
    ]
}

pub open spec fn info_endings(info: Seq<Seq<char>>) -> spec_fn(int) -> Seq<char> {
    |rank: int| "| "@ + info[7 - rank] + "\n"@
}

/// The text that `Board::draw_board` shows with piece icons `icons`.
pub open spec fn board_diagram(b: Board, icons: Seq<Seq<char>>) -> Seq<char> {
    diagram_text(board_cells(b, icons), info_endings(board_info(b)))
}

/// A string made of two texts.
fn joined(first: &str, second: &str) -> (r: String)
    ensures
        r@ == first@ + second@,
{
    let mut text = String::new();
    text.append(first);
    text.append(second);
    proof {
        assert(text@ =~= first@ + second@);
    }
    text
}

impl Board {
    /// The position as text: a diagram of the board, white at the bottom, the white
    /// pieces yellow and the black ones blue, beside lines on the castling rights, the
    /// side to move, the en passant square, the half moves and check.
    pub fn draw_board(&self) -> (r: String)
        requires
            self.wf(),
        ensures
            exists|icons: Seq<Seq<char>>| icons_shown(icons) && r@ == #[trigger] board_diagram(*self, icons),
    {
        let icons = piece_icons();
        let ghost iv = icons@.map_values(|s: String| s@);
        let mut cells: Vec<String> = Vec::new();
        let mut sq: usize = 0;
        while sq < 64
            invariant
                sq <= 64,
                self.wf(),
                icons@.len() == 12,
                iv == icons@.map_values(|s: String| s@),
                cells@.len() == sq,
                forall|j: int| 0 <= j < sq ==> #[trigger] cells@[j]@ == board_cell(*self, iv, j),
            decreases 64 - sq,
        {
            let square = Square::from_raw(sq);
            if square.equals(self.en_passant) {
                cells.push(String::from_str(" x "));
            } else {
                let (piece, side) = self.get_piece_on_square(square);
                if piece == 0 {
                    cells.push(String::from_str(" . "));
                } else if side.current() == 1 {
                    cells.push(icons[piece + 5].clone());
                } else {
                    cells.push(icons[piece - 1].clone());
                }
            }
            sq = sq + 1;
        }
        let mut info: Vec<String> = Vec::new();
        info.push(String::from_str("FEN: TBA"));
        info.push(joined("Castle Rights: ", self.castle_rights.to_string().as_str()));
        info.push(joined("Side To Move: ", if self.side_to_move.current() == 1 { "Black" } else { "White" }));
        info.push(joined("En Passant: ", self.en_passant.to_string().as_str()));
        let mut half_moves: Vec<char> = Vec::new();
        push_decimal(&mut half_moves, self.half_moves as u64);
        info.push(joined("Half Moves: ", string_from_chars(&half_moves).as_str()));
        info.push(joined("In Check: ", if self.is_in_check() { "true" } else { "false" }));
        info.push(String::new());
        info.push(String::new());
        let ghost infos = board_info(*self);
        let mut endings: Vec<String> = Vec::new();
        let mut rank: usize = 0;
        while rank < 8
            invariant
                rank <= 8,
                info@.len() == 8,
                forall|k: int| 0 <= k < 8 ==> #[trigger] info@[k]@ == infos[k],
                endings@.len() == rank,
                forall|k: int| 0 <= k < rank ==> #[trigger] endings@[k]@ == info_endings(infos)(k),
            decreases 8 - rank,
        {
            let mut ending = joined("| ", info[7 - rank].as_str());
            ending.append("\n");
            endings.push(ending);
            rank = rank + 1;
        }
        let mut result = String::from_str(" ------------------------\n");
        push_rows(&mut result, &cells, &endings, Ghost(board_cells(*self, iv)), Ghost(info_endings(infos)));
        result.append(" ------------------------\n");
        proof {
            assert(result@ =~= board_diagram(*self, iv));
        }
        result
    }
}

/// Whether `one` and `zero` are the marks of a bitboard diagram as a terminal shows
/// them: a green one and a red zero.
pub open spec fn marks_shown(one: Seq<char>, zero: Seq<char>) -> bool {
    shown_as(one, seq!['3', '2'], " 1 "@) && shown_as(zero, seq!['3', '1'], " 0 "@)
}

pub open spec fn bitboard_cells(b: u64, one: Seq<char>, zero: Seq<char>) -> spec_fn(int) -> Seq<char> {
    |sq: int| if has_bit(b, sq) { one } else { zero }
}

/// The end of a row that has nothing beside it.
pub open spec fn bar_endings() -> spec_fn(int) -> Seq<char> {
    |rank: int| "|\n"@
}

/// The text that `Bitboard::draw_bitboard` shows with marks `one` and `zero`: the
/// diagram of the set, then its value in decimal.
pub open spec fn bitboard_diagram(b: u64, one: Seq<char>, zero: Seq<char>) -> Seq<char> {
    diagram_text(bitboard_cells(b, one, zero), bar_endings()) + "  Bitboard: "@ + decimal(b as nat) + "\n"@
}

/// The eight row ends of a diagram with nothing beside it.
fn bar_lines() -> (r: Vec<String>)
    ensures
        r@.len() == 8,
        forall|k: int| 0 <= k < 8 ==> #[trigger] r@[k]@ == bar_endings()(k),
{
    let mut endings: Vec<String> = Vec::new();
    let mut rank: usize = 0;
    while rank < 8
        invariant
            rank <= 8,
            endings@.len() == rank,
            forall|k: int| 0 <= k < rank ==> #[trigger] endings@[k]@ == bar_endings()(k),
        decreases 8 - rank,
    {
        endings.push(String::from_str("|\n"));
        rank = rank + 1;
    }
    endings
}

impl Bitboard {
    /// The set as text: a diagram with a green one on each of its squares and a red zero
    /// elsewhere, white's side at the bottom, then its value.
    pub fn draw_bitboard(&self) -> (r: String)
        ensures
            exists|one: Seq<char>, zero: Seq<char>| marks_shown(one, zero) && r@ == #[trigger] bitboard_diagram(self@, one, zero),
    {
        proof {
            reveal_strlit(" 1 ");
            reveal_strlit(" 0 ");
        }
        let one = green_text(" 1 ");
        let zero = red_text(" 0 ");
        let mut cells: Vec<String> = Vec::new();
        let mut sq: usize = 0;
        while sq < 64
            invariant
                sq <= 64,
                cells@.len() == sq,
                forall|j: int| 0 <= j < sq ==> #[trigger] cells@[j]@ == bitboard_cells(self@, one@, zero@)(j),
            decreases 64 - sq,
        {
            if self.get_bit(Square::from_raw(sq)) {
                cells.push(one.clone());
            } else {
                cells.push(zero.clone());
            }
            sq = sq + 1;
        }
        let endings = bar_lines();
        let mut result = String::from_str(" ------------------------\n");
        push_rows(&mut result, &cells, &endings, Ghost(bitboard_cells(self@, one@, zero@)), Ghost(bar_endings()));
        result.append(" ------------------------\n");
        result.append("  Bitboard: ");
        let mut digits: Vec<char> = Vec::new();
        push_decimal(&mut digits, self.get_value());
        result.append(string_from_chars(&digits).as_str());
        result.append("\n");
        proof {
            assert(result@ =~= bitboard_diagram(self@, one@, zero@));
        }
        result
    }
}

/// What square `sq` of the twelve piece sets shows: a dot when no set holds it, else
/// the icon of the piece that the first set holding it names.
pub open spec fn sets_cell(board: [Bitboard; 12], icons: Seq<Seq<char>>, sq: int) -> Seq<char> {
    let (piece, side) = piece_tuple_from(board, sq, 0);
    if piece == 0 {
        " . "@
    } else if side == 1 {
        icons[piece + 5]
    } else {
        icons[piece - 1]
    }
}

pub open spec fn sets_cells(board: [Bitboard; 12], icons: Seq<Seq<char>>) -> spec_fn(int) -> Seq<char> {
    |sq: int| sets_cell(board, icons, sq)
}

/// The text that `draw_board` shows for the piece sets with piece icons `icons`.
pub open spec fn sets_diagram(board: [Bitboard; 12], icons: Seq<Seq<char>>) -> Seq<char> {
    diagram_text(sets_cells(board, icons), bar_endings())
}

/// The twelve piece sets of a training record as a board diagram, white at the bottom,
/// the white pieces yellow and the black ones blue.
pub fn draw_board(board: &[Bitboard; 12]) -> (r: String)
    ensures
        exists|icons: Seq<Seq<char>>| icons_shown(icons) && r@ == #[trigger] sets_diagram(*board, icons),
{
    let icons = piece_icons();
    let ghost iv = icons@.map_values(|s: String| s@);
    let mut cells: Vec<String> = Vec::new();
    let mut sq: usize = 0;
    while sq < 64
        invariant
            sq <= 64,
            icons@.len() == 12,
            iv == icons@.map_values(|s: String| s@),
            cells@.len() == sq,
            forall|j: int| 0 <= j < sq ==> #[trigger] cells@[j]@ == sets_cell(*board, iv, j),
        decreases 64 - sq,
    {
        let (piece, side) = get_piece_tuple(board, Square::from_raw(sq));
        proof {
            lemma_tuple_range(*board, sq as int, 0);
        }
        if piece == 0 {
            cells.push(String::from_str(" . "));
        } else if side.current() == 1 {
            cells.push(icons[piece + 5].clone());
        } else {
            cells.push(icons[piece - 1].clone());
        }
        sq = sq + 1;
    }
    let endings = bar_lines();
    let mut result = String::from_str(" ------------------------\n");
    push_rows(&mut result, &cells, &endings, Ghost(sets_cells(*board, iv)), Ghost(bar_endings()));
    result.append(" ------------------------\n");
    proof {
        assert(result@ =~= sets_diagram(*board, iv));
    }
    result
}

/// The sets name a piece from 0 to 6 and a side 0 or 1, the black side only with a
/// piece.
proof fn lemma_tuple_range(board: [Bitboard; 12], sq: int, k: int)
    ensures
        0 <= piece_tuple_from(board, sq, k).0 <= 6,
        0 <= piece_tuple_from(board, sq, k).1 <= 1,
    decreases 12 - k,
{
    if 0 <= k < 12 && !board[k].contains(sq) {
        lemma_tuple_range(board, sq, k + 1);
    }
}

} // verus!
