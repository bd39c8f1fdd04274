use javelin::attacks::Attacks;
use javelin::bitboard::Bitboard;
use javelin::drawing::draw_board;
use javelin::fen::create_board;
use javelin::records::{convert_to_12_bitboards, piece_boards_of};

const FRAME: &str = " ------------------------\n";

#[test]
fn board_diagram_without_colours() {
    colored::control::set_override(false);
    let attacks = Attacks::new().unwrap();
    let board = create_board(&attacks, "4k3/8/8/3pP3/8/8/8/4K2R w K d6 0 7");
    let text = board.draw_board();
    let expected = String::new()
        + FRAME
        + "| .  .  .  .  k  .  .  . | FEN: TBA\n"
        + "| .  .  .  .  .  .  .  . | Castle Rights: K\n"
        + "| .  .  .  x  .  .  .  . | Side To Move: White\n"
        + "| .  .  .  p  P  .  .  . | En Passant: d6\n"
        + "| .  .  .  .  .  .  .  . | Half Moves: 0\n"
        + "| .  .  .  .  .  .  .  . | In Check: false\n"
        + "| .  .  .  .  .  .  .  . | \n"
        + "| .  .  .  .  K  .  .  R | \n"
        + FRAME;
    assert_eq!(text, expected);
}

#[test]
fn bitboard_diagram_without_colours() {
    colored::control::set_override(false);
    let text = Bitboard::from_raw(0x8000_0000_0000_0081).draw_bitboard();
    let expected = String::new()
        + FRAME
        + "| 0  0  0  0  0  0  0  1 |\n"
        + "| 0  0  0  0  0  0  0  0 |\n"
        + "| 0  0  0  0  0  0  0  0 |\n"
        + "| 0  0  0  0  0  0  0  0 |\n"
        + "| 0  0  0  0  0  0  0  0 |\n"
        + "| 0  0  0  0  0  0  0  0 |\n"
        + "| 0  0  0  0  0  0  0  0 |\n"
        + "| 1  0  0  0  0  0  0  1 |\n"
        + FRAME
        + "  Bitboard: 9223372036854775937\n";
    assert_eq!(text, expected);
}

#[test]
fn record_diagram_without_colours() {
    colored::control::set_override(false);
    let attacks = Attacks::new().unwrap();
    let board = create_board(&attacks, "4k3/8/8/8/8/8/3P4/4K3 b - - 3 9");
    let text = draw_board(&convert_to_12_bitboards(piece_boards_of(&board)));
    let expected = String::new()
        + FRAME
        + "| .  .  .  .  k  .  .  . |\n"
        + "| .  .  .  .  .  .  .  . |\n"
        + "| .  .  .  .  .  .  .  . |\n"
        + "| .  .  .  .  .  .  .  . |\n"
        + "| .  .  .  .  .  .  .  . |\n"
        + "| .  .  .  .  .  .  .  . |\n"
        + "| .  .  .  P  .  .  .  . |\n"
        + "| .  .  .  .  K  .  .  . |\n"
        + FRAME;
    assert_eq!(text, expected);
}
