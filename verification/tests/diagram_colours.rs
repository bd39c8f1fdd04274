use javelin::attacks::Attacks;
use javelin::fen::create_board;

#[test]
fn board_diagram_in_colour() {
    colored::control::set_override(true);
    let attacks = Attacks::new().unwrap();
    let board = create_board(&attacks, "4k3/8/8/8/8/8/8/4K3 b - - 12 30");
    let text = board.draw_board();
    let lines: Vec<&str> = text.lines().collect();
    assert_eq!(lines[1], "| .  .  .  . \u{1b}[34m k \u{1b}[0m .  .  . | FEN: TBA");
    assert_eq!(lines[8], "| .  .  .  . \u{1b}[33m K \u{1b}[0m .  .  . | ");
    assert_eq!(lines[3], "| .  .  .  .  .  .  .  . | Side To Move: Black");
    assert_eq!(lines[5], "| .  .  .  .  .  .  .  . | Half Moves: 12");
    assert_eq!(lines[4], "| .  .  .  .  .  .  .  . | En Passant: NULL");
}
