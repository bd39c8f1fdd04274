use javelin::attacks::Attacks;
use javelin::fen::create_board;
use javelin::uci_position::apply_uci_moves;

const START: &str = "rnbqkbnr/pppppppp/8/8/8/8/PPPPPPPP/RNBQKBNR w KQkq - 0 1";

fn words(text: &str) -> Vec<String> {
    text.split_whitespace().map(|w| w.to_string()).collect()
}

#[test]
fn listed_moves_are_played_in_turn() {
    let attacks = Attacks::new().unwrap();
    let mut board = create_board(&attacks, START);
    assert_eq!(apply_uci_moves(&attacks, &mut board, &words("moves e2e4 e7e5 g1f3")), Ok(()));
    let expected = create_board(&attacks, "rnbqkbnr/pppp1ppp/8/4p3/4P3/5N2/PPPP1PPP/RNBQKB1R b KQkq - 1 2");
    assert_eq!(board.draw_board(), expected.draw_board());
}

#[test]
fn words_before_moves_and_unknown_moves_are_passed_over() {
    let attacks = Attacks::new().unwrap();
    let mut board = create_board(&attacks, START);
    assert_eq!(apply_uci_moves(&attacks, &mut board, &words("x y moves e2e5 d2d4")), Ok(()));
    let expected = create_board(&attacks, "rnbqkbnr/pppppppp/8/8/3P4/8/PPP1PPPP/RNBQKBNR b KQkq d3 0 1");
    assert_eq!(board.draw_board(), expected.draw_board());
}

#[test]
fn without_the_word_moves_nothing_is_played() {
    let attacks = Attacks::new().unwrap();
    let mut board = create_board(&attacks, START);
    assert_eq!(apply_uci_moves(&attacks, &mut board, &words("e2e4 d2d4")), Ok(()));
    assert_eq!(board.draw_board(), create_board(&attacks, START).draw_board());
}

#[test]
fn promotion_is_named_with_its_piece() {
    let attacks = Attacks::new().unwrap();
    let mut board = create_board(&attacks, "4k3/P7/8/8/8/8/8/4K3 w - - 0 1");
    assert_eq!(apply_uci_moves(&attacks, &mut board, &words("moves a7a8n")), Ok(()));
    let expected = create_board(&attacks, "N3k3/8/8/8/8/8/8/4K3 b - - 0 1");
    assert_eq!(board.draw_board(), expected.draw_board());
}

#[test]
fn full_half_move_clock_stops_the_moves() {
    let attacks = Attacks::new().unwrap();
    let mut board = create_board(&attacks, "4k3/8/8/8/8/8/8/4K2R w - - 255 1");
    assert_eq!(apply_uci_moves(&attacks, &mut board, &words("moves zz h1h2")), Err(1));
    assert_eq!(board.half_moves, 255);
}
