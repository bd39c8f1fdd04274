use javelin::attacks::Attacks;
use javelin::fen::create_board;
use javelin::move_count::try_generate_moves;
use javelin::move_list::{empty_move_list, MoveList};
use javelin::movegen::MoveProvider;

const START: &str = "rnbqkbnr/pppppppp/8/8/8/8/PPPPPPPP/RNBQKBNR w KQkq - 0 1";

#[test]
fn start_position_bound() {
    let attacks = Attacks::new().unwrap();
    let board = create_board(&attacks, START);
    // pawns 8 x 15, knights 3 + 3, bishops 2 + 2, rooks 2 + 2, queen 2 + 3, king 5 + 2
    assert_eq!(board.move_count_bound(&attacks), 146);
}

#[test]
fn bound_covers_the_generated_moves() {
    let attacks = Attacks::new().unwrap();
    for fen in [
        START,
        "r3k2r/p1ppqpb1/bn2pnp1/3PN3/1p2P3/2N2Q1p/PPPBBPPP/R3K2R w KQkq - 0 1",
        "r3k2r/Pppp1ppp/1b3nbN/nP6/BBP1P3/q4N2/Pp1P2PP/R2Q1RK1 w kq - 0 1",
        "4k3/8/8/8/8/8/8/4K3 w - - 0 1",
    ] {
        let board = create_board(&attacks, fen);
        let mut move_list = MoveList::new();
        MoveProvider::generate_moves::<false>(&mut move_list, &attacks, &board);
        assert!(move_list.len() as u32 <= board.move_count_bound(&attacks), "{}", fen);
    }
}

#[test]
fn checked_generation_fills_the_list_when_there_is_room() {
    let attacks = Attacks::new().unwrap();
    let board = create_board(&attacks, START);
    let mut move_list = empty_move_list();
    assert!(try_generate_moves::<false>(&mut move_list, &attacks, &board));
    assert_eq!(move_list.len(), 20);
}

#[test]
fn checked_generation_refuses_a_list_without_room() {
    let attacks = Attacks::new().unwrap();
    let board = create_board(&attacks, START);
    let mut move_list = MoveList::new();
    for _ in 0..6 {
        MoveProvider::generate_moves::<false>(&mut move_list, &attacks, &board);
    }
    assert_eq!(move_list.len(), 120);
    assert!(!try_generate_moves::<false>(&mut move_list, &attacks, &board));
    assert_eq!(move_list.len(), 120);
}
