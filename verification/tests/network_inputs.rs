use javelin::attacks::Attacks;
use javelin::fen::create_board;
use javelin::network_inputs::{map_value_inputs, Evaluation};

fn sorted(mut v: Vec<usize>) -> Vec<usize> {
    v.sort();
    v
}

#[test]
fn policy_inputs_of_the_start_position() {
    let attacks = Attacks::new().unwrap();
    let board = create_board(&attacks, "rnbqkbnr/pppppppp/8/8/8/8/PPPPPPPP/RNBQKBNR w KQkq - 0 1");
    let inputs = Evaluation::get_policy_inputs(&board);
    assert_eq!(inputs.len(), 32);
    // White pawns on rank 2, then black pawns on rank 7 in the other half.
    assert_eq!(&inputs[0..8], &[8, 9, 10, 11, 12, 13, 14, 15]);
    assert_eq!(&inputs[8..16], &[384 + 48, 384 + 49, 384 + 50, 384 + 51, 384 + 52, 384 + 53, 384 + 54, 384 + 55]);
    // Knights: b1 and g1 at 64 + square.
    assert_eq!(&inputs[16..18], &[65, 70]);
    // Kings come last.
    assert_eq!(&inputs[30..32], &[320 + 4, 384 + 320 + 60]);
}

#[test]
fn policy_inputs_are_seen_from_the_side_to_move() {
    let attacks = Attacks::new().unwrap();
    let white = create_board(&attacks, "4k3/8/8/8/8/8/3P4/4K3 w - - 0 1");
    let black = create_board(&attacks, "4k3/3p4/8/8/8/8/8/4K3 b - - 0 1");
    // The same position with colours swapped and the board turned gives the same inputs.
    assert_eq!(Evaluation::get_policy_inputs(&white), Evaluation::get_policy_inputs(&black));
    assert_eq!(Evaluation::get_policy_inputs(&white), vec![11, 320 + 4, 384 + 320 + 60]);
}

#[test]
fn value_inputs_mirror_when_the_king_is_on_the_right() {
    let attacks = Attacks::new().unwrap();
    // King on e1: every square is mirrored across files (a2 becomes h2).
    let board = create_board(&attacks, "4k3/8/8/8/8/8/P7/4K3 w - - 0 1");
    assert_eq!(map_value_inputs(&board), vec![15, 320 + 3, 384 + 320 + 59]);
    // King on d1: nothing is mirrored.
    let board = create_board(&attacks, "4k3/8/8/8/8/8/P7/3K4 w - - 0 1");
    assert_eq!(map_value_inputs(&board), vec![8, 320 + 3, 384 + 320 + 60]);
}

#[test]
fn value_inputs_ignore_a_mirror_image() {
    let attacks = Attacks::new().unwrap();
    let board = create_board(&attacks, "r3k2r/p1ppqpb1/bn2pnp1/3PN3/1p2P3/2N2Q1p/PPPBBPPP/R3K2R b KQkq - 0 1");
    let mirrored = create_board(&attacks, "r2k3r/1bpqpp1p/1pnp2nb/3NP3/3P2p1/p1Q2N2/PPPBBPPP/R2K3R b - - 0 1");
    assert_eq!(sorted(map_value_inputs(&board)), sorted(map_value_inputs(&mirrored)));
    assert_ne!(sorted(Evaluation::get_policy_inputs(&board)), sorted(Evaluation::get_policy_inputs(&mirrored)));
}

#[test]
fn value_inputs_are_distinct_and_in_range() {
    let attacks = Attacks::new().unwrap();
    let board = create_board(&attacks, "r3k2r/p1ppqpb1/bn2pnp1/3PN3/1p2P3/2N2Q1p/PPPBBPPP/R3K2R w KQkq - 0 1");
    let inputs = map_value_inputs(&board);
    let mut unique = sorted(inputs.clone());
    unique.dedup();
    assert_eq!(unique.len(), inputs.len());
    assert!(inputs.iter().all(|&i| i < 768));
}
