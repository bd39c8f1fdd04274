use javelin::move_list::MoveList;
use javelin::move_orderer::{get_move_value, MoveOrderer};
use javelin::movegen::MoveProvider;
use javelin::attacks::Attacks;
use javelin::core_structs::{Move, Square};
use javelin::fen::create_board;
use javelin::see::SEE;

#[test]
fn pawn_takes_defended_knight_wins() {
    let attacks = Attacks::new().unwrap();
    let board = create_board(&attacks, "4k3/8/3p4/4n3/3P4/8/8/4K3 w - - 0 1");
    let mv = Move::create_move(Square::from_raw(27), Square::from_raw(36), Move::CAPTURE_MASK);
    assert!(SEE::static_exchange_evaluation(&attacks, &board, mv, 0));
    assert!(SEE::static_exchange_evaluation(&attacks, &board, mv, 200));
    assert!(!SEE::static_exchange_evaluation(&attacks, &board, mv, 301));
}

#[test]
fn queen_takes_defended_pawn_loses() {
    let attacks = Attacks::new().unwrap();
    let board = create_board(&attacks, "4k3/8/3p4/4p3/8/8/4Q3/4K3 w - - 0 1");
    let mv = Move::create_move(Square::from_raw(12), Square::from_raw(36), Move::CAPTURE_MASK);
    assert!(!SEE::static_exchange_evaluation(&attacks, &board, mv, 0));
    assert!(SEE::static_exchange_evaluation(&attacks, &board, mv, -900));
}

#[test]
fn undefended_capture_wins_its_value() {
    let attacks = Attacks::new().unwrap();
    let board = create_board(&attacks, "4k3/8/8/4r3/8/8/4R3/4K3 w - - 0 1");
    let mv = Move::create_move(Square::from_raw(12), Square::from_raw(36), Move::CAPTURE_MASK);
    assert!(SEE::static_exchange_evaluation(&attacks, &board, mv, 500));
    assert!(!SEE::static_exchange_evaluation(&attacks, &board, mv, 501));
}

#[test]
fn piece_values() {
    assert_eq!(SEE::piece_value(1), 100);
    assert_eq!(SEE::piece_value(2), 300);
    assert_eq!(SEE::piece_value(3), 350);
    assert_eq!(SEE::piece_value(4), 500);
    assert_eq!(SEE::piece_value(5), 1000);
    assert_eq!(SEE::piece_value(6), 0);
    assert_eq!(SEE::QS_MARGIN, 123);
}

#[test]
fn orderer_hands_out_winning_captures_best_first() {
    let attacks = Attacks::new().unwrap();
    let board = create_board(&attacks, "4k3/8/2p5/3p4/4P3/8/8/3QK3 w - - 0 1");
    let mut captures = MoveList::new();
    MoveProvider::generate_moves::<true>(&mut captures, &attacks, &board);
    let moves: Vec<Move> = captures.iter().copied().collect();
    assert_eq!(moves.len(), 2);
    let mut orderer = MoveOrderer::new(&moves);
    let first = orderer.get_next_move(&attacks, &board, 0);
    assert_eq!(first.to_string(), "e4d5");
    assert_eq!(get_move_value(&board, &first), 99);
    // The queen capture loses the queen to the pawn on c6: it is never handed out.
    assert_eq!(orderer.get_next_move(&attacks, &board, 0), Move::null());
    assert_eq!(orderer.get_next_move(&attacks, &board, 0), Move::null());
}

#[test]
fn orderer_prefers_the_more_valuable_victim() {
    let attacks = Attacks::new().unwrap();
    let board = create_board(&attacks, "4k3/8/8/2r1n3/3P4/8/8/4K3 w - - 0 1");
    let takes_knight = Move::create_move(Square::from_raw(27), Square::from_raw(36), Move::CAPTURE_MASK);
    let takes_rook = Move::create_move(Square::from_raw(27), Square::from_raw(34), Move::CAPTURE_MASK);
    assert_eq!(get_move_value(&board, &takes_knight), 199);
    assert_eq!(get_move_value(&board, &takes_rook), 399);
    let moves = vec![takes_knight, takes_rook];
    let mut orderer = MoveOrderer::new(&moves);
    assert_eq!(orderer.get_next_move(&attacks, &board, 1), takes_rook);
    assert_eq!(orderer.get_next_move(&attacks, &board, 1), takes_knight);
    assert_eq!(orderer.get_next_move(&attacks, &board, 1), Move::null());
}

#[test]
fn promotion_order_value() {
    let attacks = Attacks::new().unwrap();
    let board = create_board(&attacks, "4k3/1P6/8/8/8/8/8/4K3 w - - 0 1");
    let queen = Move::create_move(Square::from_raw(49), Square::from_raw(57), Move::PROMOTION_QUEEN_MASK);
    let knight = Move::create_move(Square::from_raw(49), Square::from_raw(57), Move::PROMOTION_KNIGHT_MASK);
    assert_eq!(get_move_value(&board, &queen), 500);
    assert_eq!(get_move_value(&board, &knight), 200);
    assert_eq!(get_move_value(&board, &Move::create_move(Square::from_raw(4), Square::from_raw(12), 0)), 0);
}

#[test]
fn promotion_counts_the_new_piece() {
    let attacks = Attacks::new().unwrap();
    let board = create_board(&attacks, "4k3/P7/8/8/8/8/8/4K3 w - - 0 1");
    let queen = Move::create_move(Square::from_raw(48), Square::from_raw(56), Move::PROMOTION_QUEEN_MASK);
    assert!(SEE::static_exchange_evaluation(&attacks, &board, queen, 0));
    assert!(SEE::static_exchange_evaluation(&attacks, &board, queen, 900));
    assert!(!SEE::static_exchange_evaluation(&attacks, &board, queen, 901));
    let knight = Move::create_move(Square::from_raw(48), Square::from_raw(56), Move::PROMOTION_KNIGHT_MASK);
    assert!(SEE::static_exchange_evaluation(&attacks, &board, knight, 200));
    assert!(!SEE::static_exchange_evaluation(&attacks, &board, knight, 201));
    // A defended promotion square loses the new piece.
    let defended = create_board(&attacks, "1r2k3/P7/8/8/8/8/8/4K3 w - - 0 1");
    assert!(!SEE::static_exchange_evaluation(&attacks, &defended, queen, 0));
}
