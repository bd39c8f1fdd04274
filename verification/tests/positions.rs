use javelin::attacks::Attacks;
use javelin::board::Board;
use javelin::core_structs::{Move, Square};
use javelin::fen::{create_board, try_create_board};
use javelin::move_list::MoveList;
use javelin::movegen::MoveProvider;
use javelin::perft::Perft;
use javelin::search_tree::{get_node_result, GameResult};

const START: &str = "rnbqkbnr/pppppppp/8/8/8/8/PPPPPPPP/RNBQKBNR w KQkq - 0 1";
const KIWIPETE: &str = "r3k2r/p1ppqpb1/bn2pnp1/3PN3/1p2P3/2N2Q1p/PPPBBPPP/R3K2R w KQkq - 0 1";

fn count(fen: &str, depth: u8) -> u64 {
    let attacks = Attacks::new().unwrap();
    let board = create_board(&attacks, fen);
    let mut report = Vec::new();
    Perft::internal_execute::<true>(&attacks, &board, depth, false, &mut report)
}

#[test]
fn start_position_from_fen() {
    let attacks = Attacks::new().unwrap();
    let board = create_board(&attacks, START);
    assert_eq!(board.get_piece_on_square(Square::from_raw(4)).0, 6);
    assert_eq!(board.get_piece_on_square(Square::from_raw(4)).1.current(), 0);
    assert_eq!(board.get_piece_on_square(Square::from_raw(59)).0, 5);
    assert_eq!(board.get_piece_on_square(Square::from_raw(59)).1.current(), 1);
    assert_eq!(board.get_piece_on_square(Square::from_raw(28)).0, 0);
    assert_eq!(board.get_occupancy().pop_count(), 32);
    assert_eq!(board.side_to_move.current(), 0);
    assert_eq!(board.castle_rights.to_string(), "KQkq");
    assert_eq!(board.en_passant.get_value(), 64);
    // The clock is read from the fifth field of the record.
    assert_eq!(board.half_moves, 0);
    assert!(!board.is_in_check());
}

#[test]
fn fen_fields_are_read() {
    let attacks = Attacks::new().unwrap();
    let board = create_board(&attacks, "4k3/8/8/3pP3/8/8/8/4K3 w - d6 17 +40");
    assert_eq!(board.en_passant.get_value(), 43);
    assert_eq!(board.half_moves, 17);
    assert_eq!(board.castle_rights.to_string(), "-");
    let black = create_board(&attacks, "4k3/8/8/8/8/8/8/4K2R b K - 3");
    assert_eq!(black.side_to_move.current(), 1);
    assert_eq!(black.castle_rights.to_string(), "K");
    assert_eq!(black.half_moves, 3);
}

#[test]
fn attacked_king_of_the_side_not_to_move_gives_an_empty_board() {
    let attacks = Attacks::new().unwrap();
    let board = create_board(&attacks, "4k3/8/8/8/8/8/8/4R1K1 w - - 0 1");
    assert_eq!(board.get_occupancy().pop_count(), 0);
    assert_eq!(board.side_to_move.current(), 0);
    assert_eq!(board.castle_rights.to_string(), "-");
}

#[test]
fn check_is_seen() {
    let attacks = Attacks::new().unwrap();
    let board = create_board(&attacks, "4k3/8/8/8/8/8/8/4R1K1 b - - 0 1");
    assert!(board.is_in_check());
    assert_eq!(board.checkers.get_value(), 1 << 4);
}

#[test]
fn start_position_has_twenty_moves() {
    let attacks = Attacks::new().unwrap();
    let board = create_board(&attacks, START);
    let mut move_list = MoveList::new();
    MoveProvider::generate_moves::<false>(&mut move_list, &attacks, &board);
    assert_eq!(move_list.len(), 20);
    let mut captures = MoveList::new();
    MoveProvider::generate_moves::<true>(&mut captures, &attacks, &board);
    assert_eq!(captures.len(), 0);
}

#[test]
fn king_moves_come_first() {
    let attacks = Attacks::new().unwrap();
    let board = create_board(&attacks, "4k3/8/8/8/8/8/8/4K3 w - - 0 1");
    let mut move_list = MoveList::new();
    MoveProvider::generate_moves::<false>(&mut move_list, &attacks, &board);
    let names: Vec<String> = move_list.iter().map(|m| m.to_string()).collect();
    assert_eq!(names, vec!["e1d1", "e1f1", "e1d2", "e1e2", "e1f2"]);
}

#[test]
fn castling_is_generated_when_the_path_is_free() {
    let attacks = Attacks::new().unwrap();
    let board = create_board(&attacks, "r3k2r/8/8/8/8/8/8/R3K2R w KQkq - 0 1");
    let mut move_list = MoveList::new();
    MoveProvider::generate_moves::<false>(&mut move_list, &attacks, &board);
    let names: Vec<String> = move_list.iter().map(|m| m.to_string()).collect();
    assert!(names.contains(&"e1g1".to_string()));
    assert!(names.contains(&"e1c1".to_string()));
    assert_eq!(move_list.len(), 26);
}

#[test]
fn perft_start_position() {
    assert_eq!(count(START, 0), 1);
    assert_eq!(count(START, 1), 20);
    assert_eq!(count(START, 2), 400);
    assert_eq!(count(START, 3), 8902);
}

#[test]
fn perft_kiwipete() {
    assert_eq!(count(KIWIPETE, 1), 48);
    assert_eq!(count(KIWIPETE, 2), 2039);
    assert_eq!(count(KIWIPETE, 3), 97862);
}

#[test]
fn perft_endgame_with_en_passant_pins() {
    let fen = "8/2p5/3p4/KP5r/1R3p1k/8/4P1P1/8 w - - 0 1";
    assert_eq!(count(fen, 1), 14);
    assert_eq!(count(fen, 2), 191);
    assert_eq!(count(fen, 3), 2812);
    assert_eq!(count(fen, 4), 43238);
}

#[test]
fn perft_promotions() {
    let fen = "r3k2r/Pppp1ppp/1b3nbN/nP6/BBP1P3/q4N2/Pp1P2PP/R2Q1RK1 w kq - 0 1";
    assert_eq!(count(fen, 1), 6);
    assert_eq!(count(fen, 2), 264);
    assert_eq!(count(fen, 3), 9467);
}

#[test]
fn perft_middle_games() {
    assert_eq!(count("rnbq1k1r/pp1Pbppp/2p5/8/2B5/8/PPP1NnPP/RNBQK2R w KQ - 1 8", 1), 44);
    assert_eq!(count("rnbq1k1r/pp1Pbppp/2p5/8/2B5/8/PPP1NnPP/RNBQK2R w KQ - 1 8", 2), 1486);
    assert_eq!(count("rnbq1k1r/pp1Pbppp/2p5/8/2B5/8/PPP1NnPP/RNBQK2R w KQ - 1 8", 3), 62379);
    assert_eq!(count("r4rk1/1pp1qppp/p1np1n2/2b1p1B1/2B1P1b1/P1NP1N2/1PP1QPPP/R4RK1 w - - 0 10", 1), 46);
    assert_eq!(count("r4rk1/1pp1qppp/p1np1n2/2b1p1B1/2B1P1b1/P1NP1N2/1PP1QPPP/R4RK1 w - - 0 10", 2), 2079);
    assert_eq!(count("r4rk1/1pp1qppp/p1np1n2/2b1p1B1/2B1P1b1/P1NP1N2/1PP1QPPP/R4RK1 w - - 0 10", 3), 89890);
}

#[test]
fn bulk_and_full_counts_agree() {
    let attacks = Attacks::new().unwrap();
    let board = create_board(&attacks, KIWIPETE);
    let mut report = Vec::new();
    let bulk = Perft::internal_execute::<true>(&attacks, &board, 2, false, &mut report);
    let full = Perft::internal_execute::<false>(&attacks, &board, 2, false, &mut report);
    assert_eq!(bulk, full);
    assert!(report.is_empty());
}

#[test]
fn divide_reports_each_first_move() {
    let attacks = Attacks::new().unwrap();
    let board = create_board(&attacks, START);
    let mut report = Vec::new();
    let total = Perft::internal_execute::<true>(&attacks, &board, 2, true, &mut report);
    assert_eq!(total, 400);
    assert_eq!(report.len(), 20);
    assert!(report.iter().all(|(_, nodes)| *nodes == 20));
    assert_eq!(report.iter().map(|(_, n)| n).sum::<u64>(), total);
}

#[test]
fn make_move_plays_a_double_push() {
    let attacks = Attacks::new().unwrap();
    let mut board = create_board(&attacks, START);
    let mv = Move::create_move(Square::from_raw(12), Square::from_raw(28), Move::DOUBLE_PUSH_MASK);
    board.make_move(&attacks, mv);
    assert_eq!(board.get_piece_on_square(Square::from_raw(28)).0, 1);
    assert_eq!(board.get_piece_on_square(Square::from_raw(12)).0, 0);
    assert_eq!(board.en_passant.get_value(), 20);
    assert_eq!(board.side_to_move.current(), 1);
    assert_eq!(board.half_moves, 0);
}

#[test]
fn make_move_castles_and_drops_rights() {
    let attacks = Attacks::new().unwrap();
    let mut board = create_board(&attacks, "r3k2r/8/8/8/8/8/8/R3K2R w KQkq - 0 1");
    let mv = Move::create_move(Square::from_raw(4), Square::from_raw(6), Move::KING_CASTLE_MASK);
    board.make_move(&attacks, mv);
    assert_eq!(board.get_piece_on_square(Square::from_raw(6)).0, 6);
    assert_eq!(board.get_piece_on_square(Square::from_raw(5)).0, 4);
    assert_eq!(board.get_piece_on_square(Square::from_raw(7)).0, 0);
    assert_eq!(board.castle_rights.to_string(), "kq");
    assert_eq!(board.half_moves, 1);
}

#[test]
fn empty_board() {
    let board = Board::new();
    assert_eq!(board.get_occupancy().pop_count(), 0);
    assert_eq!(board.side_to_move.current(), 0);
}

fn capture_moves_match(fen: &str) {
    let attacks = Attacks::new().unwrap();
    let board = create_board(&attacks, fen);
    let mut all = MoveList::new();
    MoveProvider::generate_moves::<false>(&mut all, &attacks, &board);
    let mut captures = MoveList::new();
    MoveProvider::generate_moves::<true>(&mut captures, &attacks, &board);
    let filtered: Vec<u16> = all.iter().filter(|m| m.is_capture()).map(|m| m.value).collect();
    let listed: Vec<u16> = captures.iter().map(|m| m.value).collect();
    assert_eq!(filtered, listed, "{}", fen);
}

#[test]
fn capture_generation_lists_the_captures_of_all_moves() {
    capture_moves_match("r3k2r/p1ppqpb1/bn2pnp1/3PN3/1p2P3/2N2Q1p/PPPBBPPP/R3K2R w KQkq - 0 1");
    capture_moves_match("rnbqkbnr/ppp1p1pp/8/3pPp2/8/8/PPPP1PPP/RNBQKBNR w KQkq f6 0 3");
    capture_moves_match("4k3/8/8/8/1b6/8/3P4/4K3 w - - 0 1");
    capture_moves_match("r3k2r/Pppp1ppp/1b3nbN/nP6/BBP1P3/q4N2/Pp1P2PP/R2Q1RK1 w kq - 0 1");
    capture_moves_match("8/2p5/3p4/KP5r/1R3p1k/8/4P1P1/8 w - - 0 1");
}

#[test]
fn king_does_not_step_into_attacks() {
    let attacks = Attacks::new().unwrap();
    let board = create_board(&attacks, "4k3/8/8/8/8/8/3r4/4K3 w - - 0 1");
    let mut move_list = MoveList::new();
    MoveProvider::generate_moves::<false>(&mut move_list, &attacks, &board);
    let names: Vec<String> = move_list.iter().map(|m| m.to_string()).collect();
    assert_eq!(names, vec!["e1f1", "e1d2"]);
    let mut after = board;
    after.make_move(&attacks, move_list[1]);
    assert!(!after.is_square_attacked(&attacks, Square::from_raw(11), javelin::core_structs::Side::black()));
}

fn moves_leave_king_safe(fen: &str) {
    let attacks = Attacks::new().unwrap();
    let board = create_board(&attacks, fen);
    let mover = board.side_to_move;
    let mut move_list = MoveList::new();
    MoveProvider::generate_moves::<false>(&mut move_list, &attacks, &board);
    for mv in move_list.iter() {
        let mut after = board;
        after.make_move(&attacks, *mv);
        let king = after.get_king_square(mover);
        assert!(!after.is_square_attacked(&attacks, king, mover.flipped()), "{} {}", fen, mv.to_string());
    }
}

#[test]
fn generated_moves_leave_the_king_safe() {
    moves_leave_king_safe("r3k2r/p1ppqpb1/bn2pnp1/3PN3/1p2P3/2N2Q1p/PPPBBPPP/R3K2R w KQkq - 0 1");
    moves_leave_king_safe("8/2p5/3p4/KP5r/1R3p1k/8/4P1P1/8 w - - 0 1");
    moves_leave_king_safe("r3k2r/Pppp1ppp/1b3nbN/nP6/BBP1P3/q4N2/Pp1P2PP/R2Q1RK1 w kq - 0 1");
    moves_leave_king_safe("rnbq1k1r/pp1Pbppp/2p5/8/2B5/8/PPP1NnPP/RNBQK2R w KQ - 1 8");
    moves_leave_king_safe("4k3/8/8/8/1b6/8/3P4/4K3 w - - 0 1");
    moves_leave_king_safe("8/8/8/KPp4r/8/8/8/7k w - c6 0 2");
}

#[test]
fn node_results_follow_the_rules() {
    let attacks = Attacks::new().unwrap();
    let start = create_board(&attacks, START);
    assert_eq!(get_node_result(&attacks, &start, false), GameResult::Undecided);
    assert_eq!(get_node_result(&attacks, &start, true), GameResult::Draw);
    let mated = create_board(&attacks, "rnb1kbnr/pppp1ppp/8/4p3/6Pq/5P2/PPPPP2P/RNBQKBNR w KQkq - 1 3");
    assert_eq!(get_node_result(&attacks, &mated, false), GameResult::Lose(0));
    let stalemated = create_board(&attacks, "7k/5Q2/6K1/8/8/8/8/8 b - - 0 1");
    assert_eq!(get_node_result(&attacks, &stalemated, false), GameResult::Draw);
    // A hundred half-moves without a capture or pawn move draw.
    let clock = create_board(&attacks, "4k3/8/8/8/8/8/8/4K2R w - - 100 60");
    assert_eq!(clock.half_moves, 100);
    assert_eq!(get_node_result(&attacks, &clock, false), GameResult::Draw);
    let almost = create_board(&attacks, "4k3/8/8/8/8/8/8/4K2R w - - 99 60");
    assert_eq!(get_node_result(&attacks, &almost, false), GameResult::Undecided);
}

fn moves_keep_board_well_formed(fen: &str) {
    let attacks = Attacks::new().unwrap();
    let board = create_board(&attacks, fen);
    let mut move_list = MoveList::new();
    MoveProvider::generate_moves::<false>(&mut move_list, &attacks, &board);
    for mv in move_list.iter() {
        let mut after = board;
        after.make_move(&attacks, *mv);
        let white = after.get_occupancy_for_side(javelin::core_structs::Side::white()).get_value();
        let black = after.get_occupancy_for_side(javelin::core_structs::Side::black()).get_value();
        assert_eq!(white & black, 0, "{} {}", fen, mv.to_string());
        let mut kinds = 0u64;
        let mut total = 0u32;
        for piece in 1..=6usize {
            let mask = after.get_piece_mask_for_both(piece);
            assert_eq!(kinds & mask.get_value(), 0, "{} {}", fen, mv.to_string());
            kinds |= mask.get_value();
            total += mask.pop_count();
        }
        assert_eq!(kinds, white | black, "{} {}", fen, mv.to_string());
        assert_eq!(total, after.get_occupancy().pop_count());
        // Each side keeps one king.
        assert_eq!(after.get_piece_mask(6, javelin::core_structs::Side::white()).pop_count(), 1);
        assert_eq!(after.get_piece_mask(6, javelin::core_structs::Side::black()).pop_count(), 1);
    }
}

#[test]
fn generated_moves_keep_the_board_well_formed() {
    moves_keep_board_well_formed(KIWIPETE);
    moves_keep_board_well_formed("r3k2r/Pppp1ppp/1b3nbN/nP6/BBP1P3/q4N2/Pp1P2PP/R2Q1RK1 w kq - 0 1");
    moves_keep_board_well_formed("8/8/8/KPp4r/8/8/8/7k w - c6 0 2");
    moves_keep_board_well_formed("rnbq1k1r/pp1Pbppp/2p5/8/2B5/8/PPP1NnPP/RNBQK2R w KQ - 1 8");
}

#[test]
fn fen_clock_is_the_fifth_field() {
    let attacks = Attacks::new().unwrap();
    let board = create_board(&attacks, "rnbq1k1r/pp1Pbppp/2p5/8/2B5/8/PPP1NnPP/RNBQK2R w KQ - 1 8");
    assert_eq!(board.half_moves, 1);
    assert_eq!(board.castle_rights.to_string(), "KQ");
    assert_eq!(board.side_to_move.current(), 0);
}

#[test]
fn taking_a_rook_on_its_corner_takes_its_right() {
    let attacks = Attacks::new().unwrap();
    let mut board = create_board(&attacks, "r3k2r/8/8/8/8/8/8/R3K2R w KQkq - 0 1");
    let mv = Move::create_move(Square::from_raw(0), Square::from_raw(56), Move::CAPTURE_MASK);
    board.make_move(&attacks, mv);
    assert_eq!(board.castle_rights.to_string(), "Kk");
}

#[test]
fn checked_reading_refuses_what_cannot_be_read() {
    let attacks = Attacks::new().unwrap();
    let board = try_create_board(&attacks, START).unwrap();
    assert_eq!(board.get_occupancy().pop_count(), 32);
    assert_eq!(board.castle_rights.to_string(), "KQkq");
    assert!(try_create_board(&attacks, "").is_none());
    assert!(try_create_board(&attacks, "8/8/8/8/8/8/8/8 w - - 0 1").is_none());
    assert!(try_create_board(&attacks, "4k3/8/8/8/8/8/8/4K w - - 0 1").is_none());
    assert!(try_create_board(&attacks, "4k3/8/8/8/8/8/8/4K3 w - - 300 1").is_none());
    assert!(try_create_board(&attacks, "4k3/8/8/8/8/8/8/4K3 w - x 0 1").is_none());
    assert!(try_create_board(&attacks, "4k3/8/8/8/8/8/8/4K3 w -").is_none());
    assert!(try_create_board(&attacks, "4k3/8/8/8/8/8/8/4K3 w - é3 0 1").is_none());
    let clock = try_create_board(&attacks, "4k3/8/8/8/8/8/8/4K3 b - e3 255 1").unwrap();
    assert_eq!(clock.half_moves, 255);
    assert_eq!(clock.en_passant.get_value(), 20);
    // An attacked king of the side not to move gives the empty board, as create_board does.
    let illegal = try_create_board(&attacks, "4k3/8/8/8/8/8/8/4R1K1 w - - 0 1").unwrap();
    assert_eq!(illegal.get_occupancy().pop_count(), 0);
}

fn move_names(fen: &str) -> Vec<String> {
    let attacks = Attacks::new().unwrap();
    let board = create_board(&attacks, fen);
    let mut move_list = MoveList::new();
    MoveProvider::generate_moves::<false>(&mut move_list, &attacks, &board);
    move_list.iter().map(|m| m.to_string()).collect()
}

#[test]
fn pinned_slider_keeps_its_moves_along_the_pin() {
    let names = move_names("4k3/4r3/8/8/8/8/4R3/4K3 w - - 0 1");
    for m in ["e2e3", "e2e4", "e2e5", "e2e6", "e2e7"] {
        assert!(names.contains(&m.to_string()), "{}", m);
    }
    assert!(!names.contains(&"e2d2".to_string()));
    assert!(!names.contains(&"e2f2".to_string()));
}

#[test]
fn every_promotion_is_listed() {
    let names = move_names("1r5k/P7/8/8/8/8/8/K7 w - - 0 1");
    for m in ["a7a8n", "a7a8b", "a7a8r", "a7a8q", "a7b8n", "a7b8b", "a7b8r", "a7b8q"] {
        assert!(names.contains(&m.to_string()), "{}", m);
    }
}

#[test]
fn knight_takes_the_checking_knight() {
    let names = move_names("4k3/8/8/8/8/5n2/8/4K1N1 w - - 0 1");
    assert!(names.contains(&"g1f3".to_string()));
    assert!(!names.contains(&"g1e2".to_string()));
}

#[test]
fn pawn_steps_and_double_steps_are_listed() {
    let names = move_names("4k3/8/8/8/8/3p4/4P3/4K3 w - - 0 1");
    for m in ["e2e3", "e2e4", "e2d3"] {
        assert!(names.contains(&m.to_string()), "{}", m);
    }
}

#[test]
fn castles_with_attacked_rook_corner_are_listed() {
    let names = move_names("1r2k3/8/8/8/8/8/8/R3K2R w KQ - 0 1");
    assert!(names.contains(&"e1g1".to_string()));
    assert!(names.contains(&"e1c1".to_string()));
}

fn moves_are_distinct(fen: &str) {
    let attacks = Attacks::new().unwrap();
    let board = create_board(&attacks, fen);
    let mut all = MoveList::new();
    MoveProvider::generate_moves::<false>(&mut all, &attacks, &board);
    let mut captures = MoveList::new();
    MoveProvider::generate_moves::<true>(&mut captures, &attacks, &board);
    for list in [all, captures] {
        let mut values: Vec<u16> = list.iter().map(|m| m.value).collect();
        let before = values.len();
        values.sort();
        values.dedup();
        assert_eq!(values.len(), before, "{}", fen);
    }
}

#[test]
fn generated_moves_are_distinct() {
    moves_are_distinct(START);
    moves_are_distinct(KIWIPETE);
    moves_are_distinct("r3k2r/Pppp1ppp/1b3nbN/nP6/BBP1P3/q4N2/Pp1P2PP/R2Q1RK1 w kq - 0 1");
    moves_are_distinct("8/2p5/3p4/KP5r/1R3p1k/8/4P1P1/8 w - - 0 1");
    moves_are_distinct("1r5k/P7/8/8/8/8/8/K7 w - - 0 1");
}

#[test]
fn en_passant_captures_are_listed() {
    let names = move_names("4k3/8/8/3pP3/8/8/8/4K3 w - d6 0 1");
    assert!(names.contains(&"e5d6".to_string()));
    let checked = move_names("4k3/8/8/3pP3/4K3/8/8/8 w - d6 0 1");
    assert!(checked.contains(&"e5d6".to_string()));
}

#[test]
fn en_passant_that_only_blocks_a_check_is_not_listed() {
    let names = move_names("1b2k3/8/8/2Pp4/5K2/8/8/8 w - d6 0 1");
    assert!(!names.contains(&"c5d6".to_string()));
}
