use javelin::bitboard::Bitboard;
use javelin::records::record_result;
use javelin::search_tree::GameResult;
use javelin::move_history::MoveHistory;
use javelin::options::{parse_bool, parse_i32, CheckOption, OptionTrait, OptionUpdate, SpinOptionInt, StringOption};
use javelin::records::{convert_to_12_bitboards, flip_board, get_piece_tuple, piece_boards_of, ChessMoveInfo};
use javelin::search_rules::{SearchInfo, SearchRules};

#[test]
fn spin_option_takes_values_in_range() {
    let mut option = SpinOptionInt::new(64, 1, 65536);
    assert_eq!(option.get(), 64);
    assert_eq!(OptionTrait::set(&mut option, "128"), OptionUpdate::Updated);
    assert_eq!(option.get(), 128);
    assert_eq!(OptionTrait::set(&mut option, "0"), OptionUpdate::OutOfRange);
    assert_eq!(option.get(), 128);
    assert_eq!(OptionTrait::set(&mut option, "abc"), OptionUpdate::Invalid);
    assert_eq!(OptionTrait::set(&mut option, "+65536"), OptionUpdate::Updated);
    assert_eq!(option.get(), 65536);
    assert!(!option.set_value(70000));
    assert_eq!(option.get_default(), 64);
    assert_eq!(option.get_min(), 1);
    assert_eq!(option.get_max(), 65536);
}

#[test]
fn integers_parse_like_std() {
    for text in ["0", "-0", "+7", "-2147483648", "2147483647", "2147483648", "-2147483649", "", "-", "+", "1x", "99999999999", "00012"] {
        assert_eq!(parse_i32(text), text.parse::<i32>().ok(), "{}", text);
    }
    for text in ["true", "false", "True", "", "truee"] {
        assert_eq!(parse_bool(text), text.parse::<bool>().ok(), "{}", text);
    }
}

#[test]
fn check_and_string_options() {
    let mut check = CheckOption::new(false);
    assert_eq!(OptionTrait::set(&mut check, "true"), OptionUpdate::Updated);
    assert!(check.get());
    assert_eq!(OptionTrait::set(&mut check, "yes"), OptionUpdate::Invalid);
    assert!(check.get());
    check.set_value(false);
    assert!(!check.get());
    assert!(!check.get_default());
    let mut text = StringOption::new("abc".to_string());
    assert_eq!(OptionTrait::set(&mut text, "xyz"), OptionUpdate::Updated);
    assert_eq!(text.get(), "xyz");
    assert_eq!(text.get_default(), "abc");
    text.set_value("q".to_string());
    assert_eq!(text.get(), "q");
}

#[test]
fn move_history_keeps_keys() {
    let mut history = MoveHistory::new();
    history.push(11);
    history.push(22);
    assert_eq!(history.range(), 0..2);
    assert_eq!(history.get(0), 11);
    assert_eq!(history.get(1), 22);
    history.clear();
    assert_eq!(history.range(), 0..0);
    // Clearing forgets the keys but leaves the slots as they were.
    assert_eq!(history.get(1), 22);
    assert_eq!(history.get(200), 0);
    history.push(5);
    assert_eq!(history.get(0), 5);
    history.set(7, 9);
    assert_eq!(history.get(7), 9);
    assert_eq!(history.range(), 0..1);
}

#[test]
fn search_time_and_limits() {
    assert_eq!(SearchRules::calculate_time(10000, 100, 0, 10), 540);
    assert_eq!(SearchRules::calculate_time(10000, 0, 10, 0), 1000);
    assert_eq!(SearchRules::calculate_time(10, 0, 0, 0), 1);
    assert_eq!(SearchRules::calculate_time(0, 0, 0, 0), 0);
    let mut info = SearchInfo::new();
    assert_eq!(info.get_avg_depth(), 0);
    info.total_depth = 30;
    info.current_iterations = 4;
    assert_eq!(info.get_avg_depth(), 7);
    let mut rules = SearchRules::new();
    assert!(rules.continue_search(&info));
    rules.max_depth = 7;
    assert!(!rules.continue_search(&info));
    rules.max_depth = 8;
    assert!(rules.continue_search(&info));
    rules.max_nodes = 4;
    assert!(!rules.continue_search(&info));
    rules.infinite = true;
    assert!(rules.continue_search(&info));
    let mut timed = SearchRules::new();
    timed.time_for_move = 100;
    info.time_passed = 100;
    assert!(!timed.continue_search(&info));
}

#[test]
fn training_record_piece_sets() {
    let attacks = javelin::attacks::Attacks::new().unwrap();
    let board = javelin::fen::create_board(&attacks, "4k3/8/8/8/8/8/8/4K2R w K - 0 1");
    let sets = piece_boards_of(&board);
    assert_eq!(sets[0].get_value(), 0);
    assert_eq!(sets[1].get_value(), (1 << 4) | (1 << 60));
    assert_eq!(sets[2].get_value(), (1 << 7) | (1 << 4) | (1 << 60));
    assert_eq!(sets[3].get_value(), 1 << 60);
    let info = ChessMoveInfo { mov: 3, visits: 9 };
    assert_eq!(info, ChessMoveInfo { mov: 3, visits: 9 });
    assert_eq!(ChessMoveInfo::default().visits, 0);
}

#[test]
fn training_record_decodes_to_its_position() {
    let attacks = javelin::attacks::Attacks::new().unwrap();
    let board = javelin::fen::create_board(&attacks, "r1bqkbnr/pppp1ppp/2n5/4p3/4P3/5N2/PPPP1PPP/RNBQKB1R w KQkq - 2 3");
    let sets = convert_to_12_bitboards(piece_boards_of(&board));
    for index in 0..64 {
        let square = javelin::core_structs::Square::from_raw(index);
        let (piece, side) = get_piece_tuple(&sets, square);
        let (expected_piece, expected_side) = board.get_piece_on_square(square);
        assert_eq!((piece, side.current()), (expected_piece, expected_side.current()), "square {}", index);
    }
    // White pawns, white knights, black kings.
    assert_eq!(sets[0].get_value(), 0x0000_0000_1000_EF00);
    assert_eq!(sets[1].get_value(), 0x0000_0000_0020_0002);
    assert_eq!(sets[11].get_value(), 1 << 60);
}

#[test]
fn flipped_record_swaps_sides_and_ranks() {
    let attacks = javelin::attacks::Attacks::new().unwrap();
    let board = javelin::fen::create_board(&attacks, "4k3/8/8/8/8/8/3P4/4K3 w - - 0 1");
    let sets = convert_to_12_bitboards(piece_boards_of(&board));
    let flipped = flip_board(&sets);
    assert_eq!(flipped[6].get_value(), 1 << 51);
    assert_eq!(flipped[11].get_value(), 1 << 60);
    assert_eq!(flipped[5].get_value(), 1 << 4);
    assert_eq!(flipped[0].get_value(), 0);
    let back = flip_board(&flipped);
    for index in 0..12 {
        assert_eq!(back[index].get_value(), sets[index].get_value());
    }
}

#[test]
fn record_with_bad_code_decodes_sets_by_code() {
    // Square 0 has code 7 (an invalid white kind): it lands in set 6.
    let raw = [Bitboard::from_raw(1), Bitboard::from_raw(1), Bitboard::from_raw(1), Bitboard::from_raw(0)];
    let sets = convert_to_12_bitboards(raw);
    assert_eq!(sets[6].get_value(), 1);
    let (piece, side) = get_piece_tuple(&sets, javelin::core_structs::Square::from_raw(0));
    assert_eq!((piece, side.current()), (1, 1));
    let (piece, side) = get_piece_tuple(&sets, javelin::core_structs::Square::from_raw(1));
    assert_eq!((piece, side.current()), (0, 0));
}

#[test]
fn record_results_follow_the_side_to_move() {
    assert_eq!(record_result(GameResult::Win(0), 0), 1);
    assert_eq!(record_result(GameResult::Win(0), 1), -1);
    assert_eq!(record_result(GameResult::Lose(3), 0), -1);
    assert_eq!(record_result(GameResult::Lose(3), 1), 1);
    assert_eq!(record_result(GameResult::Draw, 1), 0);
    assert_eq!(record_result(GameResult::Undecided, 0), 0);
}
