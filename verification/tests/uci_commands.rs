use javelin::search_rules::SearchRules;

fn words(text: &str) -> Vec<String> {
    text.split_whitespace().map(|w| w.to_string()).collect()
}

#[test]
fn go_without_words_is_infinite() {
    let rules = SearchRules::from_go_arguments(&words(""), true, 0, 10).unwrap();
    assert!(rules.infinite);
    assert_eq!(rules.time_for_move, 0);
}

#[test]
fn go_clock_gives_time_for_the_side_to_move() {
    let args = words("wtime 10000 btime 5000 winc 100 binc 0");
    let white = SearchRules::from_go_arguments(&args, true, 0, 10).unwrap();
    assert_eq!(white.time_for_move, 540);
    assert!(!white.infinite);
    let black = SearchRules::from_go_arguments(&args, false, 0, 10).unwrap();
    assert_eq!(black.time_for_move, 240);
    let with_moves = SearchRules::from_go_arguments(&words("wtime 10000 movestogo 10"), true, 0, 0).unwrap();
    assert_eq!(with_moves.time_for_move, 1000);
}

#[test]
fn go_limits() {
    let rules = SearchRules::from_go_arguments(&words("depth 5 nodes 700 movetime 250"), true, 3, 10).unwrap();
    assert_eq!(rules.max_depth, 8);
    assert_eq!(rules.max_nodes, 700);
    assert_eq!(rules.time_for_move, 250);
    assert!(!rules.infinite);
    let bad = SearchRules::from_go_arguments(&words("nodes abc"), true, 0, 10).unwrap();
    assert_eq!(bad.max_nodes, 0);
    let infinite = SearchRules::from_go_arguments(&words("infinite"), true, 0, 10).unwrap();
    assert!(infinite.infinite);
    let dangling = SearchRules::from_go_arguments(&words("movetime"), true, 0, 10).unwrap();
    assert_eq!(dangling.time_for_move, 0);
    let skipped = SearchRules::from_go_arguments(&words("iterations 40 ponder nodes +12"), true, 0, 10).unwrap();
    assert_eq!(skipped.max_nodes, 12);
}

#[test]
fn go_overflows_are_reported() {
    assert!(SearchRules::from_go_arguments(&words("depth 4294967295"), true, 1, 10).is_none());
    assert!(SearchRules::from_go_arguments(&words("wtime 100"), true, 0, 10).is_none());
    assert!(SearchRules::from_go_arguments(&words("wtime 100"), false, 0, 10).is_some());
}
