use javelin::attacks::{find_magic_number, magic_candidate_fits, test_magic_number, Attacks};
use javelin::bitboard::Bitboard;
use javelin::core_structs::{Side, Square};

#[test]
fn tables_build_with_the_built_in_magics() {
    let attacks = Attacks::new();
    assert!(attacks.is_some());
}

#[test]
fn leaper_attacks() {
    let attacks = Attacks::new().unwrap();
    assert_eq!(attacks.get_knight_attacks_for_square(Square::from_raw(1)).get_value(), (1 << 11) | (1 << 16) | (1 << 18));
    assert_eq!(attacks.get_king_attacks_for_square(Square::from_raw(0)).get_value(), (1 << 1) | (1 << 8) | (1 << 9));
    assert_eq!(attacks.get_pawn_attacks_for_square(Square::from_raw(12), Side::white()).get_value(), (1 << 19) | (1 << 21));
    assert_eq!(attacks.get_pawn_attacks_for_square(Square::from_raw(12), Side::black()).get_value(), (1 << 3) | (1 << 5));
    assert_eq!(attacks.get_pawn_attacks_for_square(Square::from_raw(8), Side::white()).get_value(), 1 << 17);
}

#[test]
fn slider_attacks_stop_at_blockers() {
    let attacks = Attacks::new().unwrap();
    let empty = Bitboard::empty();
    assert_eq!(attacks.get_rook_attacks_for_square(Square::from_raw(0), empty).pop_count(), 14);
    assert_eq!(attacks.get_bishop_attacks_for_square(Square::from_raw(27), empty).pop_count(), 13);
    let blocker = Bitboard::from_raw(1 << 3);
    let rook = attacks.get_rook_attacks_for_square(Square::from_raw(0), blocker);
    assert!(rook.get_bit(Square::from_raw(3)));
    assert!(!rook.get_bit(Square::from_raw(4)));
    assert_eq!(rook.pop_count(), 3 + 7);
}

#[test]
fn built_in_magics_are_collision_free() {
    for square in 0..64 {
        assert!(test_magic_number(Square::from_raw(square), true));
        assert!(test_magic_number(Square::from_raw(square), false));
    }
}

#[test]
fn found_magics_are_collision_free() {
    if let Some(magic) = find_magic_number(Square::from_raw(0), 12, false, 2000) {
        assert_ne!(magic, 0);
    }
    assert_eq!(find_magic_number(Square::from_raw(0), 12, true, 10), None);
}

#[test]
fn magic_candidates_are_judged() {
    // The rook on a1 sees twelve squares that can block it.
    let mask = Bitboard::from_raw(0x000101010101017E);
    assert!(!magic_candidate_fits(Square::from_raw(0), false, mask, 12, 0));
    if let Some(magic) = find_magic_number(Square::from_raw(0), 12, false, 2000) {
        assert!(magic_candidate_fits(Square::from_raw(0), false, mask, 12, magic));
    }
    assert_eq!(find_magic_number(Square::from_raw(0), 12, false, 0), None);
}
