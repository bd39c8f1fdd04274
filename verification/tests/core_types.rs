use javelin::bitboard::Bitboard;
use javelin::core_structs::{CastleRights, Move, Side, Square};

#[test]
fn square_names_round_trip() {
    let e4 = Square::from_string("e4");
    assert_eq!(e4.get_value(), 28);
    assert_eq!(e4.get_rank(), 3);
    assert_eq!(e4.get_file(), 4);
    assert_eq!(e4.to_string(), "e4");
    assert_eq!(Square::from_raw(0).to_string(), "a1");
    assert_eq!(Square::from_raw(63).to_string(), "h8");
    assert_eq!(Square::null().to_string(), "NULL");
    assert_eq!(Square::from_coords(7, 0).get_value(), 56);
}

#[test]
fn square_flip_mirrors_rank() {
    assert_eq!(Square::from_raw(12).flip().get_value(), 52);
    assert_eq!(Square::from_raw(12).flip().flip().get_value(), 12);
    assert!(Square::from_raw(9).equals(Square::from_coords(1, 1)));
    assert_eq!(Square::from_raw(8).xor(24).get_value(), 16);
    assert_eq!(Square::from_raw(3).get_bit().get_value(), 8);
}

#[test]
fn side_flips() {
    let white = Side::white();
    assert_eq!(white.current(), 0);
    assert_eq!(white.opposite(), 1);
    assert_eq!(white.flipped().current(), 1);
    let mut side = Side::black();
    side.mut_flip();
    assert_eq!(side.current(), 0);
    side.mut_flip();
    assert_eq!(side.current(), 1);
    assert_eq!(Side::from_raw(1).current(), 1);
}

#[test]
fn castle_rights_text() {
    let mut rights = CastleRights::null();
    assert_eq!(rights.to_string(), "-");
    rights.set_right(CastleRights::WHITE_KING);
    rights.set_right(CastleRights::BLACK_QUEEN);
    assert!(rights.get_right(CastleRights::WHITE_KING));
    assert!(!rights.get_right(CastleRights::WHITE_QUEEN));
    assert_eq!(rights.to_string(), "Kq");
    rights.set_right(CastleRights::WHITE_QUEEN);
    rights.set_right(CastleRights::BLACK_KING);
    assert_eq!(rights.to_string(), "KQkq");
    rights.remove_right(CastleRights::WHITE_KING);
    assert!(!rights.get_right(CastleRights::WHITE_KING));
    assert_eq!(rights.to_string(), "Qkq");
}

#[test]
fn move_fields_round_trip() {
    let mv = Move::create_move(Square::from_raw(12), Square::from_raw(28), Move::DOUBLE_PUSH_MASK);
    assert_eq!(mv.get_from_square().get_value(), 12);
    assert_eq!(mv.get_to_square().get_value(), 28);
    assert!(mv.is_double_push());
    assert!(!mv.is_capture());
    assert!(!mv.is_promotion());
    assert_eq!(mv.to_string(), "e2e4");
    assert_eq!(mv.value, 12 | (28 << 6) | 0x1000);
}

#[test]
fn move_flags() {
    let promo = Move::create_move(Square::from_raw(52), Square::from_raw(60), Move::PROMOTION_QUEEN_MASK);
    assert!(promo.is_promotion());
    assert_eq!(promo.get_promotion_piece(), 5);
    assert_eq!(promo.to_string(), "e7e8q");
    let knight = Move::create_move(Square::from_raw(52), Square::from_raw(61), Move::PROMOTION_KNIGHT_MASK | Move::CAPTURE_MASK);
    assert_eq!(knight.get_promotion_piece(), 2);
    assert!(knight.is_capture());
    assert_eq!(knight.to_string(), "e7f8n");
    let ep = Move::create_move(Square::from_raw(36), Square::from_raw(43), Move::EN_PASSANT_MASK | Move::CAPTURE_MASK);
    assert!(ep.is_en_passant());
    assert!(!ep.is_double_push());
    let castle = Move::create_move(Square::from_raw(4), Square::from_raw(6), Move::KING_CASTLE_MASK);
    assert!(castle.is_king_castle());
    assert!(!castle.is_queen_castle());
    let long_castle = Move::create_move(Square::from_raw(4), Square::from_raw(2), Move::QUEEN_CASTLE_MASK);
    assert!(long_castle.is_queen_castle());
    assert_eq!(Move::null().value, 0);
    assert_eq!(Move::from_raw(77).value, 77);
}

#[test]
fn bitboard_counts_and_flips() {
    let b = Bitboard::from_raw(0b1011_0000);
    assert_eq!(b.pop_count(), 3);
    assert_eq!(b.ls1b_square().get_value(), 4);
    let mut c = b;
    let low = c.pop_ls1b_square();
    assert_eq!(low.get_value(), 4);
    assert_eq!(c.get_value(), 0b1010_0000);
    assert_eq!(Bitboard::from_raw(0xFF).flip().get_value(), 0xFF00_0000_0000_0000);
    assert_eq!(Bitboard::from_raw(0x0102).flip().get_value(), 0x0201_0000_0000_0000);
    assert!(Bitboard::empty().is_empty());
    assert!(b.multiple_one_bits());
    assert!(Bitboard::from_raw(8).only_one_bit());
    assert_eq!(Bitboard::from_raw(1).shift_left(9).get_value(), 512);
    assert!(b.get_bit(Square::from_raw(5)));
    assert!(!b.get_bit(Square::from_raw(6)));
}

#[test]
fn square_names_read_back() {
    for index in 0..64usize {
        let name = Square::from_raw(index).to_string();
        assert_eq!(name.len(), 2);
        assert_eq!(Square::from_string(&name).get_value(), index, "{}", name);
    }
    assert_eq!(Square::from_raw(28).to_string(), "e4");
}
