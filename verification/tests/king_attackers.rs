use shogi_engine::king_attackers::{count_attacking_pieces, parse_board, parse_piece, Camp, PieceType};
use shogi_engine::play::{char_to_u8, parse_bool, validate_user_move};

#[test]
fn letters_parse_with_lower_case_black() {
    let p = parse_piece('k').unwrap();
    assert_eq!(p.piece_type, PieceType::King);
    assert_eq!(p.color, Camp::Black);
    let q = parse_piece('R').unwrap();
    assert_eq!(q.piece_type, PieceType::Rook);
    assert_eq!(q.color, Camp::White);
    assert!(parse_piece('+').is_none());
    assert!(parse_piece('3').is_none());
}

#[test]
fn boards_fill_row_major() {
    let b = parse_board("k8/9/9/9/9/9/9/9/8P");
    assert_eq!(b.len(), 81);
    assert_eq!(b[0], parse_piece('k'));
    assert_eq!(b[80], parse_piece('P'));
    assert!(b[1].is_none());
}

#[test]
fn an_empty_board_has_no_attackers() {
    let b = parse_board("k8/9/9/9/9/9/9/9/9");
    assert_eq!(count_attacking_pieces(&b, Camp::Black), 0);
}

#[test]
fn a_missing_king_counts_zero() {
    let b = parse_board("9/9/9/9/9/9/9/9/9");
    assert_eq!(count_attacking_pieces(&b, Camp::Black), 0);
}

#[test]
fn pawns_and_lances_attack_up_the_rows() {
    // a white pawn directly below the black king
    let b = parse_board("k8/P8/9/9/9/9/9/9/9");
    assert_eq!(count_attacking_pieces(&b, Camp::Black), 1);
    // a white lance far below, blocked by a piece in between
    let clear = parse_board("k8/9/9/9/9/9/9/9/L8");
    assert_eq!(count_attacking_pieces(&clear, Camp::Black), 0);
}

#[test]
fn kings_and_golds_attack_all_neighbours() {
    let b = parse_board("kG7/9/9/9/9/9/9/9/9");
    assert_eq!(count_attacking_pieces(&b, Camp::Black), 1);
    let two = parse_board("kG7/G8/9/9/9/9/9/9/9");
    assert_eq!(count_attacking_pieces(&two, Camp::Black), 2);
}

#[test]
fn knights_jump_two_rows_up() {
    let b = parse_board("k8/9/1N7/9/9/9/9/9/9");
    assert_eq!(count_attacking_pieces(&b, Camp::Black), 1);
}

#[test]
fn own_pieces_do_not_attack() {
    let b = parse_board("kg7/p8/9/9/9/9/9/9/9");
    assert_eq!(count_attacking_pieces(&b, Camp::Black), 0);
}

#[test]
fn typed_moves_validate_by_length() {
    assert!(validate_user_move("G,9 to F,9"));
    assert!(validate_user_move("D,4 to C,4 to P"));
    assert!(!validate_user_move("G9 to F9"));
}

#[test]
fn rank_letters_convert_to_numbers() {
    assert_eq!(char_to_u8('A'), Some(1));
    assert_eq!(char_to_u8('I'), Some(9));
    assert_eq!(char_to_u8('J'), None);
    assert_eq!(char_to_u8('a'), None);
}

#[test]
fn book_booleans_parse_strictly() {
    assert_eq!(parse_bool("true"), Some(true));
    assert_eq!(parse_bool("false"), Some(false));
    assert_eq!(parse_bool("True"), None);
    assert_eq!(parse_bool(""), None);
}
