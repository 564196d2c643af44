use oxidie_checkers::utils::{bitboard_text, letter_coord_to_index, lsb_idx};

#[test]
fn coordinates_name_squares() {
    assert_eq!(letter_coord_to_index("h1"), Ok(63));
    assert_eq!(letter_coord_to_index("a8"), Ok(0));
    assert_eq!(letter_coord_to_index("e3"), Ok(44));
}

#[test]
fn every_square_round_trips() {
    for i in 0..64u8 {
        let name = format!("{}{}", (b'a' + i % 8) as char, 8 - i / 8);
        assert_eq!(letter_coord_to_index(&name), Ok(i));
    }
}

#[test]
fn coordinate_errors() {
    assert_eq!(letter_coord_to_index("abc"), Err("Invalid coordinate length"));
    assert_eq!(letter_coord_to_index("i1"), Err("first letter not letter"));
    assert_eq!(letter_coord_to_index("ax"), Err("Invalid coordinate format (number not number)"));
    assert_eq!(letter_coord_to_index("a9"), Err("Invalid coordinate (out of bounds))"));
    assert_eq!(letter_coord_to_index("a0"), Err("Invalid coordinate (out of bounds))"));
    assert_eq!(letter_coord_to_index("h0"), Err("Invalid coordinate (out of bounds))"));
    assert_eq!(letter_coord_to_index("é"), Err("first letter not letter"));
}

#[test]
fn lowest_bit_is_the_highest_square() {
    assert_eq!(lsb_idx(&1), 63);
    assert_eq!(lsb_idx(&(1u64 << 63)), 0);
    assert_eq!(lsb_idx(&0b1100), 61);
}

#[test]
fn bitboard_drawn_as_rows() {
    let text = bitboard_text((1u64 << 63) | 1);
    let lines: Vec<&str> = text.lines().collect();
    assert_eq!(lines.len(), 8);
    assert_eq!(lines[0], "10000000");
    assert_eq!(lines[7], "00000001");
    assert!(text.ends_with('\n'));
}
