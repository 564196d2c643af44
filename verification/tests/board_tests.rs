use oxidie_checkers::board::{CheckersBitboard, GameState, Move};
use oxidie_checkers::generation::LookupMoves;

fn bit(s: u64) -> u64 {
    1u64 << (63 - s)
}

fn steps_of(moves: &[Move]) -> Vec<Vec<(u8, u8)>> {
    moves.iter().map(|m| m.steps().clone()).collect()
}

#[test]
fn starting_position_bitboards() {
    let state = GameState::starting_pos();
    assert_eq!(state.game.black_pieces, 0x55aa550000000000);
    assert_eq!(state.game.white_pieces, 0x0000000000aa55aa);
    assert_eq!(state.game.black_kings, 0);
    assert_eq!(state.game.white_kings, 0);
    assert!(state.game.white_to_move);
}

#[test]
fn starting_position_has_seven_moves_for_white() {
    let state = GameState::starting_pos();
    let moves = state.game.get_all_legal_moves();
    assert_eq!(
        steps_of(&moves),
        vec![
            vec![(46, 39)],
            vec![(46, 37)],
            vec![(44, 37)],
            vec![(44, 35)],
            vec![(42, 35)],
            vec![(42, 33)],
            vec![(40, 33)],
        ]
    );
}

#[test]
fn black_quiet_moves_from_start() {
    let state = GameState::starting_pos();
    let moves = state.game.get_non_capture_moves(false);
    assert_eq!(moves.len(), 7);
    assert_eq!(moves[0].steps().clone(), vec![(23u8, 30u8)]);
}

#[test]
fn load_refuses_text_that_is_not_two_words() {
    let mut state = GameState { game: CheckersBitboard::new(true) };
    assert_eq!(state.load_from_string("8/8/8"), Err("Invalid board state"));
    assert_eq!(state.load_from_string("8/8 w extra"), Err("Invalid board state"));
    assert_eq!(state.game, CheckersBitboard::new(true));
}

#[test]
fn load_stops_at_an_unknown_character() {
    let mut state = GameState { game: CheckersBitboard::new(true) };
    let r = state.load_from_string("b1x w");
    assert_eq!(r, Err("Invalid Character found in board state character was "));
    assert_eq!(state.game.black_pieces, bit(0));
}

#[test]
fn load_returns_an_empty_board_and_fills_the_state() {
    let mut state = GameState { game: CheckersBitboard::new(false) };
    let r = state.load_from_string("1B6/8/8/8/8/8/8/6W1 b");
    assert_eq!(r, Ok(CheckersBitboard::new(true)));
    assert_eq!(state.game.black_kings, bit(1));
    assert_eq!(state.game.white_kings, bit(62));
    assert!(!state.game.white_to_move);
}

#[test]
fn load_digit_clears_squares() {
    let mut state = GameState::starting_pos();
    let r = state.load_from_string("8/8/8/8/8/8/8/8 w");
    assert!(r.is_ok());
    assert_eq!(state.game.black_pieces, 0);
    assert_eq!(state.game.white_pieces, 0);
}

#[test]
fn single_capture_is_forced() {
    let mut b = CheckersBitboard::new(true);
    b.white_pieces = bit(42) | bit(47);
    b.black_pieces = bit(35);
    let moves = b.get_all_legal_moves();
    assert_eq!(steps_of(&moves), vec![vec![(42, 28)]]);
    b.apply_move(&moves[0]);
    assert_eq!(b.white_pieces, bit(28) | bit(47));
    assert_eq!(b.black_pieces, 0);
}

#[test]
fn double_capture_is_one_move() {
    let mut b = CheckersBitboard::new(true);
    b.white_pieces = bit(56);
    b.black_pieces = bit(49) | bit(35);
    let moves = b.get_captures(56, true);
    assert_eq!(steps_of(&moves), vec![vec![(56, 42), (42, 28)]]);
    b.apply_move(&moves[0]);
    assert_eq!(b.white_pieces, bit(28));
    assert_eq!(b.black_pieces, 0);
}

#[test]
fn captures_of_a_missing_piece_are_empty() {
    let b = CheckersBitboard::new(true);
    assert!(b.get_captures(10, true).is_empty());
    assert!(b.get_all_captures(true).is_empty());
}

#[test]
fn man_reaching_the_far_row_is_crowned() {
    let mut b = CheckersBitboard::new(true);
    b.white_pieces = bit(9);
    b.move_piece(9, 0);
    assert_eq!(b.white_pieces, 0);
    assert_eq!(b.white_kings, bit(0));
}

#[test]
fn black_man_is_crowned_on_the_last_row() {
    let mut b = CheckersBitboard::new(false);
    b.black_pieces = bit(54);
    b.move_piece(54, 63);
    assert_eq!(b.black_pieces, 0);
    assert_eq!(b.black_kings, bit(63));
}

#[test]
fn jump_takes_off_the_middle_piece_of_either_colour() {
    let mut b = CheckersBitboard::new(true);
    b.white_kings = bit(20);
    b.black_kings = bit(29);
    b.move_piece(20, 38);
    assert_eq!(b.white_kings, bit(38));
    assert_eq!(b.black_kings, 0);
}

#[test]
fn kings_move_both_ways() {
    let mut b = CheckersBitboard::new(true);
    b.white_kings = bit(27);
    let moves = b.get_non_capture_moves(true);
    assert_eq!(
        steps_of(&moves),
        vec![vec![(27, 36)], vec![(27, 34)], vec![(27, 20)], vec![(27, 18)]]
    );
}

#[test]
fn move_from_uci_parses_steps() {
    let m = Move::from_uci(vec!["e3f4"]).unwrap();
    assert_eq!(m.steps().clone(), vec![(44u8, 37u8)]);
    let m = Move::from_uci(vec!["d4e3", "f2d4f6"]).unwrap();
    assert_eq!(m.steps().clone(), vec![(35u8, 44u8), (53u8, 35u8), (35u8, 21u8)]);
    let m = Move::from_uci(vec!["f2d4f6"]).unwrap();
    assert_eq!(m.steps().clone(), vec![(53u8, 35u8), (35u8, 21u8)]);
    // an odd last byte is left unread
    let m = Move::from_uci(vec!["f2d4f"]).unwrap();
    assert_eq!(m.steps().clone(), vec![(53u8, 35u8)]);
}

#[test]
fn move_from_uci_multi_capture_matches_generated_capture() {
    // white man on f2 (53), black men on e3 (44) and e5 (28): the double
    // capture f2-d4-f6 is the one legal move that the token names.
    let mut b = CheckersBitboard::new(true);
    b.white_pieces = 1u64 << (63 - 53);
    b.black_pieces = (1u64 << (63 - 44)) | (1u64 << (63 - 28));
    let m = Move::from_uci(vec!["f2d4f6"]).unwrap();
    assert!(b.get_all_legal_moves().contains(&m));
}

#[test]
fn move_from_uci_reports_the_first_error() {
    assert_eq!(Move::from_uci(vec!["z3f4"]), Err("first letter not letter"));
    assert_eq!(Move::from_uci(vec!["e3f9", "zzzz"]), Err("Invalid coordinate (out of bounds))"));
    assert_eq!(Move::from_uci(vec!["f2d4z6"]), Err("first letter not letter"));
    assert_eq!(Move::from_uci(vec!["e3f0"]), Err("Invalid coordinate (out of bounds))"));
    // a third pair of bytes that splits a character cannot be a coordinate
    assert_eq!(Move::from_uci(vec!["e3f4aé"]), Err("Invalid coordinate length"));
    assert_eq!(
        Move::from_uci(vec!["e3fx"]),
        Err("Invalid coordinate format (number not number)")
    );
}

#[test]
fn move_prints_one_line_per_step() {
    let m = Move::from_uci(vec!["e3f4", "a1h8"]).unwrap();
    assert_eq!(m.print(), "E3 -> F4\nA1 -> H8\n");
}

#[test]
fn board_text_of_the_start() {
    let state = GameState::starting_pos();
    let text = state.game.board_text(false);
    let lines: Vec<&str> = text.lines().collect();
    assert_eq!(lines.len(), 17);
    assert_eq!(lines[0], "|---|---|---|---|---|---|---|---|");
    assert_eq!(lines[1], "|   | ○ |   | ○ |   | ○ |   | ○ |");
    assert_eq!(lines[15], "| ● |   | ● |   | ● |   | ● |   |");
    let numbered = state.game.board_text(true);
    let lines: Vec<&str> = numbered.lines().collect();
    assert_eq!(lines[1], "| 0 | ○ | 2 | ○ | 4 | ○ | 6 | ○ |");
    assert_eq!(lines[7], "|24 |25 |26 |27 |28 |29 |30 |31 |");
}

#[test]
fn no_jump_runs_off_the_side_of_the_board() {
    // a white man on b3 (41) beside a black man on a4 (32): beyond a4 is off
    // the board, so there is no capture.
    let mut b = CheckersBitboard::new(true);
    b.white_pieces = bit(41);
    b.black_pieces = bit(32);
    assert!(b.get_captures(41, true).is_empty());
    // a black man on g6 (22) beside a white man on h5 (31)
    let mut b = CheckersBitboard::new(false);
    b.black_pieces = bit(22);
    b.white_pieces = bit(31);
    assert!(b.get_captures(22, false).is_empty());
}

#[test]
fn lookup_table_matches_the_mask_functions() {
    let t = LookupMoves::new();
    assert_eq!(t.all_non_capturing_moves[0][42], bit(35) | bit(33));
    assert_eq!(t.all_non_capturing_moves[1][42], bit(49) | bit(51));
    assert_eq!(t.all_capturing_moves[0][8], 0);
    assert_eq!(t.all_capturing_moves[0][25], bit(11));
    assert_eq!(t.all_capturing_moves[0][27], bit(13) | bit(9));
    assert_eq!(t.all_capturing_moves[1][30], bit(44));
    assert_eq!(t.all_capturing_moves[1][33], bit(51));
    assert_eq!(t.all_capturing_moves[2][27], t.all_capturing_moves[0][27] | t.all_capturing_moves[1][27]);
}

fn count(b: u64) -> u32 {
    b.count_ones()
}

#[test]
fn legal_moves_keep_the_board_well_placed() {
    // white man on f2 (53) with a double capture over e3 (44) and e5 (28),
    // and the starting position
    let mut b = CheckersBitboard::new(true);
    b.white_pieces = bit(53) | bit(62);
    b.black_pieces = bit(44) | bit(28) | bit(1);
    b.black_kings = bit(10);
    let start = GameState::starting_pos().game;
    for pos in [b, start] {
        for m in pos.get_all_legal_moves() {
            let mut after = pos;
            after.apply_move(&m);
            let boards = [after.white_pieces, after.white_kings, after.black_pieces, after.black_kings];
            for i in 0..4 {
                for j in (i + 1)..4 {
                    assert_eq!(boards[i] & boards[j], 0);
                }
            }
            assert_eq!(after.white_pieces >> 56, 0);
            assert_eq!(after.black_pieces & 0xff, 0);
            let jumps = m.steps().iter().filter(|(f, t)| f.abs_diff(*t) > 9).count() as u32;
            assert_eq!(count(after.white_pieces | after.white_kings), count(pos.white_pieces | pos.white_kings));
            assert_eq!(
                count(after.black_pieces | after.black_kings) + jumps,
                count(pos.black_pieces | pos.black_kings)
            );
        }
    }
}

#[test]
fn printed_moves_parse_back() {
    for f in 0..64u8 {
        for t in [0u8, 7, 21, 35, 56, 63, f] {
            let name = |i: u8| format!("{}{}", (b'a' + i % 8) as char, 8 - i / 8);
            let m = Move::from_uci(vec![&(name(f) + &name(t))]).unwrap();
            assert_eq!(m.steps().clone(), vec![(f, t)]);
            let p = m.print();
            let token = p[0..2].to_lowercase() + &p[6..8].to_lowercase();
            assert_eq!(Move::from_uci(vec![&token]), Ok(m));
        }
    }
}
