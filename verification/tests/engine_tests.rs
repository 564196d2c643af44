use oxidie_checkers::algo::{evaluation, negamax, quiescence, search_best_move};
use oxidie_checkers::board::{CheckersBitboard, GameState};
use oxidie_checkers::transposition::{flag, CachedValue, TranspositionTable};

fn bit(s: u64) -> u64 {
    1u64 << (63 - s)
}

fn table() -> TranspositionTable {
    let bits: Vec<u64> = (0..256u64)
        .map(|i| i.wrapping_mul(0x9E37_79B9_7F4A_7C15).rotate_left(17) ^ 0xA5A5_5A5A_1234_5678)
        .collect();
    TranspositionTable::from_bitstrings(bits)
}

fn flipped(b: &CheckersBitboard) -> CheckersBitboard {
    CheckersBitboard {
        white_pieces: b.black_pieces.reverse_bits(),
        white_kings: b.black_kings.reverse_bits(),
        black_pieces: b.white_pieces.reverse_bits(),
        black_kings: b.white_kings.reverse_bits(),
        white_to_move: !b.white_to_move,
    }
}

#[test]
fn evaluation_of_the_start_is_zero() {
    let state = GameState::starting_pos();
    assert_eq!(evaluation(&state.game), 0);
}

#[test]
fn evaluation_of_single_pieces() {
    let mut b = CheckersBitboard::new(true);
    b.white_pieces = bit(55);
    // square 55 carries the man bonus 25
    assert_eq!(evaluation(&b), 125);
    let mut b = CheckersBitboard::new(true);
    b.white_pieces = bit(62);
    // white's back row: square 62 carries the man bonus 30
    assert_eq!(evaluation(&b), 130);
    let mut b = CheckersBitboard::new(true);
    b.black_pieces = bit(1);
    // black's back row, seen from black's side: square 1 reads 62's bonus
    assert_eq!(evaluation(&b), -130);
    let mut b = CheckersBitboard::new(true);
    b.black_kings = bit(35);
    // a black king on square 35 reads the king bonus at index 35, 11
    assert_eq!(evaluation(&b), -1011);
    let mut b = CheckersBitboard::new(true);
    b.white_kings = bit(1);
    // a white king on square 1 is bit 62, whose king bonus is -7
    assert_eq!(evaluation(&b), 993);
}

#[test]
fn evaluation_is_negated_by_flipping_the_board() {
    let mut b = CheckersBitboard::new(true);
    b.white_pieces = bit(42) | bit(47) | bit(60);
    b.white_kings = bit(20);
    b.black_pieces = bit(9) | bit(35);
    b.black_kings = bit(50);
    assert_eq!(evaluation(&flipped(&b)), -evaluation(&b));
    let s = GameState::starting_pos();
    assert_eq!(evaluation(&flipped(&s.game)), -evaluation(&s.game));
}

#[test]
fn quiescence_without_captures_is_the_evaluation() {
    let mut b = CheckersBitboard::new(false);
    b.white_pieces = bit(55);
    let mut nodes = 5;
    assert_eq!(quiescence(&b, 3, -100, 100, false, &mut nodes), -125);
    assert_eq!(nodes, 5);
    // a window that is never negated may reach i32::MIN
    assert_eq!(quiescence(&b, 0, i32::MIN, i32::MIN, false, &mut nodes), -125);
    let mut tt = table();
    let mut w = b;
    w.white_to_move = true;
    assert_eq!(negamax(&w, 0, i32::MIN, i32::MIN, true, &mut nodes, &mut tt), 125);
}

#[test]
fn quiescence_plays_out_the_capture() {
    let mut b = CheckersBitboard::new(true);
    b.white_pieces = bit(42);
    b.black_pieces = bit(35);
    let mut after = b;
    after.move_piece(42, 28);
    after.white_to_move = false;
    let mut nodes = 0;
    let v = quiescence(&b, 2, -999999, 999999, true, &mut nodes);
    assert_eq!(v, evaluation(&after));
    // a narrow window that the value exceeds gives a lower bound
    let low = quiescence(&b, 2, -10, -5, true, &mut nodes);
    assert!(low >= -5 && low <= v);
}

#[test]
fn negamax_at_depth_zero_evaluates() {
    let mut b = CheckersBitboard::new(true);
    b.white_pieces = bit(55);
    let mut tt = table();
    let mut nodes = 0;
    assert_eq!(negamax(&b, 0, -99999, 99999, true, &mut nodes, &mut tt), 125);
    assert_eq!(nodes, 1);
}

#[test]
fn negamax_at_depth_zero_returns_the_quiescence_value() {
    // a white king on 42 can take the black man on 35, landing on 28
    let mut b = CheckersBitboard::new(true);
    b.white_kings = bit(42);
    b.black_pieces = bit(35);
    let mut tt = table();
    let mut nodes = 0;
    let v = negamax(&b, 0, -99999, 99999, true, &mut nodes, &mut tt);
    assert_eq!(v, 1011);
    let mut q_nodes = 0;
    assert_eq!(v, quiescence(&b, 2, -99999, 99999, true, &mut q_nodes));
    assert_eq!(nodes, 1);
}

#[test]
fn negamax_caches_its_value() {
    let state = GameState::starting_pos();
    let mut tt = table();
    let mut nodes = 0;
    let v = negamax(&state.game, 2, -99999, 99999, true, &mut nodes, &mut tt);
    assert!(nodes > 1);
    let hits = tt.cache_hits;
    let cached = tt.get(&state.game).expect("cached");
    assert_eq!(cached.value, v);
    assert_eq!(cached.depth, 2);
    assert_eq!(tt.cache_hits, hits + 1);
    // an exact entry at least as deep answers at once
    let mut nodes2 = 0;
    let again = negamax(&state.game, 2, -99999, 99999, true, &mut nodes2, &mut tt);
    assert_eq!(again, v);
    assert_eq!(nodes2, 1);
}

#[test]
fn a_side_without_moves_scores_the_floor() {
    let mut b = CheckersBitboard::new(true);
    b.black_pieces = bit(10);
    let mut tt = table();
    let mut nodes = 0;
    assert_eq!(negamax(&b, 1, -99999, 99999, true, &mut nodes, &mut tt), -9999999);
}

#[test]
fn best_move_takes_the_free_piece() {
    let mut b = CheckersBitboard::new(true);
    b.white_pieces = bit(42) | bit(47);
    b.black_pieces = bit(35);
    let mut tt = table();
    let (m, value, nodes) = search_best_move(&b, 2, &mut tt);
    assert_eq!(m.steps().clone(), vec![(42u8, 28u8)]);
    assert!(nodes >= 1);
    assert!(value > 0);
}

#[test]
fn best_move_from_the_start_is_legal() {
    let state = GameState::starting_pos();
    let mut tt = table();
    let (m, _value, nodes) = search_best_move(&state.game, 3, &mut tt);
    assert!(state.game.get_all_legal_moves().contains(&m));
    assert!(nodes > 7);
}

#[test]
fn table_put_get_and_clear() {
    let mut tt = table();
    let mut b = CheckersBitboard::new(true);
    b.white_pieces = bit(42);
    assert!(tt.get(&b).is_none());
    assert_eq!(tt.cache_hits, 0);
    tt.put(&b, CachedValue { value: 7, depth: 3, flag: flag::LOWERBOUND });
    let c = tt.get(&b).unwrap();
    assert_eq!(c.value, 7);
    assert_eq!(c.depth, 3);
    assert_eq!(c.flag, flag::LOWERBOUND);
    assert_eq!(tt.cache_hits, 1);
    tt.put(&b, CachedValue { value: -3, depth: 1, flag: flag::EXACT });
    assert_eq!(tt.get(&b).unwrap().value, -3);
    tt.clear();
    assert!(tt.get(&b).is_none());
    assert_eq!(tt.cache_hits, 2);
}

#[test]
fn hash_ignores_the_side_to_move() {
    let tt = table();
    let mut b = CheckersBitboard::new(true);
    b.black_kings = bit(3) | bit(40);
    let mut c = b;
    c.white_to_move = false;
    assert_eq!(tt.calculate_hash(&b), tt.calculate_hash(&c));
}

#[test]
fn hash_of_the_empty_board_is_zero() {
    let tt = table();
    assert_eq!(tt.calculate_hash(&CheckersBitboard::new(true)), 0);
}

#[test]
fn hash_is_linear_in_the_pieces() {
    let tt = table();
    let mut a = CheckersBitboard::new(true);
    a.white_pieces = bit(1) | bit(2);
    a.black_kings = bit(60);
    let mut b = CheckersBitboard::new(true);
    b.white_pieces = bit(2) | bit(9);
    b.white_kings = bit(33);
    let x = CheckersBitboard {
        white_pieces: a.white_pieces ^ b.white_pieces,
        white_kings: a.white_kings ^ b.white_kings,
        black_pieces: a.black_pieces ^ b.black_pieces,
        black_kings: a.black_kings ^ b.black_kings,
        white_to_move: true,
    };
    assert_eq!(tt.calculate_hash(&x), tt.calculate_hash(&a) ^ tt.calculate_hash(&b));
}

#[test]
fn random_tables_start_empty() {
    let mut tt = TranspositionTable::new();
    assert_eq!(tt.cache_hits, 0);
    assert!(tt.get(&CheckersBitboard::new(true)).is_none());
}

/// The depth-limited negamax value by plain recursion, without pruning or
/// table: at depth 0 the evaluation, or the capture value if captures remain.
fn brute_value(b: &CheckersBitboard, depth: i32) -> i32 {
    let white = b.white_to_move;
    if depth == 0 {
        if b.get_all_captures(white).is_empty() {
            let e = evaluation(b);
            return if white { e } else { -e };
        }
        let mut n = 0;
        return quiescence(b, 2, -10_000_000, 10_000_000, white, &mut n);
    }
    let mut best = -9999999;
    for m in b.get_all_legal_moves() {
        let mut next = *b;
        next.apply_move(&m);
        next.white_to_move = !next.white_to_move;
        best = best.max(-brute_value(&next, depth - 1));
    }
    best
}

#[test]
fn negamax_finds_the_depth_limited_value() {
    // men only, so no placement comes back at another depth
    let mut b = CheckersBitboard::new(true);
    b.white_pieces = bit(42) | bit(44) | bit(53) | bit(62);
    b.black_pieces = bit(17) | bit(21) | bit(26) | bit(28);
    for depth in 1..=4 {
        let expected = brute_value(&b, depth);
        let mut tt = table();
        let mut nodes = 0;
        let v = negamax(&b, depth, -99999, 99999, true, &mut nodes, &mut tt);
        assert!(-99999 < expected && expected < 99999);
        assert_eq!(v, expected, "depth {}", depth);
        // a narrow window gives a bound on the same side
        let mut tt = table();
        let low = negamax(&b, depth, expected + 1, expected + 5, true, &mut nodes, &mut tt);
        assert!(low <= expected + 1 && expected <= low);
    }
}
