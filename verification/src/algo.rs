//! The engine: position evaluation, quiescence search and negamax search.
use vstd::prelude::*;
use crate::board::{BoardView, CheckersBitboard, Move, count_below, board_set, move_steps};
use crate::movegen::{takes_pieces, capture_chains, lemma_all_captures_take, lemma_legal_moves_apply};
use crate::squares::{square_set, highest_square, lemma_highest_square};
use crate::transposition::{CachedValue, TranspositionTable, flag, zobrist};

verus! {

/// Bonus of a man by square, laid out as the board seen from white's side
/// (square 0 top left, white's back row at the bottom): a filled back row,
/// the centre and advanced men are worth more.
pub open spec fn man_table() -> Seq<int> {
    seq![
        0, 0, 0, 0, 0, 0, 0, 0,
        24, 0, 15, 0, 10, 0, 15, 0,
        0, 8, 0, 10, 0, 10, 0, 25,
        3, 0, 3, 0, 5, 0, 1, 0,
        0, 2, 0, 15, 0, 10, 0, 0,
        1, 0, 2, 0, 1, 0, 0, 0,
        0, 0, 0, 7, 0, 9, 0, 25,
        0, 0, 25, 0, 10, 0, 30, 0,
    ]
}

/// Bonus of a king by bit index (bit `t` is square `63 - t`): kings are
/// worth more in the centre and less near the edges.
pub open spec fn king_table() -> Seq<int> {
    seq![
        0, -10, 0, -5, 0, -5, 0, -10,
        -5, 0, 0, 0, -1, 0, -1, 0,
        0, 1, 0, 10, 0, 8, 0, -10,
        -5, 0, 10, 0, 11, 0, 1, 0,
        0, 2, 0, 11, 0, 10, 0, -10,
        -5, 0, 8, 0, 10, 0, 0, 0,
        0, -1, 0, -1, 0, -1, 0, -10,
        -10, 0, 0, 0, -1, 0, -7, 0,
    ]
}

fn tables() -> (r: ([i32; 64], [i32; 64]))
    ensures
        forall|t: int| 0 <= t < 64 ==> r.0[t] == man_table()[t] && r.1[t] == king_table()[t],
{
    let man_values: [i32; 64] = [
        0, 0, 0, 0, 0, 0, 0, 0,
        24, 0, 15, 0, 10, 0, 15, 0,
        0, 8, 0, 10, 0, 10, 0, 25,
        3, 0, 3, 0, 5, 0, 1, 0,
        0, 2, 0, 15, 0, 10, 0, 0,
        1, 0, 2, 0, 1, 0, 0, 0,
        0, 0, 0, 7, 0, 9, 0, 25,
        0, 0, 25, 0, 10, 0, 30, 0,
    ];
    let king_values: [i32; 64] = [
        0, -10, 0, -5, 0, -5, 0, -10,
        -5, 0, 0, 0, -1, 0, -1, 0,
        0, 1, 0, 10, 0, 8, 0, -10,
        -5, 0, 10, 0, 11, 0, 1, 0,
        0, 2, 0, 11, 0, 10, 0, -10,
        -5, 0, 8, 0, 10, 0, 0, 0,
        0, -1, 0, -1, 0, -1, 0, -10,
        -10, 0, 0, 0, -1, 0, -7, 0,
    ];
    (man_values, king_values)
}


/// The sum of `g` over the squares in 0..n that `s` holds.
pub open spec fn sum_below(s: Set<int>, g: spec_fn(int) -> int, n: int) -> int
    decreases n,
{
    if n <= 0 {
        0
    } else {
        sum_below(s, g, n - 1) + if s.contains(n - 1) {
            g(n - 1)
        } else {
            0
        }
    }
}

/// The worth of a piece of bitboard `x` (0 white men, 1 white kings, 2 black
/// men, 3 black kings) on square `s`, from white's side: a man is worth 100
/// and a king 1000, plus a bonus: a man reads the man table at its square
/// as its own side sees the board (for black, turned half way round), a
/// white king reads the king table at its bit index and a black king at
/// its square.
pub open spec fn piece_worth(x: int, s: int) -> int {
    if x == 0 {
        100 + man_table()[s]
    } else if x == 1 {
        1000 + king_table()[63 - s]
    } else if x == 2 {
        -(100 + man_table()[63 - s])
    } else {
        -(1000 + king_table()[s])
    }
}

/// The worth of the pieces of bitboard `x`.
pub open spec fn board_worth(v: BoardView, x: int) -> int {
    sum_below(board_set(v, x), |s: int| piece_worth(x, s), 64)
}

/// The evaluation of a position from white's side: the worth of the white
/// pieces less the worth of the black ones.
pub open spec fn evaluate(v: BoardView) -> int {
    board_worth(v, 0) + board_worth(v, 1) + board_worth(v, 2) + board_worth(v, 3)
}

/// The worth of the first `x` bitboards.
pub open spec fn worth_of_boards(v: BoardView, x: int) -> int
    decreases x,
{
    if x <= 0 {
        0
    } else {
        worth_of_boards(v, x - 1) + board_worth(v, x - 1)
    }
}

proof fn lemma_sum_remove(s: Set<int>, g: spec_fn(int) -> int, a: int, n: int)
    ensures
        sum_below(s.remove(a), g, n) + (if 0 <= a < n && s.contains(a) {
            g(a)
        } else {
            0
        }) == sum_below(s, g, n),
    decreases n,
{
    if n > 0 {
        lemma_sum_remove(s, g, a, n - 1);
    }
}

proof fn lemma_sum_bound(s: Set<int>, g: spec_fn(int) -> int, n: int, m: int)
    requires
        0 <= n,
        forall|t: int| 0 <= t < n ==> -m <= #[trigger] g(t) <= m,
    ensures
        -m * n <= sum_below(s, g, n) <= m * n,
    decreases n,
{
    if n > 0 {
        lemma_sum_bound(s, g, n - 1, m);
        assert(-m <= g(n - 1) <= m);
        assert(-m * n == -m * (n - 1) - m) by (nonlinear_arith);
        assert(m * n == m * (n - 1) + m) by (nonlinear_arith);
    }
}

proof fn lemma_worth_bound(v: BoardView, x: int, r: Set<int>)
    requires
        0 <= x < 4,
    ensures
        -64704 <= sum_below(r, |s: int| piece_worth(x, s), 64) <= 64704,
{
    let g = |s: int| piece_worth(x, s);
    assert forall|t: int| 0 <= t < 64 implies -1011 <= #[trigger] g(t) <= 1011 by {
        assert(0 <= 63 - t < 64);
    }
    lemma_sum_bound(r, g, 64, 1011);
}

/// The evaluation of a position from white's side: 100 for each man and
/// 1000 for each king, plus a bonus for the square that it stands on, white
/// pieces counting up and black ones down.
pub fn evaluation(bitboard: &CheckersBitboard) -> (value: i32)
    ensures
        value == evaluate(bitboard@),
        -258816 <= value <= 258816,
{
    let ghost v = bitboard@;
    let (man_values, king_values) = tables();
    let mut value: i32 = 0;
    let mut pieces: [u64; 4] = [
        bitboard.white_pieces,
        bitboard.white_kings,
        bitboard.black_pieces,
        bitboard.black_kings,
    ];
    let piece_value: [i32; 4] = [100, 1000, -100, -1000];
    let mut x: usize = 0;
    while x < 4
        invariant
            0 <= x <= 4,
            v == bitboard@,
            forall|t: int| 0 <= t < 64 ==> man_values[t] == man_table()[t] && king_values[t] == king_table()[t],
            piece_value@ == seq![100i32, 1000i32, -100i32, -1000i32],
            forall|y: int| x <= y < 4 ==> square_set(#[trigger] pieces[y]) == board_set(v, y),
            value == worth_of_boards(v, x as int),
            -64704 * x <= value <= 64704 * x,
        decreases 4 - x,
    {
        let ghost g = |s: int| piece_worth(x as int, s);
        let ghost full = board_worth(v, x as int);
        proof {
            lemma_worth_bound(v, x as int, board_set(v, x as int));
        }
        while pieces[x] != 0
            invariant
                0 <= x < 4,
                v == bitboard@,
                g == (|s: int| piece_worth(x as int, s)),
                full == sum_below(board_set(v, x as int), g, 64),
                -64704 <= full <= 64704,
                forall|t: int| 0 <= t < 64 ==> man_values[t] == man_table()[t] && king_values[t] == king_table()[t],
                piece_value@ == seq![100i32, 1000i32, -100i32, -1000i32],
                forall|y: int| x < y < 4 ==> square_set(#[trigger] pieces[y]) == board_set(v, y),
                value == worth_of_boards(v, x as int) + full - sum_below(square_set(pieces[x as int]), g, 64),
                -64704 * x <= worth_of_boards(v, x as int) <= 64704 * x,
            decreases square_count_of(pieces[x as int]),
        {
            let ghost before = pieces[x as int];
            proof {
                lemma_highest_square(before);
                lemma_worth_bound(v, x as int, square_set(before));
            }
            let square = pieces[x].trailing_zeros() as usize;
            let ghost h = highest_square(before);
            proof {
                assert(crate::squares::square_mask(h) == 1u64 << (square as u64));
                crate::squares::lemma_clear_set(before, h);
            }
            let ghost old_pieces = pieces;
            pieces[x] = pieces[x] & !(1u64 << (square as u64));
            proof {
                assert(pieces[x as int] == before & !crate::squares::square_mask(h));
                assert forall|y: int| x < y < 4 implies square_set(#[trigger] pieces[y]) == board_set(v, y) by {
                    assert(pieces[y] == old_pieces[y]);
                }
                lemma_sum_remove(square_set(before), g, h, 64);
                lemma_worth_bound(v, x as int, square_set(pieces[x as int]));
                crate::board::lemma_count_remove(square_set(before), h, 64);
                assert(square as int == 63 - h);
            }
            value = value + piece_value[x];
            if x == 0 {
                value = value + man_values[63 - square];
            } else if x == 1 {
                value = value + king_values[square];
            } else if x == 2 {
                value = value - man_values[square];
            } else {
                value = value - king_values[63 - square];
            }
        }
        proof {
            crate::squares::lemma_combine_set(0, 0);
            assert(square_set(pieces[x as int]) == Set::<int>::empty());
            assert(sum_below(Set::<int>::empty(), g, 64) == 0) by {
                lemma_sum_empty(g, 64);
            }
        }
        x = x + 1;
    }
    proof {
        reveal_with_fuel(worth_of_boards, 5);
    }
    value
}

proof fn lemma_sum_empty(g: spec_fn(int) -> int, n: int)
    ensures
        sum_below(Set::<int>::empty(), g, n) == 0,
    decreases n,
{
    if n > 0 {
        lemma_sum_empty(g, n - 1);
    }
}

/// The number of squares that a bitboard holds.
pub open spec fn square_count_of(bb: u64) -> nat {
    count_below(square_set(bb), 64)
}


/// Each piece is worth its material with a small bonus for its square: a
/// man between 100 and 130, a king between 990 and 1011, white counting up
/// and black down; and a board holding one piece evaluates to its worth.
pub proof fn lemma_single_piece(x: int, s: int)
    requires
        0 <= x < 4,
        0 <= s < 64,
    ensures
        x == 0 ==> 100 <= piece_worth(x, s) <= 130,
        x == 1 ==> 990 <= piece_worth(x, s) <= 1011,
        x == 2 ==> -130 <= piece_worth(x, s) <= -100,
        x == 3 ==> -1011 <= piece_worth(x, s) <= -990,
        ({
            let e = Set::<int>::empty();
            let one = e.insert(s);
            let v = BoardView {
                white_men: if x == 0 { one } else { e },
                white_kings: if x == 1 { one } else { e },
                black_men: if x == 2 { one } else { e },
                black_kings: if x == 3 { one } else { e },
                white_to_move: true,
            };
            evaluate(v) == piece_worth(x, s)
        }),
{
    assert(forall|t: int| 0 <= t < 64 ==> 0 <= #[trigger] man_table()[t] <= 30);
    assert(forall|t: int| 0 <= t < 64 ==> -10 <= #[trigger] king_table()[t] <= 11);
    assert(0 <= 63 - s < 64);
    let e = Set::<int>::empty();
    let one = e.insert(s);
    let v = BoardView {
        white_men: if x == 0 { one } else { e },
        white_kings: if x == 1 { one } else { e },
        black_men: if x == 2 { one } else { e },
        black_kings: if x == 3 { one } else { e },
        white_to_move: true,
    };
    assert forall|y: int| 0 <= y < 4 implies board_worth(v, y) == if y == x {
        piece_worth(x, s)
    } else {
        0
    } by {
        let g = |t: int| piece_worth(y, t);
        lemma_sum_empty(g, 64);
        if y == x {
            lemma_sum_remove(one, g, s, 64);
            assert(one.remove(s) =~= e);
            assert(board_set(v, y) == one);
        } else {
            assert(board_set(v, y) == e);
        }
    }
    assert(board_worth(v, 0) + board_worth(v, 1) + board_worth(v, 2) + board_worth(v, 3)
        == piece_worth(x, s));
}

/// A set of squares turned half way round the board: square `t` for each
/// square `63 - t` of the set.
pub open spec fn mirror(s: Set<int>) -> Set<int> {
    Set::new(|t: int| s.contains(63 - t))
}

/// The position with the colours swapped and the board turned half way
/// round, so that each side stands where the other stood.
pub open spec fn flipped(v: BoardView) -> BoardView {
    BoardView {
        white_men: mirror(v.black_men),
        white_kings: mirror(v.black_kings),
        black_men: mirror(v.white_men),
        black_kings: mirror(v.white_kings),
        white_to_move: !v.white_to_move,
    }
}

proof fn lemma_sum_none(s: Set<int>, g: spec_fn(int) -> int, n: int)
    requires
        forall|t: int| 0 <= t < n ==> !s.contains(t),
    ensures
        sum_below(s, g, n) == 0,
    decreases n,
{
    if n > 0 {
        lemma_sum_none(s, g, n - 1);
    }
}

proof fn lemma_sum_mirror(s: Set<int>, f: spec_fn(int) -> int, g: spec_fn(int) -> int)
    requires
        forall|t: int| 0 <= t < 64 ==> #[trigger] g(t) == -f(63 - t),
    ensures
        sum_below(mirror(s), g, 64) == -sum_below(s, f, 64),
    decreases count_below(s, 64),
{
    if exists|a: int| 0 <= a < 64 && s.contains(a) {
        let a = choose|a: int| 0 <= a < 64 && s.contains(a);
        crate::board::lemma_count_remove(s, a, 64);
        lemma_sum_mirror(s.remove(a), f, g);
        assert(mirror(s).remove(63 - a) =~= mirror(s.remove(a)));
        lemma_sum_remove(s, f, a, 64);
        lemma_sum_remove(mirror(s), g, 63 - a, 64);
        assert(g(63 - a) == -f(a));
    } else {
        lemma_sum_none(s, f, 64);
        lemma_sum_none(mirror(s), g, 64);
    }
}

/// Evaluation is symmetric between the colours: swapping them and turning
/// the board half way round negates it.
pub proof fn lemma_evaluate_flipped(v: BoardView)
    ensures
        evaluate(flipped(v)) == -evaluate(v),
{
    let w = flipped(v);
    assert forall|x: int| 0 <= x < 4 implies board_worth(w, x) == -board_worth(
        v,
        if x < 2 {
            x + 2
        } else {
            x - 2
        },
    ) by {
        let p = if x < 2 {
            x + 2
        } else {
            x - 2
        };
        let f = |s: int| piece_worth(p, s);
        let g = |s: int| piece_worth(x, s);
        assert forall|t: int| 0 <= t < 64 implies #[trigger] g(t) == -f(63 - t) by {}
        assert(board_set(w, x) == mirror(board_set(v, p)));
        lemma_sum_mirror(board_set(v, p), f, g);
    }
}


/// +1 for white and -1 for black: turns an evaluation from white's side
/// into one from the side of `white`.
pub open spec fn side_sign(white: bool) -> int {
    if white {
        1
    } else {
        -1
    }
}

/// The quiescence search: from the side of `white`, the evaluation once
/// `depth` reaches 0 or no capture is left, else the best of the captures,
/// each valued as minus the search of the position after it, searched in
/// order with an alpha-beta window that stops at the first value reaching
/// `beta`.
pub open spec fn qsearch(v: BoardView, depth: int, alpha: int, beta: int, white: bool) -> int
    decreases v.size(), 1int, 0int,
{
    if depth == 0 || v.all_captures(white).len() == 0 {
        side_sign(white) * evaluate(v)
    } else {
        qsearch_from(v, 0, depth, alpha, beta, white, -999999)
    }
}

/// The quiescence search over the captures from the `i`-th on, with the
/// best value so far and the raised lower bound `alpha`.
pub open spec fn qsearch_from(
    v: BoardView,
    i: int,
    depth: int,
    alpha: int,
    beta: int,
    white: bool,
    value: int,
) -> int
    decreases v.size(), 0int, v.all_captures(white).len() - i when white == v.white_to_move && 0 <= i
{
    let captures = v.all_captures(white);
    if i >= captures.len() {
        value
    } else {
        proof {
            lemma_all_captures_take(v);
            assert(takes_pieces(v, captures[i]));
        }
        let child = v.play(captures[i]);
        let child_value = -qsearch(child, depth - 1, -beta, -alpha, child.white_to_move);
        let value = if child_value > value {
            child_value
        } else {
            value
        };
        let alpha = if value > alpha {
            value
        } else {
            alpha
        };
        if alpha >= beta {
            value
        } else {
            qsearch_from(v, i + 1, depth, alpha, beta, white, value)
        }
    }
}

/// A side without pieces has no captures.
pub proof fn lemma_no_pieces_no_captures(b: &CheckersBitboard, white: bool)
    requires
        (if white {
            b.white_pieces | b.white_kings
        } else {
            b.black_pieces | b.black_kings
        }) == 0,
    ensures
        b@.all_captures(white) == Seq::<Seq<(u8, u8)>>::empty(),
{
    let v = b@;
    crate::squares::lemma_combine_set(0, 0);
    crate::squares::lemma_combine_set(b.white_pieces, b.white_kings);
    crate::squares::lemma_combine_set(b.black_pieces, b.black_kings);
    assert(v.side(white) == Set::<int>::empty());
    let f = |s: int| capture_chains(v, s, white).unwrap();
    assert forall|s: int| 0 <= s < 64 implies #[trigger] f(s) == Seq::<Seq<(u8, u8)>>::empty() by {}
    crate::board::lemma_gather_empty(f, 0, 64);
}

/// Whether the quiescence search goes on to the captures, negating its
/// window for each: `depth` is not 0 and the side `white` has a capture.
pub open spec fn quiescence_recurses(v: BoardView, depth: int, white: bool) -> bool {
    depth != 0 && v.all_captures(white).len() > 0
}

/// The quiescence search of a position for the side `iswhite`: the
/// evaluation from that side once `depth` reaches 0 or no capture is left,
/// else an alpha-beta search over the captures only, `depth` counting down.
pub fn quiescence(
    bitboard: &CheckersBitboard,
    depth: i32,
    alpha: i32,
    beta: i32,
    iswhite: bool,
    nodes_counter: &mut i32,
) -> (value: i32)
    requires
        iswhite == bitboard.white_to_move || (if iswhite {
            bitboard.white_pieces | bitboard.white_kings
        } else {
            bitboard.black_pieces | bitboard.black_kings
        }) == 0,
        quiescence_recurses(bitboard@, depth as int, iswhite) ==> alpha > i32::MIN && beta
            > i32::MIN && depth > i32::MIN + bitboard@.size(),
    ensures
        value == qsearch(bitboard@, depth as int, alpha as int, beta as int, iswhite),
        value > i32::MIN,
        *final(nodes_counter) == *old(nodes_counter),
    decreases bitboard@.size(),
{
    let ghost v = bitboard@;
    let ghost alpha0 = alpha as int;
    let captures = bitboard.get_all_captures(iswhite);
    if depth == 0 || captures.len() == 0 {
        let e = evaluation(bitboard);
        return if iswhite {
            e
        } else {
            -e
        };
    }
    proof {
        if iswhite != v.white_to_move {
            lemma_no_pieces_no_captures(bitboard, iswhite);
        }
        lemma_all_captures_take(v);
    }
    let ghost caps = v.all_captures(iswhite);
    let mut low = alpha;
    let mut value: i32 = -999999;
    let n = captures.len();
    let mut i: usize = 0;
    while i < n
        invariant
            v == bitboard@,
            iswhite == v.white_to_move,
            caps == v.all_captures(iswhite),
            move_steps(captures@) == caps,
            n == caps.len(),
            0 <= i <= n,
            alpha0 == alpha as int,
            depth != 0,
            depth > i32::MIN + v.size(),
            low > i32::MIN,
            beta > i32::MIN,
            value >= -999999,
            forall|j: int| 0 <= j < caps.len() ==> #[trigger] takes_pieces(v, caps[j]),
            qsearch_from(v, i as int, depth as int, low as int, beta as int, iswhite, value as int)
                == qsearch(v, depth as int, alpha0, beta as int, iswhite),
            *nodes_counter == *old(nodes_counter),
        decreases n - i,
    {
        let mut next_bitboard = *bitboard;
        proof {
            assert(captures@[i as int]@ == caps[i as int]);
            assert(takes_pieces(v, caps[i as int]));
        }
        next_bitboard.apply_move(&captures[i]);
        next_bitboard.white_to_move = !next_bitboard.white_to_move;
        proof {
            assert(next_bitboard@ == v.play(caps[i as int]));
        }
        let ghost old_low = low;
        let ghost old_value = value;
        let child = quiescence(&next_bitboard, depth - 1, -beta, -low, next_bitboard.white_to_move, nodes_counter);
        let child_value = -child;
        if child_value > value {
            value = child_value;
        }
        if value > low {
            low = value;
        }
        if low >= beta {
            assert(qsearch_from(v, i as int, depth as int, old_low as int, beta as int, iswhite, old_value as int) == value);
            return value;
        }
        i = i + 1;
    }
    value
}


/// What a search carries from call to call: the entries of the table, its
/// count of cache hits and the count of searched nodes.
pub struct SearchState {
    pub entries: Map<u64, CachedValue>,
    pub hits: int,
    pub nodes: int,
}

/// The flag under which a searched value is cached: an upper bound when it
/// did not rise above the `alpha` the search started with, a lower bound
/// when it reached `beta`, else exact.
pub open spec fn bound_flag(best: int, alpha: int, beta: int) -> flag {
    if best <= alpha {
        flag::UPPERBOUND
    } else if best >= beta {
        flag::LOWERBOUND
    } else {
        flag::EXACT
    }
}

/// Whether the cached entry under hash `h` can serve a search of `depth`:
/// there is one, searched at least as deep.
pub open spec fn usable_entry(entries: Map<u64, CachedValue>, h: u64, depth: int) -> bool {
    entries.contains_key(h) && entries[h].depth as int >= depth
}

/// `alpha` raised to a usable cached lower bound above it.
pub open spec fn raised_alpha(entries: Map<u64, CachedValue>, h: u64, depth: int, alpha: int) -> int {
    let c = entries[h];
    if usable_entry(entries, h, depth) && c.flag == flag::LOWERBOUND && c.value > alpha {
        c.value as int
    } else {
        alpha
    }
}

/// `beta` lowered to a usable cached upper bound below it.
pub open spec fn lowered_beta(entries: Map<u64, CachedValue>, h: u64, depth: int, beta: int) -> int {
    let c = entries[h];
    if usable_entry(entries, h, depth) && c.flag == flag::UPPERBOUND && c.value < beta {
        c.value as int
    } else {
        beta
    }
}

/// Whether a search of `depth` above 0 answers from the cached entry under
/// `h` without searching: an exact value, or a window that the cached bound
/// closes.
pub open spec fn answers_from_cache(
    entries: Map<u64, CachedValue>,
    h: u64,
    depth: int,
    alpha: int,
    beta: int,
) -> bool {
    &&& usable_entry(entries, h, depth)
    &&& (entries[h].flag == flag::EXACT || raised_alpha(entries, h, depth, alpha) >= lowered_beta(
        entries,
        h,
        depth,
        beta,
    ))
}

/// The negamax search with an alpha-beta window and a transposition table
/// keyed by `zobrist(bits, ..)`: its value and the state it leaves.
///
/// Each call counts a node. At depth 0 the value is the evaluation from the
/// side of `white` when that side has no capture, else the quiescence search
/// of depth 2 with the same window. Deeper, a
/// cached entry of at least this depth is used first: an exact value is
/// returned, a lower bound raises `alpha`, an upper bound lowers `beta`,
/// and a window that closes returns the cached value. Else the legal moves
/// are searched in order, each valued as minus the search one level down
/// with the window negated and swapped, stopping once the best value
/// reaches `beta`; the best value is cached with its flag and returned.
pub open spec fn negamax_spec(
    v: BoardView,
    depth: int,
    alpha: int,
    beta: int,
    white: bool,
    bits: Seq<u64>,
    st: SearchState,
) -> (int, SearchState)
    decreases depth, 1int, 0int,
{
    let st = SearchState { nodes: st.nodes + 1, ..st };
    if depth <= 0 {
        if v.all_captures(white).len() == 0 {
            (side_sign(white) * evaluate(v), st)
        } else {
            (qsearch(v, 2, alpha, beta, white), st)
        }
    } else {
        let h = zobrist(bits, v);
        let hit = st.entries.contains_key(h);
        let st = SearchState {
            hits: st.hits + if hit {
                1int
            } else {
                0int
            },
            ..st
        };
        let c = st.entries[h];
        let usable = usable_entry(st.entries, h, depth);
        if usable && c.flag == flag::EXACT {
            (c.value as int, st)
        } else {
            let a = raised_alpha(st.entries, h, depth, alpha);
            let b = lowered_beta(st.entries, h, depth, beta);
            if usable && a >= b {
                (c.value as int, st)
            } else {
                let (best, st) = negamax_from(v, 0, depth, a, b, -9999999, bits, st);
                let entry = CachedValue {
                    value: best as i32,
                    depth: depth as u8,
                    flag: bound_flag(best, alpha, b),
                };
                (best, SearchState { entries: st.entries.insert(h, entry), ..st })
            }
        }
    }
}

/// The negamax search over the legal moves from the `i`-th on, with the
/// best value so far and the raised `alpha`.
pub open spec fn negamax_from(
    v: BoardView,
    i: int,
    depth: int,
    alpha: int,
    beta: int,
    best: int,
    bits: Seq<u64>,
    st: SearchState,
) -> (int, SearchState)
    decreases depth, 0int, v.legal_moves().len() - i,
{
    let moves = v.legal_moves();
    if i < 0 || i >= moves.len() || depth <= 0 {
        (best, st)
    } else {
        let child = v.play(moves[i]);
        let (child_value, st) = negamax_spec(
            child,
            depth - 1,
            -beta,
            -alpha,
            child.white_to_move,
            bits,
            st,
        );
        let best = if -child_value > best {
            -child_value
        } else {
            best
        };
        let alpha = if best > alpha {
            best
        } else {
            alpha
        };
        if alpha >= beta {
            (best, st)
        } else {
            negamax_from(v, i + 1, depth, alpha, beta, best, bits, st)
        }
    }
}

/// A search only adds to the counts.
pub proof fn lemma_negamax_counts(
    v: BoardView,
    depth: int,
    alpha: int,
    beta: int,
    white: bool,
    bits: Seq<u64>,
    st: SearchState,
)
    ensures
        negamax_spec(v, depth, alpha, beta, white, bits, st).1.nodes > st.nodes,
        negamax_spec(v, depth, alpha, beta, white, bits, st).1.hits >= st.hits,
        depth > 0 && st.entries.contains_key(zobrist(bits, v)) ==> negamax_spec(
            v,
            depth,
            alpha,
            beta,
            white,
            bits,
            st,
        ).1.hits > st.hits,
    decreases depth, 1int, 0int,
{
    let st1 = SearchState { nodes: st.nodes + 1, ..st };
    if depth > 0 {
        let h = zobrist(bits, v);
        let hit = st1.entries.contains_key(h);
        let st2 = SearchState {
            hits: st1.hits + if hit {
                1int
            } else {
                0int
            },
            ..st1
        };
        let a = raised_alpha(st2.entries, h, depth, alpha);
        let b = lowered_beta(st2.entries, h, depth, beta);
        lemma_negamax_from_counts(v, 0, depth, a, b, -9999999, bits, st2);
    }
}

/// A search over moves only adds to the counts.
pub proof fn lemma_negamax_from_counts(
    v: BoardView,
    i: int,
    depth: int,
    alpha: int,
    beta: int,
    best: int,
    bits: Seq<u64>,
    st: SearchState,
)
    ensures
        negamax_from(v, i, depth, alpha, beta, best, bits, st).1.nodes >= st.nodes,
        negamax_from(v, i, depth, alpha, beta, best, bits, st).1.hits >= st.hits,
    decreases depth, 0int, v.legal_moves().len() - i,
{
    let moves = v.legal_moves();
    if !(i < 0 || i >= moves.len() || depth <= 0) {
        let child = v.play(moves[i]);
        lemma_negamax_counts(child, depth - 1, -beta, -alpha, child.white_to_move, bits, st);
        let (child_value, st2) = negamax_spec(
            child,
            depth - 1,
            -beta,
            -alpha,
            child.white_to_move,
            bits,
            st,
        );
        let best2 = if -child_value > best {
            -child_value
        } else {
            best
        };
        let alpha2 = if best2 > alpha {
            best2
        } else {
            alpha
        };
        if alpha2 < beta {
            lemma_negamax_from_counts(v, i + 1, depth, alpha2, beta, best2, bits, st2);
        }
    }
}


/// The state of a table and a node count as a search state.
pub open spec fn state_of(tt: TranspositionTable, nodes: i32) -> SearchState {
    SearchState { entries: tt.entries(), hits: tt.hits() as int, nodes: nodes as int }
}

/// Whether no value cached in a table is `i32::MIN`, which could not be
/// negated.
pub open spec fn values_negatable(entries: Map<u64, CachedValue>) -> bool {
    forall|k: u64| #[trigger] entries.contains_key(k) ==> entries[k].value > i32::MIN
}

/// Whether the negamax search negates only numbers above `i32::MIN`: the
/// ends of each window that it hands a search one ply down and each value
/// that such a search returns, as well as the window of the quiescence
/// search at depth 0. The search overflows exactly where this fails.
pub open spec fn negamax_ok(
    v: BoardView,
    depth: int,
    alpha: int,
    beta: int,
    white: bool,
    bits: Seq<u64>,
    st: SearchState,
) -> bool
    decreases depth, 1int, 0int,
{
    let st = SearchState { nodes: st.nodes + 1, ..st };
    if depth <= 0 {
        v.all_captures(white).len() > 0 ==> alpha > i32::MIN && beta > i32::MIN
    } else {
        let h = zobrist(bits, v);
        let st = SearchState {
            hits: st.hits + if st.entries.contains_key(h) {
                1int
            } else {
                0int
            },
            ..st
        };
        answers_from_cache(st.entries, h, depth, alpha, beta) || negamax_from_ok(
            v,
            0,
            depth,
            raised_alpha(st.entries, h, depth, alpha),
            lowered_beta(st.entries, h, depth, beta),
            -9999999,
            bits,
            st,
        )
    }
}

/// `negamax_ok` for the search over the legal moves from the `i`-th on.
pub open spec fn negamax_from_ok(
    v: BoardView,
    i: int,
    depth: int,
    alpha: int,
    beta: int,
    best: int,
    bits: Seq<u64>,
    st: SearchState,
) -> bool
    decreases depth, 0int, v.legal_moves().len() - i,
{
    let moves = v.legal_moves();
    if i < 0 || i >= moves.len() || depth <= 0 {
        true
    } else {
        let child = v.play(moves[i]);
        let (child_value, st2) = negamax_spec(
            child,
            depth - 1,
            -beta,
            -alpha,
            child.white_to_move,
            bits,
            st,
        );
        let best2 = if -child_value > best {
            -child_value
        } else {
            best
        };
        let alpha2 = if best2 > alpha {
            best2
        } else {
            alpha
        };
        &&& alpha > i32::MIN
        &&& beta > i32::MIN
        &&& negamax_ok(child, depth - 1, -beta, -alpha, child.white_to_move, bits, st)
        &&& child_value > i32::MIN
        &&& (alpha2 < beta ==> negamax_from_ok(v, i + 1, depth, alpha2, beta, best2, bits, st2))
    }
}

/// The negamax search of a position to `depth` plies with the alpha-beta
/// window (`alpha`, `beta`) for the side `iswhite`, using and filling the
/// transposition table and counting the searched nodes.
pub fn negamax(
    bitboard: &CheckersBitboard,
    depth: i32,
    alpha: i32,
    beta: i32,
    iswhite: bool,
    nodes_counter: &mut i32,
    transposition_table: &mut TranspositionTable,
) -> (value: i32)
    requires
        depth >= 0,
        depth == 0 ==> (iswhite == bitboard.white_to_move || (if iswhite {
            bitboard.white_pieces | bitboard.white_kings
        } else {
            bitboard.black_pieces | bitboard.black_kings
        }) == 0),
        old(transposition_table).wf(),
        negamax_ok(
            bitboard@,
            depth as int,
            alpha as int,
            beta as int,
            iswhite,
            old(transposition_table).bitstrings(),
            state_of(*old(transposition_table), *old(nodes_counter)),
        ),
        negamax_spec(
            bitboard@,
            depth as int,
            alpha as int,
            beta as int,
            iswhite,
            old(transposition_table).bitstrings(),
            state_of(*old(transposition_table), *old(nodes_counter)),
        ).1.nodes <= i32::MAX,
        negamax_spec(
            bitboard@,
            depth as int,
            alpha as int,
            beta as int,
            iswhite,
            old(transposition_table).bitstrings(),
            state_of(*old(transposition_table), *old(nodes_counter)),
        ).1.hits <= u64::MAX,
    ensures
        (value as int, state_of(*final(transposition_table), *final(nodes_counter))) == negamax_spec(
            bitboard@,
            depth as int,
            alpha as int,
            beta as int,
            iswhite,
            old(transposition_table).bitstrings(),
            state_of(*old(transposition_table), *old(nodes_counter)),
        ),
        final(transposition_table).wf(),
        final(transposition_table).bitstrings() == old(transposition_table).bitstrings(),
    decreases depth,
{
    let ghost v = bitboard@;
    let ghost bits = transposition_table.bitstrings();
    let ghost st0 = state_of(*transposition_table, *nodes_counter);
    let ghost result = negamax_spec(v, depth as int, alpha as int, beta as int, iswhite, bits, st0);
    proof {
        lemma_negamax_counts(v, depth as int, alpha as int, beta as int, iswhite, bits, st0);
    }
    *nodes_counter += 1;
    let orginal_alpha = alpha;
    if depth == 0 {
        if bitboard.get_all_captures(iswhite).len() == 0 {
            let e = evaluation(bitboard);
            return if iswhite {
                e
            } else {
                -e
            };
        } else {
            proof {
                crate::board::lemma_size_bound(v);
            }
            return quiescence(bitboard, 2, alpha, beta, iswhite, nodes_counter);
        }
    }
    let ghost h = zobrist(bits, v);
    let ghost st1 = SearchState { nodes: st0.nodes + 1, ..st0 };
    let ghost hit = st1.entries.contains_key(h);
    let ghost st2 = SearchState {
        hits: st1.hits + if hit {
            1int
        } else {
            0int
        },
        ..st1
    };
    let ghost c = st2.entries[h];
    let ghost alpha_in = alpha as int;
    let ghost beta_in = beta as int;
    let mut alpha = alpha;
    let mut beta = beta;
    match transposition_table.get(bitboard) {
        Some(cached_position) => {
            if cached_position.depth as i32 >= depth {
                if cached_position.flag == flag::EXACT {
                    return cached_position.value;
                } else if cached_position.flag == flag::LOWERBOUND && cached_position.value
                    > alpha {
                    alpha = cached_position.value;
                } else if cached_position.flag == flag::UPPERBOUND && cached_position.value
                    < beta {
                    beta = cached_position.value;
                }
                if alpha >= beta {
                    return cached_position.value;
                }
            }
        },
        None => {},
    }
    proof {
        assert(state_of(*transposition_table, *nodes_counter) == st2);
        assert(h == transposition_table.hash_of(v));
        assert(alpha as int == raised_alpha(st2.entries, h, depth as int, alpha_in));
        assert(beta as int == lowered_beta(st2.entries, h, depth as int, beta_in));
        assert(!answers_from_cache(st2.entries, h, depth as int, alpha_in, beta_in));
        lemma_legal_moves_apply(v);
    }
    let child_nodes = bitboard.get_all_legal_moves();
    let ghost moves = v.legal_moves();
    let ghost a0 = alpha as int;
    let ghost b0 = beta as int;
    let ghost inner = negamax_from(v, 0, depth as int, a0, b0, -9999999, bits, st2);
    let mut best_value: i32 = -9999999;
    let n = child_nodes.len();
    let mut i: usize = 0;
    while i < n
        invariant_except_break
            negamax_from(
                v,
                i as int,
                depth as int,
                alpha as int,
                beta as int,
                best_value as int,
                bits,
                state_of(*transposition_table, *nodes_counter),
            ) == inner,
            negamax_from_ok(
                v,
                i as int,
                depth as int,
                alpha as int,
                beta as int,
                best_value as int,
                bits,
                state_of(*transposition_table, *nodes_counter),
            ),
        invariant
            v == bitboard@,
            moves == v.legal_moves(),
            move_steps(child_nodes@) == moves,
            n == moves.len(),
            0 <= i <= n,
            depth > 0,
            beta as int == b0,
            best_value >= -9999999,
            transposition_table.wf(),
            transposition_table.bitstrings() == bits,
            forall|j: int| 0 <= j < moves.len() ==> (#[trigger] v.after_steps(moves[j])) is Some,
            inner.1.nodes <= result.1.nodes,
            inner.1.hits <= result.1.hits,
            result.1.nodes <= i32::MAX,
            result.1.hits <= u64::MAX,
        ensures
            (best_value as int, state_of(*transposition_table, *nodes_counter)) == inner,
            best_value >= -9999999,
            transposition_table.wf(),
            transposition_table.bitstrings() == bits,
        decreases n - i,
    {
        let mut next_bitboard = *bitboard;
        proof {
            assert(child_nodes@[i as int]@ == moves[i as int]);
            assert(v.after_steps(moves[i as int]) is Some);
        }
        next_bitboard.apply_move(&child_nodes[i]);
        next_bitboard.white_to_move = !next_bitboard.white_to_move;
        let ghost child = v.play(moves[i as int]);
        let ghost st_i = state_of(*transposition_table, *nodes_counter);
        proof {
            assert(next_bitboard@ == child);
            lemma_negamax_from_counts(
                v,
                i as int + 1,
                depth as int,
                alpha as int,
                beta as int,
                best_value as int,
                bits,
                st_i,
            );
            let r = negamax_spec(child, depth - 1, -beta, -alpha, child.white_to_move, bits, st_i);
            let best2 = if -r.0 > best_value {
                -r.0
            } else {
                best_value as int
            };
            let alpha2 = if best2 > alpha {
                best2
            } else {
                alpha as int
            };
            if alpha2 < beta {
                lemma_negamax_from_counts(v, i + 1, depth as int, alpha2, beta as int, best2, bits, r.1);
            }
        }
        let child_value = -negamax(
            &next_bitboard,
            depth - 1,
            -beta,
            -alpha,
            next_bitboard.white_to_move,
            nodes_counter,
            transposition_table,
        );
        if child_value > best_value {
            best_value = child_value;
        }
        if best_value > alpha {
            alpha = best_value;
        }
        if alpha >= beta {
            break;
        }
        i = i + 1;
    }
    let flag_value = if best_value <= orginal_alpha {
        flag::UPPERBOUND
    } else if best_value >= beta {
        flag::LOWERBOUND
    } else {
        flag::EXACT
    };
    transposition_table.put(
        bitboard,
        CachedValue { value: best_value, depth: depth as u8, flag: flag_value },
    );
    best_value
}


/// The value of a position under captures alone, without pruning: the
/// evaluation from the side of `white` once `depth` reaches 0 or no capture
/// is left, else the best over the captures of minus the value after it.
pub open spec fn capture_value(v: BoardView, depth: int, white: bool) -> int
    decreases v.size(), 1int, 0int,
{
    if depth == 0 || v.all_captures(white).len() == 0 {
        side_sign(white) * evaluate(v)
    } else {
        capture_value_from(v, 0, depth, white, -999999)
    }
}

/// The best of `best` and the values of the captures from the `i`-th on.
pub open spec fn capture_value_from(v: BoardView, i: int, depth: int, white: bool, best: int) -> int
    decreases v.size(), 0int, v.all_captures(white).len() - i when white == v.white_to_move && 0 <= i
{
    let captures = v.all_captures(white);
    if i >= captures.len() {
        best
    } else {
        proof {
            lemma_all_captures_take(v);
            assert(takes_pieces(v, captures[i]));
        }
        let child = v.play(captures[i]);
        let child_value = -capture_value(child, depth - 1, child.white_to_move);
        capture_value_from(
            v,
            i + 1,
            depth,
            white,
            if child_value > best {
                child_value
            } else {
                best
            },
        )
    }
}

/// What a fail-soft search result `r` in the window (`alpha`, `beta`) says of
/// the true value `t`: at most `r` when `r` is at most `alpha`, at least `r`
/// when `r` is at least `beta`, and exactly `r` in between.
pub open spec fn bounds_value(r: int, t: int, alpha: int, beta: int) -> bool {
    &&& r <= alpha ==> t <= r
    &&& r >= beta ==> t >= r
    &&& alpha < r < beta ==> t == r
}

proof fn lemma_capture_value_from_at_least(v: BoardView, i: int, depth: int, white: bool, best: int)
    requires
        white == v.white_to_move,
        0 <= i,
    ensures
        capture_value_from(v, i, depth, white, best) >= best,
    decreases v.all_captures(white).len() - i,
{
    let captures = v.all_captures(white);
    if i < captures.len() {
        lemma_all_captures_take(v);
        assert(takes_pieces(v, captures[i]));
        let child = v.play(captures[i]);
        let child_value = -capture_value(child, depth - 1, child.white_to_move);
        lemma_capture_value_from_at_least(
            v,
            i + 1,
            depth,
            white,
            if child_value > best {
                child_value
            } else {
                best
            },
        );
    }
}

/// The loop of the quiescence search, from the `i`-th capture on, bounds the
/// capture value as a fail-soft alpha-beta search does, given what the
/// captures before `i` left: the best value so far is at least the true best
/// so far, equals it once above `alpha0`, and `alpha` is `alpha0` or it.
proof fn lemma_qsearch_from_bounds(
    v: BoardView,
    i: int,
    depth: int,
    alpha0: int,
    alpha: int,
    beta: int,
    white: bool,
    value: int,
    best: int,
)
    requires
        white == v.white_to_move,
        0 <= i,
        alpha0 < beta,
        alpha < beta,
        i == 0 ==> value == -999999 && best == -999999 && alpha == alpha0,
        i > 0 ==> {
            &&& value >= best
            &&& value > alpha0 ==> value == best
            &&& alpha == alpha0 || alpha == value
            &&& alpha >= alpha0
            &&& alpha >= value
        },
        i > 0 || v.all_captures(white).len() > 0,
    ensures
        bounds_value(
            qsearch_from(v, i, depth, alpha, beta, white, value),
            capture_value_from(v, i, depth, white, best),
            alpha0,
            beta,
        ),
    decreases v.size(), 0int, v.all_captures(white).len() - i,
{
    let captures = v.all_captures(white);
    if i < captures.len() {
        lemma_all_captures_take(v);
        assert(takes_pieces(v, captures[i]));
        let child = v.play(captures[i]);
        assert(child.size() < v.size());
        lemma_qsearch_bounds(child, depth - 1, -beta, -alpha, child.white_to_move);
        let c = qsearch(child, depth - 1, -beta, -alpha, child.white_to_move);
        let tc = capture_value(child, depth - 1, child.white_to_move);
        let value2 = if -c > value {
            -c
        } else {
            value
        };
        let alpha2 = if value2 > alpha {
            value2
        } else {
            alpha
        };
        let best2 = if -tc > best {
            -tc
        } else {
            best
        };
        if alpha2 >= beta {
            lemma_capture_value_from_at_least(v, i + 1, depth, white, best2);
        } else {
            lemma_qsearch_from_bounds(v, i + 1, depth, alpha0, alpha2, beta, white, value2, best2);
        }
    }
}

/// The evaluation of any position lies within 258816 of 0.
pub proof fn lemma_evaluate_bound(v: BoardView)
    ensures
        -258816 <= evaluate(v) <= 258816,
{
    lemma_worth_bound(v, 0, board_set(v, 0));
    lemma_worth_bound(v, 1, board_set(v, 1));
    lemma_worth_bound(v, 2, board_set(v, 2));
    lemma_worth_bound(v, 3, board_set(v, 3));
}

proof fn lemma_qsearch_from_range(
    v: BoardView,
    i: int,
    depth: int,
    alpha: int,
    beta: int,
    white: bool,
    value: int,
)
    requires
        white == v.white_to_move,
        0 <= i,
        -999999 <= value <= 999999,
    ensures
        -999999 <= qsearch_from(v, i, depth, alpha, beta, white, value) <= 999999,
    decreases v.size(), 0int, v.all_captures(white).len() - i,
{
    let captures = v.all_captures(white);
    if i < captures.len() {
        lemma_all_captures_take(v);
        assert(takes_pieces(v, captures[i]));
        let child = v.play(captures[i]);
        assert(child.size() < v.size());
        lemma_qsearch_range(child, depth - 1, -beta, -alpha, child.white_to_move);
        let c = qsearch(child, depth - 1, -beta, -alpha, child.white_to_move);
        let value2 = if -c > value {
            -c
        } else {
            value
        };
        let alpha2 = if value2 > alpha {
            value2
        } else {
            alpha
        };
        if alpha2 < beta {
            lemma_qsearch_from_range(v, i + 1, depth, alpha2, beta, white, value2);
        }
    }
}

/// A quiescence search of the side to move lies within 999999 of 0.
pub proof fn lemma_qsearch_range(v: BoardView, depth: int, alpha: int, beta: int, white: bool)
    requires
        white == v.white_to_move,
    ensures
        -999999 <= qsearch(v, depth, alpha, beta, white) <= 999999,
    decreases v.size(), 1int, 0int,
{
    lemma_evaluate_bound(v);
    if !(depth == 0 || v.all_captures(white).len() == 0) {
        lemma_qsearch_from_range(v, 0, depth, alpha, beta, white, -999999);
    }
}

/// The quiescence search is a fail-soft alpha-beta search of the capture
/// value: for a window with `alpha < beta`, a result at most `alpha` is an
/// upper bound of the capture value, one at least `beta` a lower bound, and
/// one in between is exact.
pub proof fn lemma_qsearch_bounds(v: BoardView, depth: int, alpha: int, beta: int, white: bool)
    requires
        white == v.white_to_move,
        alpha < beta,
    ensures
        bounds_value(qsearch(v, depth, alpha, beta, white), capture_value(v, depth, white), alpha, beta),
    decreases v.size(), 1int, 0int,
{
    if !(depth == 0 || v.all_captures(white).len() == 0) {
        lemma_qsearch_from_bounds(v, 0, depth, alpha, alpha, beta, white, -999999, -999999);
    }
}


/// A search of depth above 0 either answers from a cached entry of at
/// least its depth for the position (leaving the entries as they were), or
/// caches its value for the position at its depth.
pub proof fn lemma_negamax_caches(
    v: BoardView,
    depth: int,
    alpha: int,
    beta: int,
    white: bool,
    bits: Seq<u64>,
    st: SearchState,
)
    requires
        depth > 0,
    ensures
        ({
            let h = zobrist(bits, v);
            let r = negamax_spec(v, depth, alpha, beta, white, bits, st);
            ||| st.entries.contains_key(h) && st.entries[h].depth as int >= depth
                && r.0 == st.entries[h].value as int && r.1.entries == st.entries
            ||| r.1.entries.contains_key(h) && r.1.entries[h].value == r.0 as i32
                && r.1.entries[h].depth == depth as u8
        }),
{
}


/// A search of depth above 0 for a position with no cached entry caches,
/// under the hash of the position, its value at its depth with the flag of
/// that value in the window it was given.
pub proof fn lemma_negamax_caches_fresh(
    v: BoardView,
    depth: int,
    alpha: int,
    beta: int,
    white: bool,
    bits: Seq<u64>,
    st: SearchState,
)
    requires
        depth > 0,
        !st.entries.contains_key(zobrist(bits, v)),
    ensures
        ({
            let h = zobrist(bits, v);
            let r = negamax_spec(v, depth, alpha, beta, white, bits, st);
            &&& r.1.entries.contains_key(h)
            &&& r.1.entries[h] == CachedValue {
                value: r.0 as i32,
                depth: depth as u8,
                flag: bound_flag(r.0, alpha, beta),
            }
        }),
{
}

/// A search at depth 0 of a side without captures is the evaluation from
/// that side: it counts one node and leaves the table and its hit count as
/// they were.
pub proof fn lemma_negamax_leaf(
    v: BoardView,
    alpha: int,
    beta: int,
    white: bool,
    bits: Seq<u64>,
    st: SearchState,
)
    requires
        v.all_captures(white).len() == 0,
    ensures
        negamax_spec(v, 0, alpha, beta, white, bits, st) == (
            side_sign(white) * evaluate(v),
            SearchState { nodes: st.nodes + 1, ..st },
        ),
{
}

/// A quiescence search at depth 0, or of a side without captures, is the
/// evaluation from that side.
pub proof fn lemma_qsearch_leaf(v: BoardView, depth: int, alpha: int, beta: int, white: bool)
    requires
        depth == 0 || v.all_captures(white).len() == 0,
    ensures
        qsearch(v, depth, alpha, beta, white) == side_sign(white) * evaluate(v),
{
}

proof fn lemma_sum_union(s1: Set<int>, s2: Set<int>, g: spec_fn(int) -> int, n: int)
    requires
        s1.disjoint(s2),
    ensures
        sum_below(s1.union(s2), g, n) == sum_below(s1, g, n) + sum_below(s2, g, n),
    decreases n,
{
    if n > 0 {
        lemma_sum_union(s1, s2, g, n - 1);
        assert(!(s1.contains(n - 1) && s2.contains(n - 1)));
    }
}

/// The position whose pieces are those of two positions together.
pub open spec fn union_boards(a: BoardView, b: BoardView) -> BoardView {
    BoardView {
        white_men: a.white_men.union(b.white_men),
        white_kings: a.white_kings.union(b.white_kings),
        black_men: a.black_men.union(b.black_men),
        black_kings: a.black_kings.union(b.black_kings),
        white_to_move: a.white_to_move,
    }
}

/// Evaluation adds up over positions with no piece in common, whatever the
/// side to move, and the empty board is worth 0.
pub proof fn lemma_evaluate_adds(a: BoardView, b: BoardView, white_to_move: bool)
    requires
        a.white_men.disjoint(b.white_men),
        a.white_kings.disjoint(b.white_kings),
        a.black_men.disjoint(b.black_men),
        a.black_kings.disjoint(b.black_kings),
    ensures
        evaluate(BoardView { white_to_move, ..union_boards(a, b) }) == evaluate(a) + evaluate(b),
        evaluate(crate::board::empty_board(white_to_move)) == 0,
{
    let u = BoardView { white_to_move, ..union_boards(a, b) };
    assert forall|x: int| 0 <= x < 4 implies board_worth(u, x) == board_worth(a, x) + board_worth(
        b,
        x,
    ) by {
        assert(board_set(u, x) == board_set(a, x).union(board_set(b, x)));
        assert(board_set(a, x).disjoint(board_set(b, x)));
        lemma_sum_union(board_set(a, x), board_set(b, x), |s: int| piece_worth(x, s), 64);
    }
    assert(board_worth(u, 0) == board_worth(a, 0) + board_worth(b, 0));
    assert(board_worth(u, 1) == board_worth(a, 1) + board_worth(b, 1));
    assert(board_worth(u, 2) == board_worth(a, 2) + board_worth(b, 2));
    assert(board_worth(u, 3) == board_worth(a, 3) + board_worth(b, 3));
    let e = crate::board::empty_board(white_to_move);
    assert forall|x: int| 0 <= x < 4 implies board_worth(e, x) == 0 by {
        assert(board_set(e, x) == Set::<int>::empty());
        lemma_sum_empty(|s: int| piece_worth(x, s), 64);
    }
    assert(board_worth(e, 0) == 0 && board_worth(e, 1) == 0 && board_worth(e, 2) == 0
        && board_worth(e, 3) == 0);
}


/// The values of the first `n` legal moves at the root, each minus the
/// negamax search of the position after it to `depth - 1` with the window
/// (-99999, 99999), searched in order; and the state left behind.
pub open spec fn root_values(v: BoardView, depth: int, bits: Seq<u64>, st: SearchState, n: int) -> (
    Seq<int>,
    SearchState,
)
    decreases n,
{
    if n <= 0 {
        (seq![], st)
    } else {
        let (values, st) = root_values(v, depth, bits, st, n - 1);
        let child = v.play(v.legal_moves()[n - 1]);
        let (child_value, st) = negamax_spec(
            child,
            depth - 1,
            -99999,
            99999,
            child.white_to_move,
            bits,
            st,
        );
        (values.push(-child_value), st)
    }
}

/// Whether the root search negates only numbers above `i32::MIN` over its
/// first `n` moves: each search of a move is `negamax_ok` and returns a
/// value above `i32::MIN`.
pub open spec fn root_ok(v: BoardView, depth: int, bits: Seq<u64>, st: SearchState, n: int) -> bool
    decreases n,
{
    if n <= 0 {
        true
    } else {
        let st1 = root_values(v, depth, bits, st, n - 1).1;
        let child = v.play(v.legal_moves()[n - 1]);
        &&& root_ok(v, depth, bits, st, n - 1)
        &&& negamax_ok(child, depth - 1, -99999, 99999, child.white_to_move, bits, st1)
        &&& negamax_spec(child, depth - 1, -99999, 99999, child.white_to_move, bits, st1).0
            > i32::MIN
    }
}

proof fn lemma_root_ok_prefix(v: BoardView, depth: int, bits: Seq<u64>, st: SearchState, k: int, n: int)
    requires
        0 <= k <= n,
        root_ok(v, depth, bits, st, n),
    ensures
        root_ok(v, depth, bits, st, k),
    decreases n - k,
{
    if k < n {
        lemma_root_ok_prefix(v, depth, bits, st, k, n - 1);
    }
}

proof fn lemma_negamax_from_ok_when_negatable(
    v: BoardView,
    i: int,
    depth: int,
    alpha: int,
    beta: int,
    best: int,
    bits: Seq<u64>,
    st: SearchState,
)
    requires
        values_negatable(st.entries),
        i32::MIN < alpha <= i32::MAX,
        i32::MIN < beta <= i32::MAX,
        i32::MIN < best <= i32::MAX,
        0 <= i,
        depth > 0,
    ensures
        ({
            let r = negamax_from(v, i, depth, alpha, beta, best, bits, st);
            &&& negamax_from_ok(v, i, depth, alpha, beta, best, bits, st)
            &&& best <= r.0 <= i32::MAX
            &&& values_negatable(r.1.entries)
        }),
    decreases depth, 0int, v.legal_moves().len() - i,
{
    let moves = v.legal_moves();
    if i < moves.len() {
        let child = v.play(moves[i]);
        lemma_negamax_ok_when_negatable(
            child,
            depth - 1,
            -beta,
            -alpha,
            child.white_to_move,
            bits,
            st,
        );
        let (cv, st2) = negamax_spec(child, depth - 1, -beta, -alpha, child.white_to_move, bits, st);
        let best2 = if -cv > best {
            -cv
        } else {
            best
        };
        let alpha2 = if best2 > alpha {
            best2
        } else {
            alpha
        };
        if alpha2 < beta {
            lemma_negamax_from_ok_when_negatable(v, i + 1, depth, alpha2, beta, best2, bits, st2);
        }
    }
}

/// A table with no cached value `i32::MIN`, and a window of `i32` values
/// above `i32::MIN`, keep the search from negating `i32::MIN`: it is then
/// `negamax_ok`, its value is an `i32` above `i32::MIN`, and the table it
/// leaves holds no cached value `i32::MIN` either.
pub proof fn lemma_negamax_ok_when_negatable(
    v: BoardView,
    depth: int,
    alpha: int,
    beta: int,
    white: bool,
    bits: Seq<u64>,
    st: SearchState,
)
    requires
        values_negatable(st.entries),
        i32::MIN < alpha <= i32::MAX,
        i32::MIN < beta <= i32::MAX,
        depth <= 0 ==> white == v.white_to_move || v.all_captures(white).len() == 0,
    ensures
        ({
            let r = negamax_spec(v, depth, alpha, beta, white, bits, st);
            &&& negamax_ok(v, depth, alpha, beta, white, bits, st)
            &&& i32::MIN < r.0 <= i32::MAX
            &&& values_negatable(r.1.entries)
        }),
    decreases depth, 1int, 0int,
{
    if depth <= 0 {
        lemma_evaluate_bound(v);
        if v.all_captures(white).len() > 0 {
            lemma_qsearch_range(v, 2, alpha, beta, white);
        }
    } else {
        let st1 = SearchState { nodes: st.nodes + 1, ..st };
        let h = zobrist(bits, v);
        let st2 = SearchState {
            hits: st1.hits + if st1.entries.contains_key(h) {
                1int
            } else {
                0int
            },
            ..st1
        };
        if st2.entries.contains_key(h) {
            assert(st2.entries[h].value > i32::MIN);
        }
        let a = raised_alpha(st2.entries, h, depth, alpha);
        let b = lowered_beta(st2.entries, h, depth, beta);
        if !answers_from_cache(st2.entries, h, depth, alpha, beta) {
            lemma_negamax_from_ok_when_negatable(v, 0, depth, a, b, -9999999, bits, st2);
            let (best, st3) = negamax_from(v, 0, depth, a, b, -9999999, bits, st2);
            let entry = CachedValue {
                value: best as i32,
                depth: depth as u8,
                flag: bound_flag(best, alpha, b),
            };
            let e2 = st3.entries.insert(h, entry);
            assert forall|k: u64| #[trigger] e2.contains_key(k) implies e2[k].value > i32::MIN by {
                if k != h {
                    assert(st3.entries.contains_key(k));
                }
            }
        }
    }
}

/// A table with no cached value `i32::MIN` keeps the root search from
/// negating `i32::MIN` over its first `n` moves, and holds none after them.
pub proof fn lemma_root_ok_when_negatable(
    v: BoardView,
    depth: int,
    bits: Seq<u64>,
    st: SearchState,
    n: int,
)
    requires
        values_negatable(st.entries),
        depth >= 1,
        n <= v.legal_moves().len(),
    ensures
        root_ok(v, depth, bits, st, n),
        values_negatable(root_values(v, depth, bits, st, n).1.entries),
    decreases n,
{
    if n > 0 {
        lemma_root_ok_when_negatable(v, depth, bits, st, n - 1);
        let st1 = root_values(v, depth, bits, st, n - 1).1;
        let child = v.play(v.legal_moves()[n - 1]);
        lemma_negamax_ok_when_negatable(child, depth - 1, -99999, 99999, child.white_to_move, bits, st1);
    }
}

/// Whether `k` is the first index of a greatest value.
pub open spec fn is_first_best(values: Seq<int>, k: int) -> bool {
    &&& 0 <= k < values.len()
    &&& forall|j: int| 0 <= j < values.len() ==> values[j] <= values[k]
    &&& forall|j: int| 0 <= j < k ==> values[j] < values[k]
}

proof fn lemma_root_counts(v: BoardView, depth: int, bits: Seq<u64>, st: SearchState, k: int, n: int)
    requires
        0 <= k <= n,
    ensures
        root_values(v, depth, bits, st, k).1.nodes <= root_values(v, depth, bits, st, n).1.nodes,
        root_values(v, depth, bits, st, k).1.hits <= root_values(v, depth, bits, st, n).1.hits,
    decreases n - k,
{
    if k < n {
        lemma_root_counts(v, depth, bits, st, k, n - 1);
        let (values, st1) = root_values(v, depth, bits, st, n - 1);
        let child = v.play(v.legal_moves()[n - 1]);
        lemma_negamax_counts(child, depth - 1, -99999, 99999, child.white_to_move, bits, st1);
    }
}

/// The best move at the root: every legal move is valued by a negamax
/// search one ply shallower, from a node count of 0, and the first of the
/// greatest value is chosen. Returns the move, its value and the number of
/// searched nodes.
pub fn search_best_move(
    bitboard: &CheckersBitboard,
    depth: i32,
    transposition_table: &mut TranspositionTable,
) -> (r: (Move, i32, i32))
    requires
        depth >= 1,
        bitboard@.legal_moves().len() > 0,
        old(transposition_table).wf(),
        root_ok(
            bitboard@,
            depth as int,
            old(transposition_table).bitstrings(),
            state_of(*old(transposition_table), 0),
            bitboard@.legal_moves().len() as int,
        ),
        root_values(
            bitboard@,
            depth as int,
            old(transposition_table).bitstrings(),
            state_of(*old(transposition_table), 0),
            bitboard@.legal_moves().len() as int,
        ).1.nodes <= i32::MAX,
        root_values(
            bitboard@,
            depth as int,
            old(transposition_table).bitstrings(),
            state_of(*old(transposition_table), 0),
            bitboard@.legal_moves().len() as int,
        ).1.hits <= u64::MAX,
    ensures
        ({
            let (values, st) = root_values(
                bitboard@,
                depth as int,
                old(transposition_table).bitstrings(),
                state_of(*old(transposition_table), 0),
                bitboard@.legal_moves().len() as int,
            );
            exists|k: int|
                #![trigger values[k]]
                is_first_best(values, k) && r.0@ == bitboard@.legal_moves()[k] && r.1 == values[k]
                    && state_of(*final(transposition_table), r.2) == st
        }),
        final(transposition_table).wf(),
        final(transposition_table).bitstrings() == old(transposition_table).bitstrings(),
{
    let ghost v = bitboard@;
    let ghost bits = transposition_table.bitstrings();
    let ghost st0 = state_of(*transposition_table, 0);
    let mut moves = bitboard.get_all_legal_moves();
    let ghost legal = v.legal_moves();
    let n = moves.len();
    let ghost total = root_values(v, depth as int, bits, st0, n as int);
    proof {
        lemma_legal_moves_apply(v);
    }
    let mut values: Vec<i32> = Vec::new();
    let mut nodes: i32 = 0;
    let mut i: usize = 0;
    while i < n
        invariant
            v == bitboard@,
            legal == v.legal_moves(),
            move_steps(moves@) == legal,
            n == legal.len(),
            0 <= i <= n,
            values@.len() == i,
            depth >= 1,
            forall|j: int| 0 <= j < legal.len() ==> (#[trigger] v.after_steps(legal[j])) is Some,
            values@.map_values(|x: i32| x as int) == root_values(v, depth as int, bits, st0, i as int).0,
            state_of(*transposition_table, nodes) == root_values(v, depth as int, bits, st0, i as int).1,
            total == root_values(v, depth as int, bits, st0, n as int),
            total.1.nodes <= i32::MAX,
            total.1.hits <= u64::MAX,
            transposition_table.wf(),
            transposition_table.bitstrings() == bits,
            root_ok(v, depth as int, bits, st0, n as int),
        decreases n - i,
    {
        let mut next_bitboard = *bitboard;
        proof {
            assert(moves@[i as int]@ == legal[i as int]);
        }
        next_bitboard.apply_move(&moves[i]);
        next_bitboard.white_to_move = !next_bitboard.white_to_move;
        proof {
            lemma_root_counts(v, depth as int, bits, st0, i + 1, n as int);
            lemma_root_ok_prefix(v, depth as int, bits, st0, i + 1, n as int);
        }
        let child_value = -negamax(
            &next_bitboard,
            depth - 1,
            -99999,
            99999,
            next_bitboard.white_to_move,
            &mut nodes,
            transposition_table,
        );
        let ghost before = values@;
        values.push(child_value);
        proof {
            assert(values@.map_values(|x: i32| x as int) =~= before.map_values(|x: i32| x as int).push(
                child_value as int,
            ));
        }
        i = i + 1;
    }
    let ghost vals = total.0;
    proof {
        assert(vals == values@.map_values(|x: i32| x as int));
        assert(vals.len() == n);
    }
    let mut best: usize = 0;
    let mut j: usize = 1;
    while j < n
        invariant
            1 <= j <= n,
            n == values@.len(),
            vals == values@.map_values(|x: i32| x as int),
            0 <= best < j,
            forall|k: int| 0 <= k < j ==> vals[k] <= vals[best as int],
            forall|k: int| 0 <= k < best ==> vals[k] < vals[best as int],
        decreases n - j,
    {
        if values[j] > values[best] {
            best = j;
        }
        j = j + 1;
    }
    let value = values[best];
    let m = moves.remove(best);
    proof {
        assert(is_first_best(vals, best as int));
        assert(m@ == legal[best as int]);
        assert(vals[best as int] == value);
    }
    (m, value, nodes)
}

} // verus!
