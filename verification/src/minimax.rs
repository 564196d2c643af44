//! What the negamax search computes: the depth-limited game value of a
//! position, and the law that the search with its transposition table
//! bounds that value as a fail-soft alpha-beta search does.
use vstd::prelude::*;
use crate::board::BoardView;
use crate::algo::{
    SearchState, bound_flag, bounds_value, capture_value, evaluate, lemma_evaluate_bound,
    lemma_qsearch_bounds, lemma_qsearch_range, lowered_beta, negamax_from, negamax_spec,
    raised_alpha, side_sign, usable_entry,
};
use crate::transposition::{CachedValue, flag, zobrist};

verus! {

/// The depth-limited negamax value of a position for its side to move: at
/// depth 0 the evaluation from that side, or the value under captures when
/// it has one; deeper, -9999999 when there is no legal move, else the
/// greatest over the legal moves of minus the value of the position after
/// it, one ply shallower.
pub open spec fn minimax(v: BoardView, depth: int) -> int
    decreases depth, 1int, 0int,
{
    if depth <= 0 {
        if v.all_captures(v.white_to_move).len() == 0 {
            side_sign(v.white_to_move) * evaluate(v)
        } else {
            capture_value(v, 2, v.white_to_move)
        }
    } else {
        minimax_from(v, 0, depth, -9999999)
    }
}

/// The greatest of `best` and the values of the legal moves from the `i`-th on.
pub open spec fn minimax_from(v: BoardView, i: int, depth: int, best: int) -> int
    decreases depth, 0int, v.legal_moves().len() - i,
{
    let moves = v.legal_moves();
    if i < 0 || i >= moves.len() || depth <= 0 {
        best
    } else {
        let c = -minimax(v.play(moves[i]), depth - 1);
        minimax_from(
            v,
            i + 1,
            depth,
            if c > best {
                c
            } else {
                best
            },
        )
    }
}

/// Whether `path` is a line of play from `root`: each position after the
/// first follows from the one before by the legal move that `picks` names.
pub open spec fn is_line(root: BoardView, path: Seq<BoardView>, picks: Seq<int>) -> bool {
    &&& path.len() == picks.len() + 1
    &&& path[0] == root
    &&& forall|m: int|
        0 <= m < picks.len() ==> 0 <= #[trigger] picks[m] < path[m].legal_moves().len() && path[m
            + 1] == path[m].play(path[m].legal_moves()[picks[m]])
}

/// Whether `p` is reached from `root` by `k` legal moves.
pub open spec fn reached(root: BoardView, k: int, p: BoardView) -> bool {
    exists|path: Seq<BoardView>, picks: Seq<int>|
        #[trigger] is_line(root, path, picks) && picks.len() == k && path.last() == p
}

/// Whether two positions have the same pieces on the same squares.
pub open spec fn same_placement(p: BoardView, q: BoardView) -> bool {
    &&& p.white_men == q.white_men
    &&& p.white_kings == q.white_kings
    &&& p.black_men == q.black_men
    &&& p.black_kings == q.black_kings
}

/// Whether, among the positions reached from `root` within `depth` moves,
/// the hash under `bits` tells placements apart, and each placement is
/// reached after one number of moves only.
pub open spec fn search_separated(root: BoardView, depth: int, bits: Seq<u64>) -> bool {
    &&& forall|p: BoardView, q: BoardView, k1: int, k2: int|
        #![trigger reached(root, k1, p), reached(root, k2, q)]
        0 <= k1 <= depth && 0 <= k2 <= depth && reached(root, k1, p) && reached(root, k2, q)
            && zobrist(bits, p) == zobrist(bits, q) ==> same_placement(p, q)
    &&& forall|p: BoardView, q: BoardView, k1: int, k2: int|
        #![trigger reached(root, k1, p), reached(root, k2, q)]
        0 <= k1 <= depth && 0 <= k2 <= depth && reached(root, k1, p) && reached(root, k2, q)
            && same_placement(p, q) ==> k1 == k2
}

/// What a cached entry says of a value `t`, by its flag.
pub open spec fn bounds_by_flag(c: CachedValue, t: int) -> bool {
    &&& c.flag == flag::EXACT ==> t == c.value
    &&& c.flag == flag::LOWERBOUND ==> t >= c.value
    &&& c.flag == flag::UPPERBOUND ==> t <= c.value
}

/// Whether the entry `c` under `key` is right: it was searched for a
/// position reached from `root` whose hash is `key`, at the depth left
/// there, and its flag holds of that position's value.
pub open spec fn entry_sound(
    root: BoardView,
    depth: int,
    bits: Seq<u64>,
    key: u64,
    c: CachedValue,
) -> bool {
    exists|p: BoardView, k: int|
        #![trigger reached(root, k, p)]
        0 <= k < depth && reached(root, k, p) && zobrist(bits, p) == key && c.depth as int
            == depth - k && -9999999 <= c.value <= 9999999 && bounds_by_flag(c, minimax(p, depth - k))
}

/// Whether every entry of a table is right.
pub open spec fn table_sound(
    root: BoardView,
    depth: int,
    bits: Seq<u64>,
    entries: Map<u64, CachedValue>,
) -> bool {
    forall|key: u64| #[trigger]
        entries.contains_key(key) ==> entry_sound(root, depth, bits, key, entries[key])
}

proof fn lemma_after_steps_side(v: BoardView, steps: Seq<(u8, u8)>)
    ensures
        v.after_steps(steps) is Some ==> v.after_steps(steps).unwrap().white_to_move
            == v.white_to_move,
    decreases steps.len(),
{
    if steps.len() > 0 {
        match v.step(steps[0].0 as int, steps[0].1 as int) {
            Some(n) => {
                lemma_after_steps_side(n, steps.drop_first());
            },
            None => {},
        }
    }
}

proof fn lemma_line_side(root: BoardView, path: Seq<BoardView>, picks: Seq<int>, m: int)
    requires
        is_line(root, path, picks),
        0 <= m <= picks.len(),
    ensures
        path[m].white_to_move == (if m % 2 == 0 {
            root.white_to_move
        } else {
            !root.white_to_move
        }),
    decreases m,
{
    if m > 0 {
        lemma_line_side(root, path, picks, m - 1);
        let q = path[m - 1];
        let j = picks[m - 1];
        crate::movegen::lemma_legal_moves_apply(q);
        assert(q.after_steps(q.legal_moves()[j]) is Some);
        lemma_after_steps_side(q, q.legal_moves()[j]);
    }
}

/// Each move passes the turn: after `k` moves the side to move is the
/// root's when `k` is even.
proof fn lemma_reached_side(root: BoardView, k: int, p: BoardView)
    requires
        reached(root, k, p),
    ensures
        p.white_to_move == (if k % 2 == 0 {
            root.white_to_move
        } else {
            !root.white_to_move
        }),
{
    let (path, picks) = choose|path: Seq<BoardView>, picks: Seq<int>|
        #[trigger] is_line(root, path, picks) && picks.len() == k && path.last() == p;
    lemma_line_side(root, path, picks, k);
}

/// The root is reached by no move.
proof fn lemma_reached_root(root: BoardView)
    ensures
        reached(root, 0, root),
{
    let path = seq![root];
    let picks = Seq::<int>::empty();
    assert(is_line(root, path, picks));
}

/// One more legal move reaches one move further.
proof fn lemma_reached_step(root: BoardView, k: int, p: BoardView, i: int)
    requires
        reached(root, k, p),
        0 <= i < p.legal_moves().len(),
    ensures
        reached(root, k + 1, p.play(p.legal_moves()[i])),
{
    let (path, picks) = choose|path: Seq<BoardView>, picks: Seq<int>|
        #[trigger] is_line(root, path, picks) && picks.len() == k && path.last() == p;
    let c = p.play(p.legal_moves()[i]);
    let path2 = path.push(c);
    let picks2 = picks.push(i);
    assert forall|m: int| 0 <= m < picks2.len() implies 0 <= #[trigger] picks2[m]
        < path2[m].legal_moves().len() && path2[m + 1] == path2[m].play(
        path2[m].legal_moves()[picks2[m]],
    ) by {
        if m < picks.len() {
            assert(picks2[m] == picks[m]);
            assert(path2[m] == path[m]);
            assert(path2[m + 1] == path[m + 1]);
        } else {
            assert(m == k);
            assert(path2[m] == p);
        }
    }
    assert(is_line(root, path2, picks2));
    assert(path2.last() == c);
}

proof fn lemma_capture_value_from_range(v: BoardView, i: int, depth: int, white: bool, best: int)
    requires
        white == v.white_to_move,
        0 <= i,
        -999999 <= best <= 999999,
    ensures
        -999999 <= crate::algo::capture_value_from(v, i, depth, white, best) <= 999999,
    decreases v.size(), 0int, v.all_captures(white).len() - i,
{
    let captures = v.all_captures(white);
    if i < captures.len() {
        crate::movegen::lemma_all_captures_take(v);
        assert(crate::movegen::takes_pieces(v, captures[i]));
        let child = v.play(captures[i]);
        lemma_capture_value_range(child, depth - 1, child.white_to_move);
        let cv = -capture_value(child, depth - 1, child.white_to_move);
        lemma_capture_value_from_range(
            v,
            i + 1,
            depth,
            white,
            if cv > best {
                cv
            } else {
                best
            },
        );
    }
}

/// The value under captures lies within 999999 of 0.
proof fn lemma_capture_value_range(v: BoardView, depth: int, white: bool)
    requires
        white == v.white_to_move,
    ensures
        -999999 <= capture_value(v, depth, white) <= 999999,
    decreases v.size(), 1int, 0int,
{
    lemma_evaluate_bound(v);
    if !(depth == 0 || v.all_captures(white).len() == 0) {
        lemma_capture_value_from_range(v, 0, depth, white, -999999);
    }
}

proof fn lemma_minimax_from_range(v: BoardView, i: int, depth: int, best: int)
    requires
        0 <= i,
        -9999999 <= best <= 9999999,
    ensures
        -9999999 <= minimax_from(v, i, depth, best) <= 9999999,
    decreases depth, 0int, v.legal_moves().len() - i,
{
    let moves = v.legal_moves();
    if i < moves.len() && depth > 0 {
        lemma_minimax_range(v.play(moves[i]), depth - 1);
        let c = -minimax(v.play(moves[i]), depth - 1);
        lemma_minimax_from_range(
            v,
            i + 1,
            depth,
            if c > best {
                c
            } else {
                best
            },
        );
    }
}

/// The depth-limited value lies within 9999999 of 0.
proof fn lemma_minimax_range(v: BoardView, depth: int)
    ensures
        -9999999 <= minimax(v, depth) <= 9999999,
    decreases depth, 1int, 0int,
{
    if depth <= 0 {
        lemma_evaluate_bound(v);
        lemma_capture_value_range(v, 2, v.white_to_move);
    } else {
        lemma_minimax_from_range(v, 0, depth, -9999999);
    }
}

proof fn lemma_minimax_from_at_least(v: BoardView, i: int, depth: int, best: int)
    requires
        0 <= i,
    ensures
        minimax_from(v, i, depth, best) >= best,
    decreases v.legal_moves().len() - i,
{
    let moves = v.legal_moves();
    if i < moves.len() && depth > 0 {
        let c = -minimax(v.play(moves[i]), depth - 1);
        lemma_minimax_from_at_least(
            v,
            i + 1,
            depth,
            if c > best {
                c
            } else {
                best
            },
        );
    }
}

/// A fail-soft result for the window (`a`, `b`), where `a` and `b` are the
/// window (`alpha`, `beta`) narrowed by a true bound of `t`, bounds `t` for
/// the window (`alpha`, `beta`) too, and is cached with a right flag.
proof fn lemma_window_narrowed(best: int, t: int, alpha: int, beta: int, a: int, b: int)
    requires
        a < b,
        a == alpha || (a > alpha && t >= a),
        b == beta || (b < beta && t <= b),
        bounds_value(best, t, a, b),
    ensures
        bounds_value(best, t, alpha, beta),
        bound_flag(best, alpha, b) == flag::EXACT ==> t == best,
        bound_flag(best, alpha, b) == flag::LOWERBOUND ==> t >= best,
        bound_flag(best, alpha, b) == flag::UPPERBOUND ==> t <= best,
{
}

/// The search over the legal moves from the `i`-th on bounds the greatest
/// of their values as a fail-soft alpha-beta search, given what the moves
/// before `i` left, and keeps the table right.
proof fn lemma_search_from_bounds(
    root: BoardView,
    depth: int,
    bits: Seq<u64>,
    p: BoardView,
    k: int,
    i: int,
    alpha0: int,
    alpha: int,
    beta: int,
    value: int,
    best: int,
    st: SearchState,
)
    requires
        search_separated(root, depth, bits),
        depth <= 255,
        0 <= k < depth,
        reached(root, k, p),
        0 <= i,
        alpha0 < beta,
        alpha < beta,
        i == 0 ==> value == -9999999 && best == -9999999 && alpha == alpha0,
        i > 0 ==> {
            &&& value >= best
            &&& value > alpha0 ==> value == best
            &&& alpha == alpha0 || alpha == value
            &&& alpha >= alpha0
            &&& alpha >= value
        },
        -9999999 <= value <= 9999999,
        -9999999 <= best <= 9999999,
        table_sound(root, depth, bits, st.entries),
    ensures
        ({
            let r = negamax_from(p, i, depth - k, alpha, beta, value, bits, st);
            &&& bounds_value(r.0, minimax_from(p, i, depth - k, best), alpha0, beta)
            &&& -9999999 <= r.0 <= 9999999
            &&& table_sound(root, depth, bits, r.1.entries)
        }),
    decreases depth - k, 0int, p.legal_moves().len() - i,
{
    let moves = p.legal_moves();
    let d = depth - k;
    if i < moves.len() {
        let child = p.play(moves[i]);
        lemma_reached_step(root, k, p, i);
        lemma_minimax_range(child, d - 1);
        lemma_search_bounds(root, depth, bits, child, k + 1, -beta, -alpha, st);
        let (cv, st2) = negamax_spec(child, d - 1, -beta, -alpha, child.white_to_move, bits, st);
        let tc = minimax(child, d - 1);
        let value2 = if -cv > value {
            -cv
        } else {
            value
        };
        let alpha2 = if value2 > alpha {
            value2
        } else {
            alpha
        };
        let best2 = if -tc > best {
            -tc
        } else {
            best
        };
        assert(-9999999 <= best2 <= 9999999) by {
            assert(-9999999 <= cv <= 9999999);
            if -tc > best {
                if cv <= -beta {
                    assert(tc <= cv);
                } else if cv >= -alpha {
                    assert(tc >= cv);
                } else {
                    assert(tc == cv);
                }
            }
        }
        if alpha2 >= beta {
            lemma_minimax_from_at_least(p, i + 1, d, best2);
        } else {
            lemma_search_from_bounds(
                root,
                depth,
                bits,
                p,
                k,
                i + 1,
                alpha0,
                alpha2,
                beta,
                value2,
                best2,
                st2,
            );
        }
    }
}

/// The search of a position reached after `k` moves, with `depth - k` plies
/// left, bounds its value as a fail-soft alpha-beta search and keeps the
/// table right.
proof fn lemma_search_bounds(
    root: BoardView,
    depth: int,
    bits: Seq<u64>,
    p: BoardView,
    k: int,
    alpha: int,
    beta: int,
    st: SearchState,
)
    requires
        search_separated(root, depth, bits),
        depth <= 255,
        0 <= k <= depth,
        reached(root, k, p),
        alpha < beta,
        table_sound(root, depth, bits, st.entries),
    ensures
        ({
            let r = negamax_spec(p, depth - k, alpha, beta, p.white_to_move, bits, st);
            &&& bounds_value(r.0, minimax(p, depth - k), alpha, beta)
            &&& -9999999 <= r.0 <= 9999999
            &&& table_sound(root, depth, bits, r.1.entries)
        }),
    decreases depth - k, 1int,
{
    let d = depth - k;
    let w = p.white_to_move;
    if d <= 0 {
        lemma_evaluate_bound(p);
        if p.all_captures(w).len() > 0 {
            lemma_qsearch_bounds(p, 2, alpha, beta, w);
            lemma_qsearch_range(p, 2, alpha, beta, w);
        }
    } else {
        let st1 = SearchState { nodes: st.nodes + 1, ..st };
        let h = zobrist(bits, p);
        let hit = st1.entries.contains_key(h);
        let st2 = SearchState {
            hits: st1.hits + if hit {
                1int
            } else {
                0int
            },
            ..st1
        };
        let c = st2.entries[h];
        let t = minimax(p, d);
        if hit {
            assert(entry_sound(root, depth, bits, h, c));
            let (q, kq) = choose|q: BoardView, kq: int|
                #![trigger reached(root, kq, q)]
                0 <= kq < depth && reached(root, kq, q) && zobrist(bits, q) == h && c.depth as int
                    == depth - kq && -9999999 <= c.value <= 9999999 && bounds_by_flag(
                    c,
                    minimax(q, depth - kq),
                );
            assert(same_placement(q, p));
            assert(kq == k);
            lemma_reached_side(root, k, p);
            lemma_reached_side(root, kq, q);
            assert(q == p);
            assert(usable_entry(st2.entries, h, d));
            assert(bounds_by_flag(c, t));
        }
        let usable = usable_entry(st2.entries, h, d);
        let a = raised_alpha(st2.entries, h, d, alpha);
        let b = lowered_beta(st2.entries, h, d, beta);
        if usable && c.flag == flag::EXACT {
        } else if usable && a >= b {
        } else {
            assert(a < b);
            lemma_search_from_bounds(root, depth, bits, p, k, 0, a, a, b, -9999999, -9999999, st2);
            let (best, st3) = negamax_from(p, 0, d, a, b, -9999999, bits, st2);
            assert(t == minimax_from(p, 0, d, -9999999));
            lemma_window_narrowed(best, t, alpha, beta, a, b);
            let entry = CachedValue {
                value: best as i32,
                depth: d as u8,
                flag: bound_flag(best, alpha, b),
            };
            assert(entry.value as int == best);
            assert(entry.depth as int == d);
            assert(bounds_by_flag(entry, t));
            assert(entry_sound(root, depth, bits, h, entry));
            let e2 = st3.entries.insert(h, entry);
            assert forall|key: u64| #[trigger] e2.contains_key(key) implies entry_sound(
                root,
                depth,
                bits,
                key,
                e2[key],
            ) by {
                if key != h {
                    assert(st3.entries.contains_key(key));
                }
            }
        }
    }
}

/// The negamax search, started on an empty table with at most 255 plies,
/// is a fail-soft alpha-beta search of the depth-limited value: for a
/// window with `alpha < beta`, a result at most `alpha` is an upper bound
/// of the value, one at least `beta` a lower bound, and one in between is
/// the value. This holds where the hash tells apart the placements reached
/// within `depth` moves and no placement is reached after two different
/// numbers of moves.
pub proof fn lemma_negamax_bounds_minimax(
    v: BoardView,
    depth: int,
    alpha: int,
    beta: int,
    bits: Seq<u64>,
    st: SearchState,
)
    requires
        0 <= depth <= 255,
        alpha < beta,
        st.entries == Map::<u64, CachedValue>::empty(),
        search_separated(v, depth, bits),
    ensures
        bounds_value(
            negamax_spec(v, depth, alpha, beta, v.white_to_move, bits, st).0,
            minimax(v, depth),
            alpha,
            beta,
        ),
{
    lemma_reached_root(v);
    lemma_search_bounds(v, depth, bits, v, 0, alpha, beta, st);
}

} // verus!
