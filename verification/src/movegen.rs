//! Move generation: the steps of each piece, the capture chains, and the
//! legal moves with forced taking.
use vstd::prelude::*;
use crate::board::{
    BoardView, CheckersBitboard, Move, move_steps, gather, lemma_gather_skip, lemma_gather_empty,
    lemma_gather_all, count_below, lemma_count_remove, lemma_count_insert, lemma_gather_contains,
    lemma_gather_member, lemma_gather_descending,
};
use crate::generation::{step_target, jump_target, step_mask, jump_mask, lemma_jump_target_geometry};
use crate::squares::{
    square_mask, has_square, square_set, lemma_combine_square, lemma_highest_square, highest_square,
};
use crate::utils::lsb_idx;

verus! {

impl BoardView {
    /// The class under which the piece on `s` moves: 2 for a king of either
    /// colour, else 0 for a white man and 1 for a black man.
    pub open spec fn piece_class(self, s: int, white: bool) -> int {
        if self.kings().contains(s) {
            2
        } else if white {
            0
        } else {
            1
        }
    }

    /// The one-step moves of the piece of colour `white` on `s` to empty
    /// squares, highest target first.
    pub open spec fn quiet_moves_from(self, white: bool, s: int) -> Seq<Seq<(u8, u8)>> {
        if self.side(white).contains(s) {
            gather(
                |e: int|
                    if step_target(self.piece_class(s, white), s, e) && !self.occupied().contains(
                        e,
                    ) {
                        seq![seq![(s as u8, e as u8)]]
                    } else {
                        seq![]
                    },
                0,
                64,
            )
        } else {
            seq![]
        }
    }

    /// All non-capturing moves of colour `white`, by the highest square of
    /// the moving piece first.
    pub open spec fn quiet_moves(self, white: bool) -> Seq<Seq<(u8, u8)>> {
        gather(|s: int| self.quiet_moves_from(white, s), 0, 64)
    }

    /// Whether the piece of colour `white` on `sq` can jump to `e`: a jump
    /// target of its class, empty, with a piece of the other colour on the
    /// middle square.
    pub open spec fn jump_available(self, sq: int, white: bool, e: int) -> bool {
        &&& jump_target(self.piece_class(sq, white), sq, e)
        &&& !self.occupied().contains(e)
        &&& self.side(!white).contains((sq + e) / 2)
    }

    /// Every capture move of colour `white`: the capture chains of each of
    /// its pieces, from the highest square down.
    pub open spec fn all_captures(self, white: bool) -> Seq<Seq<(u8, u8)>> {
        gather(|s: int| capture_chains(self, s, white).unwrap(), 0, 64)
    }

    /// The legal moves of the side to move: its captures where it has any
    /// (taking is forced), else its non-capturing moves.
    pub open spec fn legal_moves(self) -> Seq<Seq<(u8, u8)>> {
        let captures = self.all_captures(self.white_to_move);
        if captures.len() > 0 {
            captures
        } else {
            self.quiet_moves(self.white_to_move)
        }
    }
}

/// Both lists one after the other, or `None` where either is `None`.
pub open spec fn join<T>(a: Option<Seq<T>>, b: Option<Seq<T>>) -> Option<Seq<T>> {
    match (a, b) {
        (Some(x), Some(y)) => Some(x + y),
        _ => None,
    }
}

/// The capture chains of the piece of colour `white` on `sq`, as lists of
/// steps; `None` where following them would ask a move of a piece that the
/// side to move does not have.
///
/// For each available jump, highest target first: the jump alone when no
/// further capture follows from the target or the target is on the first
/// or last row, else the jump followed by each chain from the target.
pub open spec fn capture_chains(v: BoardView, sq: int, white: bool) -> Option<Seq<Seq<(u8, u8)>>>
    decreases v.size(), 65int,
{
    if 0 <= sq < 64 && v.side(white).contains(sq) {
        chains_below(v, sq, white, 64)
    } else {
        Some(seq![])
    }
}

/// The chains of `capture_chains` through jump targets below `k`, highest first.
pub open spec fn chains_below(v: BoardView, sq: int, white: bool, k: int) -> Option<
    Seq<Seq<(u8, u8)>>,
>
    decreases v.size(), k,
{
    if k <= 0 {
        Some(seq![])
    } else {
        join(chains_through(v, sq, white, k - 1), chains_below(v, sq, white, k - 1))
    }
}

/// The chains of `capture_chains` that start with the jump to `e`.
pub open spec fn chains_through(v: BoardView, sq: int, white: bool, e: int) -> Option<
    Seq<Seq<(u8, u8)>>,
>
    decreases v.size(), e,
{
    if !(0 <= sq < 64 && v.jump_available(sq, white, e)) {
        Some(seq![])
    } else if !v.can_move_from(sq) {
        None
    } else {
        let next = v.moved(sq, e);
        proof {
            lemma_jump_shrinks(v, sq, white, e);
        }
        match capture_chains(next, e, white) {
            Some(sub) => Some(
                if sub.len() == 0 || e / 8 == 0 || e / 8 == 7 {
                    seq![seq![(sq as u8, e as u8)]]
                } else {
                    sub.map_values(|t: Seq<(u8, u8)>| seq![(sq as u8, e as u8)] + t)
                },
            ),
            None => None,
        }
    }
}

proof fn lemma_count_difference(s: Set<int>, j: Set<int>, m: int)
    requires
        j == Set::<int>::empty().insert(m),
    ensures
        count_below(s.difference(j), 64) + (if 0 <= m < 64 && s.contains(m) {
            1nat
        } else {
            0nat
        }) == count_below(s, 64),
{
    assert(s.difference(j) =~= s.remove(m));
    lemma_count_remove(s, m, 64);
}

/// Jump targets between `e` and `b` that offer nothing can be skipped.
proof fn lemma_chains_skip(v: BoardView, sq: int, white: bool, e: int, b: int)
    requires
        0 <= e < b,
        forall|x: int| e < x < b ==> #[trigger] chains_through(v, sq, white, x) == Some(
            Seq::<Seq<(u8, u8)>>::empty(),
        ),
    ensures
        chains_below(v, sq, white, b) == join(
            chains_through(v, sq, white, e),
            chains_below(v, sq, white, e),
        ),
    decreases b - e,
{
    if b - 1 > e {
        lemma_chains_skip(v, sq, white, e, b - 1);
        assert(chains_through(v, sq, white, b - 1) == Some(Seq::<Seq<(u8, u8)>>::empty()));
        match chains_below(v, sq, white, b - 1) {
            Some(r) => {
                assert(Seq::<Seq<(u8, u8)>>::empty() + r =~= r);
            },
            None => {},
        }
    }
}

/// Jump targets below `b` that offer nothing give no chains.
proof fn lemma_chains_none_below(v: BoardView, sq: int, white: bool, b: int)
    requires
        forall|x: int| 0 <= x < b ==> #[trigger] chains_through(v, sq, white, x) == Some(
            Seq::<Seq<(u8, u8)>>::empty(),
        ),
    ensures
        chains_below(v, sq, white, b) == Some(Seq::<Seq<(u8, u8)>>::empty()),
    decreases b,
{
    if b > 0 {
        lemma_chains_none_below(v, sq, white, b - 1);
        assert(chains_through(v, sq, white, b - 1) == Some(Seq::<Seq<(u8, u8)>>::empty()));
        assert(Seq::<Seq<(u8, u8)>>::empty() + Seq::<Seq<(u8, u8)>>::empty() =~= Seq::<
            Seq<(u8, u8)>,
        >::empty());
    }
}

/// A jump by a piece of the side to move takes at least one piece off.
pub proof fn lemma_jump_shrinks(v: BoardView, sq: int, white: bool, e: int)
    requires
        0 <= sq < 64,
        v.jump_available(sq, white, e),
        v.can_move_from(sq),
    ensures
        v.moved(sq, e).size() < v.size(),
{
    let m = (sq + e) / 2;
    let j = BoardView::jumped(sq, e);
    assert(sq - e > 9 || e - sq > 9);
    assert(j == Set::<int>::empty().insert(m));
    assert(m != sq && m != e && 0 <= m < 64);
    let n = v.moved(sq, e);
    let wm = v.white_men;
    let wk = v.white_kings;
    let bm = v.black_men;
    let bk = v.black_kings;
    assert(!wm.contains(e) && !wk.contains(e) && !bm.contains(e) && !bk.contains(e));
    assert(wm.contains(m) || wk.contains(m) || bm.contains(m) || bk.contains(m));
    lemma_count_remove(wm, sq, 64);
    lemma_count_remove(wk, sq, 64);
    lemma_count_remove(bm, sq, 64);
    lemma_count_remove(bk, sq, 64);
    lemma_count_insert(wm.remove(sq), e, 64);
    lemma_count_insert(wk.remove(sq), e, 64);
    lemma_count_insert(bm.remove(sq), e, 64);
    lemma_count_insert(bk.remove(sq), e, 64);
    lemma_count_insert(wk, e, 64);
    lemma_count_insert(bk, e, 64);
    lemma_count_difference(wm, j, m);
    lemma_count_difference(wk, j, m);
    lemma_count_difference(bm, j, m);
    lemma_count_difference(bk, j, m);
    lemma_count_difference(wm.remove(sq), j, m);
    lemma_count_difference(wk.remove(sq), j, m);
    lemma_count_difference(bm.remove(sq), j, m);
    lemma_count_difference(bk.remove(sq), j, m);
    lemma_count_difference(wm.remove(sq).insert(e), j, m);
    lemma_count_difference(wk.remove(sq).insert(e), j, m);
    lemma_count_difference(bm.remove(sq).insert(e), j, m);
    lemma_count_difference(bk.remove(sq).insert(e), j, m);
    lemma_count_difference(wk.insert(e), j, m);
    lemma_count_difference(bk.insert(e), j, m);
}

/// When the colour asked for is the side to move, following the capture
/// chains never asks for a missing piece.
pub proof fn lemma_chains_defined(v: BoardView, sq: int, white: bool, k: int)
    requires
        white == v.white_to_move,
        0 <= sq < 64,
        v.side(white).contains(sq),
    ensures
        chains_below(v, sq, white, k) is Some,
    decreases v.size(), k,
{
    if k > 0 {
        lemma_chains_defined(v, sq, white, k - 1);
        let e = k - 1;
        if v.jump_available(sq, white, e) {
            assert(v.can_move_from(sq));
            lemma_jump_shrinks(v, sq, white, e);
            let n = v.moved(sq, e);
            assert(n.white_to_move == white);
            assert(n.side(white).contains(e));
            assert(0 <= e < 64);
            lemma_chains_defined(n, e, white, 64);
            assert(capture_chains(n, e, white) == chains_below(n, e, white, 64));
            assert(chains_through(v, sq, white, e) is Some);
        } else {
            assert(chains_through(v, sq, white, e) == Some(Seq::<Seq<(u8, u8)>>::empty()));
        }
    }
}

/// The capture chains of a piece of the side to move are always defined.
pub proof fn lemma_capture_chains_defined(v: BoardView, sq: int, white: bool)
    requires
        white == v.white_to_move,
    ensures
        capture_chains(v, sq, white) is Some,
{
    if 0 <= sq < 64 && v.side(white).contains(sq) {
        lemma_chains_defined(v, sq, white, 64);
    }
}

/// Whether making the steps of `c` on `v` succeeds and takes pieces off,
/// with the same side to move.
pub open spec fn takes_pieces(v: BoardView, c: Seq<(u8, u8)>) -> bool {
    &&& v.after_steps(c) is Some
    &&& v.after_steps(c).unwrap().size() < v.size()
    &&& v.after_steps(c).unwrap().white_to_move == v.white_to_move
}

/// Every capture chain through a jump to `e` takes pieces off.
proof fn lemma_chains_through_take(v: BoardView, sq: int, white: bool, e: int)
    requires
        white == v.white_to_move,
        0 <= sq < 64,
        v.side(white).contains(sq),
        chains_through(v, sq, white, e) is Some,
    ensures
        forall|j: int| 0 <= j < chains_through(v, sq, white, e).unwrap().len() ==> #[trigger] takes_pieces(
            v,
            chains_through(v, sq, white, e).unwrap()[j],
        ),
    decreases v.size(), e,
{
    if v.jump_available(sq, white, e) {
        lemma_jump_shrinks(v, sq, white, e);
        let n = v.moved(sq, e);
        let first = seq![(sq as u8, e as u8)];
        assert(v.step(sq, e) == Some(n));
        assert(n.white_to_move == white);
        assert(n.side(white).contains(e));
        assert(0 <= e < 64);
        lemma_capture_chains_take(n, e, white);
        let sub = capture_chains(n, e, white).unwrap();
        let r = chains_through(v, sq, white, e).unwrap();
        assert(n.after_steps(Seq::<(u8, u8)>::empty()) == Some(n));
        assert(first.drop_first() =~= Seq::<(u8, u8)>::empty());
        assert(v.after_steps(first) == n.after_steps(first.drop_first()));
        assert forall|j: int| 0 <= j < r.len() implies #[trigger] takes_pieces(v, r[j]) by {
            if sub.len() == 0 || e / 8 == 0 || e / 8 == 7 {
                assert(r[j] == first);
            } else {
                let t = sub[j];
                assert(r[j] == first + t);
                assert((first + t)[0] == (sq as u8, e as u8));
                assert((first + t).drop_first() =~= t);
                assert(takes_pieces(n, t));
            }
        }
    }
}

/// Every capture chain below `k` takes pieces off.
proof fn lemma_chains_below_take(v: BoardView, sq: int, white: bool, k: int)
    requires
        white == v.white_to_move,
        0 <= sq < 64,
        v.side(white).contains(sq),
        chains_below(v, sq, white, k) is Some,
    ensures
        forall|j: int| 0 <= j < chains_below(v, sq, white, k).unwrap().len() ==> #[trigger] takes_pieces(
            v,
            chains_below(v, sq, white, k).unwrap()[j],
        ),
    decreases v.size(), k,
{
    if k > 0 {
        lemma_chains_through_take(v, sq, white, k - 1);
        lemma_chains_below_take(v, sq, white, k - 1);
        let a = chains_through(v, sq, white, k - 1).unwrap();
        let b = chains_below(v, sq, white, k - 1).unwrap();
        assert(chains_below(v, sq, white, k).unwrap() == a + b);
        assert forall|j: int| 0 <= j < (a + b).len() implies #[trigger] takes_pieces(v, (a + b)[j]) by {
            if j < a.len() {
                assert((a + b)[j] == a[j]);
            } else {
                assert((a + b)[j] == b[j - a.len()]);
            }
        }
    }
}

/// Every capture chain of a piece of the side to move takes pieces off.
pub proof fn lemma_capture_chains_take(v: BoardView, sq: int, white: bool)
    requires
        white == v.white_to_move,
    ensures
        capture_chains(v, sq, white) is Some,
        forall|j: int| 0 <= j < capture_chains(v, sq, white).unwrap().len() ==> #[trigger] takes_pieces(
            v,
            capture_chains(v, sq, white).unwrap()[j],
        ),
    decreases v.size(), 65int,
{
    lemma_capture_chains_defined(v, sq, white);
    if 0 <= sq < 64 && v.side(white).contains(sq) {
        lemma_chains_below_take(v, sq, white, 64);
    }
}

/// Every capture move of the side to move takes pieces off.
pub proof fn lemma_all_captures_take(v: BoardView)
    ensures
        forall|j: int| 0 <= j < v.all_captures(v.white_to_move).len() ==> #[trigger] takes_pieces(
            v,
            v.all_captures(v.white_to_move)[j],
        ),
{
    let w = v.white_to_move;
    let f = |s: int| capture_chains(v, s, w).unwrap();
    let p = |c: Seq<(u8, u8)>| takes_pieces(v, c);
    assert forall|s: int, j: int| 0 <= s < 64 && 0 <= j < f(s).len() implies #[trigger] p(f(s)[j]) by {
        lemma_capture_chains_take(v, s, w);
    }
    lemma_gather_all(f, 0, 64, p);
    let all = v.all_captures(w);
    assert(all == gather(f, 0, 64));
    assert forall|j: int| 0 <= j < all.len() implies #[trigger] takes_pieces(v, all[j]) by {
        assert(p(gather(f, 0, 64)[j]));
    }
}

/// Every legal move can be made.
pub proof fn lemma_legal_moves_apply(v: BoardView)
    ensures
        forall|j: int| 0 <= j < v.legal_moves().len() ==> (#[trigger] v.after_steps(
            v.legal_moves()[j],
        )) is Some,
{
    let w = v.white_to_move;
    lemma_all_captures_take(v);
    let q = v.quiet_moves(w);
    let p = |c: Seq<(u8, u8)>| v.after_steps(c) is Some;
    let f = |s: int| v.quiet_moves_from(w, s);
    assert forall|s: int, j: int| 0 <= s < 64 && 0 <= j < f(s).len() implies #[trigger] p(f(s)[j]) by {
        if v.side(w).contains(s) {
            let g = |e: int|
                if step_target(v.piece_class(s, w), s, e) && !v.occupied().contains(e) {
                    seq![seq![(s as u8, e as u8)]]
                } else {
                    seq![]
                };
            assert forall|e: int, k: int| 0 <= e < 64 && 0 <= k < g(e).len() implies #[trigger] p(
                g(e)[k],
            ) by {
                let c = seq![(s as u8, e as u8)];
                assert(g(e)[k] == c);
                assert(v.can_move_from(s));
                assert(c.drop_first() =~= Seq::<(u8, u8)>::empty());
                assert(c.len() == 1 && c[0].0 as int == s && c[0].1 as int == e);
                assert(v.step(s, e) is Some);
                let n = v.step(s, e).unwrap();
                assert(n.after_steps(c.drop_first()) == Some(n));
                assert(v.after_steps(c) == Some(n));
            }
            lemma_gather_all(g, 0, 64, p);
            assert(f(s) == gather(g, 0, 64));
        }
    }
    lemma_gather_all(f, 0, 64, p);
    assert(q == gather(f, 0, 64));
    let m = v.legal_moves();
    assert forall|j: int| 0 <= j < m.len() implies (#[trigger] v.after_steps(m[j])) is Some by {
        if v.all_captures(w).len() > 0 {
            assert(takes_pieces(v, v.all_captures(w)[j]));
        } else {
            assert(p(q[j]));
        }
    }
}
/// Whether a board is laid out as play keeps it: its pieces stand on board
/// squares, no square holds two pieces, no white man stands on the top row
/// and no black man on the bottom row.
pub open spec fn well_placed(v: BoardView) -> bool {
    &&& forall|s: int| #[trigger] v.occupied().contains(s) ==> 0 <= s < 64
    &&& v.white_men.disjoint(v.white_kings)
    &&& v.white_men.disjoint(v.black_men)
    &&& v.white_men.disjoint(v.black_kings)
    &&& v.white_kings.disjoint(v.black_men)
    &&& v.white_kings.disjoint(v.black_kings)
    &&& v.black_men.disjoint(v.black_kings)
    &&& forall|s: int| #[trigger] v.white_men.contains(s) ==> s >= 8
    &&& forall|s: int| #[trigger] v.black_men.contains(s) ==> s < 56
}

/// The number of pieces of colour `white`.
pub open spec fn side_count(v: BoardView, white: bool) -> nat {
    if white {
        count_below(v.white_men, 64) + count_below(v.white_kings, 64)
    } else {
        count_below(v.black_men, 64) + count_below(v.black_kings, 64)
    }
}

/// The number of steps of a move that span more than 9 squares: its jumps.
pub open spec fn jump_count(steps: Seq<(u8, u8)>) -> nat
    decreases steps.len(),
{
    if steps.len() == 0 {
        0
    } else {
        (if steps[0].0 - steps[0].1 > 9 || steps[0].1 - steps[0].0 > 9 {
            1nat
        } else {
            0nat
        }) + jump_count(steps.drop_first())
    }
}

/// Whether making the steps of `c` on `v` succeeds, keeps the board well
/// placed and the side to move, keeps the pieces of the side to move, and
/// takes off one piece of the other side for each jump.
pub open spec fn keeps_placement(v: BoardView, c: Seq<(u8, u8)>) -> bool {
    let w = v.white_to_move;
    &&& v.after_steps(c) is Some
    &&& well_placed(v.after_steps(c).unwrap())
    &&& v.after_steps(c).unwrap().white_to_move == w
    &&& side_count(v.after_steps(c).unwrap(), w) == side_count(v, w)
    &&& side_count(v.after_steps(c).unwrap(), !w) + jump_count(c) == side_count(v, !w)
}

proof fn lemma_count_jumped(s: Set<int>, from: int, to: int)
    ensures
        count_below(s.difference(BoardView::jumped(from, to)), 64) + (if (from - to > 9 || to
            - from > 9) && 0 <= (from + to) / 2 < 64 && s.contains((from + to) / 2) {
            1nat
        } else {
            0nat
        }) == count_below(s, 64),
{
    let j = BoardView::jumped(from, to);
    if from - to > 9 || to - from > 9 {
        lemma_count_difference(s, j, (from + to) / 2);
    } else {
        assert(s.difference(j) =~= s);
    }
}

/// One step of a piece of the side to move to an empty square, over a
/// piece of the other side when it is a jump, keeps the board well placed,
/// keeps the pieces of the side to move and takes off one of the other
/// side's for a jump.
proof fn lemma_step_keeps(v: BoardView, from: int, to: int)
    requires
        well_placed(v),
        0 <= from < 64,
        0 <= to < 64,
        from != to,
        v.can_move_from(from),
        !v.occupied().contains(to),
        from - to > 9 || to - from > 9 ==> {
            &&& v.side(!v.white_to_move).contains((from + to) / 2)
            &&& (from + to) / 2 != from
            &&& (from + to) / 2 != to
        },
    ensures
        keeps_placement(v, seq![(from as u8, to as u8)]),
{
    let w = v.white_to_move;
    let n = v.moved(from, to);
    let c = seq![(from as u8, to as u8)];
    assert(v.step(from, to) == Some(n));
    assert(c.drop_first() =~= Seq::<(u8, u8)>::empty());
    assert(n.after_steps(c.drop_first()) == Some(n));
    assert(v.after_steps(c) == Some(n));
    assert(jump_count(c.drop_first()) == 0);
    let wm = v.white_men;
    let wk = v.white_kings;
    let bm = v.black_men;
    let bk = v.black_kings;
    assert(!wm.contains(to) && !wk.contains(to) && !bm.contains(to) && !bk.contains(to));
    lemma_count_jumped(wm, from, to);
    lemma_count_jumped(wk, from, to);
    lemma_count_jumped(bm, from, to);
    lemma_count_jumped(bk, from, to);
    lemma_count_jumped(wm.remove(from), from, to);
    lemma_count_jumped(wk.remove(from), from, to);
    lemma_count_jumped(bm.remove(from), from, to);
    lemma_count_jumped(bk.remove(from), from, to);
    lemma_count_jumped(wm.remove(from).insert(to), from, to);
    lemma_count_jumped(wk.remove(from).insert(to), from, to);
    lemma_count_jumped(bm.remove(from).insert(to), from, to);
    lemma_count_jumped(bk.remove(from).insert(to), from, to);
    lemma_count_jumped(wk.insert(to), from, to);
    lemma_count_jumped(bk.insert(to), from, to);
    lemma_count_remove(wm, from, 64);
    lemma_count_remove(wk, from, 64);
    lemma_count_remove(bm, from, 64);
    lemma_count_remove(bk, from, 64);
    lemma_count_insert(wm.remove(from), to, 64);
    lemma_count_insert(wk.remove(from), to, 64);
    lemma_count_insert(bm.remove(from), to, 64);
    lemma_count_insert(bk.remove(from), to, 64);
    lemma_count_insert(wk, to, 64);
    lemma_count_insert(bk, to, 64);
    let m = (from + to) / 2;
    let jump = from - to > 9 || to - from > 9;
    if jump {
        assert(0 <= m < 64);
    }
    assert forall|s: int| #[trigger] n.occupied().contains(s) implies 0 <= s < 64 by {
        assert(v.occupied().contains(s) || s == to);
    }
    assert(n.white_men.disjoint(n.white_kings));
    assert(n.white_men.disjoint(n.black_men));
    assert(n.white_men.disjoint(n.black_kings));
    assert(n.white_kings.disjoint(n.black_men));
    assert(n.white_kings.disjoint(n.black_kings));
    assert(n.black_men.disjoint(n.black_kings));
    assert(forall|s: int| #[trigger] n.white_men.contains(s) ==> s >= 8);
    assert(forall|s: int| #[trigger] n.black_men.contains(s) ==> s < 56);
    assert(well_placed(n));
    assert(side_count(n, w) == side_count(v, w));
    assert(side_count(n, !w) + jump_count(c) == side_count(v, !w));
}

/// Every capture chain through a jump to `e` keeps the placement.
proof fn lemma_chains_through_keep(v: BoardView, sq: int, white: bool, e: int)
    requires
        white == v.white_to_move,
        0 <= sq < 64,
        v.side(white).contains(sq),
        well_placed(v),
        chains_through(v, sq, white, e) is Some,
    ensures
        forall|j: int| 0 <= j < chains_through(v, sq, white, e).unwrap().len() ==> #[trigger] keeps_placement(
            v,
            chains_through(v, sq, white, e).unwrap()[j],
        ),
    decreases v.size(), e,
{
    if v.jump_available(sq, white, e) {
        lemma_jump_shrinks(v, sq, white, e);
        let n = v.moved(sq, e);
        let first = seq![(sq as u8, e as u8)];
        assert(0 <= e < 64);
        lemma_step_keeps(v, sq, e);
        assert(first.drop_first() =~= Seq::<(u8, u8)>::empty());
        assert(n.after_steps(first.drop_first()) == Some(n));
        assert(v.step(sq, e) == Some(n));
        assert(v.after_steps(first) == n.after_steps(first.drop_first()));
        assert(first[0].0 as int == sq && first[0].1 as int == e);
        assert(sq - e > 9 || e - sq > 9);
        assert(jump_count(first.drop_first()) == 0);
        assert(jump_count(first) == 1);
        crate::board::lemma_moved_piece(v, sq, e);
        assert(n.side(white).contains(e));
        lemma_capture_chains_keep(n, e, white);
        let sub = capture_chains(n, e, white).unwrap();
        let r = chains_through(v, sq, white, e).unwrap();
        assert forall|j: int| 0 <= j < r.len() implies #[trigger] keeps_placement(v, r[j]) by {
            if sub.len() == 0 || e / 8 == 0 || e / 8 == 7 {
                assert(r[j] == first);
            } else {
                let t = sub[j];
                let c = first + t;
                assert(r[j] == c);
                assert(c[0] == (sq as u8, e as u8));
                assert(c.drop_first() =~= t);
                assert(keeps_placement(n, t));
                assert(c.len() > 0);
                assert(v.after_steps(c) == n.after_steps(t));
                assert(jump_count(c) == 1 + jump_count(t));
                assert(side_count(n, white) == side_count(v, white));
                assert(side_count(n, !white) + 1 == side_count(v, !white));
            }
        }
    }
}

/// Every capture chain below `k` keeps the placement.
proof fn lemma_chains_below_keep(v: BoardView, sq: int, white: bool, k: int)
    requires
        white == v.white_to_move,
        0 <= sq < 64,
        v.side(white).contains(sq),
        well_placed(v),
        chains_below(v, sq, white, k) is Some,
    ensures
        forall|j: int| 0 <= j < chains_below(v, sq, white, k).unwrap().len() ==> #[trigger] keeps_placement(
            v,
            chains_below(v, sq, white, k).unwrap()[j],
        ),
    decreases v.size(), k,
{
    if k > 0 {
        lemma_chains_through_keep(v, sq, white, k - 1);
        lemma_chains_below_keep(v, sq, white, k - 1);
        let a = chains_through(v, sq, white, k - 1).unwrap();
        let b = chains_below(v, sq, white, k - 1).unwrap();
        assert(chains_below(v, sq, white, k).unwrap() == a + b);
        assert forall|j: int| 0 <= j < (a + b).len() implies #[trigger] keeps_placement(v, (a + b)[j]) by {
            if j < a.len() {
                assert((a + b)[j] == a[j]);
            } else {
                assert((a + b)[j] == b[j - a.len()]);
            }
        }
    }
}

/// Every capture chain of a piece of the side to move keeps the placement.
proof fn lemma_capture_chains_keep(v: BoardView, sq: int, white: bool)
    requires
        white == v.white_to_move,
        well_placed(v),
    ensures
        capture_chains(v, sq, white) is Some,
        forall|j: int| 0 <= j < capture_chains(v, sq, white).unwrap().len() ==> #[trigger] keeps_placement(
            v,
            capture_chains(v, sq, white).unwrap()[j],
        ),
    decreases v.size(), 65int,
{
    lemma_capture_chains_defined(v, sq, white);
    if 0 <= sq < 64 && v.side(white).contains(sq) {
        lemma_chains_below_keep(v, sq, white, 64);
    }
}

/// Play keeps a board well placed: every legal move of a well-placed board
/// can be made, leaves it well placed with the same side to move, keeps
/// every piece of the side to move, and takes off exactly one piece of the
/// other side for each jump it makes.
pub proof fn lemma_legal_moves_keep_placement(v: BoardView)
    requires
        well_placed(v),
    ensures
        forall|j: int| 0 <= j < v.legal_moves().len() ==> #[trigger] keeps_placement(
            v,
            v.legal_moves()[j],
        ),
{
    let w = v.white_to_move;
    let p = |c: Seq<(u8, u8)>| keeps_placement(v, c);
    let fc = |s: int| capture_chains(v, s, w).unwrap();
    assert forall|s: int, j: int| 0 <= s < 64 && 0 <= j < fc(s).len() implies #[trigger] p(
        fc(s)[j],
    ) by {
        lemma_capture_chains_keep(v, s, w);
    }
    lemma_gather_all(fc, 0, 64, p);
    assert(v.all_captures(w) == gather(fc, 0, 64));
    let fq = |s: int| v.quiet_moves_from(w, s);
    assert forall|s: int, j: int| 0 <= s < 64 && 0 <= j < fq(s).len() implies #[trigger] p(
        fq(s)[j],
    ) by {
        if v.side(w).contains(s) {
            let g = |e: int|
                if step_target(v.piece_class(s, w), s, e) && !v.occupied().contains(e) {
                    seq![seq![(s as u8, e as u8)]]
                } else {
                    seq![]
                };
            assert forall|e: int, k: int| 0 <= e < 64 && 0 <= k < g(e).len() implies #[trigger] p(
                g(e)[k],
            ) by {
                assert(g(e)[k] == seq![(s as u8, e as u8)]);
                assert(v.can_move_from(s));
                lemma_step_keeps(v, s, e);
            }
            lemma_gather_all(g, 0, 64, p);
            assert(fq(s) == gather(g, 0, 64));
        }
    }
    lemma_gather_all(fq, 0, 64, p);
    assert(v.quiet_moves(w) == gather(fq, 0, 64));
    let m = v.legal_moves();
    assert forall|j: int| 0 <= j < m.len() implies #[trigger] keeps_placement(v, m[j]) by {
        if v.all_captures(w).len() > 0 {
            assert(p(v.all_captures(w)[j]));
        } else {
            assert(p(v.quiet_moves(w)[j]));
        }
    }
}

/// While the side to move has a capture, its legal moves are exactly its
/// capture chains: every chain of every one of its pieces is a legal move,
/// and every legal move is a chain of one of its pieces.
pub proof fn lemma_legal_moves_are_all_captures(v: BoardView)
    requires
        exists|s: int|
            0 <= s < 64 && #[trigger] capture_chains(v, s, v.white_to_move).unwrap().len() > 0,
    ensures
        forall|s: int, j: int|
            0 <= s < 64 && 0 <= j < capture_chains(v, s, v.white_to_move).unwrap().len()
                ==> v.legal_moves().contains(
                #[trigger] capture_chains(v, s, v.white_to_move).unwrap()[j],
            ),
        forall|k: int|
            #![trigger v.legal_moves()[k]]
            0 <= k < v.legal_moves().len() ==> exists|s: int, j: int|
                0 <= s < 64 && 0 <= j < capture_chains(v, s, v.white_to_move).unwrap().len()
                    && v.legal_moves()[k] == #[trigger] capture_chains(
                    v,
                    s,
                    v.white_to_move,
                ).unwrap()[j],
{
    let w = v.white_to_move;
    let f = |s: int| capture_chains(v, s, w).unwrap();
    let s0 = choose|s: int| 0 <= s < 64 && #[trigger] capture_chains(v, s, w).unwrap().len() > 0;
    lemma_gather_contains(f, 0, 64, s0, 0);
    assert(v.all_captures(w) == gather(f, 0, 64));
    assert(v.all_captures(w).len() > 0);
    assert(v.legal_moves() == v.all_captures(w));
    assert forall|s: int, j: int|
        0 <= s < 64 && 0 <= j < capture_chains(v, s, w).unwrap().len() implies v.legal_moves().contains(
        #[trigger] capture_chains(v, s, w).unwrap()[j],
    ) by {
        assert(f(s) == capture_chains(v, s, w).unwrap());
        lemma_gather_contains(f, 0, 64, s, j);
    }
    assert forall|k: int| #![trigger v.legal_moves()[k]] 0 <= k < v.legal_moves().len() implies exists|s: int, j: int|
        0 <= s < 64 && 0 <= j < capture_chains(v, s, w).unwrap().len() && v.legal_moves()[k]
            == #[trigger] capture_chains(v, s, w).unwrap()[j] by {
        lemma_gather_member(f, 0, 64, k);
        let (s, j) = choose|s: int, j: int|
            0 <= s < 64 && 0 <= j < f(s).len() && gather(f, 0, 64)[k] == #[trigger] f(s)[j];
        assert(f(s) == capture_chains(v, s, w).unwrap());
    }
}

/// Whether colour `white` has a man or a king on `s`, read off the board.
pub open spec fn holds_piece(v: BoardView, s: int, white: bool) -> bool {
    if white {
        v.white_men.contains(s) || v.white_kings.contains(s)
    } else {
        v.black_men.contains(s) || v.black_kings.contains(s)
    }
}

/// Whether any piece stands on `s`, read off the board.
pub open spec fn holds_any(v: BoardView, s: int) -> bool {
    v.white_men.contains(s) || v.white_kings.contains(s) || v.black_men.contains(s)
        || v.black_kings.contains(s)
}

/// How the piece of colour `white` on `s` moves, read off the board: a king
/// of either colour both ways (2), a white man up (0), a black man down (1).
pub open spec fn mover_class(v: BoardView, s: int, white: bool) -> int {
    if v.white_kings.contains(s) || v.black_kings.contains(s) {
        2
    } else if white {
        0
    } else {
        1
    }
}

/// The non-capturing moves of colour `white` are exactly its one-step moves
/// from each of its pieces to each empty square that the piece's class can
/// step to: every such step is offered once or more, and nothing else.
pub proof fn lemma_quiet_moves_exact(v: BoardView, white: bool)
    ensures
        forall|k: int| 0 <= k < v.quiet_moves(white).len() ==> (#[trigger] v.quiet_moves(white)[k]).len() == 1,
        forall|s: int, e: int|
            0 <= s < 64 && 0 <= e < 64 ==> (#[trigger] v.quiet_moves(white).contains(
                seq![(s as u8, e as u8)],
            ) <==> (holds_piece(v, s, white) && !holds_any(v, e) && step_target(
                mover_class(v, s, white),
                s,
                e,
            ))),
{
    let fq = |s: int| v.quiet_moves_from(white, s);
    assert(v.quiet_moves(white) == gather(fq, 0, 64));
    assert forall|k: int| 0 <= k < v.quiet_moves(white).len() implies (
    #[trigger] v.quiet_moves(white)[k]).len() == 1 && exists|s: int, e: int|
        0 <= s < 64 && 0 <= e < 64 && holds_piece(v, s, white) && !holds_any(v, e) && step_target(
            mover_class(v, s, white),
            s,
            e,
        ) && v.quiet_moves(white)[k] == seq![(s as u8, e as u8)] by {
        lemma_gather_member(fq, 0, 64, k);
        let (s, j) = choose|s: int, j: int|
            0 <= s < 64 && 0 <= j < fq(s).len() && gather(fq, 0, 64)[k] == #[trigger] fq(s)[j];
        assert(v.side(white).contains(s));
        let g = |e: int|
            if step_target(v.piece_class(s, white), s, e) && !v.occupied().contains(e) {
                seq![seq![(s as u8, e as u8)]]
            } else {
                Seq::<Seq<(u8, u8)>>::empty()
            };
        assert(fq(s) == gather(g, 0, 64));
        lemma_gather_member(g, 0, 64, j);
        let (e, i) = choose|e: int, i: int|
            0 <= e < 64 && 0 <= i < g(e).len() && gather(g, 0, 64)[j] == #[trigger] g(e)[i];
        assert(g(e).len() > 0);
        assert(v.quiet_moves(white)[k] == seq![(s as u8, e as u8)]);
        assert(mover_class(v, s, white) == v.piece_class(s, white));
    }
    assert forall|s: int, e: int|
        0 <= s < 64 && 0 <= e < 64 implies (#[trigger] v.quiet_moves(white).contains(
        seq![(s as u8, e as u8)],
    ) <==> (holds_piece(v, s, white) && !holds_any(v, e) && step_target(
        mover_class(v, s, white),
        s,
        e,
    ))) by {
        let m = seq![(s as u8, e as u8)];
        assert(mover_class(v, s, white) == v.piece_class(s, white));
        if holds_piece(v, s, white) && !holds_any(v, e) && step_target(mover_class(v, s, white), s, e) {
            let g = |x: int|
                if step_target(v.piece_class(s, white), s, x) && !v.occupied().contains(x) {
                    seq![seq![(s as u8, x as u8)]]
                } else {
                    Seq::<Seq<(u8, u8)>>::empty()
                };
            assert(fq(s) == gather(g, 0, 64));
            assert(g(e)[0] == m);
            lemma_gather_contains(g, 0, 64, e, 0);
            let j = choose|j: int| 0 <= j < fq(s).len() && #[trigger] fq(s)[j] == m;
            lemma_gather_contains(fq, 0, 64, s, j);
        }
        if v.quiet_moves(white).contains(m) {
            let k = choose|k: int| 0 <= k < v.quiet_moves(white).len() && #[trigger] v.quiet_moves(white)[k] == m;
            assert(v.quiet_moves(white)[k].len() == 1);
            let (s2, e2) = choose|s2: int, e2: int|
                0 <= s2 < 64 && 0 <= e2 < 64 && holds_piece(v, s2, white) && !holds_any(v, e2)
                    && step_target(mover_class(v, s2, white), s2, e2) && v.quiet_moves(white)[k]
                    == seq![(s2 as u8, e2 as u8)];
            assert(seq![(s2 as u8, e2 as u8)][0] == m[0]);
            assert(s2 == s && e2 == e);
        }
    }
}

/// The chains through a jump target below `k` are among the chains below `k`.
proof fn lemma_chains_below_contains(v: BoardView, sq: int, white: bool, k: int, e: int, j: int)
    requires
        chains_below(v, sq, white, k) is Some,
        0 <= e < k,
    ensures
        chains_through(v, sq, white, e) is Some,
        0 <= j < chains_through(v, sq, white, e).unwrap().len() ==> chains_below(
            v,
            sq,
            white,
            k,
        ).unwrap().contains(chains_through(v, sq, white, e).unwrap()[j]),
    decreases k,
{
    let ta = chains_through(v, sq, white, k - 1);
    let tb = chains_below(v, sq, white, k - 1);
    assert(ta is Some && tb is Some);
    let a = ta.unwrap();
    let b = tb.unwrap();
    assert(chains_below(v, sq, white, k).unwrap() == a + b);
    if e == k - 1 {
        if 0 <= j < a.len() {
            assert((a + b)[j] == a[j]);
        }
    } else {
        lemma_chains_below_contains(v, sq, white, k - 1, e, j);
        if 0 <= j < chains_through(v, sq, white, e).unwrap().len() {
            let x = chains_through(v, sq, white, e).unwrap()[j];
            let i = choose|i: int| 0 <= i < b.len() && b[i] == x;
            assert((a + b)[i + a.len()] == b[i]);
        }
    }
}

/// Every jump of a piece of the side to move over a piece of the other
/// side onto an empty square, as its class allows (a king of either colour
/// both ways), begins capture moves of that piece: the jump alone when the
/// target is on the first or last row or no capture follows from there,
/// else the jump followed by each capture chain that continues from the
/// target, every one of them.
pub proof fn lemma_jump_offered(v: BoardView, s: int, e: int)
    requires
        0 <= s < 64,
        holds_piece(v, s, v.white_to_move),
        jump_target(mover_class(v, s, v.white_to_move), s, e),
        !holds_any(v, e),
        holds_piece(v, (s + e) / 2, !v.white_to_move),
    ensures
        ({
            let w = v.white_to_move;
            let chains = capture_chains(v, s, w).unwrap();
            let cont = capture_chains(v.moved(s, e), e, w).unwrap();
            &&& cont.len() == 0 || e / 8 == 0 || e / 8 == 7 ==> chains.contains(
                seq![(s as u8, e as u8)],
            )
            &&& !(cont.len() == 0 || e / 8 == 0 || e / 8 == 7) ==> forall|t: Seq<(u8, u8)>|
                #[trigger] cont.contains(t) ==> chains.contains(seq![(s as u8, e as u8)] + t)
            &&& exists|j: int|
                0 <= j < chains.len() && (#[trigger] chains[j]).len() > 0 && chains[j][0] == (
                    s as u8,
                    e as u8,
                )
        }),
{
    let w = v.white_to_move;
    assert(mover_class(v, s, w) == v.piece_class(s, w));
    assert(v.side(w).contains(s));
    assert(v.jump_available(s, w, e));
    assert(0 <= e < 64);
    lemma_chains_defined(v, s, w, 64);
    assert(capture_chains(v, s, w) == chains_below(v, s, w, 64));
    lemma_chains_below_contains(v, s, w, 64, e, 0);
    let n = v.moved(s, e);
    crate::board::lemma_moved_piece(v, s, e);
    lemma_capture_chains_defined(n, e, w);
    let cont = capture_chains(n, e, w).unwrap();
    let first = seq![(s as u8, e as u8)];
    let through = chains_through(v, s, w, e).unwrap();
    let chains = capture_chains(v, s, w).unwrap();
    if cont.len() == 0 || e / 8 == 0 || e / 8 == 7 {
        assert(through == seq![first]);
        lemma_chains_below_contains(v, s, w, 64, e, 0);
        assert(chains.contains(first));
        let j = choose|j: int| 0 <= j < chains.len() && chains[j] == first;
        assert(chains[j].len() > 0 && chains[j][0] == (s as u8, e as u8));
    } else {
        assert(through == cont.map_values(|t: Seq<(u8, u8)>| first + t));
        assert forall|t: Seq<(u8, u8)>| #[trigger] cont.contains(t) implies chains.contains(first + t) by {
            let i = choose|i: int| 0 <= i < cont.len() && cont[i] == t;
            assert(through[i] == first + t);
            lemma_chains_below_contains(v, s, w, 64, e, i);
        }
        assert(cont.contains(cont[0]));
        assert(chains.contains(first + cont[0]));
        let j = choose|j: int| 0 <= j < chains.len() && chains[j] == first + cont[0];
        assert((first + cont[0])[0] == (s as u8, e as u8));
        assert(chains[j].len() > 0 && chains[j][0] == (s as u8, e as u8));
    }
}

/// Whether `c` is a line of jumps from square `s`: it has a step, the first
/// step starts on `s`, each step goes two rows and two columns on the board,
/// and each step starts where the one before ended.
pub open spec fn jump_line(c: Seq<(u8, u8)>, s: int) -> bool {
    &&& c.len() > 0
    &&& c[0].0 == s
    &&& forall|k: int|
        0 <= k < c.len() ==> {
            let (a, b) = #[trigger] c[k];
            &&& a < 64 && b < 64
            &&& (b / 8 - a / 8 == 2 || a / 8 - b / 8 == 2)
            &&& (b % 8 - a % 8 == 2 || a % 8 - b % 8 == 2)
        }
    &&& forall|k: int| 0 <= k < c.len() - 1 ==> (#[trigger] c[k]).1 == c[k + 1].0
}

proof fn lemma_chains_through_lines(v: BoardView, sq: int, white: bool, e: int)
    requires
        white == v.white_to_move,
        0 <= sq < 64,
        v.side(white).contains(sq),
        chains_through(v, sq, white, e) is Some,
    ensures
        forall|j: int| 0 <= j < chains_through(v, sq, white, e).unwrap().len() ==> jump_line(
            #[trigger] chains_through(v, sq, white, e).unwrap()[j],
            sq,
        ),
    decreases v.size(), e,
{
    if v.jump_available(sq, white, e) {
        lemma_jump_shrinks(v, sq, white, e);
        let n = v.moved(sq, e);
        lemma_jump_target_geometry(v.piece_class(sq, white), sq, e);
        crate::board::lemma_moved_piece(v, sq, e);
        assert(0 <= e < 64);
        lemma_capture_chains_lines(n, e, white);
        let sub = capture_chains(n, e, white).unwrap();
        let r = chains_through(v, sq, white, e).unwrap();
        let first = seq![(sq as u8, e as u8)];
        assert forall|j: int| 0 <= j < r.len() implies jump_line(#[trigger] r[j], sq) by {
            if sub.len() == 0 || e / 8 == 0 || e / 8 == 7 {
                assert(r[j] == first);
            } else {
                let t = sub[j];
                assert(jump_line(t, e));
                let c = first + t;
                assert(r[j] == c);
                assert forall|k: int| 0 <= k < c.len() implies {
                    let (a, b) = #[trigger] c[k];
                    &&& a < 64 && b < 64
                    &&& (b / 8 - a / 8 == 2 || a / 8 - b / 8 == 2)
                    &&& (b % 8 - a % 8 == 2 || a % 8 - b % 8 == 2)
                } by {
                    if k > 0 {
                        assert(c[k] == t[k - 1]);
                    }
                }
                assert forall|k: int| 0 <= k < c.len() - 1 implies (#[trigger] c[k]).1 == c[k + 1].0 by {
                    if k > 0 {
                        assert(c[k] == t[k - 1]);
                        assert(c[k + 1] == t[k]);
                    } else {
                        assert(c[1] == t[0]);
                    }
                }
            }
        }
    }
}

proof fn lemma_chains_below_lines(v: BoardView, sq: int, white: bool, k: int)
    requires
        white == v.white_to_move,
        0 <= sq < 64,
        v.side(white).contains(sq),
        chains_below(v, sq, white, k) is Some,
    ensures
        forall|j: int| 0 <= j < chains_below(v, sq, white, k).unwrap().len() ==> jump_line(
            #[trigger] chains_below(v, sq, white, k).unwrap()[j],
            sq,
        ),
    decreases v.size(), k,
{
    if k > 0 {
        lemma_chains_through_lines(v, sq, white, k - 1);
        lemma_chains_below_lines(v, sq, white, k - 1);
        let a = chains_through(v, sq, white, k - 1).unwrap();
        let b = chains_below(v, sq, white, k - 1).unwrap();
        assert(chains_below(v, sq, white, k).unwrap() == a + b);
        assert forall|j: int| 0 <= j < (a + b).len() implies jump_line(#[trigger] (a + b)[j], sq) by {
            if j < a.len() {
                assert((a + b)[j] == a[j]);
            } else {
                assert((a + b)[j] == b[j - a.len()]);
            }
        }
    }
}

/// Every capture move of a piece of the side to move is a line of jumps
/// from its square: each step jumps two rows and two columns, and each
/// starts where the one before ended.
pub proof fn lemma_capture_chains_lines(v: BoardView, sq: int, white: bool)
    requires
        white == v.white_to_move,
    ensures
        forall|j: int| 0 <= j < capture_chains(v, sq, white).unwrap().len() ==> jump_line(
            #[trigger] capture_chains(v, sq, white).unwrap()[j],
            sq,
        ),
    decreases v.size(), 65int,
{
    lemma_capture_chains_defined(v, sq, white);
    if 0 <= sq < 64 && v.side(white).contains(sq) {
        lemma_chains_below_lines(v, sq, white, 64);
    }
}

/// The order key of a one-step move: its origin, then its target.
pub open spec fn step_key(m: Seq<(u8, u8)>) -> int {
    64 * (m[0].0 as int) + m[0].1 as int
}

/// The non-capturing moves come by the square of the moving piece from the
/// highest down, and for one piece by the target square from the highest
/// down, with no move twice.
pub proof fn lemma_quiet_moves_order(v: BoardView, white: bool)
    ensures
        forall|k1: int, k2: int|
            0 <= k1 < k2 < v.quiet_moves(white).len() ==> step_key(
                #[trigger] v.quiet_moves(white)[k1],
            ) > step_key(#[trigger] v.quiet_moves(white)[k2]),
{
    let key = |m: Seq<(u8, u8)>| step_key(m);
    let fq = |s: int| v.quiet_moves_from(white, s);
    let lower = |s: int| 64 * s;
    let upper = |s: int| 64 * s + 64;
    assert forall|s: int| #![trigger fq(s)] 0 <= s < 64 implies {
        &&& forall|j: int| 0 <= j < fq(s).len() ==> lower(s) <= #[trigger] key(fq(s)[j]) < upper(s)
        &&& forall|j1: int, j2: int|
            0 <= j1 < j2 < fq(s).len() ==> #[trigger] key(fq(s)[j1]) > #[trigger] key(fq(s)[j2])
    } by {
        if v.side(white).contains(s) {
            let g = |e: int|
                if step_target(v.piece_class(s, white), s, e) && !v.occupied().contains(e) {
                    seq![seq![(s as u8, e as u8)]]
                } else {
                    Seq::<Seq<(u8, u8)>>::empty()
                };
            let lo2 = |e: int| 64 * s + e;
            let up2 = |e: int| 64 * s + e + 1;
            assert forall|e: int, j: int| 0 <= e < 64 && 0 <= j < g(e).len() implies lo2(e)
                <= #[trigger] key(g(e)[j]) < up2(e) by {
                assert(g(e)[j] == seq![(s as u8, e as u8)]);
            }
            lemma_gather_descending(g, 0, 64, key, lo2, up2);
            assert(fq(s) == gather(g, 0, 64));
            assert forall|j: int| 0 <= j < fq(s).len() implies lower(s) <= #[trigger] key(fq(s)[j])
                < upper(s) by {
                let e = choose|e: int|
                    #![trigger up2(e)]
                    0 <= e < 64 && lo2(e) <= key(gather(g, 0, 64)[j]) < up2(e);
            }
        }
    }
    lemma_gather_descending(fq, 0, 64, key, lower, upper);
    assert(v.quiet_moves(white) == gather(fq, 0, 64));
}

/// Taking is forced: while the side to move has a capture, every legal
/// move of it takes pieces off.
pub proof fn lemma_forced_capture(v: BoardView)
    requires
        v.all_captures(v.white_to_move).len() > 0,
    ensures
        forall|j: int| 0 <= j < v.legal_moves().len() ==> #[trigger] takes_pieces(
            v,
            v.legal_moves()[j],
        ),
{
    lemma_all_captures_take(v);
}

impl CheckersBitboard {
    /// All non-capturing moves of colour `white_to_move`: each piece, from
    /// the highest square down, steps to each empty square that its class
    /// allows, highest first.
    pub fn get_non_capture_moves(&self, white_to_move: bool) -> (moves: Vec<Move>)
        ensures
            move_steps(moves@) == self@.quiet_moves(white_to_move),
    {
        let ghost v = self@;
        let ghost w = white_to_move;
        let ghost f = |s: int| v.quiet_moves_from(w, s);
        let mut moves: Vec<Move> = Vec::new();
        let all_pieces = self.white_pieces | self.white_kings | self.black_pieces
            | self.black_kings;
        let pieces_to_move = if white_to_move {
            self.white_pieces | self.white_kings
        } else {
            self.black_pieces | self.black_kings
        };
        let kings = self.white_kings | self.black_kings;
        proof {
            assert forall|s: int| 0 <= s < 64 implies {
                &&& has_square(all_pieces, s) == v.occupied().contains(s)
                &&& has_square(pieces_to_move, s) == v.side(w).contains(s)
                &&& has_square(kings, s) == v.kings().contains(s)
            } by {
                lemma_combine_square(self.white_pieces, self.white_kings, s);
                lemma_combine_square(self.white_pieces | self.white_kings, self.black_pieces, s);
                lemma_combine_square(
                    self.white_pieces | self.white_kings | self.black_pieces,
                    self.black_kings,
                    s,
                );
                lemma_combine_square(self.black_pieces, self.black_kings, s);
                lemma_combine_square(self.white_kings, self.black_kings, s);
            }
        }
        let mut pieces_to_move_copy = pieces_to_move;
        let ghost mut b: int = 64;
        while pieces_to_move_copy != 0
            invariant
                0 <= b <= 64,
                v == self@,
                w == white_to_move,
                f == (|s: int| v.quiet_moves_from(w, s)),
                forall|s: int| 0 <= s < 64 ==> has_square(all_pieces, s) == v.occupied().contains(s),
                forall|s: int| 0 <= s < 64 ==> has_square(kings, s) == v.kings().contains(s),
                forall|s: int|
                    #![trigger has_square(pieces_to_move_copy, s)]
                    has_square(pieces_to_move_copy, s) <==> (0 <= s < b && v.side(w).contains(s)),
                move_steps(moves@) + gather(f, 0, b) == gather(f, 0, 64),
            decreases b,
        {
            proof {
                lemma_highest_square(pieces_to_move_copy);
            }
            let lsb_index = 63 - pieces_to_move_copy.trailing_zeros();
            let ghost h = lsb_index as int;
            let ghost old_copy = pieces_to_move_copy;
            let is_king = kings & (1u64 << ((63 - lsb_index) as u64)) != 0;
            pieces_to_move_copy &= pieces_to_move_copy - 1;
            proof {
                assert(h == highest_square(old_copy));
                assert(square_set(pieces_to_move_copy) == square_set(old_copy).remove(h));
                assert forall|s: int| #![trigger has_square(pieces_to_move_copy, s)]
                    has_square(pieces_to_move_copy, s) <==> (has_square(old_copy, s) && s != h) by {
                    assert(square_set(pieces_to_move_copy).contains(s) == has_square(pieces_to_move_copy, s));
                    assert(square_set(old_copy).contains(s) == has_square(old_copy, s));
                }
                assert(square_mask(h) == 1u64 << ((63 - lsb_index) as u64));
                assert(has_square(kings, h) == is_king);
                assert(has_square(kings, h) == v.kings().contains(h));
            }
            let class: usize = if is_king {
                2
            } else if white_to_move {
                0
            } else {
                1
            };
            let pushes = step_mask(class, lsb_index as usize);
            proof {
                assert(class == v.piece_class(h, w));
            }
            let ghost g = |e: int|
                if step_target(v.piece_class(h, w), h, e) && !v.occupied().contains(e) {
                    seq![seq![(h as u8, e as u8)]]
                } else {
                    Seq::<Seq<(u8, u8)>>::empty()
                };
            let ghost moves_before = move_steps(moves@);
            let mut att_temp = pushes & !all_pieces;
            let ghost mut b2: int = 64;
            proof {
                assert forall|e: int| #![trigger has_square(att_temp, e)]
                    has_square(att_temp, e) <==> (0 <= e < b2 && step_target(
                        v.piece_class(h, w),
                        h,
                        e,
                    ) && !v.occupied().contains(e)) by {
                    if 0 <= e < 64 {
                        lemma_combine_square(pushes, all_pieces, e);
                        assert(square_set(pushes).contains(e) == has_square(pushes, e));
                    }
                }
                assert(moves_before + gather(g, 0, 64) == moves_before + gather(g, 0, b2));
            }
            while att_temp != 0
                invariant
                    0 <= b2 <= 64,
                    0 <= h < 64,
                    lsb_index == h,
                    g == (|e: int|
                        if step_target(v.piece_class(h, w), h, e) && !v.occupied().contains(e) {
                            seq![seq![(h as u8, e as u8)]]
                        } else {
                            Seq::<Seq<(u8, u8)>>::empty()
                        }),
                    forall|e: int|
                        #![trigger has_square(att_temp, e)]
                        has_square(att_temp, e) <==> (0 <= e < b2 && step_target(
                            v.piece_class(h, w),
                            h,
                            e,
                        ) && !v.occupied().contains(e)),
                    move_steps(moves@) + gather(g, 0, b2) == moves_before + gather(g, 0, 64),
                decreases b2,
            {
                proof {
                    lemma_highest_square(att_temp);
                }
                let end = lsb_idx(&att_temp);
                let ghost old_att = att_temp;
                att_temp &= att_temp - 1;
                proof {
                    assert(square_set(att_temp) == square_set(old_att).remove(end as int));
                    assert forall|x: int| #![trigger has_square(att_temp, x)]
                        has_square(att_temp, x) <==> (has_square(old_att, x) && x != end) by {
                        assert(square_set(att_temp).contains(x) == has_square(att_temp, x));
                        assert(square_set(old_att).contains(x) == has_square(old_att, x));
                    }
                }
                let m = Move::new(lsb_index as u8, end);
                let ghost old_moves = moves@;
                moves.push(m);
                proof {
                    let e = end as int;
                    assert forall|x: int| e < x < b2 implies #[trigger] g(x) == Seq::<Seq<(u8, u8)>>::empty() by {
                        assert(!has_square(att_temp, x));
                    }
                    lemma_gather_skip(g, 0, e, b2);
                    assert(g(e) == seq![seq![(h as u8, e as u8)]]);
                    assert(move_steps(moves@) =~= move_steps(old_moves) + g(e));
                    b2 = e;
                }
            }
            proof {
                assert forall|x: int| 0 <= x < b2 implies #[trigger] g(x) == Seq::<Seq<(u8, u8)>>::empty() by {
                    lemma_combine_square(0, 0, x);
                    assert(!has_square(att_temp, x));
                }
                lemma_gather_empty(g, 0, b2);
                assert(v.quiet_moves_from(w, h) == gather(g, 0, 64));
                assert forall|x: int| h < x < b implies #[trigger] f(x) == Seq::<Seq<(u8, u8)>>::empty() by {
                    assert(!has_square(pieces_to_move_copy, x));
                }
                lemma_gather_skip(f, 0, h, b);
                b = h;
            }
        }
        proof {
            assert forall|x: int| 0 <= x < b implies #[trigger] f(x) == Seq::<Seq<(u8, u8)>>::empty() by {
                lemma_combine_square(0, 0, x);
                assert(!has_square(pieces_to_move_copy, x));
            }
            lemma_gather_empty(f, 0, b);
        }
        moves
    }

    /// The capture moves of the piece of colour `white_to_move` on `square`:
    /// for each jump over a piece of the other colour to an empty square,
    /// highest target first, the jump alone where no capture follows from
    /// the target or the target is on the first or last row, else the jump
    /// followed by each capture chain that continues from the target.
    pub fn get_captures(&self, square: u8, white_to_move: bool) -> (moves: Vec<Move>)
        requires
            square < 64,
            capture_chains(self@, square as int, white_to_move) is Some,
        ensures
            move_steps(moves@) == capture_chains(self@, square as int, white_to_move).unwrap(),
        decreases self@.size(),
    {
        let ghost v = self@;
        let ghost w = white_to_move;
        let ghost sq = square as int;
        let (attacking_pieces, defending_pieces, lookup_index) = if white_to_move {
            (self.white_pieces | self.white_kings, self.black_pieces | self.black_kings, 0usize)
        } else {
            (self.black_pieces | self.black_kings, self.white_pieces | self.white_kings, 1usize)
        };
        let all_occ = attacking_pieces | defending_pieces;
        let kings = self.white_kings | self.black_kings;
        let mut moves: Vec<Move> = Vec::new();
        proof {
            assert forall|s: int| 0 <= s < 64 implies #[trigger] has_square(defending_pieces, s)
                == v.side(!w).contains(s) by {
                lemma_combine_square(self.white_pieces, self.white_kings, s);
                lemma_combine_square(self.black_pieces, self.black_kings, s);
            }
            assert forall|s: int| 0 <= s < 64 implies {
                &&& #[trigger] has_square(all_occ, s) == v.occupied().contains(s)
                &&& has_square(attacking_pieces, s) == v.side(w).contains(s)
                &&& has_square(defending_pieces, s) == v.side(!w).contains(s)
                &&& has_square(kings, s) == v.kings().contains(s)
            } by {
                lemma_combine_square(self.white_pieces, self.white_kings, s);
                lemma_combine_square(self.black_pieces, self.black_kings, s);
                lemma_combine_square(attacking_pieces, defending_pieces, s);
                lemma_combine_square(self.white_kings, self.black_kings, s);
            }
            assert(square_mask(sq) == 1u64 << ((63 - square) as u64));
            assert(has_square(all_occ, sq) == v.occupied().contains(sq));
        }
        let bb = attacking_pieces & (1u64 << ((63 - square) as u64));
        if bb == 0 {
            return moves;
        }
        let att = if kings & (1u64 << ((63 - square) as u64)) != 0 {
            jump_mask(2, square as usize)
        } else {
            jump_mask(lookup_index, square as usize)
        };
        proof {
            assert(v.side(w).contains(sq));
            assert(capture_chains(v, sq, w) == chains_below(v, sq, w, 64));
        }
        let mut att_temp = att & !all_occ;
        let ghost mut b: int = 64;
        proof {
            assert forall|e: int| #![trigger has_square(att_temp, e)]
                has_square(att_temp, e) <==> (0 <= e < b && jump_target(v.piece_class(sq, w), sq, e)
                    && !v.occupied().contains(e)) by {
                if 0 <= e < 64 {
                    lemma_combine_square(att, all_occ, e);
                    assert(square_set(att).contains(e) == has_square(att, e));
                }
            }
            assert(move_steps(moves@) =~= Seq::<Seq<(u8, u8)>>::empty());
        }
        while att_temp != 0
            invariant
                0 <= b <= 64,
                v == self@,
                w == white_to_move,
                sq == square as int,
                square < 64,
                v.side(w).contains(sq),
                forall|s: int| 0 <= s < 64 ==> has_square(defending_pieces, s) == v.side(!w).contains(s),
                forall|e: int|
                    #![trigger has_square(att_temp, e)]
                    has_square(att_temp, e) <==> (0 <= e < b && jump_target(
                        v.piece_class(sq, w),
                        sq,
                        e,
                    ) && !v.occupied().contains(e)),
                chains_below(v, sq, w, b) is Some,
                chains_below(v, sq, w, 64) is Some,
                move_steps(moves@) + chains_below(v, sq, w, b).unwrap() == chains_below(
                    v,
                    sq,
                    w,
                    64,
                ).unwrap(),
            decreases b,
        {
            proof {
                lemma_highest_square(att_temp);
            }
            let end = lsb_idx(&att_temp);
            let ghost e = end as int;
            let ghost old_att = att_temp;
            att_temp &= att_temp - 1;
            proof {
                assert(square_set(att_temp) == square_set(old_att).remove(e));
                assert forall|x: int| #![trigger has_square(att_temp, x)]
                    has_square(att_temp, x) <==> (has_square(old_att, x) && x != e) by {
                    assert(square_set(att_temp).contains(x) == has_square(att_temp, x));
                    assert(square_set(old_att).contains(x) == has_square(old_att, x));
                }
                assert forall|x: int| e < x < b implies #[trigger] chains_through(v, sq, w, x) == Some(
                    Seq::<Seq<(u8, u8)>>::empty(),
                ) by {
                    assert(!has_square(old_att, x));
                }
                lemma_chains_skip(v, sq, w, e, b);
            }
            let mid = (square + end) / 2;
            proof {
                assert(square_mask(mid as int) == 1u64 << ((63 - mid) as u64));
            }
            proof {
                assert(has_square(defending_pieces, mid as int) == v.side(!w).contains(mid as int));
            }
            if defending_pieces & (1u64 << ((63 - mid) as u64)) != 0 {
                proof {
                    assert(v.jump_available(sq, w, e));
                    assert(chains_through(v, sq, w, e) is Some);
                    assert(v.can_move_from(sq));
                    lemma_jump_shrinks(v, sq, w, e);
                }
                let partial_move = Move::new(square, end);
                let mut next_bitboard = *self;
                next_bitboard.move_piece(square, end);
                let temp_moves = Self::get_captures(&next_bitboard, end, white_to_move);
                let ghost sub = capture_chains(v.moved(sq, e), e, w).unwrap();
                let ghost before = move_steps(moves@);
                if temp_moves.len() == 0 || (end / 8 == 0 || end / 8 == 7) {
                    moves.push(partial_move);
                    proof {
                        assert(move_steps(moves@) =~= before + seq![seq![(sq as u8, e as u8)]]);
                    }
                } else {
                    let n = temp_moves.len();
                    let mut j: usize = 0;
                    while j < n
                        invariant
                            n == temp_moves@.len(),
                            move_steps(temp_moves@) == sub,
                            0 <= j <= n,
                            sq == square as int,
                            e == end as int,
                            move_steps(moves@) == before + sub.take(j as int).map_values(
                                |t: Seq<(u8, u8)>| seq![(sq as u8, e as u8)] + t,
                            ),
                        decreases n - j,
                    {
                        let mut concat_move = Move::new(square, end);
                        concat_move.append_moves_from(&temp_moves[j]);
                        let ghost old_moves = moves@;
                        moves.push(concat_move);
                        j = j + 1;
                        proof {
                            assert(sub[j - 1] == temp_moves@[j - 1]@);
                            assert(sub.take(j as int) =~= sub.take(j - 1).push(sub[j - 1]));
                            assert(move_steps(moves@) =~= move_steps(old_moves).push(
                                seq![(sq as u8, e as u8)] + sub[j - 1],
                            ));
                        }
                    }
                    proof {
                        assert(sub.take(n as int) =~= sub);
                    }
                }
                proof {
                    let tail = chains_below(v, sq, w, e).unwrap();
                    assert(move_steps(moves@) + tail =~= before + (chains_through(v, sq, w, e).unwrap()
                        + tail));
                }
            } else {
                proof {
                    assert(!v.side(!w).contains((sq + e) / 2));
                    assert(chains_through(v, sq, w, e) == Some(Seq::<Seq<(u8, u8)>>::empty()));
                    assert(chains_through(v, sq, w, e).unwrap() + chains_below(v, sq, w, e).unwrap()
                        =~= chains_below(v, sq, w, e).unwrap());
                }
            }
            proof {
                b = e;
            }
        }
        proof {
            assert forall|x: int| 0 <= x < b implies #[trigger] chains_through(v, sq, w, x) == Some(
                Seq::<Seq<(u8, u8)>>::empty(),
            ) by {
                lemma_combine_square(0, 0, x);
                assert(!has_square(att_temp, x));
            }
            lemma_chains_none_below(v, sq, w, b);
            assert(move_steps(moves@) + Seq::<Seq<(u8, u8)>>::empty() =~= move_steps(moves@));
        }
        moves
    }

    /// Every capture move of colour `white_to_move`, piece by piece from
    /// the highest square down. Asking for the colour that is not to move,
    /// while it has pieces, is refused.
    pub fn get_all_captures(&self, white_to_move: bool) -> (moves: Vec<Move>)
        requires
            white_to_move == self.white_to_move || (if white_to_move {
                self.white_pieces | self.white_kings
            } else {
                self.black_pieces | self.black_kings
            }) == 0,
        ensures
            move_steps(moves@) == self@.all_captures(white_to_move),
    {
        let ghost v = self@;
        let ghost w = white_to_move;
        let ghost f = |s: int| capture_chains(v, s, w).unwrap();
        let mut moves: Vec<Move> = Vec::new();
        let pieces_to_move = if white_to_move {
            self.white_pieces | self.white_kings
        } else {
            self.black_pieces | self.black_kings
        };
        proof {
            assert forall|s: int| 0 <= s < 64 implies #[trigger] has_square(pieces_to_move, s)
                == v.side(w).contains(s) by {
                lemma_combine_square(self.white_pieces, self.white_kings, s);
                lemma_combine_square(self.black_pieces, self.black_kings, s);
            }
        }
        let mut pieces_to_move_copy = pieces_to_move;
        let ghost mut b: int = 64;
        while pieces_to_move_copy != 0
            invariant
                0 <= b <= 64,
                v == self@,
                w == white_to_move,
                f == (|s: int| capture_chains(v, s, w).unwrap()),
                pieces_to_move_copy != 0 ==> w == v.white_to_move,
                forall|s: int|
                    #![trigger has_square(pieces_to_move_copy, s)]
                    has_square(pieces_to_move_copy, s) <==> (0 <= s < b && v.side(w).contains(s)),
                move_steps(moves@) + gather(f, 0, b) == gather(f, 0, 64),
            decreases b,
        {
            proof {
                lemma_highest_square(pieces_to_move_copy);
                lemma_capture_chains_defined(v, highest_square(pieces_to_move_copy), w);
            }
            let lsb_index = 63 - pieces_to_move_copy.trailing_zeros();
            let ghost h = lsb_index as int;
            let ghost old_copy = pieces_to_move_copy;
            pieces_to_move_copy &= pieces_to_move_copy - 1;
            proof {
                assert(square_set(pieces_to_move_copy) == square_set(old_copy).remove(h));
                assert forall|x: int| #![trigger has_square(pieces_to_move_copy, x)]
                    has_square(pieces_to_move_copy, x) <==> (has_square(old_copy, x) && x != h) by {
                    assert(square_set(pieces_to_move_copy).contains(x) == has_square(
                        pieces_to_move_copy,
                        x,
                    ));
                    assert(square_set(old_copy).contains(x) == has_square(old_copy, x));
                }
                assert forall|x: int| h < x < b implies #[trigger] f(x) == Seq::<
                    Seq<(u8, u8)>,
                >::empty() by {
                    assert(!has_square(old_copy, x));
                }
                lemma_gather_skip(f, 0, h, b);
            }
            let mut temp_moves = self.get_captures(lsb_index as u8, white_to_move);
            let ghost old_moves = moves@;
            moves.append(&mut temp_moves);
            proof {
                assert(move_steps(moves@) =~= move_steps(old_moves) + f(h));
                b = h;
            }
        }
        proof {
            assert forall|x: int| 0 <= x < b implies #[trigger] f(x) == Seq::<
                Seq<(u8, u8)>,
            >::empty() by {
                lemma_combine_square(0, 0, x);
                assert(!has_square(pieces_to_move_copy, x));
            }
            lemma_gather_empty(f, 0, b);
        }
        moves
    }

    /// The legal moves of the side to move: its captures where it has any,
    /// else its non-capturing moves.
    pub fn get_all_legal_moves(&self) -> (moves: Vec<Move>)
        ensures
            move_steps(moves@) == self@.legal_moves(),
    {
        let white_to_move = self.white_to_move;
        let captures = self.get_all_captures(white_to_move);
        if captures.len() == 0 {
            self.get_non_capture_moves(white_to_move)
        } else {
            captures
        }
    }

}

} // verus!
