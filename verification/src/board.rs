//! The board: four bitboards and the side to move, its model as sets of
//! squares, moves made of steps, and the rule that moves a piece.
use vstd::prelude::*;
use crate::squares::{square_mask, square_set, lemma_clear_set, lemma_set_set, lemma_combine_set};
pub use crate::layout::GameState;

verus! {

/// The squares of the board as sets: the men and the kings of each colour.
pub struct BoardView {
    pub white_men: Set<int>,
    pub white_kings: Set<int>,
    pub black_men: Set<int>,
    pub black_kings: Set<int>,
    pub white_to_move: bool,
}

/// Bitboard `x` of a board as a set of squares: 0 the white men, 1 the
/// white kings, 2 the black men, 3 the black kings.
pub open spec fn board_set(v: BoardView, x: int) -> Set<int> {
    if x == 0 {
        v.white_men
    } else if x == 1 {
        v.white_kings
    } else if x == 2 {
        v.black_men
    } else {
        v.black_kings
    }
}

/// The number of squares in 0..n that a set holds.
pub open spec fn count_below(s: Set<int>, n: int) -> nat
    decreases n,
{
    if n <= 0 {
        0
    } else {
        count_below(s, n - 1) + if s.contains(n - 1) {
            1nat
        } else {
            0nat
        }
    }
}

/// The number of board squares that a set holds.
pub open spec fn square_count(s: Set<int>) -> nat {
    count_below(s, 64)
}

pub proof fn lemma_count_remove(s: Set<int>, a: int, n: int)
    ensures
        count_below(s.remove(a), n) + (if 0 <= a < n && s.contains(a) {
            1nat
        } else {
            0nat
        }) == count_below(s, n),
    decreases n,
{
    if n > 0 {
        lemma_count_remove(s, a, n - 1);
    }
}

pub proof fn lemma_count_insert(s: Set<int>, a: int, n: int)
    ensures
        count_below(s.insert(a), n) == count_below(s, n) + (if 0 <= a < n && !s.contains(a) {
            1nat
        } else {
            0nat
        }),
    decreases n,
{
    if n > 0 {
        lemma_count_insert(s, a, n - 1);
    }
}

/// The concatenation `f(hi - 1) + f(hi - 2) + ... + f(lo)`: what a walk
/// over squares from the highest down collects.
pub open spec fn gather<T>(f: spec_fn(int) -> Seq<T>, lo: int, hi: int) -> Seq<T>
    decreases hi - lo,
{
    if hi <= lo {
        seq![]
    } else {
        f(hi - 1) + gather(f, lo, hi - 1)
    }
}

/// Squares between `h` and `b` that contribute nothing can be skipped.
pub proof fn lemma_gather_skip<T>(f: spec_fn(int) -> Seq<T>, lo: int, h: int, b: int)
    requires
        lo <= h < b,
        forall|s: int| h < s < b ==> #[trigger] f(s) == Seq::<T>::empty(),
    ensures
        gather(f, lo, b) == f(h) + gather(f, lo, h),
    decreases b - h,
{
    if b - 1 > h {
        lemma_gather_skip(f, lo, h, b - 1);
        assert(f(b - 1) == Seq::<T>::empty());
        assert(gather(f, lo, b) =~= f(b - 1) + gather(f, lo, b - 1));
    }
}

/// Squares below `b` that contribute nothing leave nothing to gather.
pub proof fn lemma_gather_empty<T>(f: spec_fn(int) -> Seq<T>, lo: int, b: int)
    requires
        forall|s: int| lo <= s < b ==> #[trigger] f(s) == Seq::<T>::empty(),
    ensures
        gather(f, lo, b) == Seq::<T>::empty(),
    decreases b - lo,
{
    if b > lo {
        lemma_gather_empty(f, lo, b - 1);
        assert(gather(f, lo, b) =~= f(b - 1) + gather(f, lo, b - 1));
    }
}

/// Every element of a part is gathered.
pub proof fn lemma_gather_contains<T>(f: spec_fn(int) -> Seq<T>, lo: int, hi: int, s: int, j: int)
    requires
        lo <= s < hi,
        0 <= j < f(s).len(),
    ensures
        gather(f, lo, hi).contains(f(s)[j]),
    decreases hi - lo,
{
    let a = f(hi - 1);
    let b = gather(f, lo, hi - 1);
    assert(gather(f, lo, hi) == a + b);
    if s == hi - 1 {
        assert((a + b)[j] == a[j]);
    } else {
        lemma_gather_contains(f, lo, hi - 1, s, j);
        let k = choose|k: int| 0 <= k < b.len() && b[k] == f(s)[j];
        assert((a + b)[k + a.len()] == b[k]);
    }
}

/// Every gathered element comes from a part.
pub proof fn lemma_gather_member<T>(f: spec_fn(int) -> Seq<T>, lo: int, hi: int, k: int)
    requires
        0 <= k < gather(f, lo, hi).len(),
    ensures
        exists|s: int, j: int|
            lo <= s < hi && 0 <= j < f(s).len() && gather(f, lo, hi)[k] == #[trigger] f(s)[j],
    decreases hi - lo,
{
    let a = f(hi - 1);
    let b = gather(f, lo, hi - 1);
    assert(gather(f, lo, hi) == a + b);
    if k < a.len() {
        assert((a + b)[k] == f(hi - 1)[k]);
    } else {
        lemma_gather_member(f, lo, hi - 1, k - a.len());
        assert((a + b)[k] == b[k - a.len()]);
    }
}

/// When the keys of each part fall in its own band, bands of higher parts
/// lie above those of lower ones, and each part is strictly decreasing in
/// its key, what the walk gathers is strictly decreasing in the key.
pub proof fn lemma_gather_descending<T>(
    f: spec_fn(int) -> Seq<T>,
    lo: int,
    hi: int,
    key: spec_fn(T) -> int,
    lower: spec_fn(int) -> int,
    upper: spec_fn(int) -> int,
)
    requires
        forall|s: int, j: int|
            lo <= s < hi && 0 <= j < f(s).len() ==> lower(s) <= #[trigger] key(f(s)[j]) < upper(s),
        forall|s1: int, s2: int| lo <= s1 < s2 < hi ==> #[trigger] upper(s1) <= #[trigger] lower(s2),
        forall|s: int, j1: int, j2: int|
            lo <= s < hi && 0 <= j1 < j2 < f(s).len() ==> #[trigger] key(f(s)[j1]) > #[trigger] key(
                f(s)[j2],
            ),
    ensures
        forall|k1: int, k2: int|
            0 <= k1 < k2 < gather(f, lo, hi).len() ==> #[trigger] key(gather(f, lo, hi)[k1])
                > #[trigger] key(gather(f, lo, hi)[k2]),
        forall|k: int|
            #![trigger gather(f, lo, hi)[k]]
            0 <= k < gather(f, lo, hi).len() ==> exists|s: int|
                #![trigger upper(s)]
                lo <= s < hi && lower(s) <= key(gather(f, lo, hi)[k]) < upper(s),
    decreases hi - lo,
{
    if hi > lo {
        lemma_gather_descending(f, lo, hi - 1, key, lower, upper);
        let a = f(hi - 1);
        let b = gather(f, lo, hi - 1);
        let g = gather(f, lo, hi);
        assert(g == a + b);
        assert forall|k: int| #![trigger g[k]] 0 <= k < g.len() implies exists|s: int|
            #![trigger upper(s)]
            lo <= s < hi && lower(s) <= key(g[k]) < upper(s) by {
            if k < a.len() {
                assert(g[k] == a[k]);
                assert(lower(hi - 1) <= key(f(hi - 1)[k]) < upper(hi - 1));
            } else {
                assert(g[k] == b[k - a.len()]);
                let s = choose|s: int|
                    #![trigger upper(s)]
                    lo <= s < hi - 1 && lower(s) <= key(b[k - a.len()]) < upper(s);
            }
        }
        assert forall|k1: int, k2: int| 0 <= k1 < k2 < g.len() implies #[trigger] key(g[k1])
            > #[trigger] key(g[k2]) by {
            if k2 < a.len() {
                assert(g[k1] == a[k1] && g[k2] == a[k2]);
            } else if k1 >= a.len() {
                assert(g[k1] == b[k1 - a.len()] && g[k2] == b[k2 - a.len()]);
            } else {
                assert(g[k1] == a[k1] && g[k2] == b[k2 - a.len()]);
                assert(lower(hi - 1) <= key(f(hi - 1)[k1]));
                let s = choose|s: int|
                    #![trigger upper(s)]
                    lo <= s < hi - 1 && lower(s) <= key(b[k2 - a.len()]) < upper(s);
                assert(upper(s) <= lower(hi - 1));
            }
        }
    }
}

pub proof fn lemma_count_bound(s: Set<int>, n: int)
    ensures
        count_below(s, n) <= if n > 0 {
            n
        } else {
            0
        },
    decreases n,
{
    if n > 0 {
        lemma_count_bound(s, n - 1);
    }
}

/// A board holds at most 256 pieces, 64 on each bitboard.
pub proof fn lemma_size_bound(v: BoardView)
    ensures
        v.size() <= 256,
{
    lemma_count_bound(v.white_men, 64);
    lemma_count_bound(v.white_kings, 64);
    lemma_count_bound(v.black_men, 64);
    lemma_count_bound(v.black_kings, 64);
}

/// Whether every element of a gathered list satisfies `p`, given that each
/// part does.
pub proof fn lemma_gather_all<T>(f: spec_fn(int) -> Seq<T>, lo: int, hi: int, p: spec_fn(T) -> bool)
    requires
        forall|s: int, j: int| lo <= s < hi && 0 <= j < f(s).len() ==> #[trigger] p(f(s)[j]),
    ensures
        forall|j: int| 0 <= j < gather(f, lo, hi).len() ==> #[trigger] p(gather(f, lo, hi)[j]),
    decreases hi - lo,
{
    if hi > lo {
        lemma_gather_all(f, lo, hi - 1, p);
        let a = f(hi - 1);
        let b = gather(f, lo, hi - 1);
        assert(gather(f, lo, hi) == a + b);
        assert forall|j: int| 0 <= j < (a + b).len() implies #[trigger] p((a + b)[j]) by {
            if j < a.len() {
                assert((a + b)[j] == f(hi - 1)[j]);
            } else {
                assert((a + b)[j] == b[j - a.len()]);
            }
        }
    }
}

impl BoardView {
    /// The squares of the pieces of one colour.
    pub open spec fn side(self, white: bool) -> Set<int> {
        if white {
            self.white_men.union(self.white_kings)
        } else {
            self.black_men.union(self.black_kings)
        }
    }

    /// The squares of all kings, of either colour.
    pub open spec fn kings(self) -> Set<int> {
        self.white_kings.union(self.black_kings)
    }

    /// The occupied squares.
    pub open spec fn occupied(self) -> Set<int> {
        self.side(true).union(self.side(false))
    }

    /// The number of pieces, counting a square once for each bitboard that holds it.
    pub open spec fn size(self) -> nat {
        square_count(self.white_men) + square_count(self.white_kings) + square_count(
            self.black_men,
        ) + square_count(self.black_kings)
    }

    /// Whether the side to move has a man or a king on `from`, so that a move
    /// from there can be made.
    pub open spec fn can_move_from(self, from: int) -> bool {
        if self.white_to_move {
            self.white_men.contains(from) || self.white_kings.contains(from)
        } else {
            self.black_men.contains(from) || self.black_kings.contains(from)
        }
    }

    /// The square jumped over by a step from `from` to `to`: the middle
    /// square when the step spans more than 9 squares.
    pub open spec fn jumped(from: int, to: int) -> Set<int> {
        if from - to > 9 || to - from > 9 {
            Set::empty().insert((from + to) / 2)
        } else {
            Set::empty()
        }
    }

    /// The board after the piece of the side to move on `from` goes to `to`:
    /// a man reaching the far row becomes a king, and a piece between the
    /// two squares of a jump is taken off, whatever its colour.
    pub open spec fn moved(self, from: int, to: int) -> BoardView {
        let j = Self::jumped(from, to);
        if self.white_to_move {
            if self.white_men.contains(from) {
                if to < 8 {
                    BoardView {
                        white_men: self.white_men.remove(from).difference(j),
                        white_kings: self.white_kings.insert(to).difference(j),
                        black_men: self.black_men.difference(j),
                        black_kings: self.black_kings.difference(j),
                        white_to_move: true,
                    }
                } else {
                    BoardView {
                        white_men: self.white_men.remove(from).insert(to).difference(j),
                        white_kings: self.white_kings.difference(j),
                        black_men: self.black_men.difference(j),
                        black_kings: self.black_kings.difference(j),
                        white_to_move: true,
                    }
                }
            } else {
                BoardView {
                    white_men: self.white_men.difference(j),
                    white_kings: self.white_kings.remove(from).insert(to).difference(j),
                    black_men: self.black_men.difference(j),
                    black_kings: self.black_kings.difference(j),
                    white_to_move: true,
                }
            }
        } else {
            if self.black_men.contains(from) {
                if to > 55 {
                    BoardView {
                        white_men: self.white_men.difference(j),
                        white_kings: self.white_kings.difference(j),
                        black_men: self.black_men.remove(from).difference(j),
                        black_kings: self.black_kings.insert(to).difference(j),
                        white_to_move: false,
                    }
                } else {
                    BoardView {
                        white_men: self.white_men.difference(j),
                        white_kings: self.white_kings.difference(j),
                        black_men: self.black_men.remove(from).insert(to).difference(j),
                        black_kings: self.black_kings.difference(j),
                        white_to_move: false,
                    }
                }
            } else {
                BoardView {
                    white_men: self.white_men.difference(j),
                    white_kings: self.white_kings.difference(j),
                    black_men: self.black_men.difference(j),
                    black_kings: self.black_kings.remove(from).insert(to).difference(j),
                    white_to_move: false,
                }
            }
        }
    }

    /// The board with `piece` placed on `sq` (`Some(true)` for black,
    /// `Some(false)` for white, as a king when `king`), or with every piece
    /// taken off `sq` for `None`.
    pub open spec fn placed(self, sq: int, piece: Option<bool>, king: bool) -> BoardView {
        match piece {
            None => BoardView {
                white_men: self.white_men.remove(sq),
                white_kings: self.white_kings.remove(sq),
                black_men: self.black_men.remove(sq),
                black_kings: self.black_kings.remove(sq),
                white_to_move: self.white_to_move,
            },
            Some(black) => if king {
                if black {
                    BoardView { black_kings: self.black_kings.insert(sq), ..self }
                } else {
                    BoardView { white_kings: self.white_kings.insert(sq), ..self }
                }
            } else {
                if black {
                    BoardView { black_men: self.black_men.insert(sq), ..self }
                } else {
                    BoardView { white_men: self.white_men.insert(sq), ..self }
                }
            },
        }
    }

    /// The position after the steps of a move, with the other side to move.
    pub open spec fn play(self, steps: Seq<(u8, u8)>) -> BoardView {
        let after = self.after_steps(steps).unwrap();
        BoardView { white_to_move: !after.white_to_move, ..after }
    }

    /// One step of a move: `None` where it cannot be made.
    pub open spec fn step(self, from: int, to: int) -> Option<BoardView> {
        if 0 <= from < 64 && 0 <= to < 64 && self.can_move_from(from) {
            Some(self.moved(from, to))
        } else {
            None
        }
    }

    /// The board after the steps in order: `None` where one of them cannot
    /// be made.
    pub open spec fn after_steps(self, steps: Seq<(u8, u8)>) -> Option<BoardView>
        decreases steps.len(),
    {
        if steps.len() == 0 {
            Some(self)
        } else {
            match self.step(steps[0].0 as int, steps[0].1 as int) {
                Some(next) => next.after_steps(steps.drop_first()),
                None => None,
            }
        }
    }
}

/// Moving a piece of the side to move puts a piece of that colour on the
/// target, leaves the jumped square of a jump empty, and changes no other
/// square than the origin, the target and the jumped square.
pub proof fn lemma_moved_piece(v: BoardView, from: int, to: int)
    requires
        0 <= from < 64,
        0 <= to < 64,
        v.can_move_from(from),
    ensures
        v.moved(from, to).side(v.white_to_move).contains(to),
        v.moved(from, to).white_to_move == v.white_to_move,
        from - to > 9 || to - from > 9 ==> !v.moved(from, to).occupied().contains((from + to) / 2),
        forall|s: int|
            s != from && s != to && s != (from + to) / 2 ==> {
                &&& v.moved(from, to).white_men.contains(s) == v.white_men.contains(s)
                &&& v.moved(from, to).white_kings.contains(s) == v.white_kings.contains(s)
                &&& v.moved(from, to).black_men.contains(s) == v.black_men.contains(s)
                &&& #[trigger] v.moved(from, to).black_kings.contains(s) == v.black_kings.contains(s)
            },
{
}

/// A man of the side to move that reaches the far row of its colour (the
/// top row for white, the bottom row for black) on an empty square becomes
/// a king there, and elsewhere stays a man; a king stays a king.
pub proof fn lemma_promotion(v: BoardView, from: int, to: int)
    requires
        0 <= from < 64,
        0 <= to < 64,
        from != to,
        v.can_move_from(from),
        !v.white_men.contains(to),
        !v.white_kings.contains(to),
        !v.black_men.contains(to),
        !v.black_kings.contains(to),
    ensures
        v.white_to_move && v.white_men.contains(from) ==> (v.moved(from, to).white_kings.contains(to)
            <==> to < 8) && (v.moved(from, to).white_men.contains(to) <==> to >= 8),
        !v.white_to_move && v.black_men.contains(from) ==> (v.moved(from, to).black_kings.contains(
            to,
        ) <==> to >= 56) && (v.moved(from, to).black_men.contains(to) <==> to < 56),
        v.white_to_move && !v.white_men.contains(from) ==> v.moved(from, to).white_kings.contains(to)
            && !v.moved(from, to).white_men.contains(to),
        !v.white_to_move && !v.black_men.contains(from) ==> v.moved(from, to).black_kings.contains(
            to,
        ) && !v.moved(from, to).black_men.contains(to),
{
    let j = BoardView::jumped(from, to);
    assert(!j.contains(to));
}

/// The empty board with the given side to move.
pub open spec fn empty_board(white_to_move: bool) -> BoardView {
    BoardView {
        white_men: Set::empty(),
        white_kings: Set::empty(),
        black_men: Set::empty(),
        black_kings: Set::empty(),
        white_to_move,
    }
}

/// A move: the steps it makes in order, each a pair of squares (from, to).
/// A chain of captures has several steps.
#[derive(Debug, Clone, PartialEq)]
pub struct Move {
    sub_moves: Vec<(u8, u8)>,
}

impl View for Move {
    type V = Seq<(u8, u8)>;

    closed spec fn view(&self) -> Seq<(u8, u8)> {
        self.sub_moves@
    }
}

/// The steps of each move of a list.
pub open spec fn move_steps(moves: Seq<Move>) -> Seq<Seq<(u8, u8)>> {
    moves.map_values(|m: Move| m@)
}

impl Move {
    /// A move of one step.
    pub(crate) fn new(from: u8, to: u8) -> (m: Move)
        ensures
            m@ == seq![(from, to)],
    {
        let mut sub_moves: Vec<(u8, u8)> = Vec::new();
        sub_moves.push((from, to));
        Move { sub_moves }
    }

    /// Appends the steps of `other` to this move.
    pub(crate) fn append_moves_from(&mut self, other: &Move)
        ensures
            final(self)@ == old(self)@ + other@,
    {
        let n = other.sub_moves.len();
        let mut i: usize = 0;
        while i < n
            invariant
                n == other@.len(),
                0 <= i <= n,
                self@ == old(self)@ + other@.take(i as int),
            decreases n - i,
        {
            self.sub_moves.push(other.sub_moves[i]);
            i = i + 1;
            assert(other@.take(i as int) == other@.take(i - 1) + seq![other@[i - 1]]);
        }
        assert(other@.take(n as int) == other@);
    }

    /// A move of the given steps.
    pub(crate) fn from_steps(sub_moves: Vec<(u8, u8)>) -> (m: Move)
        ensures
            m@ == sub_moves@,
    {
        Move { sub_moves }
    }

    /// The steps of the move.
    pub fn steps(&self) -> (s: &Vec<(u8, u8)>)
        ensures
            s@ == self@,
    {
        &self.sub_moves
    }

}

/// A position: the men and kings of each colour as bitboards, and the side
/// to move.
#[derive(Debug, Clone, Copy, PartialEq)]
pub struct CheckersBitboard {
    pub black_pieces: u64,
    pub white_pieces: u64,
    pub black_kings: u64,
    pub white_kings: u64,
    pub white_to_move: bool,
}

impl View for CheckersBitboard {
    type V = BoardView;

    open spec fn view(&self) -> BoardView {
        BoardView {
            white_men: square_set(self.white_pieces),
            white_kings: square_set(self.white_kings),
            black_men: square_set(self.black_pieces),
            black_kings: square_set(self.black_kings),
            white_to_move: self.white_to_move,
        }
    }
}

impl CheckersBitboard {
    /// An empty board.
    pub fn new(white_to_move: bool) -> (b: Self)
        ensures
            b.black_pieces == 0,
            b.white_pieces == 0,
            b.black_kings == 0,
            b.white_kings == 0,
            b.white_to_move == white_to_move,
            b@ == empty_board(white_to_move),
    {
        proof {
            crate::squares::lemma_combine_set(0, 0);
        }
        Self {
            black_pieces: 0,
            white_pieces: 0,
            black_kings: 0,
            white_kings: 0,
            white_to_move: white_to_move,
        }
    }

    /// Moves the piece of the side to move on `from` to `to`, making a man
    /// that reaches the far row a king, and taking off whatever stands on
    /// the middle square of a step that spans more than 9 squares.
    pub fn move_piece(&mut self, from: u8, to: u8)
        requires
            from < 64,
            to < 64,
            old(self)@.can_move_from(from as int),
        ensures
            final(self)@ == old(self)@.moved(from as int, to as int),
            final(self).white_to_move == old(self).white_to_move,
    {
        let ghost v = self@;
        let from = from as usize;
        let to = to as usize;
        let mask = 1u64 << (63 - from);
        let to_mask = 1u64 << (63 - to);
        proof {
            assert(mask == square_mask(from as int));
            assert(to_mask == square_mask(to as int));
            lemma_clear_set(self.white_pieces, from as int);
            lemma_clear_set(self.white_kings, from as int);
            lemma_clear_set(self.black_pieces, from as int);
            lemma_clear_set(self.black_kings, from as int);
        }
        if self.white_to_move {
            if self.white_pieces & mask != 0 {
                proof {
                    lemma_set_set(self.white_pieces & !mask, to as int);
                    lemma_set_set(self.white_kings, to as int);
                    assert(v.white_men.contains(from as int));
                }
                self.white_pieces &= !mask;
                if to < 8 {
                    self.white_kings |= to_mask;
                } else {
                    self.white_pieces |= to_mask;
                }
            } else {
                proof {
                    assert(!v.white_men.contains(from as int));
                    lemma_set_set(self.white_kings & !mask, to as int);
                }
                self.white_kings &= !mask;
                self.white_kings |= to_mask;
            }
        } else {
            if self.black_pieces & mask != 0 {
                proof {
                    lemma_set_set(self.black_pieces & !mask, to as int);
                    lemma_set_set(self.black_kings, to as int);
                    assert(v.black_men.contains(from as int));
                }
                self.black_pieces &= !mask;
                if to > 55 {
                    self.black_kings |= to_mask;
                } else {
                    self.black_pieces |= to_mask;
                }
            } else {
                proof {
                    assert(!v.black_men.contains(from as int));
                    lemma_set_set(self.black_kings & !mask, to as int);
                }
                self.black_kings &= !mask;
                self.black_kings |= to_mask;
            }
        }
        let ghost mid_view = self@;
        let ghost j = BoardView::jumped(from as int, to as int);
        let diff = if from > to {
            from - to
        } else {
            to - from
        };
        if diff > 9 {
            let mid = (from + to) / 2;
            let jmask = 1u64 << (63 - mid);
            proof {
                assert(jmask == square_mask(mid as int));
                lemma_clear_set(self.white_pieces, mid as int);
                lemma_clear_set(self.white_kings, mid as int);
                lemma_clear_set(self.black_pieces, mid as int);
                lemma_clear_set(self.black_kings, mid as int);
                assert(j == Set::<int>::empty().insert(mid as int));
                assert forall|s: Set<int>| s.remove(mid as int) =~= #[trigger] s.difference(j) by {}
            }
            self.black_pieces &= !jmask;
            self.white_pieces &= !jmask;
            self.black_kings &= !jmask;
            self.white_kings &= !jmask;
        } else {
            proof {
                assert(j == Set::<int>::empty());
                assert forall|s: Set<int>| s =~= #[trigger] s.difference(j) by {}
            }
        }
        assert(self@ == v.moved(from as int, to as int));
    }

    /// The mask of the square on `row` and `col`.
    pub(crate) fn mask_position(row: usize, col: usize) -> (m: u64)
        requires
            row * 8 + col < 64,
        ensures
            m == square_mask(row * 8 + col),
    {
        1u64 << ((63 - (row * 8 + col)) as u64)
    }

    /// Places a piece on the square on `row` and `col`: `Some(true)` a
    /// black one, `Some(false)` a white one, a king when `king_piece`; or,
    /// for `None`, takes every piece off it.
    pub(crate) fn set_position(&mut self, row: usize, col: usize, black_piece: Option<bool>, king_piece: bool)
        requires
            row * 8 + col < 64,
        ensures
            final(self)@ == old(self)@.placed(row * 8 + col, black_piece, king_piece),
    {
        let mask = Self::mask_position(row, col);
        let ghost sq = row * 8 + col;
        proof {
            lemma_clear_set(self.black_pieces, sq);
            lemma_clear_set(self.white_pieces, sq);
            lemma_clear_set(self.black_kings, sq);
            lemma_clear_set(self.white_kings, sq);
            lemma_set_set(self.black_pieces, sq);
            lemma_set_set(self.white_pieces, sq);
            lemma_set_set(self.black_kings, sq);
            lemma_set_set(self.white_kings, sq);
        }
        match black_piece {
            None => {
                self.black_pieces &= !mask;
                self.white_pieces &= !mask;
                self.black_kings &= !mask;
                self.white_kings &= !mask;
            },
            Some(black_piece) => {
                if king_piece {
                    if black_piece {
                        self.black_kings |= mask;
                    } else {
                        self.white_kings |= mask;
                    }
                } else {
                    if black_piece {
                        self.black_pieces |= mask;
                    } else {
                        self.white_pieces |= mask;
                    }
                }
            },
        }
    }

    /// Makes the steps of a move in order (the side to move stays the same).
    pub fn apply_move(&mut self, mov: &Move)
        requires
            old(self)@.after_steps(mov@) is Some,
        ensures
            final(self)@ == old(self)@.after_steps(mov@).unwrap(),
            final(self).white_to_move == old(self).white_to_move,
    {
        let ghost v0 = self@;
        let n = mov.sub_moves.len();
        let mut i: usize = 0;
        assert(mov@.skip(0) =~= mov@);
        while i < n
            invariant
                n == mov@.len(),
                0 <= i <= n,
                self.white_to_move == v0.white_to_move,
                v0.after_steps(mov@) == self@.after_steps(mov@.skip(i as int)),
                self@.after_steps(mov@.skip(i as int)) is Some,
            decreases n - i,
        {
            let (from, to) = mov.sub_moves[i];
            proof {
                assert(mov@.skip(i as int)[0] == (from, to));
                assert(mov@.skip(i as int).drop_first() =~= mov@.skip(i + 1));
            }
            self.move_piece(from, to);
            i = i + 1;
        }
        proof {
            assert(mov@.skip(n as int) =~= Seq::<(u8, u8)>::empty());
        }
    }
}


} // verus!
