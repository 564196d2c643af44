//! Where a piece on a square may step or jump to, as bitboard masks.
//!
//! The piece classes are 0 for a white man (moving towards row 0), 1 for a
//! black man (moving towards row 7) and 2 for a king (either way).
use vstd::prelude::*;
use crate::squares::{square_mask, square_set, lemma_set_set, lemma_combine_set};

verus! {

/// Whether a piece of `class` on square `i` may step to square `e`.
pub open spec fn step_target(class: int, i: int, e: int) -> bool {
    let white = i > 7 && ((i % 8 != 7 && e == i - 7) || (i % 8 != 0 && e == i - 9));
    let black = i < 56 && ((i % 8 != 0 && e == i + 7) || (i % 8 != 7 && e == i + 9));
    0 <= e < 64 && if class == 0 {
        white
    } else if class == 1 {
        black
    } else {
        white || black
    }
}

/// Whether a piece of `class` on square `i` may jump to square `e`.
///
/// A jump goes two squares along a diagonal in the direction of a step, and
/// only where the target is on the board: two columns away on the same side
/// and two rows on.
pub open spec fn jump_target(class: int, i: int, e: int) -> bool {
    let white = i > 7 && ((i % 8 != 6 && i % 8 != 7 && e == i - 14) || (i % 8 != 0 && i % 8
        != 1 && e == i - 18));
    let black = i < 56 && ((i % 8 != 0 && i % 8 != 1 && e == i + 14) || (i % 8 != 6 && i % 8
        != 7 && e == i + 18));
    0 <= e < 64 && if class == 0 {
        white
    } else if class == 1 {
        black
    } else {
        white || black
    }
}

pub open spec fn step_targets(class: int, i: int) -> Set<int> {
    Set::new(|e: int| step_target(class, i, e))
}

pub open spec fn jump_targets(class: int, i: int) -> Set<int> {
    Set::new(|e: int| jump_target(class, i, e))
}

/// A step goes to a diagonal neighbour on the board: one column aside and
/// one row on, up the board for a white man, down for a black man, and
/// either way for a king; every such neighbour is a step target.
pub proof fn lemma_step_target_geometry(class: int, i: int, e: int)
    requires
        0 <= i < 64,
        0 <= class < 3,
    ensures
        step_target(class, i, e) <==> (0 <= e < 64 && (e % 8 - i % 8 == 1 || i % 8 - e % 8 == 1)
            && (if class == 0 {
            e / 8 == i / 8 - 1
        } else if class == 1 {
            e / 8 == i / 8 + 1
        } else {
            e / 8 == i / 8 - 1 || e / 8 == i / 8 + 1
        })),
{
}

/// A jump goes two squares along a diagonal on the board: two columns aside
/// and two rows on, up the board for a white man, down for a black man,
/// and either way for a king; every such square is a jump target.
pub proof fn lemma_jump_target_geometry(class: int, i: int, e: int)
    requires
        0 <= i < 64,
        0 <= class < 3,
    ensures
        jump_target(class, i, e) <==> (0 <= e < 64 && (e % 8 - i % 8 == 2 || i % 8 - e % 8 == 2)
            && (if class == 0 {
            e / 8 == i / 8 - 2
        } else if class == 1 {
            e / 8 == i / 8 + 2
        } else {
            e / 8 == i / 8 - 2 || e / 8 == i / 8 + 2
        })),
{
}

proof fn lemma_shift_up(i: int, k: u64)
    requires
        0 <= i < 64,
        k < 64,
    ensures
        square_mask(i) << k == if i >= k {
            square_mask(i - k)
        } else {
            0u64
        },
{
    let a = (63 - i) as u64;
    if i >= k {
        let b = (63 - (i - k)) as u64;
        assert(b == a + k);
        assert(a + k < 64 ==> (1u64 << a) << k == 1u64 << ((a + k) as u64)) by (bit_vector);
    } else {
        assert(a < 64 && a + k >= 64 ==> (1u64 << a) << k == 0) by (bit_vector);
    }
}

proof fn lemma_shift_down(i: int, k: u64)
    requires
        0 <= i < 64,
        k < 64,
    ensures
        square_mask(i) >> k == if i + k < 64 {
            square_mask(i + k)
        } else {
            0u64
        },
{
    let a = (63 - i) as u64;
    if i + k < 64 {
        let b = (63 - (i + k)) as u64;
        assert(b == a - k);
        assert(a < 64 && k <= a ==> (1u64 << a) >> k == 1u64 << ((a - k) as u64)) by (bit_vector);
    } else {
        assert(a < 64 && k > a ==> (1u64 << a) >> k == 0) by (bit_vector);
    }
}

proof fn lemma_or_shifted(acc: u64, i: int, e: int, m: u64)
    requires
        0 <= i < 64,
        m == (if 0 <= e < 64 {
            square_mask(e)
        } else {
            0u64
        }),
    ensures
        square_set(acc | m) == if 0 <= e < 64 {
            square_set(acc).insert(e)
        } else {
            square_set(acc)
        },
{
    if 0 <= e < 64 {
        lemma_set_set(acc, e);
    } else {
        assert(acc | 0u64 == acc) by (bit_vector);
    }
}

/// The squares to which a man of colour `white` (class 0 when white, 1 when
/// black) on square `i` may step.
fn man_steps(i: usize, white: bool) -> (m: u64)
    requires
        i < 64,
    ensures
        square_set(m) == step_targets(if white { 0 } else { 1 }, i as int),
{
    let position: u64 = 1u64 << (63 - i);
    let mut m: u64 = 0;
    proof {
        lemma_combine_set(0, 0);
        assert(position == square_mask(i as int));
    }
    if white {
        if i > 7 && i % 8 != 7 {
            proof {
                lemma_shift_up(i as int, 7);
                lemma_or_shifted(m, i as int, i - 7, position << 7);
            }
            m = m | (position << 7);
        }
        if i > 7 && i % 8 != 0 {
            proof {
                lemma_shift_up(i as int, 9);
                lemma_or_shifted(m, i as int, i - 9, position << 9);
            }
            m = m | (position << 9);
        }
    } else {
        if i < 56 && i % 8 != 0 {
            proof {
                lemma_shift_down(i as int, 7);
                lemma_or_shifted(m, i as int, i + 7, position >> 7);
            }
            m = m | (position >> 7);
        }
        if i < 56 && i % 8 != 7 {
            proof {
                lemma_shift_down(i as int, 9);
                lemma_or_shifted(m, i as int, i + 9, position >> 9);
            }
            m = m | (position >> 9);
        }
    }
    assert(square_set(m) =~= step_targets(if white { 0 } else { 1 }, i as int));
    m
}

/// The squares to which a man of colour `white` on square `i` may jump.
fn man_jumps(i: usize, white: bool) -> (m: u64)
    requires
        i < 64,
    ensures
        square_set(m) == jump_targets(if white { 0 } else { 1 }, i as int),
{
    let position: u64 = 1u64 << (63 - i);
    let mut m: u64 = 0;
    proof {
        lemma_combine_set(0, 0);
        assert(position == square_mask(i as int));
    }
    if white {
        if i > 7 && i % 8 != 6 && i % 8 != 7 {
            proof {
                lemma_shift_up(i as int, 14);
                lemma_or_shifted(m, i as int, i - 14, position << 14);
            }
            m = m | (position << 14);
        }
        if i > 7 && i % 8 != 0 && i % 8 != 1 {
            proof {
                lemma_shift_up(i as int, 18);
                lemma_or_shifted(m, i as int, i - 18, position << 18);
            }
            m = m | (position << 18);
        }
    } else {
        if i < 56 && i % 8 != 0 && i % 8 != 1 {
            proof {
                lemma_shift_down(i as int, 14);
                lemma_or_shifted(m, i as int, i + 14, position >> 14);
            }
            m = m | (position >> 14);
        }
        if i < 56 && i % 8 != 6 && i % 8 != 7 {
            proof {
                lemma_shift_down(i as int, 18);
                lemma_or_shifted(m, i as int, i + 18, position >> 18);
            }
            m = m | (position >> 18);
        }
    }
    assert(square_set(m) =~= jump_targets(if white { 0 } else { 1 }, i as int));
    m
}

/// The step mask of a piece of `class` on square `i`.
pub fn step_mask(class: usize, i: usize) -> (m: u64)
    requires
        class < 3,
        i < 64,
    ensures
        square_set(m) == step_targets(class as int, i as int),
{
    if class == 0 {
        man_steps(i, true)
    } else if class == 1 {
        man_steps(i, false)
    } else {
        let w = man_steps(i, true);
        let b = man_steps(i, false);
        proof {
            lemma_combine_set(w, b);
            assert(square_set(w | b) =~= step_targets(class as int, i as int));
        }
        w | b
    }
}

/// The jump mask of a piece of `class` on square `i`.
pub fn jump_mask(class: usize, i: usize) -> (m: u64)
    requires
        class < 3,
        i < 64,
    ensures
        square_set(m) == jump_targets(class as int, i as int),
{
    if class == 0 {
        man_jumps(i, true)
    } else if class == 1 {
        man_jumps(i, false)
    } else {
        let w = man_jumps(i, true);
        let b = man_jumps(i, false);
        proof {
            lemma_combine_set(w, b);
            assert(square_set(w | b) =~= jump_targets(class as int, i as int));
        }
        w | b
    }
}

/// The step and jump masks of every piece class on every square.
pub struct LookupMoves {
    pub all_non_capturing_moves: [[u64; 64]; 3],
    pub all_capturing_moves: [[u64; 64]; 3],
}

impl LookupMoves {
    /// Whether every entry holds the targets of its class and square.
    pub open spec fn is_complete(&self) -> bool {
        forall|k: int, i: int|
            0 <= k < 3 && 0 <= i < 64 ==> {
                &&& square_set(#[trigger] self.all_non_capturing_moves[k][i]) == step_targets(k, i)
                &&& square_set(self.all_capturing_moves[k][i]) == jump_targets(k, i)
            }
    }

    /// Builds the whole table.
    pub fn new() -> (t: LookupMoves)
        ensures
            t.is_complete(),
    {
        let mut moves: [[u64; 64]; 3] = [[0u64; 64]; 3];
        let mut captures: [[u64; 64]; 3] = [[0u64; 64]; 3];
        let mut k: usize = 0;
        while k < 3
            invariant
                0 <= k <= 3,
                forall|kk: int, i: int|
                    0 <= kk < k && 0 <= i < 64 ==> {
                        &&& square_set(#[trigger] moves[kk][i]) == step_targets(kk, i)
                        &&& square_set(captures[kk][i]) == jump_targets(kk, i)
                    },
            decreases 3 - k,
        {
            let mut row_moves: [u64; 64] = [0u64; 64];
            let mut row_captures: [u64; 64] = [0u64; 64];
            let mut i: usize = 0;
            while i < 64
                invariant
                    0 <= i <= 64,
                    k < 3,
                    forall|j: int|
                        0 <= j < i ==> {
                            &&& square_set(#[trigger] row_moves[j]) == step_targets(k as int, j)
                            &&& square_set(row_captures[j]) == jump_targets(k as int, j)
                        },
                decreases 64 - i,
            {
                let ghost old_moves = row_moves;
                let ghost old_captures = row_captures;
                row_moves[i] = step_mask(k, i);
                row_captures[i] = jump_mask(k, i);
                assert forall|j: int| 0 <= j <= i implies {
                    &&& square_set(#[trigger] row_moves[j]) == step_targets(k as int, j)
                    &&& square_set(row_captures[j]) == jump_targets(k as int, j)
                } by {
                    if j < i {
                        assert(row_moves[j] == old_moves[j]);
                        assert(row_captures[j] == old_captures[j]);
                    }
                }
                assert(square_set(row_moves[i as int]) == step_targets(k as int, i as int));
                i = i + 1;
                assert(forall|j: int|
                        0 <= j < i ==> {
                            &&& square_set(#[trigger] row_moves[j]) == step_targets(k as int, j)
                            &&& square_set(row_captures[j]) == jump_targets(k as int, j)
                        });
            }
            let ghost old_moves = moves;
            let ghost old_captures = captures;
            moves[k] = row_moves;
            captures[k] = row_captures;
            assert forall|kk: int, i: int| 0 <= kk <= k && 0 <= i < 64 implies {
                &&& square_set(#[trigger] moves[kk][i]) == step_targets(kk, i)
                &&& square_set(captures[kk][i]) == jump_targets(kk, i)
            } by {
                if kk < k {
                    assert(moves[kk] == old_moves[kk]);
                    assert(captures[kk] == old_captures[kk]);
                } else {
                    assert(moves[kk] == row_moves);
                    assert(captures[kk] == row_captures);
                }
            }
            k = k + 1;
        }
        LookupMoves { all_non_capturing_moves: moves, all_capturing_moves: captures }
    }
}

} // verus!
