//! The square model of a bitboard: square `s` (0..64) is bit `63 - s`.
use vstd::prelude::*;

verus! {

/// The single-bit mask of square `s`.
pub open spec fn square_mask(s: int) -> u64 {
    1u64 << ((63 - s) as u64)
}

/// Whether bitboard `bb` has square `s` set.
pub open spec fn has_square(bb: u64, s: int) -> bool {
    0 <= s < 64 && bb & square_mask(s) != 0
}

/// The set of squares that a bitboard holds.
pub open spec fn square_set(bb: u64) -> Set<int> {
    Set::new(|s: int| has_square(bb, s))
}

/// Membership of one square in `x & !mask(f)`.
pub proof fn lemma_clear_square(x: u64, f: int, s: int)
    requires
        0 <= f < 64,
        0 <= s < 64,
    ensures
        has_square(x & !square_mask(f), s) == (has_square(x, s) && s != f),
{
    let fu = (63 - f) as u64;
    let su = (63 - s) as u64;
    assert((x & !(1u64 << fu)) & (1u64 << su) != 0 <==> (x & (1u64 << su) != 0 && su != fu)) by (bit_vector)
        requires
            fu < 64,
            su < 64,
    ;
}

/// Membership of one square in `x | mask(t)`.
pub proof fn lemma_set_square(x: u64, t: int, s: int)
    requires
        0 <= t < 64,
        0 <= s < 64,
    ensures
        has_square(x | square_mask(t), s) == (has_square(x, s) || s == t),
{
    let tu = (63 - t) as u64;
    let su = (63 - s) as u64;
    assert((x | (1u64 << tu)) & (1u64 << su) != 0 <==> (x & (1u64 << su) != 0 || su == tu)) by (bit_vector)
        requires
            tu < 64,
            su < 64,
    ;
}

/// Membership of one square in a union, intersection or difference.
pub proof fn lemma_combine_square(x: u64, y: u64, s: int)
    requires
        0 <= s < 64,
    ensures
        has_square(x | y, s) == (has_square(x, s) || has_square(y, s)),
        has_square(x & y, s) == (has_square(x, s) && has_square(y, s)),
        has_square(x & !y, s) == (has_square(x, s) && !has_square(y, s)),
        has_square(x ^ y, s) == (has_square(x, s) != has_square(y, s)),
        !has_square(0, s),
{
    let su = (63 - s) as u64;
    assert(((x | y) & (1u64 << su) != 0) == ((x & (1u64 << su) != 0) || (y
        & (1u64 << su) != 0))) by (bit_vector)
        requires
            su < 64,
    ;
    assert(((x & y) & (1u64 << su) != 0) == ((x & (1u64 << su) != 0) && (y
        & (1u64 << su) != 0))) by (bit_vector)
        requires
            su < 64,
    ;
    assert(((x & !y) & (1u64 << su) != 0) == ((x & (1u64 << su) != 0) && !(y
        & (1u64 << su) != 0))) by (bit_vector)
        requires
            su < 64,
    ;
    assert(((x ^ y) & (1u64 << su) != 0) == ((x & (1u64 << su) != 0) != (y
        & (1u64 << su) != 0))) by (bit_vector)
        requires
            su < 64,
    ;
    assert((0u64 & (1u64 << su)) == 0) by (bit_vector);
}

/// `x & !mask(f)` holds the squares of `x` without `f`.
pub proof fn lemma_clear_set(x: u64, f: int)
    requires
        0 <= f < 64,
    ensures
        square_set(x & !square_mask(f)) == square_set(x).remove(f),
{
    assert forall|s: int| #[trigger]
        square_set(x & !square_mask(f)).contains(s) == square_set(x).remove(f).contains(s) by {
        if 0 <= s < 64 {
            lemma_clear_square(x, f, s);
        }
    }
    assert(square_set(x & !square_mask(f)) =~= square_set(x).remove(f));
}

/// `x | mask(t)` holds the squares of `x` and `t`.
pub proof fn lemma_set_set(x: u64, t: int)
    requires
        0 <= t < 64,
    ensures
        square_set(x | square_mask(t)) == square_set(x).insert(t),
{
    assert forall|s: int| #[trigger]
        square_set(x | square_mask(t)).contains(s) == square_set(x).insert(t).contains(s) by {
        if 0 <= s < 64 {
            lemma_set_square(x, t, s);
        }
    }
    assert(square_set(x | square_mask(t)) =~= square_set(x).insert(t));
}

/// Set algebra of the bitwise operators.
pub proof fn lemma_combine_set(x: u64, y: u64)
    ensures
        square_set(x | y) == square_set(x).union(square_set(y)),
        square_set(x & y) == square_set(x).intersect(square_set(y)),
        square_set(x & !y) == square_set(x).difference(square_set(y)),
        square_set(x ^ y) == square_set(x).difference(square_set(y)).union(
            square_set(y).difference(square_set(x)),
        ),
        square_set(0) == Set::<int>::empty(),
{
    assert forall|s: int| #[trigger] square_set(x | y).contains(s) == square_set(x).union(
        square_set(y),
    ).contains(s) by {
        if 0 <= s < 64 {
            lemma_combine_square(x, y, s);
        }
    }
    assert forall|s: int| #[trigger] square_set(x & y).contains(s) == square_set(x).intersect(
        square_set(y),
    ).contains(s) by {
        if 0 <= s < 64 {
            lemma_combine_square(x, y, s);
        }
    }
    assert forall|s: int| #[trigger] square_set(x & !y).contains(s) == square_set(x).difference(
        square_set(y),
    ).contains(s) by {
        if 0 <= s < 64 {
            lemma_combine_square(x, y, s);
        }
    }
    assert forall|s: int| #[trigger] square_set(x ^ y).contains(s) == square_set(x).difference(
        square_set(y),
    ).union(square_set(y).difference(square_set(x))).contains(s) by {
        if 0 <= s < 64 {
            lemma_combine_square(x, y, s);
        }
    }
    assert forall|s: int| !(#[trigger] square_set(0).contains(s)) by {
        if 0 <= s < 64 {
            lemma_combine_square(x, y, s);
        }
    }
    assert(square_set(x | y) =~= square_set(x).union(square_set(y)));
    assert(square_set(x & y) =~= square_set(x).intersect(square_set(y)));
    assert(square_set(x & !y) =~= square_set(x).difference(square_set(y)));
    assert(square_set(x ^ y) =~= square_set(x).difference(square_set(y)).union(
        square_set(y).difference(square_set(x)),
    ));
    assert(square_set(0) =~= Set::<int>::empty());
}

/// The lowest set bit of a non-empty bitboard is its highest square.
pub open spec fn highest_square(bb: u64) -> int {
    63 - bb.trailing_zeros()
}

/// Facts on the highest square of a non-empty bitboard and on clearing it.
pub proof fn lemma_highest_square(x: u64)
    requires
        x != 0,
    ensures
        0 <= highest_square(x) < 64,
        has_square(x, highest_square(x)),
        forall|s: int| highest_square(x) < s < 64 ==> !has_square(x, s),
        x & ((x - 1) as u64) == x & !square_mask(highest_square(x)),
        square_set(x & ((x - 1) as u64)) == square_set(x).remove(highest_square(x)),
{
    vstd::std_specs::bits::axiom_u64_trailing_zeros(x);
    let tz = x.trailing_zeros() as u64;
    assert(tz < 64);
    let h = highest_square(x);
    assert((63 - h) as u64 == tz);
    assert((x >> tz) & 1u64 == 1u64 ==> x & (1u64 << tz) != 0) by (bit_vector);
    assert forall|s: int| h < s < 64 implies !has_square(x, s) by {
        let j = (63 - s) as u64;
        assert(j < tz);
        assert((x >> j) & 1u64 == 0u64);
        assert((x >> j) & 1u64 == 0u64 ==> x & (1u64 << j) == 0) by (bit_vector);
    }
    assert(x << ((64 - tz) as u64) == 0);
    assert(x & ((x - 1) as u64) == x & !(1u64 << tz)) by (bit_vector)
        requires
            x != 0,
            tz < 64,
            (x >> tz) & 1u64 == 1u64,
            x << ((64 - tz) as u64) == 0,
    ;
    lemma_clear_set(x, h);
}

} // verus!
