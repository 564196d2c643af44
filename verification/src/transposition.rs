//! A cache of searched positions keyed by a Zobrist hash of the board.
use vstd::prelude::*;
use std::collections::HashMap;
use rand::Rng;
use crate::board::{BoardView, CheckersBitboard, board_set};
use crate::squares::{has_square, square_mask};

verus! {

broadcast use vstd::std_specs::hash::group_hash_axioms;

/// A searched value with the depth it was searched to and what kind of
/// bound it is.
#[derive(Debug)]
pub struct CachedValue {
    pub value: i32,
    pub depth: u8,
    pub flag: flag,
}

/// What a cached value says of the true value: equal to it, at most it
/// (an upper bound) or at least it (a lower bound).
#[derive(Debug, PartialEq, Eq, Structural)]
pub enum flag {
    EXACT,
    LOWERBOUND,
    UPPERBOUND,
}

/// The Zobrist hash over the first `k` of the 256 (bitboard, square) slots:
/// slot `64 * x + s` is square `s` of bitboard `x` (0 white men, 1 white
/// kings, 2 black men, 3 black kings), and each occupied slot toggles its
/// random bit string in.
pub open spec fn zobrist_upto(bits: Seq<u64>, v: BoardView, k: int) -> u64
    decreases k,
{
    if k <= 0 {
        0
    } else {
        let prev = zobrist_upto(bits, v, k - 1);
        if board_set(v, (k - 1) / 64).contains((k - 1) % 64) {
            prev ^ bits[k - 1]
        } else {
            prev
        }
    }
}

/// The Zobrist hash of a position: the exclusive or of the bit strings of
/// its occupied slots. The side to move does not enter it.
pub open spec fn zobrist(bits: Seq<u64>, v: BoardView) -> u64 {
    zobrist_upto(bits, v, 256)
}

#[verifier::external_type_specification]
#[verifier::external_body]
pub struct ExThreadRng(rand::rngs::ThreadRng);

/// `rand::thread_rng`: the random number generator of the calling thread.
/// Nothing is stated of it.
#[verifier::external_body]
fn thread_rng() -> rand::rngs::ThreadRng {
    rand::thread_rng()
}

/// `Rng::gen::<u64>` on a thread generator: a random number. Nothing is
/// stated of its value.
#[verifier::external_body]
fn random_u64(rng: &mut rand::rngs::ThreadRng) -> u64 {
    rng.gen::<u64>()
}

/// The table: 256 random bit strings for hashing and the cached values by
/// hash, with a count of the lookups that found an entry.
pub struct TranspositionTable {
    random_bitstrings: Vec<u64>,
    map: HashMap<u64, CachedValue>,
    pub cache_hits: u64,
}

impl TranspositionTable {
    /// The random bit strings of the hash.
    pub closed spec fn bitstrings(&self) -> Seq<u64> {
        self.random_bitstrings@
    }

    /// The cached values by hash.
    pub closed spec fn entries(&self) -> Map<u64, CachedValue> {
        self.map@
    }

    /// The number of lookups that found an entry.
    pub closed spec fn hits(&self) -> u64 {
        self.cache_hits
    }

    /// Whether the table has its 256 bit strings.
    pub open spec fn wf(&self) -> bool {
        self.bitstrings().len() == 256
    }

    /// The hash of a position under this table's bit strings.
    pub open spec fn hash_of(&self, v: BoardView) -> u64 {
        zobrist(self.bitstrings(), v)
    }

    /// An empty table whose hash uses 256 fresh random bit strings.
    pub fn new() -> (t: Self)
        ensures
            t.wf(),
            t.entries() == Map::<u64, CachedValue>::empty(),
            t.hits() == 0,
    {
        let mut rng = thread_rng();
        let mut random_bitstrings: Vec<u64> = Vec::new();
        let mut i: usize = 0;
        while i < 256
            invariant
                0 <= i <= 256,
                random_bitstrings@.len() == i,
            decreases 256 - i,
        {
            random_bitstrings.push(random_u64(&mut rng));
            i = i + 1;
        }
        Self::from_bitstrings(random_bitstrings)
    }

    /// An empty table whose hash uses the given 256 bit strings.
    pub fn from_bitstrings(random_bitstrings: Vec<u64>) -> (t: Self)
        requires
            random_bitstrings@.len() == 256,
        ensures
            t.wf(),
            t.bitstrings() == random_bitstrings@,
            t.entries() == Map::<u64, CachedValue>::empty(),
            t.hits() == 0,
    {
        TranspositionTable { random_bitstrings, map: HashMap::new(), cache_hits: 0 }
    }

    /// Caches a value for a position, replacing what its hash held.
    pub fn put(&mut self, bitboard: &CheckersBitboard, cached_value: CachedValue)
        requires
            old(self).wf(),
        ensures
            final(self).wf(),
            final(self).bitstrings() == old(self).bitstrings(),
            final(self).entries() == old(self).entries().insert(
                old(self).hash_of(bitboard@),
                cached_value,
            ),
            final(self).hits() == old(self).hits(),
    {
        let hash = self.calculate_hash(bitboard);
        self.map.insert(hash, cached_value);
    }

    /// The value cached under the hash of a position, if any; a lookup that
    /// finds one counts as a cache hit.
    pub fn get(&mut self, bitboard: &CheckersBitboard) -> (r: Option<&CachedValue>)
        requires
            old(self).wf(),
            !(old(self).entries().contains_key(old(self).hash_of(bitboard@)) && old(
                self,
            ).hits() == u64::MAX),
        ensures
            final(self).wf(),
            final(self).bitstrings() == old(self).bitstrings(),
            final(self).entries() == old(self).entries(),
            final(self).hits() == old(self).hits() + if old(self).entries().contains_key(
                old(self).hash_of(bitboard@),
            ) {
                1int
            } else {
                0int
            },
            match r {
                Some(c) => old(self).entries().contains_key(old(self).hash_of(bitboard@)) && *c
                    == old(self).entries()[old(self).hash_of(bitboard@)],
                None => !old(self).entries().contains_key(old(self).hash_of(bitboard@)),
            },
    {
        let hash = self.calculate_hash(bitboard);
        if self.map.contains_key(&hash) {
            self.cache_hits += 1;
        }
        self.map.get(&hash)
    }

    /// Empties the table.
    pub fn clear(&mut self)
        requires
            old(self).wf(),
        ensures
            final(self).wf(),
            final(self).bitstrings() == old(self).bitstrings(),
            final(self).entries() == Map::<u64, CachedValue>::empty(),
            final(self).hits() == old(self).hits(),
    {
        self.map.clear();
    }

    /// The Zobrist hash of a position under this table's bit strings.
    pub fn calculate_hash(&self, bitboard: &CheckersBitboard) -> (h: u64)
        requires
            self.wf(),
        ensures
            h == self.hash_of(bitboard@),
    {
        let ghost v = bitboard@;
        let mut hash = 0u64;
        let boards: [u64; 4] = [
            bitboard.white_pieces,
            bitboard.white_kings,
            bitboard.black_pieces,
            bitboard.black_kings,
        ];
        let mut board_idx: usize = 0;
        while board_idx < 4
            invariant
                0 <= board_idx <= 4,
                self.wf(),
                v == bitboard@,
                forall|x: int| 0 <= x < 4 ==> #[trigger] crate::squares::square_set(boards[x])
                    == board_set(v, x),
                hash == zobrist_upto(self.bitstrings(), v, 64 * board_idx),
            decreases 4 - board_idx,
        {
            let board = boards[board_idx];
            let mut bit_idx: usize = 0;
            while bit_idx < 64
                invariant
                    0 <= board_idx < 4,
                    0 <= bit_idx <= 64,
                    self.wf(),
                    crate::squares::square_set(board) == board_set(v, board_idx as int),
                    hash == zobrist_upto(self.bitstrings(), v, 64 * board_idx + bit_idx),
                decreases 64 - bit_idx,
            {
                let ghost k = 64 * board_idx + bit_idx;
                proof {
                    assert(square_mask(bit_idx as int) == 1u64 << ((63 - bit_idx) as u64));
                    assert(k / 64 == board_idx as int && k % 64 == bit_idx as int);
                    assert(crate::squares::square_set(board).contains(bit_idx as int) == has_square(
                        board,
                        bit_idx as int,
                    ));
                }
                if (board & (1u64 << ((63 - bit_idx) as u64))) != 0 {
                    hash ^= self.random_bitstrings[64 * board_idx + bit_idx];
                }
                bit_idx = bit_idx + 1;
            }
            board_idx = board_idx + 1;
        }
        hash
    }
}


/// The position whose bitboards are the exclusive or of those of two
/// positions (the side to move taken from the first).
pub open spec fn xor_boards(a: BoardView, b: BoardView) -> BoardView {
    BoardView {
        white_men: a.white_men.difference(b.white_men).union(b.white_men.difference(a.white_men)),
        white_kings: a.white_kings.difference(b.white_kings).union(
            b.white_kings.difference(a.white_kings),
        ),
        black_men: a.black_men.difference(b.black_men).union(b.black_men.difference(a.black_men)),
        black_kings: a.black_kings.difference(b.black_kings).union(
            b.black_kings.difference(a.black_kings),
        ),
        white_to_move: a.white_to_move,
    }
}

proof fn lemma_zobrist_upto_xor(bits: Seq<u64>, a: BoardView, b: BoardView, k: int)
    ensures
        zobrist_upto(bits, xor_boards(a, b), k) == zobrist_upto(bits, a, k) ^ zobrist_upto(bits, b, k),
    decreases k,
{
    if k <= 0 {
        assert(0u64 ^ 0u64 == 0u64) by (bit_vector);
    } else {
        lemma_zobrist_upto_xor(bits, a, b, k - 1);
        let x = (k - 1) / 64;
        let sq = (k - 1) % 64;
        let pa = zobrist_upto(bits, a, k - 1);
        let pb = zobrist_upto(bits, b, k - 1);
        let t = bits[k - 1];
        let in_a = board_set(a, x).contains(sq);
        let in_b = board_set(b, x).contains(sq);
        assert(board_set(xor_boards(a, b), x).contains(sq) == (in_a != in_b)) by {
            if x == 0 {
            } else if x == 1 {
            } else if x == 2 {
            } else {
            }
        }
        assert((pa ^ t) ^ (pb ^ t) == pa ^ pb) by (bit_vector);
        assert((pa ^ t) ^ pb == (pa ^ pb) ^ t) by (bit_vector);
        assert(pa ^ (pb ^ t) == (pa ^ pb) ^ t) by (bit_vector);
    }
}

/// The Zobrist hash turns exclusive or of positions into exclusive or of
/// hashes: toggling pieces toggles their bit strings in the hash.
pub proof fn lemma_zobrist_xor(bits: Seq<u64>, a: BoardView, b: BoardView)
    ensures
        zobrist(bits, xor_boards(a, b)) == zobrist(bits, a) ^ zobrist(bits, b),
{
    lemma_zobrist_upto_xor(bits, a, b, 256);
}

proof fn lemma_zobrist_upto_side(bits: Seq<u64>, a: BoardView, k: int)
    ensures
        zobrist_upto(bits, a, k) == zobrist_upto(
            bits,
            BoardView { white_to_move: !a.white_to_move, ..a },
            k,
        ),
    decreases k,
{
    if k > 0 {
        lemma_zobrist_upto_side(bits, a, k - 1);
        let x = (k - 1) / 64;
        assert(board_set(a, x) == board_set(BoardView { white_to_move: !a.white_to_move, ..a }, x));
    }
}

/// The hash of a position does not depend on the side to move, so both
/// sides share a table entry.
pub proof fn lemma_zobrist_ignores_side(bits: Seq<u64>, a: BoardView)
    ensures
        zobrist(bits, a) == zobrist(bits, BoardView { white_to_move: !a.white_to_move, ..a }),
{
    lemma_zobrist_upto_side(bits, a, 256);
}

/// A lookup after a put of a position finds the value put, whatever the
/// table held.
pub proof fn lemma_get_after_put(
    before: TranspositionTable,
    after: TranspositionTable,
    b: CheckersBitboard,
    c: CachedValue,
)
    requires
        after.bitstrings() == before.bitstrings(),
        after.entries() == before.entries().insert(before.hash_of(b@), c),
    ensures
        after.entries().contains_key(after.hash_of(b@)),
        after.entries()[after.hash_of(b@)] == c,
{
}

/// A put leaves the lookup of a position of another hash unchanged.
pub proof fn lemma_put_keeps_others(
    before: TranspositionTable,
    after: TranspositionTable,
    b: CheckersBitboard,
    other: CheckersBitboard,
    c: CachedValue,
)
    requires
        after.bitstrings() == before.bitstrings(),
        after.entries() == before.entries().insert(before.hash_of(b@), c),
        before.hash_of(other@) != before.hash_of(b@),
    ensures
        after.entries().contains_key(after.hash_of(other@)) == before.entries().contains_key(
            before.hash_of(other@),
        ),
        after.entries()[after.hash_of(other@)] == before.entries()[before.hash_of(other@)],
{
}

} // verus!
