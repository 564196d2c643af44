//! Positions written as text: the layout of the pieces row by row, and the
//! game state that starts from the standard layout.
use vstd::prelude::*;
use crate::board::{BoardView, CheckersBitboard, empty_board};
use vstd::string::StrSliceExecFns;

verus! {

/// Whether a character has the Unicode White_Space property.
pub open spec fn is_white_space(c: char) -> bool {
    let u = c as u32;
    ||| 0x9 <= u <= 0xD
    ||| u == 0x20
    ||| u == 0x85
    ||| u == 0xA0
    ||| u == 0x1680
    ||| 0x2000 <= u <= 0x200A
    ||| u == 0x2028
    ||| u == 0x2029
    ||| u == 0x202F
    ||| u == 0x205F
    ||| u == 0x3000
}

/// The words of `s` from position `i` on, with `cur` the word being read:
/// the maximal runs of characters that are not white space.
pub open spec fn words_from(s: Seq<char>, i: int, cur: Seq<char>) -> Seq<Seq<char>>
    decreases s.len() - i,
{
    if i >= s.len() {
        if cur.len() > 0 {
            seq![cur]
        } else {
            seq![]
        }
    } else if is_white_space(s[i]) {
        (if cur.len() > 0 {
            seq![cur]
        } else {
            seq![]
        }) + words_from(s, i + 1, seq![])
    } else {
        words_from(s, i + 1, cur.push(s[i]))
    }
}

/// The words of `s`, separated by white space.
pub open spec fn words(s: Seq<char>) -> Seq<Seq<char>> {
    words_from(s, 0, seq![])
}

pub open spec fn is_digit_char(c: char) -> bool {
    '0' as u32 <= c as u32 <= '9' as u32
}

/// The board with every piece taken off the `n` squares from `sq` on.
pub open spec fn cleared(v: BoardView, sq: int, n: int) -> BoardView
    decreases n,
{
    if n <= 0 {
        v
    } else {
        cleared(v.placed(sq, None, false), sq + 1, n - 1)
    }
}

/// Reading a board layout from `row` and `col` on: '/' starts the next row,
/// 'b', 'w', 'B', 'W' place a black man, a white man, a black king, a white
/// king, and a digit empties that many squares. The board reached, and
/// whether every character was one of these (reading stops at the first
/// that is not).
pub open spec fn layout(v: BoardView, cs: Seq<char>, row: int, col: int) -> (BoardView, bool)
    decreases cs.len(),
{
    if cs.len() == 0 {
        (v, true)
    } else {
        let c = cs[0];
        let rest = cs.drop_first();
        let sq = row * 8 + col;
        if c == '/' {
            layout(v, rest, row + 1, 0)
        } else if c == 'b' {
            layout(v.placed(sq, Some(true), false), rest, row, col + 1)
        } else if c == 'w' {
            layout(v.placed(sq, Some(false), false), rest, row, col + 1)
        } else if c == 'B' {
            layout(v.placed(sq, Some(true), true), rest, row, col + 1)
        } else if c == 'W' {
            layout(v.placed(sq, Some(false), true), rest, row, col + 1)
        } else if is_digit_char(c) {
            let d = c as u32 - '0' as u32;
            layout(cleared(v, sq, d as int), rest, row, col + d)
        } else {
            (v, false)
        }
    }
}

/// Whether every square that reading the layout touches is on the board.
pub open spec fn layout_fits(cs: Seq<char>, row: int, col: int) -> bool
    decreases cs.len(),
{
    if cs.len() == 0 {
        true
    } else {
        let c = cs[0];
        let rest = cs.drop_first();
        let sq = row * 8 + col;
        if c == '/' {
            layout_fits(rest, row + 1, 0)
        } else if c == 'b' || c == 'w' || c == 'B' || c == 'W' {
            sq < 64 && layout_fits(rest, row, col + 1)
        } else if is_digit_char(c) {
            let d = c as u32 - '0' as u32;
            (d == 0 || sq + d <= 64) && layout_fits(rest, row, col + d)
        } else {
            true
        }
    }
}
/// A game: the position being played.
pub struct GameState {
    pub game: CheckersBitboard,
}

/// Whether a character is white space.
fn is_white_space_char(c: char) -> (b: bool)
    ensures
        b == is_white_space(c),
{
    let u = c as u32;
    (0x9 <= u && u <= 0xD) || u == 0x20 || u == 0x85 || u == 0xA0 || u == 0x1680 || (0x2000 <= u
        && u <= 0x200A) || u == 0x2028 || u == 0x2029 || u == 0x202F || u == 0x205F || u == 0x3000
}

/// The words of a text, separated by white space.
fn split_words(text: &str) -> (r: Vec<Vec<char>>)
    ensures
        r@.map_values(|w: Vec<char>| w@) == words(text@),
{
    let n = text.unicode_len();
    let mut words_so_far: Vec<Vec<char>> = Vec::new();
    let mut cur: Vec<char> = Vec::new();
    let mut i: usize = 0;
    while i < n
        invariant
            n == text@.len(),
            0 <= i <= n,
            words_so_far@.map_values(|w: Vec<char>| w@) + words_from(text@, i as int, cur@) == words(
                text@,
            ),
        decreases n - i,
    {
        let c = text.get_char(i);
        let ghost before = words_so_far@.map_values(|w: Vec<char>| w@);
        let ghost old_cur = cur@;
        if is_white_space_char(c) {
            if cur.len() > 0 {
                words_so_far.push(cur);
                cur = Vec::new();
                proof {
                    assert(words_so_far@.map_values(|w: Vec<char>| w@) =~= before + seq![old_cur]);
                    assert(cur@ =~= Seq::<char>::empty());
                }
            } else {
                proof {
                    assert(cur@ =~= Seq::<char>::empty());
                    assert(Seq::<Seq<char>>::empty() + words_from(text@, i + 1, cur@) =~= words_from(
                        text@,
                        i + 1,
                        cur@,
                    ));
                }
            }
        } else {
            cur.push(c);
        }
        i = i + 1;
    }
    let ghost before = words_so_far@.map_values(|w: Vec<char>| w@);
    let ghost old_cur = cur@;
    if cur.len() > 0 {
        words_so_far.push(cur);
        proof {
            assert(words_so_far@.map_values(|w: Vec<char>| w@) =~= before + seq![old_cur]);
        }
    } else {
        proof {
            assert(before + Seq::<Seq<char>>::empty() =~= before);
        }
    }
    words_so_far
}

/// No character of `s` from `i` to `j` is white space: the word being read
/// takes them all.
proof fn lemma_words_run(s: Seq<char>, i: int, j: int, cur: Seq<char>)
    requires
        0 <= i <= j <= s.len(),
        forall|k: int| i <= k < j ==> !is_white_space(#[trigger] s[k]),
    ensures
        words_from(s, i, cur) == words_from(s, j, cur + s.subrange(i, j)),
    decreases j - i,
{
    if i < j {
        lemma_words_run(s, i + 1, j, cur.push(s[i]));
        assert(cur.push(s[i]) + s.subrange(i + 1, j) =~= cur + s.subrange(i, j));
    } else {
        assert(cur + s.subrange(i, j) =~= cur);
    }
}

/// The rows of the starting position, as characters.
pub open spec fn starting_rows() -> Seq<char> {
    seq![
        '1', 'b', '1', 'b', '1', 'b', '1', 'b', '/', 'b', '1', 'b', '1', 'b', '1', 'b', '1', '/', '1', 'b', '1', 'b', '1', 'b', '1', 'b', '/', '8', '/', '8', '/', 'w', '1', 'w', '1', 'w', '1', 'w', '1', '/', '1', 'w', '1', 'w', '1', 'w', '1', 'w', '/', 'w', '1', 'w', '1', 'w', '1', 'w', '1',
    ]
}

/// Whether a character belongs to a layout.
pub open spec fn is_layout_char(c: char) -> bool {
    c == '/' || c == 'b' || c == 'w' || c == 'B' || c == 'W' || is_digit_char(c)
}

/// Reading a layout succeeds exactly when all its characters belong to a
/// layout.
pub proof fn lemma_layout_ok(v: BoardView, cs: Seq<char>, row: int, col: int)
    ensures
        layout(v, cs, row, col).1 == (forall|k: int| 0 <= k < cs.len() ==> is_layout_char(#[trigger] cs[k])),
    decreases cs.len(),
{
    if cs.len() > 0 {
        let c = cs[0];
        let rest = cs.drop_first();
        let sq = row * 8 + col;
        if c == '/' {
            lemma_layout_ok(v, rest, row + 1, 0);
        } else if c == 'b' {
            lemma_layout_ok(v.placed(sq, Some(true), false), rest, row, col + 1);
        } else if c == 'w' {
            lemma_layout_ok(v.placed(sq, Some(false), false), rest, row, col + 1);
        } else if c == 'B' {
            lemma_layout_ok(v.placed(sq, Some(true), true), rest, row, col + 1);
        } else if c == 'W' {
            lemma_layout_ok(v.placed(sq, Some(false), true), rest, row, col + 1);
        } else if is_digit_char(c) {
            let d = c as u32 - '0' as u32;
            lemma_layout_ok(cleared(v, sq, d as int), rest, row, col + d);
        }
        if is_layout_char(c) {
            assert forall|k: int| 0 <= k < cs.len() && (forall|j: int| 0 <= j < rest.len() ==> is_layout_char(#[trigger] rest[j])) implies is_layout_char(#[trigger] cs[k]) by {
                if k > 0 {
                    assert(cs[k] == rest[k - 1]);
                }
            }
            assert((forall|k: int| 0 <= k < cs.len() ==> is_layout_char(#[trigger] cs[k])) ==> (forall|j: int| 0 <= j < rest.len() ==> is_layout_char(#[trigger] rest[j]))) by {
                assert forall|j: int| 0 <= j < rest.len() && (forall|k: int| 0 <= k < cs.len() ==> is_layout_char(#[trigger] cs[k])) implies is_layout_char(#[trigger] rest[j]) by {
                    assert(rest[j] == cs[j + 1]);
                }
            }
        }
    }
}

/// The starting layout is two words, the first of which is its rows.
proof fn lemma_starting_words()
    ensures
        words(starting_layout()).len() == 2,
        words(starting_layout())[0] == starting_rows(),
{
    reveal_strlit("1b1b1b1b/b1b1b1b1/1b1b1b1b/8/8/w1w1w1w1/1w1w1w1w/w1w1w1w1 w");
    let s = starting_layout();
    assert(s.len() == 59);
    let first = s.subrange(0, 57);
    assert forall|k: int| 0 <= k < 57 implies !is_white_space(#[trigger] s[k]) by {}
    lemma_words_run(s, 0, 57, seq![]);
    assert(Seq::<char>::empty() + first =~= first);
    assert(is_white_space(s[57]) && !is_white_space(s[58]));
    lemma_words_run(s, 58, 59, seq![]);
    assert(Seq::<char>::empty() + s.subrange(58, 59) =~= seq!['w']);
    assert(words_from(s, 59, seq!['w']) == seq![seq!['w']]);
    assert(words(s) =~= seq![first, seq!['w']]);
    assert(first =~= starting_rows());
}

/// The rows of the starting position stay on the board; checked character
/// by character.
#[verifier::spinoff_prover]
#[verifier::rlimit(50)]
proof fn lemma_starting_rows_fit()
    ensures
        layout_fits(starting_rows(), 0, 0),
        layout(empty_board(true), starting_rows(), 0, 0).1,
{
    let cs = starting_rows();
    assert(cs.skip(57) =~= Seq::<char>::empty());
    assert(layout_fits(cs.skip(57), 7, 8));
    assert(cs.skip(56)[0] == '1' && cs.skip(56).drop_first() =~= cs.skip(57));
    assert(layout_fits(cs.skip(56), 7, 7));
    assert(cs.skip(55)[0] == 'w' && cs.skip(55).drop_first() =~= cs.skip(56));
    assert(layout_fits(cs.skip(55), 7, 6));
    assert(cs.skip(54)[0] == '1' && cs.skip(54).drop_first() =~= cs.skip(55));
    assert(layout_fits(cs.skip(54), 7, 5));
    assert(cs.skip(53)[0] == 'w' && cs.skip(53).drop_first() =~= cs.skip(54));
    assert(layout_fits(cs.skip(53), 7, 4));
    assert(cs.skip(52)[0] == '1' && cs.skip(52).drop_first() =~= cs.skip(53));
    assert(layout_fits(cs.skip(52), 7, 3));
    assert(cs.skip(51)[0] == 'w' && cs.skip(51).drop_first() =~= cs.skip(52));
    assert(layout_fits(cs.skip(51), 7, 2));
    assert(cs.skip(50)[0] == '1' && cs.skip(50).drop_first() =~= cs.skip(51));
    assert(layout_fits(cs.skip(50), 7, 1));
    assert(cs.skip(49)[0] == 'w' && cs.skip(49).drop_first() =~= cs.skip(50));
    assert(layout_fits(cs.skip(49), 7, 0));
    assert(cs.skip(48)[0] == '/' && cs.skip(48).drop_first() =~= cs.skip(49));
    assert(layout_fits(cs.skip(48), 6, 8));
    assert(cs.skip(47)[0] == 'w' && cs.skip(47).drop_first() =~= cs.skip(48));
    assert(layout_fits(cs.skip(47), 6, 7));
    assert(cs.skip(46)[0] == '1' && cs.skip(46).drop_first() =~= cs.skip(47));
    assert(layout_fits(cs.skip(46), 6, 6));
    assert(cs.skip(45)[0] == 'w' && cs.skip(45).drop_first() =~= cs.skip(46));
    assert(layout_fits(cs.skip(45), 6, 5));
    assert(cs.skip(44)[0] == '1' && cs.skip(44).drop_first() =~= cs.skip(45));
    assert(layout_fits(cs.skip(44), 6, 4));
    assert(cs.skip(43)[0] == 'w' && cs.skip(43).drop_first() =~= cs.skip(44));
    assert(layout_fits(cs.skip(43), 6, 3));
    assert(cs.skip(42)[0] == '1' && cs.skip(42).drop_first() =~= cs.skip(43));
    assert(layout_fits(cs.skip(42), 6, 2));
    assert(cs.skip(41)[0] == 'w' && cs.skip(41).drop_first() =~= cs.skip(42));
    assert(layout_fits(cs.skip(41), 6, 1));
    assert(cs.skip(40)[0] == '1' && cs.skip(40).drop_first() =~= cs.skip(41));
    assert(layout_fits(cs.skip(40), 6, 0));
    assert(cs.skip(39)[0] == '/' && cs.skip(39).drop_first() =~= cs.skip(40));
    assert(layout_fits(cs.skip(39), 5, 8));
    assert(cs.skip(38)[0] == '1' && cs.skip(38).drop_first() =~= cs.skip(39));
    assert(layout_fits(cs.skip(38), 5, 7));
    assert(cs.skip(37)[0] == 'w' && cs.skip(37).drop_first() =~= cs.skip(38));
    assert(layout_fits(cs.skip(37), 5, 6));
    assert(cs.skip(36)[0] == '1' && cs.skip(36).drop_first() =~= cs.skip(37));
    assert(layout_fits(cs.skip(36), 5, 5));
    assert(cs.skip(35)[0] == 'w' && cs.skip(35).drop_first() =~= cs.skip(36));
    assert(layout_fits(cs.skip(35), 5, 4));
    assert(cs.skip(34)[0] == '1' && cs.skip(34).drop_first() =~= cs.skip(35));
    assert(layout_fits(cs.skip(34), 5, 3));
    assert(cs.skip(33)[0] == 'w' && cs.skip(33).drop_first() =~= cs.skip(34));
    assert(layout_fits(cs.skip(33), 5, 2));
    assert(cs.skip(32)[0] == '1' && cs.skip(32).drop_first() =~= cs.skip(33));
    assert(layout_fits(cs.skip(32), 5, 1));
    assert(cs.skip(31)[0] == 'w' && cs.skip(31).drop_first() =~= cs.skip(32));
    assert(layout_fits(cs.skip(31), 5, 0));
    assert(cs.skip(30)[0] == '/' && cs.skip(30).drop_first() =~= cs.skip(31));
    assert(layout_fits(cs.skip(30), 4, 8));
    assert(cs.skip(29)[0] == '8' && cs.skip(29).drop_first() =~= cs.skip(30));
    assert(layout_fits(cs.skip(29), 4, 0));
    assert(cs.skip(28)[0] == '/' && cs.skip(28).drop_first() =~= cs.skip(29));
    assert(layout_fits(cs.skip(28), 3, 8));
    assert(cs.skip(27)[0] == '8' && cs.skip(27).drop_first() =~= cs.skip(28));
    assert(layout_fits(cs.skip(27), 3, 0));
    assert(cs.skip(26)[0] == '/' && cs.skip(26).drop_first() =~= cs.skip(27));
    assert(layout_fits(cs.skip(26), 2, 8));
    assert(cs.skip(25)[0] == 'b' && cs.skip(25).drop_first() =~= cs.skip(26));
    assert(layout_fits(cs.skip(25), 2, 7));
    assert(cs.skip(24)[0] == '1' && cs.skip(24).drop_first() =~= cs.skip(25));
    assert(layout_fits(cs.skip(24), 2, 6));
    assert(cs.skip(23)[0] == 'b' && cs.skip(23).drop_first() =~= cs.skip(24));
    assert(layout_fits(cs.skip(23), 2, 5));
    assert(cs.skip(22)[0] == '1' && cs.skip(22).drop_first() =~= cs.skip(23));
    assert(layout_fits(cs.skip(22), 2, 4));
    assert(cs.skip(21)[0] == 'b' && cs.skip(21).drop_first() =~= cs.skip(22));
    assert(layout_fits(cs.skip(21), 2, 3));
    assert(cs.skip(20)[0] == '1' && cs.skip(20).drop_first() =~= cs.skip(21));
    assert(layout_fits(cs.skip(20), 2, 2));
    assert(cs.skip(19)[0] == 'b' && cs.skip(19).drop_first() =~= cs.skip(20));
    assert(layout_fits(cs.skip(19), 2, 1));
    assert(cs.skip(18)[0] == '1' && cs.skip(18).drop_first() =~= cs.skip(19));
    assert(layout_fits(cs.skip(18), 2, 0));
    assert(cs.skip(17)[0] == '/' && cs.skip(17).drop_first() =~= cs.skip(18));
    assert(layout_fits(cs.skip(17), 1, 8));
    assert(cs.skip(16)[0] == '1' && cs.skip(16).drop_first() =~= cs.skip(17));
    assert(layout_fits(cs.skip(16), 1, 7));
    assert(cs.skip(15)[0] == 'b' && cs.skip(15).drop_first() =~= cs.skip(16));
    assert(layout_fits(cs.skip(15), 1, 6));
    assert(cs.skip(14)[0] == '1' && cs.skip(14).drop_first() =~= cs.skip(15));
    assert(layout_fits(cs.skip(14), 1, 5));
    assert(cs.skip(13)[0] == 'b' && cs.skip(13).drop_first() =~= cs.skip(14));
    assert(layout_fits(cs.skip(13), 1, 4));
    assert(cs.skip(12)[0] == '1' && cs.skip(12).drop_first() =~= cs.skip(13));
    assert(layout_fits(cs.skip(12), 1, 3));
    assert(cs.skip(11)[0] == 'b' && cs.skip(11).drop_first() =~= cs.skip(12));
    assert(layout_fits(cs.skip(11), 1, 2));
    assert(cs.skip(10)[0] == '1' && cs.skip(10).drop_first() =~= cs.skip(11));
    assert(layout_fits(cs.skip(10), 1, 1));
    assert(cs.skip(9)[0] == 'b' && cs.skip(9).drop_first() =~= cs.skip(10));
    assert(layout_fits(cs.skip(9), 1, 0));
    assert(cs.skip(8)[0] == '/' && cs.skip(8).drop_first() =~= cs.skip(9));
    assert(layout_fits(cs.skip(8), 0, 8));
    assert(cs.skip(7)[0] == 'b' && cs.skip(7).drop_first() =~= cs.skip(8));
    assert(layout_fits(cs.skip(7), 0, 7));
    assert(cs.skip(6)[0] == '1' && cs.skip(6).drop_first() =~= cs.skip(7));
    assert(layout_fits(cs.skip(6), 0, 6));
    assert(cs.skip(5)[0] == 'b' && cs.skip(5).drop_first() =~= cs.skip(6));
    assert(layout_fits(cs.skip(5), 0, 5));
    assert(cs.skip(4)[0] == '1' && cs.skip(4).drop_first() =~= cs.skip(5));
    assert(layout_fits(cs.skip(4), 0, 4));
    assert(cs.skip(3)[0] == 'b' && cs.skip(3).drop_first() =~= cs.skip(4));
    assert(layout_fits(cs.skip(3), 0, 3));
    assert(cs.skip(2)[0] == '1' && cs.skip(2).drop_first() =~= cs.skip(3));
    assert(layout_fits(cs.skip(2), 0, 2));
    assert(cs.skip(1)[0] == 'b' && cs.skip(1).drop_first() =~= cs.skip(2));
    assert(layout_fits(cs.skip(1), 0, 1));
    assert(cs.skip(0)[0] == '1' && cs.skip(0).drop_first() =~= cs.skip(1));
    assert(layout_fits(cs.skip(0), 0, 0));
    assert(cs.skip(0) =~= cs);
    assert forall|k: int| 0 <= k < cs.len() implies is_layout_char(#[trigger] cs[k]) by {}
    lemma_layout_ok(empty_board(true), cs, 0, 0);
}

/// The starting position.
pub open spec fn starting_layout() -> Seq<char> {
    "1b1b1b1b/b1b1b1b1/1b1b1b1b/8/8/w1w1w1w1/1w1w1w1w/w1w1w1w1 w"@
}

impl GameState {
    /// The starting position: twelve black men on the dark squares of the
    /// top three rows, twelve white men on those of the bottom three.
    pub fn starting_pos() -> (state: GameState)
        ensures
            state.game@ == layout(
                empty_board(true),
                words(starting_layout())[0],
                0,
                0,
            ).0,
    {
        let starting_string: &str = "1b1b1b1b/b1b1b1b1/1b1b1b1b/8/8/w1w1w1w1/1w1w1w1w/w1w1w1w1 w";
        proof {
            reveal_strlit("1b1b1b1b/b1b1b1b1/1b1b1b1b/8/8/w1w1w1w1/1w1w1w1w/w1w1w1w1 w");
            lemma_starting_words();
            lemma_starting_rows_fit();
        }
        let game = CheckersBitboard::new(true);
        let mut state = GameState { game: game };
        let r = state.load_from_string(starting_string);
        r.unwrap();
        state
    }

    /// Reads a position written as a layout and a side to move separated by
    /// white space (the side to move is not read): the layout is applied to
    /// the current board row by row, and an empty board with white to move
    /// is returned. A text that is not two words is refused unchanged; a
    /// character that is not part of a layout stops the reading with an
    /// error, the squares read so far having been set.
    pub fn load_from_string(self: &mut GameState, board_string: &str) -> (r: Result<
        CheckersBitboard,
        &'static str,
    >)
        requires
            words(board_string@).len() == 2 ==> layout_fits(words(board_string@)[0], 0, 0),
        ensures
            words(board_string@).len() != 2 ==> r == Err::<CheckersBitboard, &'static str>(
                "Invalid board state",
            ) && final(self).game == old(self).game,
            words(board_string@).len() == 2 ==> {
                let (v, ok) = layout(old(self).game@, words(board_string@)[0], 0, 0);
                &&& final(self).game@ == v
                &&& ok ==> r == Ok::<CheckersBitboard, &'static str>(
                    (CheckersBitboard {
                        black_pieces: 0,
                        white_pieces: 0,
                        black_kings: 0,
                        white_kings: 0,
                        white_to_move: true,
                    }),
                )
                &&& !ok ==> r == Err::<CheckersBitboard, &'static str>(
                    "Invalid Character found in board state character was ",
                )
            },
    {
        let parts = split_words(board_string);
        proof {
            assert(parts@.len() == words(board_string@).len());
        }
        if parts.len() != 2 {
            return Err("Invalid board state");
        }
        let state_string = &parts[0];
        let ghost cs = state_string@;
        proof {
            assert(cs == words(board_string@)[0]);
        }
        let game = CheckersBitboard::new(true);
        let ghost v0 = self.game@;
        let mut row: usize = 0;
        let mut col: usize = 0;
        let n = state_string.len();
        let mut i: usize = 0;
        proof {
            assert(cs.skip(0) =~= cs);
        }
        while i < n
            invariant
                n == cs.len(),
                cs == state_string@,
                words(board_string@).len() == 2,
                cs == words(board_string@)[0],
                v0 == old(self).game@,
                0 <= i <= n,
                row <= i,
                col <= 64,
                layout(v0, cs, 0, 0) == layout(self.game@, cs.skip(i as int), row as int, col as int),
                layout_fits(cs.skip(i as int), row as int, col as int),
                game == (CheckersBitboard {
                    black_pieces: 0,
                    white_pieces: 0,
                    black_kings: 0,
                    white_kings: 0,
                    white_to_move: true,
                }),
            decreases n - i,
        {
            let c = state_string[i];
            let ghost rest = cs.skip(i + 1);
            proof {
                assert(cs.skip(i as int)[0] == c);
                assert(cs.skip(i as int).drop_first() =~= rest);
            }
            if c == '/' {
                row += 1;
                col = 0;
            } else if c == 'b' || c == 'w' || c == 'B' || c == 'W' {
                if c == 'b' {
                    self.game.set_position(row, col, Some(true), false);
                } else if c == 'w' {
                    self.game.set_position(row, col, Some(false), false);
                } else if c == 'B' {
                    self.game.set_position(row, col, Some(true), true);
                } else {
                    self.game.set_position(row, col, Some(false), true);
                }
                col += 1;
            } else if '0' as u32 <= c as u32 && c as u32 <= '9' as u32 {
                let num = c as u32 - '0' as u32;
                let ghost sq0 = row * 8 + col;
                let ghost before = self.game@;
                let mut k: u32 = 0;
                while k < num
                    invariant
                        0 <= k <= num <= 9,
                        num == 0 || sq0 + num <= 64,
                        sq0 == row * 8 + col - k,
                        col >= k,
                        cleared(before, sq0, num as int) == cleared(self.game@, sq0 + k, num - k),
                    decreases num - k,
                {
                    self.game.set_position(row, col, None, false);
                    col += 1;
                    k = k + 1;
                }
            } else {
                return Err("Invalid Character found in board state character was ");
            }
            i = i + 1;
        }
        proof {
            assert(cs.skip(n as int) =~= Seq::<char>::empty());
        }
        Ok(game)
    }
}

} // verus!
