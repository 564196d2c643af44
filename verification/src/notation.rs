//! Notation: moves read from coordinates and written out, and the board
//! drawn as text.
use vstd::prelude::*;
use crate::board::{BoardView, CheckersBitboard, Move};
use crate::squares::has_square;
use crate::utils::{letter_coord_to_index, coord_index, square_coord, lemma_coord_round_trip};
use vstd::string::StringSliceAdditionalSpecFns;
use vstd::utf8::{decode_utf8, is_char_boundary};

verus! {

/// Whether the first two coordinates of a move token can be cut out: it has
/// at least four bytes, and byte offsets 2 and 4 fall on character
/// boundaries.
pub open spec fn token_cuttable(t: &str) -> bool {
    let b = t.spec_bytes();
    &&& b.len() >= 4
    &&& is_char_boundary(b, 2)
    &&& is_char_boundary(b, 4)
}

/// The steps named by the bytes `b` of a token from offset `p` on, appended
/// to `steps`: the bytes are read two at a time as coordinates, and each
/// coordinate after the first makes a step from the square before it
/// (`prev`), so that "f2d4f6" names the steps f2 to d4 and d4 to f6. An odd
/// last byte is left unread. A coordinate that does not parse ends the
/// reading with its message, and so does a pair of bytes that does not end
/// on a character boundary.
pub open spec fn chain_steps(b: Seq<u8>, p: int, prev: Option<u8>, steps: Seq<(u8, u8)>) -> Result<
    Seq<(u8, u8)>,
    &'static str,
>
    decreases b.len() - p,
{
    if p < 0 || p + 2 > b.len() {
        Ok(steps)
    } else if !is_char_boundary(b, p + 2) {
        Err("Invalid coordinate length")
    } else {
        match coord_index(2, decode_utf8(b.subrange(p, p + 2))) {
            Err(e) => Err(e),
            Ok(sq) => chain_steps(
                b,
                p + 2,
                Some(sq),
                match prev {
                    Some(f) => steps.push((f, sq)),
                    None => steps,
                },
            ),
        }
    }
}

/// The steps named by the first `n` tokens, in order, or the message for
/// the first coordinate that does not parse.
pub open spec fn uci_steps(tokens: Seq<&str>, n: int) -> Result<Seq<(u8, u8)>, &'static str>
    decreases n,
{
    if n <= 0 {
        Ok(seq![])
    } else {
        match uci_steps(tokens, n - 1) {
            Err(e) => Err(e),
            Ok(steps) => chain_steps(tokens[n - 1].spec_bytes(), 0, None, steps),
        }
    }
}

/// What is left of a token after a character boundary at `p` is valid, and
/// it can be cut after two more bytes exactly when the token can at `p + 2`.
proof fn lemma_cut_rest(t: &str, p: int)
    requires
        0 <= p,
        p + 2 <= t.spec_bytes().len(),
        is_char_boundary(t.spec_bytes(), p),
    ensures
        vstd::utf8::valid_utf8(t.spec_bytes().subrange(p, t.spec_bytes().len() as int)),
        is_char_boundary(t.spec_bytes().subrange(p, t.spec_bytes().len() as int), 2)
            == is_char_boundary(t.spec_bytes(), p + 2),
{
    broadcast use vstd::utf8::encode_utf8_valid_utf8;
    broadcast use vstd::utf8::is_char_boundary_iff_not_is_continuation_byte;
    broadcast use vstd::utf8::valid_utf8_split;
    broadcast use vstd::utf8::is_char_boundary_start_end_of_seq;
    let b = t.spec_bytes();
    assert(vstd::utf8::valid_utf8(b));
    let r = b.subrange(p, b.len() as int);
    assert(vstd::utf8::valid_utf8(r));
    if r.len() == 2 {
        assert(is_char_boundary(r, r.len() as int));
        assert(is_char_boundary(b, b.len() as int));
    } else {
        assert(r[2] == b[p + 2]);
        assert(is_char_boundary(b, p + 2) <==> !vstd::utf8::is_continuation_byte(b[p + 2]));
        assert(is_char_boundary(r, 2) <==> !vstd::utf8::is_continuation_byte(r[2]));
    }
}

/// The first token that does not parse decides the outcome.
proof fn lemma_uci_error_stays(tokens: Seq<&str>, k: int, m: int, e: &'static str)
    requires
        k <= m,
        uci_steps(tokens, k) == Err::<Seq<(u8, u8)>, &'static str>(e),
    ensures
        uci_steps(tokens, m) == Err::<Seq<(u8, u8)>, &'static str>(e),
    decreases m - k,
{
    if k < m {
        lemma_uci_error_stays(tokens, k, m - 1, e);
    }
}
/// The names of the squares: "A8" for square 0 to "H1" for square 63.
pub open spec fn square_names() -> Seq<&'static str> {
    seq![
        "A8", "B8", "C8", "D8", "E8", "F8", "G8", "H8",
        "A7", "B7", "C7", "D7", "E7", "F7", "G7", "H7",
        "A6", "B6", "C6", "D6", "E6", "F6", "G6", "H6",
        "A5", "B5", "C5", "D5", "E5", "F5", "G5", "H5",
        "A4", "B4", "C4", "D4", "E4", "F4", "G4", "H4",
        "A3", "B3", "C3", "D3", "E3", "F3", "G3", "H3",
        "A2", "B2", "C2", "D2", "E2", "F2", "G2", "H2",
        "A1", "B1", "C1", "D1", "E1", "F1", "G1", "H1",
    ]
}

/// A letter in lower case; other characters unchanged.
pub open spec fn to_lower(c: char) -> char {
    if 'A' as u32 <= c as u32 <= 'Z' as u32 {
        (c as u32 + 32) as char
    } else {
        c
    }
}

/// The name under which a move is written out, in lower case, is the
/// coordinate of the square, and it parses back to the square: what `print`
/// writes, `from_uci` reads back.
pub proof fn lemma_square_name_parses(s: int)
    requires
        0 <= s < 64,
    ensures
        square_names()[s]@.map_values(|c: char| to_lower(c)) == square_coord(s),
        coord_index(2, square_names()[s]@.map_values(|c: char| to_lower(c))) == Ok::<u8, &'static str>(
            s as u8,
        ),
{
    reveal_strlit("A8");
    reveal_strlit("B8");
    reveal_strlit("C8");
    reveal_strlit("D8");
    reveal_strlit("E8");
    reveal_strlit("F8");
    reveal_strlit("G8");
    reveal_strlit("H8");
    reveal_strlit("A7");
    reveal_strlit("B7");
    reveal_strlit("C7");
    reveal_strlit("D7");
    reveal_strlit("E7");
    reveal_strlit("F7");
    reveal_strlit("G7");
    reveal_strlit("H7");
    reveal_strlit("A6");
    reveal_strlit("B6");
    reveal_strlit("C6");
    reveal_strlit("D6");
    reveal_strlit("E6");
    reveal_strlit("F6");
    reveal_strlit("G6");
    reveal_strlit("H6");
    reveal_strlit("A5");
    reveal_strlit("B5");
    reveal_strlit("C5");
    reveal_strlit("D5");
    reveal_strlit("E5");
    reveal_strlit("F5");
    reveal_strlit("G5");
    reveal_strlit("H5");
    reveal_strlit("A4");
    reveal_strlit("B4");
    reveal_strlit("C4");
    reveal_strlit("D4");
    reveal_strlit("E4");
    reveal_strlit("F4");
    reveal_strlit("G4");
    reveal_strlit("H4");
    reveal_strlit("A3");
    reveal_strlit("B3");
    reveal_strlit("C3");
    reveal_strlit("D3");
    reveal_strlit("E3");
    reveal_strlit("F3");
    reveal_strlit("G3");
    reveal_strlit("H3");
    reveal_strlit("A2");
    reveal_strlit("B2");
    reveal_strlit("C2");
    reveal_strlit("D2");
    reveal_strlit("E2");
    reveal_strlit("F2");
    reveal_strlit("G2");
    reveal_strlit("H2");
    reveal_strlit("A1");
    reveal_strlit("B1");
    reveal_strlit("C1");
    reveal_strlit("D1");
    reveal_strlit("E1");
    reveal_strlit("F1");
    reveal_strlit("G1");
    reveal_strlit("H1");
    let n = square_names()[s]@;
    let l = n.map_values(|c: char| to_lower(c));
    assert(n.len() == 2);
    assert(l =~= square_coord(s));
    lemma_coord_round_trip(s);
}

/// The characters of a text in lower case.
pub open spec fn lower(cs: Seq<char>) -> Seq<char> {
    cs.map_values(|c: char| to_lower(c))
}

/// The two coordinates of an ASCII token of four characters parse from its
/// bytes as from its characters.
proof fn lemma_ascii_token(token: &str)
    requires
        token@.len() == 4,
        vstd::utf8::is_ascii_chars(token@),
    ensures
        token_cuttable(token),
        decode_utf8(token.spec_bytes().subrange(0, 2)) == token@.subrange(0, 2),
        decode_utf8(token.spec_bytes().subrange(2, 4)) == token@.subrange(2, 4),
        is_char_boundary(token.spec_bytes(), 2),
        is_char_boundary(token.spec_bytes(), 4),
        token.spec_bytes().len() == 4,
{
    broadcast use vstd::utf8::encode_utf8_valid_utf8;
    broadcast use vstd::utf8::is_char_boundary_iff_not_is_continuation_byte;
    broadcast use vstd::utf8::is_char_boundary_start_end_of_seq;
    broadcast use vstd::utf8::is_ascii_chars_nat_bound;
    let c = token@;
    let b = token.spec_bytes();
    vstd::utf8::is_ascii_chars_encode_utf8(c);
    assert(b.len() == 4);
    assert(vstd::utf8::valid_utf8(b));
    assert((c[2] as nat) < 128);
    assert(b[2] == c[2] as u8);
    assert(!vstd::utf8::is_continuation_byte(b[2]));
    assert(is_char_boundary(b, 2));
    assert(is_char_boundary(b, b.len() as int));
    let c1 = c.subrange(0, 2);
    let c2 = c.subrange(2, 4);
    assert(vstd::utf8::is_ascii_chars(c1));
    assert(vstd::utf8::is_ascii_chars(c2));
    vstd::utf8::is_ascii_chars_encode_utf8(c1);
    vstd::utf8::is_ascii_chars_encode_utf8(c2);
    assert((c[0] as nat) < 128 && (c[1] as nat) < 128 && (c[3] as nat) < 128);
    assert(b.subrange(0, 2) =~= vstd::utf8::encode_utf8(c1));
    assert(b.subrange(2, 4) =~= vstd::utf8::encode_utf8(c2));
    vstd::utf8::encode_utf8_decode_utf8(c1);
    vstd::utf8::encode_utf8_decode_utf8(c2);
}

/// A one-step move written out by `print` reads back through `from_uci`:
/// the names of its two squares in lower case, put together as a token,
/// name the same step.
pub proof fn lemma_printed_move_parses(f: u8, t: u8, token: &str)
    requires
        f < 64,
        t < 64,
        token@ == lower(move_text(seq![(f, t)]).subrange(0, 2)) + lower(
            move_text(seq![(f, t)]).subrange(6, 8),
        ),
    ensures
        token_cuttable(token),
        uci_steps(seq![token], 1) == Ok::<Seq<(u8, u8)>, &'static str>(seq![(f, t)]),
{
    reveal_strlit(" -> ");
    reveal_strlit("\n");
    lemma_square_name_parses(f as int);
    lemma_square_name_parses(t as int);
    let steps = seq![(f, t)];
    assert(steps.drop_last() =~= Seq::<(u8, u8)>::empty());
    assert(steps.last() == (f, t));
    let nf = square_names()[f as int]@;
    let nt = square_names()[t as int]@;
    assert(lower(nf).len() == 2 && lower(nt).len() == 2);
    let text = move_text(steps);
    assert(move_text(steps.drop_last()) =~= Seq::<char>::empty());
    assert(text == move_text(steps.drop_last()) + nf + " -> "@ + nt + "\n"@);
    assert(text =~= nf + " -> "@ + nt + "\n"@);
    assert(text.subrange(0, 2) =~= nf);
    assert(text.subrange(6, 8) =~= nt);
    let cf = square_coord(f as int);
    let ct = square_coord(t as int);
    assert(token@ =~= cf + ct);
    assert(token@.subrange(0, 2) =~= cf);
    assert(token@.subrange(2, 4) =~= ct);
    assert(cf[0] as u32 <= 127 && cf[1] as u32 <= 127 && ct[0] as u32 <= 127 && ct[1] as u32
        <= 127);
    assert(vstd::utf8::is_ascii_chars(token@));
    lemma_ascii_token(token);
    let b = token.spec_bytes();
    lemma_coord_round_trip(f as int);
    lemma_coord_round_trip(t as int);
    assert(chain_steps(b, 4, Some(t), seq![(f, t)]) == Ok::<Seq<(u8, u8)>, &'static str>(
        seq![(f, t)],
    ));
    assert(Seq::<(u8, u8)>::empty().push((f, t)) =~= seq![(f, t)]);
    assert(chain_steps(b, 2, Some(f), Seq::<(u8, u8)>::empty()) == chain_steps(
        b,
        4,
        Some(t),
        seq![(f, t)],
    ));
    assert(chain_steps(b, 0, None, Seq::<(u8, u8)>::empty()) == chain_steps(
        b,
        2,
        Some(f),
        Seq::<(u8, u8)>::empty(),
    ));
    assert(seq![token][0] == token);
    assert(uci_steps(seq![token], 0) == Ok::<Seq<(u8, u8)>, &'static str>(seq![]));
}

/// A move written out: a line "from -> to" for each step.
pub open spec fn move_text(steps: Seq<(u8, u8)>) -> Seq<char>
    decreases steps.len(),
{
    if steps.len() == 0 {
        seq![]
    } else {
        let (from, to) = steps.last();
        move_text(steps.drop_last()) + square_names()[from as int]@ + " -> "@
            + square_names()[to as int]@ + "\n"@
    }
}

/// The line between the rows of a drawn board.
pub open spec fn separator() -> Seq<char> {
    "|---|---|---|---|---|---|---|---|"@
}

/// The decimal digits as texts.
pub open spec fn digit_names() -> Seq<&'static str> {
    seq!["0", "1", "2", "3", "4", "5", "6", "7", "8", "9"]
}

/// The cell of square `sq` in a drawn board: the piece on it ('○' a black
/// man, '●' a white man, 'B' a black king, 'W' a white king), else the
/// square number when `nums`, else blank.
pub open spec fn cell_text(v: BoardView, sq: int, nums: bool) -> Seq<char> {
    if v.black_men.contains(sq) {
        " ○ |"@
    } else if v.white_men.contains(sq) {
        " ● |"@
    } else if v.black_kings.contains(sq) {
        " B |"@
    } else if v.white_kings.contains(sq) {
        " W |"@
    } else if nums {
        if sq < 10 {
            " "@ + digit_names()[sq]@ + " |"@
        } else {
            digit_names()[sq / 10]@ + digit_names()[sq % 10]@ + " |"@
        }
    } else {
        "   |"@
    }
}

/// The first `n` cells of `row`.
pub open spec fn cells_text(v: BoardView, row: int, nums: bool, n: int) -> Seq<char>
    decreases n,
{
    if n <= 0 {
        seq![]
    } else {
        cells_text(v, row, nums, n - 1) + cell_text(v, row * 8 + n - 1, nums)
    }
}

/// The first `n` rows of a drawn board, each followed by a separator line.
pub open spec fn rows_text(v: BoardView, nums: bool, n: int) -> Seq<char>
    decreases n,
{
    if n <= 0 {
        seq![]
    } else {
        rows_text(v, nums, n - 1) + "|"@ + cells_text(v, n - 1, nums, 8) + "\n"@ + separator()
            + "\n"@
    }
}

/// A drawn board: a separator line, then the eight rows.
pub open spec fn board_text(v: BoardView, nums: bool) -> Seq<char> {
    separator() + "\n"@ + rows_text(v, nums, 8)
}
proof fn lemma_cell_len(v: BoardView, sq: int, nums: bool)
    requires
        0 <= sq < 64,
    ensures
        cell_text(v, sq, nums).len() == 4,
{
    reveal_strlit(" ○ |");
    reveal_strlit(" ● |");
    reveal_strlit(" B |");
    reveal_strlit(" W |");
    reveal_strlit(" ");
    reveal_strlit(" |");
    reveal_strlit("   |");
    reveal_strlit("0");
    reveal_strlit("1");
    reveal_strlit("2");
    reveal_strlit("3");
    reveal_strlit("4");
    reveal_strlit("5");
    reveal_strlit("6");
    reveal_strlit("7");
    reveal_strlit("8");
    reveal_strlit("9");
    assert(0 <= sq / 10 < 10 && 0 <= sq % 10 < 10);
}

proof fn lemma_cells_text(v: BoardView, row: int, nums: bool, n: int)
    requires
        0 <= row < 8,
        0 <= n <= 8,
    ensures
        cells_text(v, row, nums, n).len() == 4 * n,
        forall|c: int|
            0 <= c < n ==> #[trigger] cells_text(v, row, nums, n).subrange(4 * c, 4 * c + 4)
                == cell_text(v, row * 8 + c, nums),
    decreases n,
{
    if n > 0 {
        lemma_cells_text(v, row, nums, n - 1);
        lemma_cell_len(v, row * 8 + n - 1, nums);
        let a = cells_text(v, row, nums, n - 1);
        let x = cell_text(v, row * 8 + n - 1, nums);
        assert(cells_text(v, row, nums, n) == a + x);
        assert forall|c: int| 0 <= c < n implies #[trigger] (a + x).subrange(4 * c, 4 * c + 4)
            == cell_text(v, row * 8 + c, nums) by {
            if c < n - 1 {
                assert((a + x).subrange(4 * c, 4 * c + 4) =~= a.subrange(4 * c, 4 * c + 4));
            } else {
                assert((a + x).subrange(4 * c, 4 * c + 4) =~= x);
            }
        }
    }
}

#[verifier::spinoff_prover]
#[verifier::rlimit(60)]
proof fn lemma_rows_text(v: BoardView, nums: bool, n: int)
    requires
        0 <= n <= 8,
    ensures
        rows_text(v, nums, n).len() == 68 * n,
        forall|r: int, c: int|
            0 <= r < n && 0 <= c < 8 ==> #[trigger] rows_text(v, nums, n).subrange(
                68 * r + 1 + 4 * c,
                68 * r + 5 + 4 * c,
            ) == cell_text(v, r * 8 + c, nums),
    decreases n,
{
    reveal_strlit("|---|---|---|---|---|---|---|---|");
    reveal_strlit("|");
    reveal_strlit("\n");
    if n > 0 {
        lemma_rows_text(v, nums, n - 1);
        lemma_cells_text(v, n - 1, nums, 8);
        let a = rows_text(v, nums, n - 1);
        let cells = cells_text(v, n - 1, nums, 8);
        let bar = "|"@;
        let line = bar + cells + "\n"@ + separator() + "\n"@;
        assert(bar.len() == 1);
        assert(separator().len() == 33);
        assert(line.len() == 68);
        assert(forall|k: int| 0 <= k < 32 ==> #[trigger] line[1 + k] == cells[k]);
        assert(rows_text(v, nums, n) == a + line);
        assert forall|r: int, c: int| 0 <= r < n && 0 <= c < 8 implies #[trigger] (a + line).subrange(
            68 * r + 1 + 4 * c,
            68 * r + 5 + 4 * c,
        ) == cell_text(v, r * 8 + c, nums) by {
            if r < n - 1 {
                assert((a + line).subrange(68 * r + 1 + 4 * c, 68 * r + 5 + 4 * c) =~= a.subrange(
                    68 * r + 1 + 4 * c,
                    68 * r + 5 + 4 * c,
                ));
            } else {
                assert(68 * r == a.len());
                assert forall|k: int| 0 <= k < 4 implies (a + line).subrange(
                    68 * r + 1 + 4 * c,
                    68 * r + 5 + 4 * c,
                )[k] == #[trigger] cells.subrange(4 * c, 4 * c + 4)[k] by {
                    assert((a + line)[68 * r + 1 + 4 * c + k] == line[1 + 4 * c + k]);
                    assert(line[1 + (4 * c + k)] == cells[4 * c + k]);
                }
                assert((a + line).subrange(68 * r + 1 + 4 * c, 68 * r + 5 + 4 * c) =~= cells.subrange(
                    4 * c,
                    4 * c + 4,
                ));
            }
        }
    }
}

/// Where the cell of square `sq` stands in a drawn board: after the first
/// separator line, 68 characters per row, one '|' and 4 characters per cell.
pub open spec fn cell_offset(sq: int) -> int {
    34 + 68 * (sq / 8) + 1 + 4 * (sq % 8)
}

/// A drawn board is 578 characters long, and the four characters at the
/// cell of each square draw what stands on it: " W |" a white king, " B |"
/// a black king, " ● |" a white man, " ○ |" a black man (where nothing else
/// shares the square), and "   |" an empty square when numbers are not
/// shown.
pub proof fn lemma_board_text_draws_pieces(v: BoardView, nums: bool, sq: int)
    requires
        0 <= sq < 64,
    ensures
        board_text(v, nums).len() == 578,
        ({
            let cell = board_text(v, nums).subrange(cell_offset(sq), cell_offset(sq) + 4);
            &&& v.white_kings.contains(sq) && !v.white_men.contains(sq) && !v.black_men.contains(sq)
                && !v.black_kings.contains(sq) ==> cell == " W |"@
            &&& v.black_kings.contains(sq) && !v.white_men.contains(sq) && !v.black_men.contains(sq)
                && !v.white_kings.contains(sq) ==> cell == " B |"@
            &&& v.white_men.contains(sq) && !v.black_men.contains(sq) ==> cell == " ● |"@
            &&& v.black_men.contains(sq) ==> cell == " ○ |"@
            &&& !v.white_men.contains(sq) && !v.black_men.contains(sq) && !v.white_kings.contains(
                sq,
            ) && !v.black_kings.contains(sq) && !nums ==> cell == "   |"@
        }),
{
    reveal_strlit("|---|---|---|---|---|---|---|---|");
    reveal_strlit("\n");
    lemma_rows_text(v, nums, 8);
    let head = separator() + "\n"@;
    assert(head.len() == 34);
    let rows = rows_text(v, nums, 8);
    let r = sq / 8;
    let c = sq % 8;
    assert(sq == r * 8 + c);
    assert(rows.subrange(68 * r + 1 + 4 * c, 68 * r + 5 + 4 * c) == cell_text(v, r * 8 + c, nums));
    assert(board_text(v, nums).subrange(cell_offset(sq), cell_offset(sq) + 4) =~= rows.subrange(
        68 * r + 1 + 4 * c,
        68 * r + 5 + 4 * c,
    ));
}

impl Move {
    /// The move written out, a line "from -> to" per step with the square
    /// names "A8" to "H1".
    pub fn print(&self) -> (text: String)
        requires
            forall|i: int| 0 <= i < self@.len() ==> (#[trigger] self@[i]).0 < 64 && self@[i].1 < 64,
        ensures
            text@ == move_text(self@),
    {
        let conversion: [&str; 64] = [
            "A8", "B8", "C8", "D8", "E8", "F8", "G8", "H8",
            "A7", "B7", "C7", "D7", "E7", "F7", "G7", "H7",
            "A6", "B6", "C6", "D6", "E6", "F6", "G6", "H6",
            "A5", "B5", "C5", "D5", "E5", "F5", "G5", "H5",
            "A4", "B4", "C4", "D4", "E4", "F4", "G4", "H4",
            "A3", "B3", "C3", "D3", "E3", "F3", "G3", "H3",
            "A2", "B2", "C2", "D2", "E2", "F2", "G2", "H2",
            "A1", "B1", "C1", "D1", "E1", "F1", "G1", "H1",
        ];
        let mut pretty_move = String::new();
        let n = self.steps().len();
        let mut i: usize = 0;
        while i < n
            invariant
                n == self@.len(),
                0 <= i <= n,
                conversion@ == square_names(),
                forall|k: int| 0 <= k < self@.len() ==> (#[trigger] self@[k]).0 < 64 && self@[k].1 < 64,
                pretty_move@ == move_text(self@.take(i as int)),
            decreases n - i,
        {
            let (from, to) = self.steps()[i];
            proof {
                assert(self@[i as int] == (from, to));
            }
            pretty_move.append(conversion[from as usize]);
            pretty_move.append(" -> ");
            pretty_move.append(conversion[to as usize]);
            pretty_move.append("\n");
            i = i + 1;
            proof {
                let t = self@.take(i as int);
                assert(t.drop_last() =~= self@.take(i - 1));
                assert(t.last() == (from, to));
            }
        }
        proof {
            assert(self@.take(n as int) =~= self@);
        }
        pretty_move
    }

    /// Parses a move from its tokens, such as ["d4e3", "f2d4f6"]: each token
    /// is read two bytes at a time as coordinates, and each coordinate after
    /// the first of a token makes a step from the one before it.
    pub fn from_uci(uci: Vec<&str>) -> (r: Result<Move, &'static str>)
        requires
            forall|i: int|
                0 <= i < uci@.len() && uci_steps(uci@, i) is Ok ==> #[trigger] token_cuttable(
                    uci@[i],
                ),
        ensures
            match r {
                Ok(m) => uci_steps(uci@, uci@.len() as int) == Ok::<Seq<(u8, u8)>, &'static str>(m@),
                Err(e) => uci_steps(uci@, uci@.len() as int) == Err::<Seq<(u8, u8)>, &'static str>(e),
            },
    {
        let mut submoves: Vec<(u8, u8)> = Vec::new();
        let n = uci.len();
        let mut i: usize = 0;
        while i < n
            invariant
                n == uci@.len(),
                0 <= i <= n,
                forall|k: int|
                    0 <= k < uci@.len() && uci_steps(uci@, k) is Ok ==> #[trigger] token_cuttable(
                        uci@[k],
                    ),
                uci_steps(uci@, i as int) == Ok::<Seq<(u8, u8)>, &'static str>(submoves@),
            decreases n - i,
        {
            let token: &str = uci[i];
            let ghost b = token.spec_bytes();
            proof {
                assert(token_cuttable(uci@[i as int]));
                assert(b.subrange(0, b.len() as int) =~= b);
            }
            proof {
                broadcast use vstd::utf8::is_char_boundary_start_end_of_seq;
                broadcast use vstd::utf8::encode_utf8_valid_utf8;
                assert(vstd::utf8::valid_utf8(b));
                assert(is_char_boundary(b, 0));
            }
            let mut rest: &str = token;
            let mut prev: Option<u8> = None;
            let ghost mut p: int = 0;
            while rest.as_bytes().len() >= 2
                invariant
                    0 <= p <= b.len(),
                    p % 2 == 0,
                    b == token.spec_bytes(),
                    token_cuttable(token),
                    is_char_boundary(b, p),
                    rest.spec_bytes() == b.subrange(p, b.len() as int),
                    uci_steps(uci@, i + 1) == chain_steps(b, p, prev, submoves@),
                    n == uci@.len(),
                    0 <= i < n,
                    uci@[i as int] == token,
                decreases b.len() - p,
            {
                proof {
                    lemma_cut_rest(token, p);
                }
                if !rest.is_char_boundary(2) {
                    proof {
                        lemma_uci_error_stays(uci@, i + 1, n as int, "Invalid coordinate length");
                    }
                    return Err("Invalid coordinate length");
                }
                let (coord, r) = rest.split_at(2);
                proof {
                    broadcast use vstd::utf8::encode_utf8_decode_utf8;
                    assert(coord.spec_bytes() =~= b.subrange(p, p + 2));
                    assert(r.spec_bytes() =~= b.subrange(p + 2, b.len() as int));
                    assert(coord@ == decode_utf8(coord.spec_bytes()));
                    assert(coord.len() == 2);
                }
                let sq = match letter_coord_to_index(coord) {
                    Ok(x) => x,
                    Err(e) => {
                        proof {
                            lemma_uci_error_stays(uci@, i + 1, n as int, e);
                        }
                        return Err(e);
                    },
                };
                match prev {
                    Some(f) => {
                        submoves.push((f, sq));
                    },
                    None => {},
                }
                prev = Some(sq);
                rest = r;
                proof {
                    p = p + 2;
                }
            }
            proof {
                assert(rest.spec_bytes().len() < 2);
                assert(p + 2 > b.len());
                assert(chain_steps(b, p, prev, submoves@) == Ok::<Seq<(u8, u8)>, &'static str>(
                    submoves@,
                ));
            }
            i = i + 1;
        }
        Ok(Move::from_steps(submoves))
    }
}

impl CheckersBitboard {
    /// The board drawn as text, one line per row between separator lines;
    /// empty squares show their number when `print_nums`.
    pub fn board_text(&self, print_nums: bool) -> (text: String)
        ensures
            text@ == board_text(self@, print_nums),
    {
        let digits: [&str; 10] = ["0", "1", "2", "3", "4", "5", "6", "7", "8", "9"];
        let ghost v = self@;
        let mut text = String::new();
        text.append("|---|---|---|---|---|---|---|---|");
        text.append("\n");
        let ghost head = text@;
        proof {
            assert(head == separator() + "\n"@);
        }
        let mut row: usize = 0;
        while row < 8
            invariant
                0 <= row <= 8,
                v == self@,
                digits@ == digit_names(),
                text@ == head + rows_text(v, print_nums, row as int),
                head == separator() + "\n"@,
            decreases 8 - row,
        {
            let ghost before_row = text@;
            text.append("|");
            let mut col: usize = 0;
            while col < 8
                invariant
                    0 <= row < 8,
                    0 <= col <= 8,
                    v == self@,
                    digits@ == digit_names(),
                    text@ == before_row + "|"@ + cells_text(v, row as int, print_nums, col as int),
                decreases 8 - col,
            {
                let sq = row * 8 + col;
                let mask = Self::mask_position(row, col);
                let ghost before = text@;
                proof {
                    assert(has_square(self.black_pieces, sq as int) == v.black_men.contains(sq as int));
                    assert(has_square(self.white_pieces, sq as int) == v.white_men.contains(sq as int));
                    assert(has_square(self.black_kings, sq as int) == v.black_kings.contains(sq as int));
                    assert(has_square(self.white_kings, sq as int) == v.white_kings.contains(sq as int));
                }
                if self.black_pieces & mask != 0 {
                    text.append(" ○ |");
                } else if self.white_pieces & mask != 0 {
                    text.append(" ● |");
                } else if self.black_kings & mask != 0 {
                    text.append(" B |");
                } else if self.white_kings & mask != 0 {
                    text.append(" W |");
                } else if print_nums {
                    if sq < 10 {
                        text.append(" ");
                        text.append(digits[sq]);
                        text.append(" |");
                    } else {
                        text.append(digits[sq / 10]);
                        text.append(digits[sq % 10]);
                        text.append(" |");
                    }
                } else {
                    text.append("   |");
                }
                proof {
                    assert(text@ =~= before + cell_text(v, sq as int, print_nums));
                }
                col = col + 1;
            }
            text.append("\n");
            text.append("|---|---|---|---|---|---|---|---|");
            text.append("\n");
            proof {
                assert(text@ =~= head + rows_text(v, print_nums, row + 1));
            }
            row = row + 1;
        }
        text
    }

}

} // verus!
