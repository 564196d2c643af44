//! Small helpers: the highest square of a bitboard and coordinate parsing.
use vstd::prelude::*;
use crate::squares::{has_square, highest_square, lemma_highest_square, square_mask};
use vstd::string::StrSliceExecFns;

verus! {

/// The square of the least significant set bit of a non-empty bitboard,
/// that is, the highest-numbered square that it holds.
pub fn lsb_idx(bitboard: &u64) -> (r: u8)
    requires
        *bitboard != 0,
    ensures
        r < 64,
        has_square(*bitboard, r as int),
        forall|s: int| r < s < 64 ==> !has_square(*bitboard, s),
        r == highest_square(*bitboard),
{
    proof {
        lemma_highest_square(*bitboard);
    }
    63 - bitboard.trailing_zeros() as u8
}


/// The square named by a coordinate such as "c3" (column letter 'a' to 'h',
/// row digit), given the byte length and the characters of the text, or the
/// message that the parser gives for it. Only the rows '1' to '8' are on
/// the board: the digits '0' and '9' are out of bounds.
pub open spec fn coord_index(nbytes: int, c: Seq<char>) -> Result<u8, &'static str> {
    if nbytes != 2 {
        Err("Invalid coordinate length")
    } else if c.len() == 0 {
        Err("Invalid coordinate")
    } else if !('a' as u32 <= c[0] as u32 <= 'h' as u32) {
        Err("first letter not letter")
    } else if c.len() < 2 {
        Err("Invalid coordinate length")
    } else if !('0' as u32 <= c[1] as u32 <= '9' as u32) {
        Err("Invalid coordinate format (number not number)")
    } else if c[1] == '9' || c[1] == '0' {
        Err("Invalid coordinate (out of bounds))")
    } else {
        Ok(((c[0] as u32 - 'a' as u32) + (8 - (c[1] as u32 - '0' as u32)) * 8) as u8)
    }
}

/// Converts a coordinate such as "h1" to the index of its square (here 63):
/// the column letter 'a' to 'h' gives the column and the digit the row,
/// counted from the bottom.
pub fn letter_coord_to_index(coord: &str) -> (r: Result<u8, &'static str>)
    ensures
        r == coord_index(coord.len() as int, coord@),
{
    if coord.len() != 2 {
        return Err("Invalid coordinate length");
    }
    let n = coord.unicode_len();
    let first_letter: usize = if n > 0 {
        let letter = coord.get_char(0) as u32;
        if 'a' as u32 <= letter && letter <= 'h' as u32 {
            (letter - 'a' as u32) as usize
        } else {
            return Err("first letter not letter");
        }
    } else {
        return Err("Invalid coordinate");
    };
    let first_number: u32 = if n > 1 {
        let digit = coord.get_char(1) as u32;
        if '0' as u32 <= digit && digit <= '9' as u32 {
            digit - '0' as u32
        } else {
            return Err("Invalid coordinate format (number not number)");
        }
    } else {
        return Err("Invalid coordinate length");
    };
    if first_letter > 8 || first_number > 8 || first_number == 0 {
        return Err("Invalid coordinate (out of bounds))");
    }
    Ok((first_letter) as u8 + ((8 - first_number) as u8 * 8))
}


/// The coordinate of a square, such as "h1" for square 63: its column
/// letter and its row digit counted from the bottom.
pub open spec fn square_coord(i: int) -> Seq<char> {
    seq![('a' as u32 + i % 8) as char, ('0' as u32 + (8 - i / 8)) as char]
}

/// Parsing the coordinate of a square gives the square back.
pub proof fn lemma_coord_round_trip(i: int)
    requires
        0 <= i < 64,
    ensures
        coord_index(2, square_coord(i)) == Ok::<u8, &'static str>(i as u8),
{
    let c = square_coord(i);
    let a = ('a' as u32 + i % 8) as u32;
    let d = ('0' as u32 + (8 - i / 8)) as u32;
    assert(c[0] as u32 == a);
    assert(c[1] as u32 == d);
}


/// The first `n` squares of `row` of a bitboard as '1' (set) and '0'.
pub open spec fn bitboard_row_text(bitboard: u64, row: int, n: int) -> Seq<char>
    decreases n,
{
    if n <= 0 {
        seq![]
    } else {
        bitboard_row_text(bitboard, row, n - 1) + if has_square(bitboard, row * 8 + n - 1) {
            "1"@
        } else {
            "0"@
        }
    }
}

/// The first `n` rows of a bitboard drawn as lines of '1' and '0'.
pub open spec fn bitboard_text_rows(bitboard: u64, n: int) -> Seq<char>
    decreases n,
{
    if n <= 0 {
        seq![]
    } else {
        bitboard_text_rows(bitboard, n - 1) + bitboard_row_text(bitboard, n - 1, 8) + "\n"@
    }
}

/// A bitboard drawn as eight lines of eight '1' (set) and '0' characters,
/// in the square layout of the board.
pub fn bitboard_text(bitboard: u64) -> (text: String)
    ensures
        text@ == bitboard_text_rows(bitboard, 8),
{
    let mut text = String::new();
    let mut row: usize = 0;
    while row < 8
        invariant
            0 <= row <= 8,
            text@ == bitboard_text_rows(bitboard, row as int),
        decreases 8 - row,
    {
        let ghost before_row = text@;
        let mut col: usize = 0;
        while col < 8
            invariant
                0 <= row < 8,
                0 <= col <= 8,
                text@ == before_row + bitboard_row_text(bitboard, row as int, col as int),
            decreases 8 - col,
        {
            let ghost before = text@;
            let sq = row * 8 + col;
            proof {
                assert(square_mask(sq as int) == 1u64 << ((63 - sq) as u64));
            }
            if bitboard & (1u64 << ((63 - sq) as u64)) != 0 {
                text.append("1");
            } else {
                text.append("0");
            }
            proof {
                assert(text@ =~= before_row + bitboard_row_text(bitboard, row as int, col + 1));
            }
            col = col + 1;
        }
        text.append("\n");
        proof {
            assert(text@ =~= bitboard_text_rows(bitboard, row + 1));
        }
        row = row + 1;
    }
    text
}

} // verus!
