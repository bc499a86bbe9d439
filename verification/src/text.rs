//! Puzzles as text: reading a grid from a string of digits, and the pieces
//! from which a grid is written out.

use crate::grid::grid_view;
use vstd::prelude::*;
use vstd::string::StrSliceExecFns;

verus! {

/// One of the characters `0` to `9`.
pub open spec fn is_digit_char(c: char) -> bool {
    '0' <= c <= '9'
}

/// The digit that the character `c` stands for.
pub open spec fn digit_value(c: char) -> u8
    recommends
        is_digit_char(c),
{
    (c as u32 - '0' as u32) as u8
}

/// A puzzle as text: 81 digits or more, of which the first 81 count.
pub open spec fn is_puzzle_text(text: Seq<char>) -> bool {
    &&& text.len() >= 81
    &&& forall|i: int| 0 <= i < 81 ==> is_digit_char(#[trigger] text[i])
}

/// The grid that a puzzle text spells: its first nine digits are the top
/// row, left to right, the next nine the second row, and so on.
pub open spec fn text_grid(text: Seq<char>) -> Seq<Seq<u8>> {
    Seq::new(9, |r: int| Seq::new(9, |c: int| digit_value(text[9 * r + c])))
}

/// The cells that `text` spells, if it is a puzzle text.
pub fn parse_cells(text: &str) -> (parsed: Option<Vec<Vec<u8>>>)
    ensures
        parsed is Some <==> is_puzzle_text(text@),
        parsed matches Some(cells) ==> grid_view(cells) == text_grid(text@),
{
    if text.unicode_len() < 81 {
        return None;
    }
    let mut cells: Vec<Vec<u8>> = Vec::new();
    for r in 0usize..9
        invariant
            text@.len() >= 81,
            cells@.len() == r,
            forall|i: int| 0 <= i < 9 * r ==> is_digit_char(#[trigger] text@[i]),
            forall|i: int| 0 <= i < r ==> (#[trigger] cells@[i])@ == text_grid(text@)[i],
    {
        let mut row: Vec<u8> = Vec::new();
        for c in 0usize..9
            invariant
                text@.len() >= 81,
                0 <= r < 9,
                row@.len() == c,
                forall|i: int| 0 <= i < 9 * r + c ==> is_digit_char(#[trigger] text@[i]),
                forall|j: int| 0 <= j < c ==> #[trigger] row@[j] == digit_value(text@[9 * r + j]),
        {
            let ch: char = text.get_char(9 * r + c);
            if ch < '0' || ch > '9' {
                assert(!is_digit_char(text@[9 * r + c]));
                return None;
            }
            let digit: u8 = (ch as u32 - '0' as u32) as u8;
            row.push(digit);
        }
        assert(row@ =~= text_grid(text@)[r as int]);
        cells.push(row);
    }
    assert(grid_view(cells) =~= text_grid(text@));
    Some(cells)
}

/// The character for the digit `d`.
pub open spec fn digit_char(d: nat) -> char
    recommends
        d <= 9,
{
    (d + '0' as nat) as char
}

/// The number `n` written in decimal, without leading zeros.
pub open spec fn decimal(n: nat) -> Seq<char>
    decreases n,
{
    if n < 10 {
        seq![digit_char(n)]
    } else {
        decimal(n / 10).push(digit_char(n % 10))
    }
}

/// The numbers of `items` written in decimal, with `sep` between each two.
pub open spec fn joined(items: Seq<u8>, sep: Seq<char>) -> Seq<char>
    decreases items.len(),
{
    if items.len() == 0 {
        Seq::empty()
    } else if items.len() == 1 {
        decimal(items[0] as nat)
    } else {
        joined(items.drop_last(), sep) + sep + decimal(items.last() as nat)
    }
}

/// The rows of `g` written out, one line each: the numbers of the row
/// between square brackets, with a comma and a space between each two, and a
/// comma after the closing bracket.
pub open spec fn rendered(g: Seq<Seq<u8>>) -> Seq<char>
    decreases g.len(),
{
    if g.len() == 0 {
        Seq::empty()
    } else {
        rendered(g.drop_last()) + seq!['['] + joined(g.last(), seq![',', ' ']) + seq![
            ']',
            ',',
            '\n',
        ]
    }
}

/// Calls `itertools::join` on the numbers of `row`. That function formats
/// each item as `Display` does, which for a `u8` is its decimal form, and
/// puts `sep` between each two items; nothing stands before the first item
/// or after the last. This contract is taken on trust from its source.
#[verifier::external_body]
pub(crate) fn join_numbers(row: &Vec<u8>, sep: &str) -> (text: String)
    ensures
        text@ == joined(row@, sep@),
{
    itertools::join(row, sep)
}

} // verus!
