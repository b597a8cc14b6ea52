//! A diamond of letters, widest at the letter asked for.

use vstd::prelude::*;
use crate::text::string_of;

verus! {

/// The size of `x`.
pub open spec fn magnitude(x: int) -> int {
    if x < 0 {
        -x
    } else {
        x
    }
}

/// The low eight bits of the code of `ch`.
pub open spec fn low_byte(ch: char) -> int {
    (ch as u32 % 256) as int
}

/// The character of the diamond of half-width `n` at row `row` and column
/// `col`, both counted from the upper left corner: the letter that is as far
/// from `A` as the column is from the middle, where row and column together
/// are `n` away from the middle; else a blank.
pub open spec fn diamond_cell(n: int, row: int, col: int) -> char {
    if magnitude(row - n) + magnitude(col - n) == n {
        (magnitude(col - n) + 65) as u8 as char
    } else {
        ' '
    }
}

/// Row `row` of the diamond of half-width `n`.
pub open spec fn diamond_row(n: int, row: int) -> Seq<char> {
    Seq::new((2 * n + 1) as nat, |col: int| diamond_cell(n, row, col))
}

/// The texts of the strings `v`.
pub open spec fn string_views(v: Seq<String>) -> Seq<Seq<char>> {
    Seq::new(v.len(), |i: int| v[i]@)
}

/// The rows of the diamond whose widest row holds `ch` at both ends. The
/// half-width is how far the low eight bits of the code of `ch` are from
/// those of `A`; where they are 128 or more away there are no rows.
pub fn get_diamond(ch: char) -> (r: Vec<String>)
    requires
        65 <= low_byte(ch) <= 128 || low_byte(ch) >= 193,
    ensures
        low_byte(ch) >= 193 ==> r@.len() == 0,
        low_byte(ch) <= 128 ==> {
            let n = low_byte(ch) - 65;
            &&& r@.len() == 2 * n + 1
            &&& forall|row: int| 0 <= row < r@.len() ==> (#[trigger] r@[row])@ == diamond_row(n, row)
        },
{
    let byte: u8 = (ch as u32 % 256) as u8;
    let mut rows: Vec<String> = Vec::new();
    if byte >= 193 {
        return rows;
    }
    let n: i8 = (byte - 65) as i8;
    let mut row: i8 = -n;
    while row <= n
        invariant
            0 <= n <= 63,
            n == low_byte(ch) - 65,
            -n <= row <= n + 1,
            rows@.len() == row + n,
            forall|k: int| 0 <= k < rows@.len() ==> (#[trigger] rows@[k])@ == diamond_row(n as int, k),
        decreases n - row + 1,
    {
        let mut line: Vec<char> = Vec::new();
        let mut col: i8 = -n;
        while col <= n
            invariant
                0 <= n <= 63,
                -n <= row <= n,
                -n <= col <= n + 1,
                line@.len() == col + n,
                forall|k: int|
                    0 <= k < line@.len() ==> #[trigger] line@[k] == diamond_cell(
                        n as int,
                        row + n,
                        k,
                    ),
            decreases n - col + 1,
        {
            let r_abs: i8 = if row < 0 {
                -row
            } else {
                row
            };
            let c_abs: i8 = if col < 0 {
                -col
            } else {
                col
            };
            let c = if r_abs + c_abs == n {
                (c_abs as u8 + 65) as char
            } else {
                ' '
            };
            line.push(c);
            col += 1;
        }
        proof {
            assert(line@ =~= diamond_row(n as int, row + n));
        }
        rows.push(string_of(&line));
        row += 1;
    }
    rows
}

} // verus!
