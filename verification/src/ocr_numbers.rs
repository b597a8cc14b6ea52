//! Reading digits that are drawn with bars and underscores, three columns
//! wide and four rows high.

use vstd::prelude::*;
use crate::text::{lines, lines_of, string_of, texts};

verus! {

/// Why a drawing cannot be read.
#[derive(Debug, PartialEq, Eq, Structural)]
pub enum Error {
    InvalidRowCount(usize),
    InvalidColumnCount(usize),
}

/// The three characters of `line` from column `col` on.
pub open spec fn cell(line: Seq<char>, col: int) -> Seq<char> {
    line.subrange(col, col + 3)
}

/// The character that the four rows `a`, `b`, `c`, `d` of a cell draw: a
/// digit, or `?` for a drawing that is none.
pub open spec fn glyph(a: Seq<char>, b: Seq<char>, c: Seq<char>, d: Seq<char>) -> char {
    let blank = seq![' ', ' ', ' '];
    let roof = seq![' ', '_', ' '];
    let right = seq![' ', ' ', '|'];
    let both = seq!['|', ' ', '|'];
    let cup = seq!['|', '_', '|'];
    let hook = seq![' ', '_', '|'];
    let foot = seq!['|', '_', ' '];
    if d != blank {
        '?'
    } else if a == roof && b == both && c == cup {
        '0'
    } else if a == blank && b == right && c == right {
        '1'
    } else if a == roof && b == hook && c == foot {
        '2'
    } else if a == roof && b == hook && c == hook {
        '3'
    } else if a == blank && b == cup && c == right {
        '4'
    } else if a == roof && b == foot && c == hook {
        '5'
    } else if a == roof && b == foot && c == cup {
        '6'
    } else if a == roof && b == right && c == right {
        '7'
    } else if a == roof && b == cup && c == cup {
        '8'
    } else if a == roof && b == cup && c == hook {
        '9'
    } else {
        '?'
    }
}

/// The character drawn by the cell at row `row` and column `col`.
pub open spec fn glyph_at(lines: Seq<Seq<char>>, row: int, col: int) -> char {
    glyph(
        cell(lines[row], col),
        cell(lines[row + 1], col),
        cell(lines[row + 2], col),
        cell(lines[row + 3], col),
    )
}

/// Every character of `line` is in the ASCII range.
pub open spec fn plain(line: Seq<char>) -> bool {
    forall|i: int| 0 <= i < line.len() ==> (#[trigger] line[i]) as u32 <= 127
}

/// The rows from `row` on can be read: they come in fours, and in each four
/// every row reaches as far as the cells that the first row begins.
pub open spec fn readable(lines: Seq<Seq<char>>, row: int) -> bool
    decreases lines.len() - row,
{
    if row >= lines.len() {
        true
    } else {
        &&& row + 4 <= lines.len()
        &&& forall|k: int| row <= k < row + 4 ==> plain(#[trigger] lines[k])
        &&& forall|k: int|
            row <= k < row + 4 ==> (#[trigger] lines[k]).len() >= (lines[row].len() + 2) / 3 * 3
        &&& readable(lines, row + 4)
    }
}

/// What is read from the cell at row `row` and column `col` to the end: the
/// cells of a four of rows from left to right, and a comma between one four
/// and the next.
pub open spec fn emitted(lines: Seq<Seq<char>>, row: int, col: int) -> Seq<char>
    decreases lines.len() - row, lines[row].len() + 2 - col,
{
    if row < 0 || row >= lines.len() || col < 0 {
        Seq::empty()
    } else if lines[row].len() <= col {
        if lines.len() > row + 4 {
            seq![','] + emitted(lines, row + 4, 0)
        } else {
            Seq::empty()
        }
    } else {
        seq![glyph_at(lines, row, col)] + emitted(lines, row, col + 3)
    }
}

/// What a drawing of the rows `lines` reads as: `None` where it cannot be
/// read at all, an error where the count of rows is no multiple of four or
/// the width of the first row no multiple of three, else the text.
pub open spec fn converted(lines: Seq<Seq<char>>) -> Option<Result<Seq<char>, Error>> {
    if lines.len() % 4 != 0 {
        Some(Err(Error::InvalidRowCount(lines.len() as usize)))
    } else if lines.len() == 0 || !plain(lines[0]) {
        None
    } else if lines[0].len() % 3 != 0 {
        Some(Err(Error::InvalidColumnCount(lines[0].len() as usize)))
    } else if !readable(lines, 0) {
        None
    } else {
        Some(Ok(emitted(lines, 0, 0)))
    }
}

/// A reader of a drawing: the rows and the cell to read next.
pub struct Reader<'a> {
    lines: &'a Vec<Vec<char>>,
    row: usize,
    col: usize,
}

impl<'a> Reader<'a> {
    /// The rows of the drawing.
    pub closed spec fn rows(&self) -> Seq<Seq<char>> {
        texts(self.lines@)
    }

    /// The row of the cell to read next.
    pub closed spec fn row(&self) -> int {
        self.row as int
    }

    /// The column of the cell to read next.
    pub closed spec fn col(&self) -> int {
        self.col as int
    }

    /// The reader is at a cell of a drawing that can be read.
    pub closed spec fn wf(&self) -> bool {
        &&& self.row % 4 == 0
        &&& self.col % 3 == 0
        &&& self.row < self.lines@.len()
        &&& readable(self.rows(), self.row as int)
        &&& self.col <= (self.rows()[self.row as int].len() + 2) / 3 * 3
    }

    /// A reader at the first cell of `lines`.
    pub fn new(lines: &'a Vec<Vec<char>>) -> (r: Self)
        requires
            lines@.len() > 0,
            readable(texts(lines@), 0),
        ensures
            r.wf(),
            r.rows() == texts(lines@),
            r.row() == 0,
            r.col() == 0,
    {
        Reader { lines, row: 0, col: 0 }
    }

    /// Reads the next character: that of the cell, or a comma if the cells of
    /// this four of rows are read and another four follows, or nothing if the
    /// drawing is read.
    pub fn read_letter(&mut self) -> (r: Option<char>)
        requires
            old(self).wf(),
        ensures
            final(self).rows() == old(self).rows(),
            match r {
                Some(c) => final(self).wf() && emitted(
                    old(self).rows(),
                    old(self).row(),
                    old(self).col(),
                ) == seq![c] + emitted(final(self).rows(), final(self).row(), final(self).col()),
                None => {
                    &&& final(self).wf()
                    &&& final(self).row() == old(self).row()
                    &&& final(self).col() == old(self).col()
                    &&& emitted(old(self).rows(), old(self).row(), old(self).col()) == Seq::<
                        char,
                    >::empty()
                },
            },
            r is Some ==> (final(self).rows().len() - final(self).row() < old(self).rows().len()
                - old(self).row() || (final(self).row() == old(self).row() && final(self).col()
                > old(self).col())),
    {
        let ghost rows = self.rows();
        proof {
            assert(rows.len() == self.lines@.len());
            assert(rows[self.row as int] == self.lines@[self.row as int]@);
        }
        if self.lines[self.row].len() <= self.col {
            if self.lines.len() - self.row > 4 {
                self.row += 4;
                self.col = 0;
                return Some(',');
            } else {
                return None;
            }
        }
        proof {
            assert(rows[self.row + 1] == self.lines@[self.row + 1]@);
            assert(rows[self.row + 2] == self.lines@[self.row + 2]@);
            assert(rows[self.row + 3] == self.lines@[self.row + 3]@);
            assert(rows[self.row as int].len() >= (rows[self.row as int].len() + 2) / 3 * 3);
        }
        let row = self.row;
        let col = self.col;
        let a = &self.lines[row];
        let b = &self.lines[row + 1];
        let c = &self.lines[row + 2];
        let d = &self.lines[row + 3];
        self.col += 3;
        let res = if !is3(d, col, ' ', ' ', ' ') {
            '?'
        } else if is3(a, col, ' ', '_', ' ') && is3(b, col, '|', ' ', '|') && is3(
            c,
            col,
            '|',
            '_',
            '|',
        ) {
            '0'
        } else if is3(a, col, ' ', ' ', ' ') && is3(b, col, ' ', ' ', '|') && is3(
            c,
            col,
            ' ',
            ' ',
            '|',
        ) {
            '1'
        } else if is3(a, col, ' ', '_', ' ') && is3(b, col, ' ', '_', '|') && is3(
            c,
            col,
            '|',
            '_',
            ' ',
        ) {
            '2'
        } else if is3(a, col, ' ', '_', ' ') && is3(b, col, ' ', '_', '|') && is3(
            c,
            col,
            ' ',
            '_',
            '|',
        ) {
            '3'
        } else if is3(a, col, ' ', ' ', ' ') && is3(b, col, '|', '_', '|') && is3(
            c,
            col,
            ' ',
            ' ',
            '|',
        ) {
            '4'
        } else if is3(a, col, ' ', '_', ' ') && is3(b, col, '|', '_', ' ') && is3(
            c,
            col,
            ' ',
            '_',
            '|',
        ) {
            '5'
        } else if is3(a, col, ' ', '_', ' ') && is3(b, col, '|', '_', ' ') && is3(
            c,
            col,
            '|',
            '_',
            '|',
        ) {
            '6'
        } else if is3(a, col, ' ', '_', ' ') && is3(b, col, ' ', ' ', '|') && is3(
            c,
            col,
            ' ',
            ' ',
            '|',
        ) {
            '7'
        } else if is3(a, col, ' ', '_', ' ') && is3(b, col, '|', '_', '|') && is3(
            c,
            col,
            '|',
            '_',
            '|',
        ) {
            '8'
        } else if is3(a, col, ' ', '_', ' ') && is3(b, col, '|', '_', '|') && is3(
            c,
            col,
            ' ',
            '_',
            '|',
        ) {
            '9'
        } else {
            '?'
        };
        Some(res)
    }
}

/// Whether the three characters of `line` from column `col` on are `x`,
/// `y` and `z`.
fn is3(line: &Vec<char>, col: usize, x: char, y: char, z: char) -> (r: bool)
    requires
        col + 3 <= line@.len(),
    ensures
        r == (cell(line@, col as int) == seq![x, y, z]),
{
    let n = line.len();
    assert(col + 3 <= n);
    let r = line[col] == x && line[col + 1] == y && line[col + 2] == z;
    proof {
        let got = cell(line@, col as int);
        assert(got.len() == 3);
        assert(got[0] == line@[col as int]);
        assert(got[1] == line@[col + 1]);
        assert(got[2] == line@[col + 2]);
        if r {
            assert(got =~= seq![x, y, z]);
        } else {
            assert(seq![x, y, z][0] == x && seq![x, y, z][1] == y && seq![x, y, z][2] == z);
        }
    }
    r
}

/// Whether every character of `line` is in the ASCII range.
fn is_plain(line: &Vec<char>) -> (r: bool)
    ensures
        r == plain(line@),
{
    let mut i: usize = 0;
    while i < line.len()
        invariant
            i <= line@.len(),
            forall|k: int| 0 <= k < i ==> (#[trigger] line@[k]) as u32 <= 127,
        decreases line@.len() - i,
    {
        if line[i] as u32 > 127 {
            return false;
        }
        i += 1;
    }
    true
}

/// Whether the rows from `row` on can be read.
fn is_readable(lines: &Vec<Vec<char>>, row: usize) -> (r: bool)
    requires
        row <= lines@.len(),
    ensures
        r == readable(texts(lines@), row as int),
    decreases lines@.len() - row,
{
    let ghost rows = texts(lines@);
    proof {
        assert(rows.len() == lines@.len());
    }
    if row >= lines.len() {
        return true;
    }
    if lines.len() - row < 4 {
        return false;
    }
    let w = lines[row].len();
    proof {
        assert(rows[row as int] == lines@[row as int]@);
    }
    let width = if w % 3 == 0 {
        w
    } else if w > usize::MAX - 3 {
        return false;
    } else {
        (w + 2) / 3 * 3
    };
    let n = lines.len();
    let end = row + 4;
    let mut k: usize = row;
    while k < end
        invariant
            row <= k <= end,
            end == row + 4,
            end <= lines@.len(),
            rows == texts(lines@),
            width == (rows[row as int].len() + 2) / 3 * 3,
            forall|j: int| row <= j < k ==> plain(#[trigger] rows[j]),
            forall|j: int| row <= j < k ==> (#[trigger] rows[j]).len() >= width,
        decreases end - k,
    {
        proof {
            assert(rows[k as int] == lines@[k as int]@);
        }
        if !is_plain(&lines[k]) || lines[k].len() < width {
            return false;
        }
        k += 1;
    }
    is_readable(lines, row + 4)
}

/// What a drawing of the rows `lines` reads as: `None` where it cannot be
/// read at all, an error where the count of rows is no multiple of four or
/// the width of the first row no multiple of three, else the text.
pub fn convert_lines(lines: &Vec<Vec<char>>) -> (r: Option<Result<Vec<char>, Error>>)
    ensures
        match r {
            Some(Ok(text)) => converted(texts(lines@)) == Some(Ok::<Seq<char>, Error>(text@)),
            Some(Err(e)) => converted(texts(lines@)) == Some(Err::<Seq<char>, Error>(e)),
            None => converted(texts(lines@)) is None,
        },
{
    let ghost rows = texts(lines@);
    proof {
        assert(rows.len() == lines@.len());
    }
    if lines.len() % 4 != 0 {
        return Some(Err(Error::InvalidRowCount(lines.len())));
    }
    if lines.len() == 0 {
        return None;
    }
    proof {
        assert(rows[0] == lines@[0]@);
    }
    if !is_plain(&lines[0]) {
        return None;
    }
    let nrows = lines[0].len();
    if nrows % 3 != 0 {
        return Some(Err(Error::InvalidColumnCount(nrows)));
    }
    if !is_readable(lines, 0) {
        return None;
    }
    let mut reader = Reader::new(lines);
    let mut out: Vec<char> = Vec::new();
    loop
        invariant
            reader.wf(),
            reader.rows() == rows,
            emitted(rows, 0, 0) == out@ + emitted(rows, reader.row(), reader.col()),
        ensures
            emitted(rows, 0, 0) == out@,
        decreases rows.len() - reader.row(), rows[reader.row()].len() + 3 - reader.col(),
    {
        match reader.read_letter() {
            Some(c) => {
                let ghost before = out@;
                out.push(c);
                proof {
                    assert(out@ + emitted(rows, reader.row(), reader.col()) =~= before + (seq![c]
                        + emitted(rows, reader.row(), reader.col())));
                }
            },
            None => {
                proof {
                    assert(out@ + Seq::<char>::empty() =~= out@);
                }
                break ;
            },
        }
    }
    Some(Ok(out))
}

/// The text that the drawing `input` reads as, or why it does not read.
pub fn convert(input: &str) -> (r: Result<String, Error>)
    requires
        converted(lines_of(input@)) is Some,
    ensures
        match r {
            Ok(text) => converted(lines_of(input@)) == Some(Ok::<Seq<char>, Error>(text@)),
            Err(e) => converted(lines_of(input@)) == Some(Err::<Seq<char>, Error>(e)),
        },
{
    let all = lines(input);
    match convert_lines(&all) {
        Some(Ok(text)) => Ok(string_of(&text)),
        Some(Err(e)) => Err(e),
        None => {
            proof {
                assert(false);
            }
            Ok(String::new())
        },
    }
}

/// The text that the drawing `input` reads as, or why it does not read;
/// `None` where the drawing cannot be read at all.
pub fn try_convert(input: &str) -> (r: Option<Result<String, Error>>)
    ensures
        match r {
            Some(Ok(text)) => converted(lines_of(input@)) == Some(Ok::<Seq<char>, Error>(text@)),
            Some(Err(e)) => converted(lines_of(input@)) == Some(Err::<Seq<char>, Error>(e)),
            None => converted(lines_of(input@)) is None,
        },
{
    let all = lines(input);
    if convert_lines(&all).is_some() {
        Some(convert(input))
    } else {
        None
    }
}

} // verus!
