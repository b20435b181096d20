//! The text form of a puzzle: five lines of heading and thirty-three rows of
//! thirty-three cells, two characters each.
//!
//! The first character of a cell says what it is: `.` nothing, `o` a black
//! cell, `x` a blue cell, `O` and `X` the same but shown from the start, and
//! `|`, `\` and `/` a line clue that looks down, down and to the right, or
//! down and to the left. The second character says what it tells: `.`
//! nothing, `+` a number, `c` a number of cells that follow each other, `n` a
//! number of cells that do not. A blue cell can only tell a plain number, and
//! a line clue always tells something.
//!
//! The columns of the text are the columns of the grid, and two text rows
//! make one step down a column, so a cell can only stand where row and
//! column are both even or both odd. The cell in row `y` and column `x` has
//! the coordinates `q = x` and `r = (y - x) / 2`.

use crate::constraint::{all_cells, count_true_blue, lemma_same_cells, true_blue};
use crate::defn::{placeable, Cell, Color, Defn, Modifier, Orientation};
use crate::misc::Coords;
use crate::seqs::lemma_take_push;
use vstd::prelude::*;

verus! {

/// The number of lines of a puzzle text.
pub const LINES: usize = 38;

/// The number of lines before the first row of cells.
pub const HEADING: usize = 5;

/// The number of rows, and of cells in a row.
pub const SIDE: usize = 33;

/// Why a text is not a puzzle.
#[derive(Debug, Copy, Clone, PartialEq, Eq, Structural)]
pub enum LevelError {
    /// The text has this many lines, not thirty-eight.
    Lines(usize),
    /// This row does not have sixty-six characters.
    Row(usize),
    /// In this row, the cell in this column is not a known cell, or stands
    /// where no cell can.
    Cell(usize, usize),
}

/// A line without the line break at its end.
pub open spec fn row_text(line: Seq<u8>) -> Seq<u8> {
    if line.len() >= 2 && line[line.len() - 2] == 13 && line[line.len() - 1] == 10 {
        line.take(line.len() - 2)
    } else if line.len() >= 1 && line[line.len() - 1] == 10 {
        line.take(line.len() - 1)
    } else {
        line
    }
}

/// What the second character of a cell tells, if it tells a number.
pub open spec fn modifier_of(info: u8) -> Option<Modifier> {
    if info == 43 {
        Some(Modifier::Plain)
    } else if info == 99 {
        Some(Modifier::Consecutive)
    } else if info == 110 {
        Some(Modifier::NonConsecutive)
    } else {
        None
    }
}

/// The cell that two characters stand for, if they stand for one.
pub open spec fn cell_of(kind: u8, info: u8) -> Option<Cell> {
    let m = modifier_of(info);
    if kind == 46 {
        if info == 46 {
            Some(Cell::Empty)
        } else {
            None
        }
    } else if kind == 111 || kind == 79 {
        if info == 46 {
            Some(Cell::Zone0 { revealed: kind == 79, color: Color::Black })
        } else if m is Some {
            Some(Cell::Zone6 { revealed: kind == 79, m: m.unwrap() })
        } else {
            None
        }
    } else if kind == 120 || kind == 88 {
        if info == 46 {
            Some(Cell::Zone0 { revealed: kind == 88, color: Color::Blue })
        } else if info == 43 {
            Some(Cell::Zone18 { revealed: kind == 88 })
        } else {
            None
        }
    } else if kind == 124 || kind == 92 || kind == 47 {
        if m is Some {
            Some(
                Cell::Line {
                    o: if kind == 124 {
                        Orientation::Down
                    } else if kind == 92 {
                        Orientation::DownRight
                    } else {
                        Orientation::DownLeft
                    },
                    m: m.unwrap(),
                },
            )
        } else {
            None
        }
    } else {
        None
    }
}

/// The cell in column `x` of a row, if the characters there stand for one
/// that may stand in row `y`.
pub open spec fn cell_in(row: Seq<u8>, y: int, x: int) -> Option<Cell> {
    match cell_of(row[2 * x], row[2 * x + 1]) {
        Some(cell) => if cell is Empty || (x + y) % 2 == 0 {
            Some(cell)
        } else {
            None
        },
        None => None,
    }
}

/// The first column of a row, from `x` on, whose cell is faulty.
pub open spec fn bad_column(row: Seq<u8>, y: int, x: int) -> Option<int>
    decreases SIDE - x,
{
    if x >= SIDE {
        None
    } else if cell_in(row, y, x) is None {
        Some(x)
    } else {
        bad_column(row, y, x + 1)
    }
}

/// What is wrong with row `y`, if anything is.
pub open spec fn row_fault(lines: Seq<Seq<u8>>, y: int) -> Option<LevelError> {
    let row = row_text(lines[HEADING + y]);
    if row.len() != 2 * SIDE {
        Some(LevelError::Row(y as usize))
    } else {
        match bad_column(row, y, 0) {
            Some(x) => Some(LevelError::Cell(y as usize, x as usize)),
            None => None,
        }
    }
}

/// What is wrong with the first faulty row from `y` on, if any row is.
pub open spec fn rows_fault(lines: Seq<Seq<u8>>, y: int) -> Option<LevelError>
    decreases SIDE - y,
{
    if y >= SIDE {
        None
    } else if row_fault(lines, y) is Some {
        row_fault(lines, y)
    } else {
        rows_fault(lines, y + 1)
    }
}

/// What is wrong with a text, if anything is: the number of its lines, or
/// else its first faulty row, or in that row its first faulty cell.
pub open spec fn fault(lines: Seq<Seq<u8>>) -> Option<LevelError> {
    if lines.len() != LINES {
        Some(LevelError::Lines(lines.len() as usize))
    } else {
        rows_fault(lines, 0)
    }
}

/// The text row in which the cell with the coordinates `c` stands.
pub open spec fn text_row(c: Coords) -> int {
    2 * c.r + c.q
}

/// Whether the coordinates `c` are those of a place in the text.
pub open spec fn on_text(c: Coords) -> bool {
    0 <= c.q < SIDE && 0 <= text_row(c) < SIDE
}

/// The cell that a text without fault has at the coordinates `c`.
pub open spec fn cell_at(lines: Seq<Seq<u8>>, c: Coords) -> Cell {
    cell_in(row_text(lines[HEADING + text_row(c)]), text_row(c), c.q as int).unwrap()
}

/// The cells of a text without fault, by their coordinates.
pub open spec fn grid(lines: Seq<Seq<u8>>) -> Map<Coords, Cell> {
    Map::new(
        |c: Coords| on_text(c) && !(cell_at(lines, c) is Empty),
        |c: Coords| cell_at(lines, c),
    )
}

/// What the second character of a cell tells, if it tells a number.
fn read_modifier(info: u8) -> (m: Option<Modifier>)
    ensures
        m == modifier_of(info),
{
    if info == 43 {
        Some(Modifier::Plain)
    } else if info == 99 {
        Some(Modifier::Consecutive)
    } else if info == 110 {
        Some(Modifier::NonConsecutive)
    } else {
        None
    }
}

/// The cell that two characters stand for, if they stand for one.
pub fn read_cell(kind: u8, info: u8) -> (cell: Option<Cell>)
    ensures
        cell == cell_of(kind, info),
{
    let m = read_modifier(info);
    if kind == 46 {
        if info == 46 {
            Some(Cell::Empty)
        } else {
            None
        }
    } else if kind == 111 || kind == 79 {
        if info == 46 {
            Some(Cell::Zone0 { revealed: kind == 79, color: Color::Black })
        } else {
            match m {
                Some(m) => Some(Cell::Zone6 { revealed: kind == 79, m }),
                None => None,
            }
        }
    } else if kind == 120 || kind == 88 {
        if info == 46 {
            Some(Cell::Zone0 { revealed: kind == 88, color: Color::Blue })
        } else if info == 43 {
            Some(Cell::Zone18 { revealed: kind == 88 })
        } else {
            None
        }
    } else if kind == 124 || kind == 92 || kind == 47 {
        let o = if kind == 124 {
            Orientation::Down
        } else if kind == 92 {
            Orientation::DownRight
        } else {
            Orientation::DownLeft
        };
        match m {
            Some(m) => Some(Cell::Line { o, m }),
            None => None,
        }
    } else {
        None
    }
}

/// The length of a line without the line break at its end.
fn row_length(line: &Vec<u8>) -> (n: usize)
    ensures
        n == row_text(line@).len(),
        n <= line@.len(),
        row_text(line@) == line@.take(n as int),
{
    let len = line.len();
    if len >= 2 && line[len - 2] == 13 && line[len - 1] == 10 {
        len - 2
    } else if len >= 1 && line[len - 1] == 10 {
        len - 1
    } else {
        assert(line@.take(len as int) =~= line@);
        len
    }
}

/// A row without fault has no faulty column.
proof fn lemma_bad_column(row: Seq<u8>, y: int, from: int, x: int)
    requires
        0 <= from <= x < SIDE,
        bad_column(row, y, from) is None,
    ensures
        cell_in(row, y, x) is Some,
    decreases x - from,
{
    if from < x {
        lemma_bad_column(row, y, from + 1, x);
    }
}

/// A text without fault has no faulty row.
proof fn lemma_rows_fault(lines: Seq<Seq<u8>>, from: int, y: int)
    requires
        0 <= from <= y < SIDE,
        rows_fault(lines, from) is None,
    ensures
        row_fault(lines, y) is None,
    decreases y - from,
{
    if from < y {
        lemma_rows_fault(lines, from + 1, y);
    }
}

/// The cells that rows `0` to `y` of a text hold, and of row `y` only the
/// columns before `x`.
pub open spec fn grid_upto(lines: Seq<Seq<u8>>, y: int, x: int) -> Map<Coords, Cell> {
    Map::new(
        |c: Coords|
            grid(lines).contains_key(c) && (text_row(c) < y || (text_row(c) == y && c.q < x)),
        |c: Coords| cell_at(lines, c),
    )
}

/// Reads a puzzle from the lines of its text. Each line may end in a line
/// break. The puzzle declares as many blue cells as the text holds.
pub fn parse(lines: &Vec<Vec<u8>>) -> (res: Result<Defn, LevelError>)
    ensures
        res is Err <==> fault(rows_of_text(lines@)) is Some,
        res is Err ==> Some(res->Err_0) == fault(rows_of_text(lines@)),
        res is Ok ==> res->Ok_0.wf() && res->Ok_0@ == grid(rows_of_text(lines@))
            && res->Ok_0.declared_blue() == true_blue(&res->Ok_0, all_cells(&res->Ok_0)),
{
    let ghost text = rows_of_text(lines@);
    if lines.len() != LINES {
        return Err(LevelError::Lines(lines.len()));
    }
    let mut defn = Defn::new(0);
    let mut y: usize = 0;
    proof {
        assert(defn@ =~= grid_upto(text, 0, 0));
    }
    while y < SIDE
        invariant
            y <= SIDE,
            lines@.len() == LINES,
            text == rows_of_text(lines@),
            defn.wf(),
            defn@ == grid_upto(text, y as int, 0),
            rows_fault(text, 0) == rows_fault(text, y as int),
            forall|k: int| 0 <= k < y ==> row_fault(text, k) is None,
        decreases SIDE - y,
    {
        let line = &lines[HEADING + y];
        assert(text[HEADING + y] == line@);
        let n = row_length(line);
        let ghost row = row_text(line@);
        if n != 2 * SIDE {
            assert(row_fault(text, y as int) == Some(LevelError::Row(y)));
            return Err(LevelError::Row(y));
        }
        let mut x: usize = 0;
        while x < SIDE
            invariant
                x <= SIDE,
                y < SIDE,
                lines@.len() == LINES,
                text == rows_of_text(lines@),
                line@ == text[HEADING + y],
                row == row_text(line@),
                row == line@.take(n as int),
                n == 2 * SIDE,
                n <= line@.len(),
                rows_fault(text, 0) == rows_fault(text, y as int),
                defn.wf(),
                defn@ == grid_upto(text, y as int, x as int),
                bad_column(row, y as int, 0) == bad_column(row, y as int, x as int),
                forall|k: int| 0 <= k < x ==> cell_in(row, y as int, k) is Some,
                forall|k: int| 0 <= k < y ==> row_fault(text, k) is None,
            decreases SIDE - x,
        {
            assert(row[2 * x] == line@[2 * x] && row[2 * x + 1] == line@[2 * x + 1]);
            let cell = match read_cell(line[2 * x], line[2 * x + 1]) {
                Some(cell) => cell,
                None => {
                    proof {
                        assert(cell_in(row, y as int, x as int) is None);
                        assert(bad_column(row, y as int, x as int) == Some(x as int));
                        assert(row_fault(text, y as int) == Some(LevelError::Cell(y, x)));
                    }
                    return Err(LevelError::Cell(y, x));
                },
            };
            assert(cell_of(row[2 * x], row[2 * x + 1]) == Some(cell));
            match cell {
                Cell::Empty => {
                    proof {
                        lemma_grid_step(text, y as int, x as int);
                    }
                },
                _ => {
                    if (x + y) % 2 != 0 {
                        proof {
                            assert(cell_in(row, y as int, x as int) is None);
                            assert(bad_column(row, y as int, x as int) == Some(x as int));
                            assert(row_fault(text, y as int) == Some(LevelError::Cell(y, x)));
                        }
                        return Err(LevelError::Cell(y, x));
                    }
                    let q = x as i16;
                    let r = ((y as i16) - (x as i16)) / 2;
                    let c = Coords { q, r };
                    proof {
                        assert(text_row(c) == y && c.q == x);
                        assert(placeable(c));
                        lemma_grid_step(text, y as int, x as int);
                    }
                    defn.insert(c, cell);
                },
            }
            proof {
                assert(cell_in(row, y as int, x as int) is Some);
                assert(bad_column(row, y as int, x as int) == bad_column(row, y as int, x + 1));
            }
            x = x + 1;
        }
        proof {
            assert(grid_upto(text, y as int, SIDE as int) =~= grid_upto(text, y + 1, 0));
            assert(bad_column(row, y as int, SIDE as int) is None);
            assert(row_fault(text, y as int) is None);
            assert(rows_fault(text, y as int) == rows_fault(text, y + 1));
        }
        y = y + 1;
    }
    proof {
        assert(rows_fault(text, SIDE as int) is None);
        assert(fault(text) is None);
        assert forall|c: Coords| grid(text).contains_key(c) implies grid_upto(
            text,
            SIDE as int,
            0,
        ).contains_key(c) by {}
        assert(defn@ =~= grid(text));
    }
    let total = count_blue_cells(&defn);
    let ghost counted = defn;
    let defn = defn.with_blue_total(total);
    proof {
        lemma_same_cells(&counted, &defn);
    }
    Ok(defn)
}

/// The lines of a text as sequences of characters.
pub open spec fn rows_of_text(lines: Seq<Vec<u8>>) -> Seq<Seq<u8>> {
    Seq::new(lines.len(), |i: int| lines[i]@)
}

/// Reading one more place of the text adds the cell there, if there is one.
proof fn lemma_grid_step(text: Seq<Seq<u8>>, y: int, x: int)
    requires
        0 <= y < SIDE,
        0 <= x < SIDE,
        cell_in(row_text(text[HEADING + y]), y, x) is Some,
    ensures
        ({
            let cell = cell_in(row_text(text[HEADING + y]), y, x).unwrap();
            let c = Coords { q: x as i16, r: ((y - x) / 2) as i16 };
            if cell is Empty {
                grid_upto(text, y, x + 1) == grid_upto(text, y, x)
            } else {
                grid_upto(text, y, x + 1) == grid_upto(text, y, x).insert(c, cell)
            }
        }),
{
    let cell = cell_in(row_text(text[HEADING + y]), y, x).unwrap();
    let c = Coords { q: x as i16, r: ((y - x) / 2) as i16 };
    let before = grid_upto(text, y, x);
    let after = grid_upto(text, y, x + 1);
    if cell is Empty {
        assert forall|k: Coords| after.contains_key(k) implies before.contains_key(k) by {
            if text_row(k) == y && k.q == x {
                assert(cell_at(text, k) == cell);
            }
        }
        assert(after =~= before);
    } else {
        assert((x + y) % 2 == 0);
        assert(text_row(c) == y && c.q == x);
        assert(cell_at(text, c) == cell);
        assert forall|k: Coords| after.contains_key(k) <==> (before.contains_key(k) || k == c) by {
            if after.contains_key(k) && !before.contains_key(k) {
                assert(text_row(k) == y && k.q == x);
                assert(k.r == c.r);
            }
        }
        assert(after =~= before.insert(c, cell));
    }
}

/// The number of blue cells of a puzzle.
fn count_blue_cells(defn: &Defn) -> (n: usize)
    requires
        defn.wf(),
    ensures
        n == true_blue(defn, all_cells(defn)),
{
    let ghost listing = defn.listing();
    let ghost is_any = |c: Coords| defn.clueable(c);
    let mut all: Vec<Coords> = Vec::new();
    let len = defn.len();
    let mut i: usize = 0;
    while i < len
        invariant
            i <= len,
            len == listing.len(),
            defn.wf(),
            listing == defn.listing(),
            is_any == |c: Coords| defn.clueable(c),
            all@ == listing.take(i as int).filter(is_any),
        decreases len - i,
    {
        let c = defn.coords_at(i);
        proof {
            lemma_take_push(listing, i as int);
            listing.take(i as int).lemma_filter_push(c, is_any);
        }
        if defn.cell_at(i).is_clueable() {
            all.push(c);
        }
        i = i + 1;
    }
    proof {
        assert(listing.take(i as int) =~= listing);
        assert forall|k: int| 0 <= k < all@.len() implies defn.clueable(#[trigger] all@[k]) by {
            listing.lemma_filter_pred(is_any, k);
        }
    }
    count_true_blue(defn, &all)
}

} // verus!
