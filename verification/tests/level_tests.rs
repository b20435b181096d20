use hexcells_solver::constraint::is_consistent;
use hexcells_solver::defn::{Cell, Color, Modifier, Orientation};
use hexcells_solver::env::Env;
use hexcells_solver::level::{parse, read_cell, LevelError, LINES, SIDE};
use hexcells_solver::misc::Coords;
use hexcells_solver::solver::{solve, Difficulty, Outcome};

fn at(q: isize, r: isize) -> Coords {
    Coords::new(q, r, -q - r)
}

/// A text with the given cells, each by its row, its column and its two
/// characters, and nothing elsewhere.
fn text_with(cells: &[(usize, usize, &str)]) -> Vec<Vec<u8>> {
    let mut lines: Vec<Vec<u8>> = Vec::new();
    lines.push(b"Hexcells level v1\n".to_vec());
    lines.push(b"A small puzzle\n".to_vec());
    lines.push(b"Nobody\n".to_vec());
    lines.push(b"\n".to_vec());
    lines.push(b"\n".to_vec());
    for y in 0..SIDE {
        let mut row: Vec<u8> = Vec::new();
        for x in 0..SIDE {
            let mut pair: &[u8] = b"..";
            for (cy, cx, chars) in cells {
                if *cy == y && *cx == x {
                    pair = chars.as_bytes();
                }
            }
            row.extend_from_slice(pair);
        }
        row.push(b'\n');
        lines.push(row);
    }
    lines
}

#[test]
fn cells_are_read_from_two_characters() {
    assert_eq!(read_cell(b'.', b'.'), Some(Cell::Empty));
    assert_eq!(
        read_cell(b'o', b'.'),
        Some(Cell::Zone0 { revealed: false, color: Color::Black })
    );
    assert_eq!(
        read_cell(b'X', b'.'),
        Some(Cell::Zone0 { revealed: true, color: Color::Blue })
    );
    assert_eq!(
        read_cell(b'O', b'c'),
        Some(Cell::Zone6 { revealed: true, m: Modifier::Consecutive })
    );
    assert_eq!(
        read_cell(b'o', b'n'),
        Some(Cell::Zone6 { revealed: false, m: Modifier::NonConsecutive })
    );
    assert_eq!(read_cell(b'x', b'+'), Some(Cell::Zone18 { revealed: false }));
    assert_eq!(
        read_cell(b'|', b'+'),
        Some(Cell::Line { o: Orientation::Down, m: Modifier::Plain })
    );
    assert_eq!(
        read_cell(b'\\', b'c'),
        Some(Cell::Line { o: Orientation::DownRight, m: Modifier::Consecutive })
    );
    assert_eq!(
        read_cell(b'/', b'n'),
        Some(Cell::Line { o: Orientation::DownLeft, m: Modifier::NonConsecutive })
    );
    assert_eq!(read_cell(b'x', b'c'), None);
    assert_eq!(read_cell(b'|', b'.'), None);
    assert_eq!(read_cell(b'.', b'+'), None);
    assert_eq!(read_cell(b'q', b'.'), None);
}

#[test]
fn text_is_read_into_a_puzzle() {
    // A line clue above a column of two cells, one of them blue.
    let lines = text_with(&[(0, 4, "|+"), (2, 4, "x."), (4, 4, "o."), (3, 5, "O+")]);
    assert_eq!(lines.len(), LINES);
    let defn = parse(&lines).unwrap();
    assert_eq!(defn.len(), 4);
    assert_eq!(defn.blue_total(), 1);
    assert_eq!(
        defn.get(&at(4, -2)),
        Cell::Line { o: Orientation::Down, m: Modifier::Plain }
    );
    assert_eq!(defn.get(&at(4, -1)), Cell::Zone0 { revealed: false, color: Color::Blue });
    assert_eq!(defn.get(&at(4, 0)), Cell::Zone0 { revealed: false, color: Color::Black });
    assert_eq!(defn.get(&at(5, -1)), Cell::Zone6 { revealed: true, m: Modifier::Plain });
    assert!(is_consistent(&defn));
    // The revealed cell counts one blue neighbour among two: that is no help,
    // but the line has one blue cell among two as well, and together with the
    // revealed cell nothing more is known.
    let mut env = Env::new(3600);
    assert!(matches!(solve(&mut env, &defn, false), Outcome::Unsolvable));
}

#[test]
fn text_of_a_solvable_puzzle() {
    let lines = text_with(&[(0, 4, "|+"), (2, 4, "x."), (4, 4, "x."), (1, 5, "\\+"), (3, 7, "o.")]);
    let defn = parse(&lines).unwrap();
    assert_eq!(defn.blue_total(), 2);
    assert!(is_consistent(&defn));
    let mut env = Env::new(3600);
    match solve(&mut env, &defn, false) {
        Outcome::Solved(history) => {
            assert_eq!(history.len(), 1);
            assert_eq!(history[0].difficulty(), Difficulty::Local(1));
            assert_eq!(history[0].cells().to_vec(), vec![at(4, -1), at(4, 0), at(7, -2)]);
        }
        other => panic!("not solved: {:?}", other),
    }
}

#[test]
fn line_breaks_may_be_of_either_kind_or_missing() {
    let mut lines = text_with(&[(2, 4, "x.")]);
    lines[7].pop();
    lines[8].pop();
    lines[8].extend_from_slice(b"\r\n");
    let defn = parse(&lines).unwrap();
    assert_eq!(defn.len(), 1);
}

#[test]
fn faulty_texts_are_refused() {
    let good = text_with(&[]);
    assert_eq!(parse(&good).unwrap().len(), 0);
    let mut short = good.clone();
    short.pop();
    assert_eq!(parse(&short).err(), Some(LevelError::Lines(37)));
    let mut long = good.clone();
    long.push(b"\n".to_vec());
    assert_eq!(parse(&long).err(), Some(LevelError::Lines(39)));
    let mut narrow = good.clone();
    narrow[5 + 12].truncate(60);
    assert_eq!(parse(&narrow).err(), Some(LevelError::Row(12)));
    let unknown = text_with(&[(3, 1, "z."), (4, 0, "y.")]);
    assert_eq!(parse(&unknown).err(), Some(LevelError::Cell(3, 1)));
    // Row 2 and column 3 are not both even or both odd.
    let misplaced = text_with(&[(2, 3, "x.")]);
    assert_eq!(parse(&misplaced).err(), Some(LevelError::Cell(2, 3)));
}
