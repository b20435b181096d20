use hexcells_solver::constraint;
use hexcells_solver::constraint::{
    check_modifier, count_blue, count_runs, enumerate, global_blue_count, is_consistent,
    line_scope, rows_with_count, zone18, zone6,
};
use hexcells_solver::defn::{color_of_cell, Cell, Color, Defn, Modifier, Orientation};
use hexcells_solver::misc::{n_choose_k, Coords};
use hexcells_solver::multiverse::Multiverse;
use hexcells_solver::worlds::State;

const BLUE: Color = Color::Blue;
const BLACK: Color = Color::Black;

fn at(q: isize, r: isize) -> Coords {
    Coords::new(q, r, -q - r)
}

fn covered(color: Color) -> Cell {
    Cell::Zone0 { revealed: false, color }
}

fn shown(color: Color) -> Cell {
    Cell::Zone0 { revealed: true, color }
}

fn puzzle(blue_total: usize, cells: &[(Coords, Cell)]) -> Defn {
    let mut defn = Defn::new(blue_total);
    for (coords, cell) in cells {
        assert!(defn.insert(*coords, *cell));
    }
    defn
}

#[test]
fn rows_are_counted_by_colour_and_by_runs() {
    let row = vec![BLUE, BLUE, BLACK, BLUE, BLACK, BLUE];
    assert_eq!(count_blue(&row), 4);
    assert_eq!(count_runs(&row, false), 3);
    // On a ring the last entry runs on into the first.
    assert_eq!(count_runs(&row, true), 2);
    assert_eq!(count_runs(&vec![BLUE, BLUE, BLUE], true), 0);
    assert_eq!(count_runs(&vec![BLUE, BLUE, BLUE], false), 1);
    assert_eq!(count_runs(&vec![], true), 0);
    assert_eq!(count_runs(&vec![BLACK, BLACK], false), 0);
}

#[test]
fn modifiers_ask_for_one_run_or_for_several() {
    let together = vec![BLACK, BLUE, BLUE, BLACK];
    let apart = vec![BLUE, BLACK, BLUE, BLACK];
    let around = vec![BLUE, BLACK, BLACK, BLUE];
    assert!(check_modifier(Modifier::Plain, &apart, false));
    assert!(check_modifier(Modifier::Consecutive, &together, false));
    assert!(!check_modifier(Modifier::NonConsecutive, &together, false));
    assert!(!check_modifier(Modifier::Consecutive, &apart, false));
    assert!(check_modifier(Modifier::NonConsecutive, &apart, false));
    assert!(!check_modifier(Modifier::Consecutive, &around, false));
    assert!(check_modifier(Modifier::Consecutive, &around, true));
    assert!(!check_modifier(Modifier::NonConsecutive, &around, true));
}

#[test]
fn rows_with_count_lists_each_row_once() {
    for n in 0usize..=8 {
        for k in 0usize..=n + 1 {
            let rows = rows_with_count(n, k);
            let expected = if k <= n { n_choose_k(n as u64, k as u64).unwrap() } else { 0 };
            assert_eq!(rows.len() as u64, expected);
            for (i, row) in rows.iter().enumerate() {
                assert_eq!(row.len(), n);
                assert_eq!(count_blue(row), k);
                for other in rows.iter().skip(i + 1) {
                    assert_ne!(row, other);
                }
            }
        }
    }
    assert_eq!(
        rows_with_count(3, 1),
        vec![
            vec![BLUE, BLACK, BLACK],
            vec![BLACK, BLUE, BLACK],
            vec![BLACK, BLACK, BLUE],
        ]
    );
}

#[test]
fn enumerate_gives_the_worlds_of_a_clue() {
    let cells = vec![at(0, 0), at(1, 0), at(2, 0), at(3, 0)];
    let plain = enumerate(&cells, 2, Modifier::Plain, false).unwrap();
    assert_eq!(plain.world_count(), 6);
    let straight = enumerate(&cells, 2, Modifier::Consecutive, false).unwrap();
    assert_eq!(straight.world_count(), 3);
    let ring = enumerate(&cells, 2, Modifier::Consecutive, true).unwrap();
    assert_eq!(ring.world_count(), 4);
    let apart = enumerate(&cells, 2, Modifier::NonConsecutive, false).unwrap();
    assert_eq!(apart.world_count(), 3);
    let ring_apart = enumerate(&cells, 2, Modifier::NonConsecutive, true).unwrap();
    assert_eq!(ring_apart.world_count(), 2);
    let expected = Multiverse::from_worlds(
        &cells,
        &vec![vec![BLUE, BLACK, BLUE, BLACK], vec![BLACK, BLUE, BLACK, BLUE]],
    )
    .unwrap();
    assert!(ring_apart.same(&expected));
}

#[test]
fn enumerate_edge_cases() {
    let cells = vec![at(0, 0), at(1, 0)];
    assert_eq!(enumerate(&cells, 3, Modifier::Plain, false).unwrap().state(), State::Stuck);
    let none = enumerate(&cells, 0, Modifier::Plain, false).unwrap();
    assert_eq!(none.world_count(), 1);
    assert_eq!(none.invariants().get(&at(1, 0)), Some(&BLACK));
    let all = enumerate(&cells, 2, Modifier::Plain, false).unwrap();
    assert_eq!(all.invariants().get(&at(0, 0)), Some(&BLUE));
    let empty = enumerate(&vec![], 0, Modifier::Plain, false).unwrap();
    assert_eq!(empty.state(), State::Empty);
    assert!(empty.same(&Multiverse::empty()));
    assert!(enumerate(&vec![at(0, 0), at(0, 0)], 1, Modifier::Plain, false).is_none());
    // The cells are taken in the order given, the scope is kept in order.
    let turned = enumerate(&vec![at(2, 0), at(0, 0), at(1, 0)], 2, Modifier::NonConsecutive, false)
        .unwrap();
    let expected = Multiverse::from_worlds(
        &vec![at(0, 0), at(1, 0), at(2, 0)],
        &vec![vec![BLACK, BLUE, BLUE]],
    )
    .unwrap();
    assert!(turned.same(&expected));
}

#[test]
fn enumerate_counts_as_the_binomial() {
    let cells: Vec<Coords> = (0..10).map(|q| at(q, 0)).collect();
    for k in 0usize..=10 {
        let mv = enumerate(&cells, k, Modifier::Plain, false).unwrap();
        assert_eq!(mv.world_count() as u64, n_choose_k(10, k as u64).unwrap());
    }
}

#[test]
fn cells_have_colours() {
    assert_eq!(color_of_cell(&Cell::Empty), None);
    assert_eq!(
        color_of_cell(&Cell::Line { o: Orientation::Down, m: Modifier::Plain }),
        None
    );
    assert_eq!(color_of_cell(&covered(BLUE)), Some(BLUE));
    assert_eq!(color_of_cell(&shown(BLACK)), Some(BLACK));
    assert_eq!(
        color_of_cell(&Cell::Zone6 { revealed: false, m: Modifier::Plain }),
        Some(BLACK)
    );
    assert_eq!(color_of_cell(&Cell::Zone18 { revealed: true }), Some(BLUE));
    assert!(covered(BLUE).is_clueable());
    assert!(!covered(BLUE).is_revealed());
    assert!(shown(BLUE).is_revealed());
    assert!(!Cell::Empty.is_clueable());
}

#[test]
fn defn_keeps_cells_by_coordinate() {
    let mut defn = Defn::new(1);
    assert_eq!(defn.blue_total(), 1);
    assert!(defn.insert(at(1, 1), covered(BLUE)));
    assert!(defn.insert(at(0, 5), shown(BLACK)));
    assert!(!defn.insert(Defn::reserved(), covered(BLACK)));
    assert!(!defn.insert(Coords { q: i16::MAX, r: 0 }, covered(BLACK)));
    assert!(!defn.insert(Coords { q: 0, r: i16::MIN + 1 }, covered(BLACK)));
    assert_eq!(defn.len(), 2);
    assert_eq!(defn.coords_at(0), at(0, 5));
    assert_eq!(defn.cell_at(1), covered(BLUE));
    assert_eq!(defn.get(&at(1, 1)), covered(BLUE));
    assert_eq!(defn.get(&at(7, 7)), Cell::Empty);
    assert_eq!(Defn::reserved(), Coords::new(999, 0, -999));
}

#[test]
fn line_scope_follows_the_direction() {
    let defn = puzzle(
        0,
        &[
            (at(0, 0), Cell::Line { o: Orientation::Down, m: Modifier::Plain }),
            (at(0, 1), covered(BLACK)),
            (at(0, 3), covered(BLACK)),
            (at(0, -1), covered(BLACK)),
            (at(1, 0), covered(BLACK)),
            (at(3, 0), covered(BLACK)),
            (at(-1, 1), covered(BLACK)),
            (at(-2, 2), covered(BLACK)),
            (at(-3, 3), Cell::Empty),
            (at(-4, 4), covered(BLACK)),
            (at(1, -1), covered(BLACK)),
        ],
    );
    assert_eq!(line_scope(&defn, &at(0, 0), Orientation::Down), vec![at(0, 1), at(0, 3)]);
    assert_eq!(
        line_scope(&defn, &at(0, 0), Orientation::DownRight),
        vec![at(1, 0), at(3, 0)]
    );
    assert_eq!(
        line_scope(&defn, &at(0, 0), Orientation::DownLeft),
        vec![at(-1, 1), at(-2, 2), at(-4, 4)]
    );
}

#[test]
fn line_clue_counts_the_blue_cells_of_its_line() {
    let defn = puzzle(
        2,
        &[
            (at(0, 0), Cell::Line { o: Orientation::Down, m: Modifier::Consecutive }),
            (at(0, 1), covered(BLUE)),
            (at(0, 2), covered(BLUE)),
            (at(0, 3), covered(BLACK)),
            (at(0, 4), shown(BLACK)),
        ],
    );
    assert!(is_consistent(&defn));
    let mv = constraint::line(&defn, at(0, 0), Orientation::Down, Modifier::Consecutive);
    // The cell that is shown is learned at once.
    assert_eq!(mv.scope().to_vec(), vec![at(0, 1), at(0, 2), at(0, 3)]);
    let expected = Multiverse::from_worlds(
        &vec![at(0, 1), at(0, 2), at(0, 3)],
        &vec![vec![BLUE, BLUE, BLACK], vec![BLACK, BLUE, BLUE]],
    )
    .unwrap();
    assert!(mv.same(&expected));
    assert_eq!(mv.invariants().get(&at(0, 2)), Some(&BLUE));
}

#[test]
fn zone6_clue_reads_the_ring_clockwise() {
    // Blue at the top and at the top-left: next to each other on the ring.
    let defn = puzzle(
        2,
        &[
            (at(0, 0), Cell::Zone6 { revealed: true, m: Modifier::Consecutive }),
            (at(0, -1), covered(BLUE)),
            (at(1, -1), covered(BLACK)),
            (at(1, 0), covered(BLACK)),
            (at(0, 1), covered(BLACK)),
            (at(-1, 1), covered(BLACK)),
            (at(-1, 0), covered(BLUE)),
        ],
    );
    assert!(is_consistent(&defn));
    let mv = zone6(&defn, at(0, 0), Modifier::Consecutive);
    assert_eq!(mv.scope().len(), 6);
    assert_eq!(mv.world_count(), 6);
    let plain = zone6(&defn, at(0, 0), Modifier::Plain);
    assert_eq!(plain.world_count(), 15);
    let apart = zone6(&defn, at(0, 0), Modifier::NonConsecutive);
    assert_eq!(apart.world_count(), 9);
}

#[test]
fn zone18_clue_counts_both_rings() {
    let defn = puzzle(
        3,
        &[
            (at(0, 0), Cell::Zone18 { revealed: true }),
            (at(0, -1), covered(BLUE)),
            (at(2, -2), covered(BLUE)),
            (at(-2, 1), covered(BLACK)),
            (at(3, 0), covered(BLACK)),
            (at(1, 1), shown(BLACK)),
        ],
    );
    assert!(is_consistent(&defn));
    let mv = zone18(&defn, at(0, 0));
    // (3, 0) is three steps away, (1, 1) is shown.
    assert_eq!(mv.scope().to_vec(), vec![at(-2, 1), at(0, -1), at(2, -2)]);
    assert_eq!(mv.world_count(), 3);
}

#[test]
fn global_clue_counts_the_blue_cells_that_are_left() {
    let defn = puzzle(
        2,
        &[
            (at(0, 0), shown(BLUE)),
            (at(1, 0), covered(BLUE)),
            (at(2, 0), covered(BLACK)),
            (at(3, 0), covered(BLACK)),
            (at(4, 0), Cell::Zone6 { revealed: true, m: Modifier::Plain }),
        ],
    );
    assert!(is_consistent(&defn));
    let mv = global_blue_count(&defn);
    assert_eq!(mv.scope().to_vec(), vec![at(1, 0), at(2, 0), at(3, 0)]);
    assert_eq!(mv.world_count(), 3);
    let expected = enumerate(&vec![at(1, 0), at(2, 0), at(3, 0)], 1, Modifier::Plain, false).unwrap();
    assert!(mv.same(&expected));
}

#[test]
fn global_clue_with_too_few_declared_is_stuck() {
    let defn = puzzle(0, &[(at(0, 0), shown(BLUE)), (at(1, 0), covered(BLACK))]);
    assert!(!is_consistent(&defn));
    assert_eq!(global_blue_count(&defn).state(), State::Stuck);
}

#[test]
fn inconsistent_puzzles_are_found_out() {
    // The declared total is wrong.
    let wrong_total = puzzle(2, &[(at(0, 0), covered(BLUE))]);
    assert!(!is_consistent(&wrong_total));
    // The line says its blue cells are apart, but they follow each other.
    let wrong_line = puzzle(
        2,
        &[
            (at(0, 0), Cell::Line { o: Orientation::DownRight, m: Modifier::NonConsecutive }),
            (at(1, 0), covered(BLUE)),
            (at(2, 0), covered(BLUE)),
        ],
    );
    assert!(!is_consistent(&wrong_line));
    // The ring says its blue cells are together, but they are apart.
    let wrong_ring = puzzle(
        2,
        &[
            (at(0, 0), Cell::Zone6 { revealed: false, m: Modifier::Consecutive }),
            (at(0, -1), covered(BLUE)),
            (at(1, -1), covered(BLACK)),
            (at(1, 0), covered(BLUE)),
            (at(0, 1), covered(BLACK)),
        ],
    );
    assert!(!is_consistent(&wrong_ring));
    assert!(is_consistent(&Defn::new(0)));
}
