use hexcells_solver::constraint::is_consistent;
use hexcells_solver::coord_map::CoordMap;
use hexcells_solver::coord_set::CoordSet;
use hexcells_solver::defn::{color_of_cell, Cell, Color, Defn, Modifier, Orientation};
use hexcells_solver::env::{Env, Timeout};
use hexcells_solver::misc::Coords;
use hexcells_solver::progress::Progress;
use hexcells_solver::registry::Constraints;
use hexcells_solver::solver::{
    difficulty_of_findings_vec, solve, Difficulty, Findings, Outcome,
};
use hexcells_solver::tsp_solver::TspIndividual;
use hexcells_solver::worlds::State;

const BLUE: Color = Color::Blue;
const BLACK: Color = Color::Black;

fn at(q: isize, r: isize) -> Coords {
    Coords::new(q, r, -q - r)
}

fn covered(color: Color) -> Cell {
    Cell::Zone0 { revealed: false, color }
}

fn line_at(o: Orientation) -> Cell {
    Cell::Line { o, m: Modifier::Plain }
}

fn puzzle(blue_total: usize, cells: &[(Coords, Cell)]) -> Defn {
    let mut defn = Defn::new(blue_total);
    for (coords, cell) in cells {
        assert!(defn.insert(*coords, *cell));
    }
    assert!(is_consistent(&defn));
    defn
}

fn set_of(cells: &[Coords]) -> CoordSet {
    let mut set = CoordSet::new();
    for c in cells {
        set.insert(*c);
    }
    set
}

fn history_of(outcome: Outcome) -> Vec<(Difficulty, Vec<Coords>)> {
    match outcome {
        Outcome::Solved(history) => history
            .iter()
            .map(|findings| (findings.difficulty(), findings.cells().to_vec()))
            .collect(),
        other => panic!("not solved: {:?}", other),
    }
}

/// A revealed cell with three blue and three black neighbours, and four
/// lines that each tell the colour of two of them.
fn six_zone() -> Defn {
    puzzle(
        3,
        &[
            (at(0, 0), Cell::Zone6 { revealed: true, m: Modifier::Consecutive }),
            (at(0, -1), covered(BLUE)),
            (at(1, -1), covered(BLUE)),
            (at(1, 0), covered(BLUE)),
            (at(0, 1), covered(BLACK)),
            (at(-1, 1), covered(BLACK)),
            (at(-1, 0), covered(BLACK)),
            (at(1, -2), line_at(Orientation::Down)),
            (at(-1, -1), line_at(Orientation::Down)),
            (at(-2, -1), line_at(Orientation::DownRight)),
            (at(-2, 1), line_at(Orientation::DownRight)),
        ],
    )
}

/// Two revealed neighbours: one says a + b = 1, the other a + b + c = 1.
/// The cell c, once known, says that a is blue.
fn escalating() -> Defn {
    puzzle(
        1,
        &[
            (at(0, 0), Cell::Zone6 { revealed: true, m: Modifier::Plain }),
            (at(1, 0), Cell::Zone6 { revealed: true, m: Modifier::Plain }),
            (at(1, -1), covered(BLUE)),
            (at(0, 1), covered(BLACK)),
            (at(2, -1), Cell::Zone6 { revealed: false, m: Modifier::Plain }),
        ],
    )
}

/// Two lines, a + b = 1 and b + c = 1, and two blue cells in all.
fn global_only() -> Defn {
    puzzle(
        2,
        &[
            (at(0, 0), line_at(Orientation::Down)),
            (at(0, 1), covered(BLUE)),
            (at(0, 2), covered(BLACK)),
            (at(-1, 2), line_at(Orientation::DownRight)),
            (at(1, 2), covered(BLUE)),
        ],
    )
}

/// One line over two cells of which one is blue: nothing tells which.
fn undecided() -> Defn {
    puzzle(
        1,
        &[
            (at(0, 0), line_at(Orientation::Down)),
            (at(0, 1), covered(BLUE)),
            (at(0, 2), covered(BLACK)),
        ],
    )
}

#[test]
fn trivial_six_zone_is_solved_in_one_round() {
    let defn = six_zone();
    let mut env = Env::new(3600);
    let history = history_of(solve(&mut env, &defn, false));
    assert_eq!(history.len(), 1);
    assert_eq!(history[0].0, Difficulty::Local(1));
    assert_eq!(
        history[0].1,
        vec![at(-1, 0), at(-1, 1), at(0, -1), at(0, 1), at(1, -1), at(1, 0)]
    );
}

#[test]
fn trivial_puzzle_is_solved_even_with_no_time() {
    // No search is started, so the deadline is never consulted.
    let defn = six_zone();
    let mut env = Env::new(0);
    let history = history_of(solve(&mut env, &defn, true));
    assert_eq!(history.len(), 1);
}

#[test]
fn compound_step_merges_two_clues() {
    let defn = escalating();
    let mut progress = Progress::of_defn(&defn);
    let mut constraints = Constraints::of_defn(&defn);
    let cells = progress.visible_cells();
    assert_eq!(cells.to_vec(), vec![at(0, 0), at(1, 0)]);
    constraints.reveal_cells(&cells);
    constraints.narrow(&cells, &progress);
    constraints.gc();
    assert_eq!(constraints.visible_count(), 3);
    assert!(constraints.trivial_invariants(&defn).is_empty());
    let mut env = Env::new(3600);
    let (invariants, difficulty) = constraints.compound_invariants(&mut env, &defn).unwrap();
    assert_eq!(difficulty, Difficulty::Local(2));
    assert_eq!(invariants.len(), 1);
    assert_eq!(invariants.get(&at(2, -1)), Some(&BLACK));
    progress.update(invariants);
    assert_eq!(progress.unknown_count(), 2);
    assert!(progress.black_cells().contains(&at(2, -1)));
}

#[test]
fn escalating_puzzle_alternates_between_tiers() {
    let defn = escalating();
    let mut env = Env::new(3600);
    let outcome = solve(&mut env, &defn, false);
    assert_eq!(
        outcome.summary(),
        "Solved steps:3 max-local-difficulty:Some(2) max-global-difficulty:None"
    );
    let history = history_of(outcome);
    assert_eq!(
        history,
        vec![
            (Difficulty::Local(2), vec![at(2, -1)]),
            (Difficulty::Local(1), vec![at(1, -1)]),
            (Difficulty::Local(1), vec![at(0, 1)]),
        ]
    );
}

#[test]
fn global_only_puzzle_needs_the_blue_count() {
    let defn = global_only();
    let mut env = Env::new(3600);
    let outcome = solve(&mut env, &defn, false);
    assert_eq!(
        outcome.summary(),
        "Solved steps:1 max-local-difficulty:None max-global-difficulty:Some(3)"
    );
    let history = history_of(outcome);
    assert_eq!(
        history,
        vec![(Difficulty::Global(3), vec![at(0, 1), at(0, 2), at(1, 2)])]
    );
}

#[test]
fn global_only_puzzle_tier_by_tier() {
    let defn = global_only();
    let progress = Progress::of_defn(&defn);
    let mut constraints = Constraints::of_defn(&defn);
    let cells = progress.visible_cells();
    constraints.reveal_cells(&cells);
    constraints.narrow(&cells, &progress);
    constraints.gc();
    assert!(constraints.trivial_invariants(&defn).is_empty());
    let mut env = Env::new(3600);
    let (invariants, difficulty) = constraints.compound_invariants(&mut env, &defn).unwrap();
    assert!(invariants.is_empty());
    assert_eq!(difficulty, Difficulty::Local(3));
    let invariants = constraints.global_invariants(&mut env, &defn).unwrap();
    assert_eq!(invariants.len(), 3);
    assert_eq!(invariants.get(&at(0, 1)), Some(&BLUE));
    assert_eq!(invariants.get(&at(0, 2)), Some(&BLACK));
    assert_eq!(invariants.get(&at(1, 2)), Some(&BLUE));
}

#[test]
fn undecided_puzzle_is_unsolvable() {
    let defn = undecided();
    let mut env = Env::new(3600);
    let outcome = solve(&mut env, &defn, false);
    assert!(matches!(outcome, Outcome::Unsolvable));
    assert_eq!(outcome.summary(), "Requires additional rules");
}

#[test]
fn tiny_deadline_times_out() {
    let mut env = Env::new(0);
    let outcome = solve(&mut env, &undecided(), false);
    assert!(matches!(outcome, Outcome::Timeout));
    assert_eq!(outcome.summary(), "Timeout");
    let outcome = solve(&mut env, &escalating(), false);
    assert!(matches!(outcome, Outcome::Timeout));
}

#[test]
fn puzzle_without_unknown_cells_is_solved_at_once() {
    let defn = puzzle(
        1,
        &[
            (at(0, 0), Cell::Zone0 { revealed: true, color: BLUE }),
            (at(1, 0), Cell::Zone6 { revealed: true, m: Modifier::Plain }),
            (at(5, 5), line_at(Orientation::Down)),
        ],
    );
    let mut env = Env::new(0);
    let history = history_of(solve(&mut env, &defn, false));
    assert!(history.is_empty());
    let empty = puzzle(0, &[]);
    assert!(history_of(solve(&mut env, &empty, false)).is_empty());
}

#[test]
fn every_unknown_cell_is_found_exactly_once() {
    for defn in [six_zone(), escalating(), global_only()] {
        let initial = Progress::of_defn(&defn);
        let unknowns = initial.unknown_cells().to_vec();
        let mut env = Env::new(3600);
        let history = history_of(solve(&mut env, &defn, false));
        assert!(history.len() <= unknowns.len());
        let mut found: Vec<Coords> = Vec::new();
        for (_, cells) in &history {
            assert!(!cells.is_empty());
            for c in cells {
                assert!(!found.contains(c));
                found.push(*c);
            }
        }
        found.sort();
        assert_eq!(found, unknowns);
    }
}

#[test]
fn progress_starts_from_what_is_shown() {
    let defn = puzzle(
        2,
        &[
            (at(0, 0), Cell::Zone0 { revealed: true, color: BLUE }),
            (at(1, 0), Cell::Zone6 { revealed: true, m: Modifier::Plain }),
            (at(2, 0), Cell::Zone18 { revealed: false }),
            (at(3, 0), covered(BLACK)),
            (at(4, 0), line_at(Orientation::Down)),
            (at(5, 0), Cell::Empty),
        ],
    );
    let mut progress = Progress::of_defn(&defn);
    assert_eq!(progress.blue_cells().to_vec(), vec![at(0, 0)]);
    assert_eq!(progress.black_cells().to_vec(), vec![at(1, 0)]);
    assert_eq!(progress.unknown_cells().to_vec(), vec![at(2, 0), at(3, 0)]);
    assert!(!progress.is_solved());
    let mut findings: CoordMap<Color> = CoordMap::new();
    findings.insert(at(3, 0), BLACK);
    progress.update(findings);
    assert_eq!(progress.unknown_count(), 1);
    assert_eq!(progress.black_cells().to_vec(), vec![at(1, 0), at(3, 0)]);
    let mut findings: CoordMap<Color> = CoordMap::new();
    findings.insert(at(2, 0), BLUE);
    progress.update(findings);
    assert!(progress.is_solved());
    assert_eq!(progress.blue_cells().to_vec(), vec![at(0, 0), at(2, 0)]);
    assert_eq!(
        progress.visible_cells().to_vec(),
        vec![at(0, 0), at(1, 0), at(2, 0), at(3, 0)]
    );
}

#[test]
fn constraints_go_from_hidden_to_visible_to_exhausted() {
    let defn = escalating();
    let mut progress = Progress::of_defn(&defn);
    let mut constraints = Constraints::of_defn(&defn);
    // Only the blue count is visible before the first reveal.
    assert_eq!(constraints.visible_count(), 1);
    assert!(!constraints.is_solved());
    let cells = progress.visible_cells();
    constraints.reveal_cells(&cells);
    assert_eq!(constraints.visible_count(), 3);
    constraints.reveal_cells(&cells);
    assert_eq!(constraints.visible_count(), 3);
    constraints.narrow(&cells, &progress);
    constraints.gc();
    assert_eq!(constraints.visible_count(), 3);
    let visible = constraints.visible_constraints();
    assert_eq!(visible.key_at(0), at(0, 0));
    assert_eq!(visible.value_at(0).scope().to_vec(), vec![at(0, 1), at(1, -1)]);
    assert_eq!(visible.value_at(0).state(), State::Running);
    assert_eq!(visible.key_at(2), Defn::reserved());
    // Once every cell is known, every constraint is exhausted.
    let mut findings: CoordMap<Color> = CoordMap::new();
    findings.insert(at(1, -1), BLUE);
    findings.insert(at(0, 1), BLACK);
    findings.insert(at(2, -1), BLACK);
    progress.update(findings);
    let cells = progress.visible_cells();
    constraints.reveal_cells(&cells);
    constraints.narrow(&cells, &progress);
    constraints.gc();
    assert!(constraints.is_solved());
    assert_eq!(constraints.visible_count(), 0);
}

#[test]
fn difficulty_maxima_by_kind() {
    let none: Vec<Findings> = vec![];
    assert_eq!(difficulty_of_findings_vec(&none), (None, None));
    let history = vec![
        Findings::new(Difficulty::Local(1), set_of(&[at(0, 0)])),
        Findings::new(Difficulty::Global(4), set_of(&[at(1, 0)])),
        Findings::new(Difficulty::Local(3), set_of(&[at(2, 0)])),
        Findings::new(Difficulty::Local(2), set_of(&[at(3, 0)])),
        Findings::new(Difficulty::Global(2), set_of(&[at(4, 0)])),
    ];
    assert_eq!(difficulty_of_findings_vec(&history), (Some(3), Some(4)));
    assert_eq!(history[1].difficulty(), Difficulty::Global(4));
    assert_eq!(history[1].cells().to_vec(), vec![at(1, 0)]);
    assert_eq!(
        Outcome::Solved(history).summary(),
        "Solved steps:5 max-local-difficulty:Some(3) max-global-difficulty:Some(4)"
    );
    assert_eq!(
        Outcome::Solved(none).summary(),
        "Solved steps:0 max-local-difficulty:None max-global-difficulty:None"
    );
}

#[test]
fn deadline_is_reached_at_its_second() {
    assert_eq!(Env::verdict(10, 9), Ok(()));
    assert_eq!(Env::verdict(10, 10), Err(Timeout));
    assert_eq!(Env::verdict(10, 11), Err(Timeout));
    assert_eq!(Env::verdict(0, 0), Err(Timeout));
    let mut env = Env::new(3600);
    assert_eq!(env.check_timeout(), Ok(()));
    env.reset_timer();
    assert_eq!(env.check_timeout(), Ok(()));
    assert_eq!(Env::new(0).check_timeout(), Err(Timeout));
}

#[test]
fn candidate_order_starts_without_fitness() {
    let order = vec![at(1, 0), at(0, 0)];
    let individual = TspIndividual::new(order.clone());
    assert_eq!(individual.order, order);
    assert_eq!(individual.fitness, None);
}

#[test]
fn deductions_agree_with_the_solution() {
    for defn in [six_zone(), escalating(), global_only()] {
        let mut progress = Progress::of_defn(&defn);
        let mut constraints = Constraints::of_defn(&defn);
        let mut env = Env::new(3600);
        let mut rounds = 0;
        loop {
            let cells = progress.visible_cells();
            constraints.reveal_cells(&cells);
            constraints.narrow(&cells, &progress);
            constraints.gc();
            if progress.is_solved() {
                assert!(constraints.is_solved());
                break;
            }
            assert!(!constraints.is_solved());
            let mut invariants = constraints.trivial_invariants(&defn);
            if invariants.is_empty() {
                invariants = constraints.compound_invariants(&mut env, &defn).unwrap().0;
            }
            if invariants.is_empty() {
                invariants = constraints.global_invariants(&mut env, &defn).unwrap();
            }
            assert!(!invariants.is_empty());
            let before = progress.unknown_count();
            for i in 0..invariants.len() {
                let coords = invariants.key_at(i);
                let color = *invariants.value_at(i);
                assert_eq!(Some(color), color_of_cell(&defn.get(&coords)));
                assert!(progress.unknown_cells().contains(&coords));
            }
            progress.update(invariants);
            assert!(progress.unknown_count() < before);
            rounds += 1;
        }
        assert!(rounds >= 1);
        assert_eq!(
            constraints.exhausted_keys().len(),
            constraints.exhausted_keys().to_vec().len()
        );
        assert!(constraints.exhausted_keys().contains(&Defn::reserved()));
        assert!(constraints.hidden_constraints().is_empty());
    }
}

#[test]
fn timer_counts_from_its_last_start() {
    let mut env = Env::new(30);
    if let Some(past) = std::time::Instant::now().checked_sub(std::time::Duration::from_secs(60)) {
        env.restart_at(past);
        assert_eq!(env.check_timeout(), Err(Timeout));
    }
    env.restart_at(std::time::Instant::now());
    assert_eq!(env.check_timeout(), Ok(()));
    env.reset_timer();
    assert_eq!(env.check_timeout(), Ok(()));
}
