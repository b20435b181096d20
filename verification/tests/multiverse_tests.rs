use hexcells_solver::coord_set::CoordSet;
use hexcells_solver::defn::Color;
use hexcells_solver::misc::Coords;
use hexcells_solver::multiverse::Multiverse;
use hexcells_solver::worlds::State;

const BLUE: Color = Color::Blue;
const BLACK: Color = Color::Black;

fn at(q: isize, r: isize) -> Coords {
    Coords::new(q, r, -q - r)
}

fn one_of_two(a: Coords, b: Coords) -> Multiverse {
    Multiverse::from_worlds(&vec![a, b], &vec![vec![BLUE, BLACK], vec![BLACK, BLUE]]).unwrap()
}

fn sample() -> Multiverse {
    // Three cells, two of them blue.
    Multiverse::from_worlds(
        &vec![at(0, 0), at(1, 0), at(2, 0)],
        &vec![
            vec![BLUE, BLUE, BLACK],
            vec![BLUE, BLACK, BLUE],
            vec![BLACK, BLUE, BLUE],
        ],
    )
    .unwrap()
}

fn members(set: &CoordSet) -> Vec<Coords> {
    set.to_vec()
}

#[test]
fn from_worlds_orders_the_scope_and_drops_repeats() {
    let mv = Multiverse::from_worlds(
        &vec![at(5, 0), at(1, 0)],
        &vec![vec![BLUE, BLACK], vec![BLUE, BLACK], vec![BLACK, BLACK]],
    )
    .unwrap();
    assert_eq!(members(mv.scope()), vec![at(1, 0), at(5, 0)]);
    assert_eq!(mv.world_count(), 2);
    let inv = mv.invariants();
    assert_eq!(inv.get(&at(1, 0)), Some(&BLACK));
    assert_eq!(inv.get(&at(5, 0)), None);
}

#[test]
fn from_worlds_refuses_bad_input() {
    assert!(Multiverse::from_worlds(&vec![at(0, 0), at(0, 0)], &vec![]).is_none());
    assert!(Multiverse::from_worlds(&vec![at(0, 0), at(1, 0)], &vec![vec![BLUE]]).is_none());
    assert!(Multiverse::from_worlds(&vec![at(0, 0)], &vec![]).is_some());
}

#[test]
fn state_is_empty_stuck_or_running() {
    assert_eq!(Multiverse::empty().state(), State::Empty);
    assert_eq!(Multiverse::empty().world_count(), 1);
    let stuck = Multiverse::from_worlds(&vec![at(0, 0)], &vec![]).unwrap();
    assert_eq!(stuck.state(), State::Stuck);
    assert_eq!(sample().state(), State::Running);
    // An empty scope is Empty even when no world is left.
    let contradicted = stuck.learn(&at(0, 0), BLUE);
    assert_eq!(contradicted.world_count(), 0);
    assert_eq!(contradicted.state(), State::Empty);
}

#[test]
fn learn_takes_the_cell_out_of_the_scope() {
    let mv = sample();
    let after = mv.learn(&at(1, 0), BLUE);
    assert_eq!(members(after.scope()), vec![at(0, 0), at(2, 0)]);
    assert_eq!(after.world_count(), 2);
    let expected = one_of_two(at(0, 0), at(2, 0));
    assert!(after.same(&expected));
}

#[test]
fn learn_of_a_cell_outside_the_scope_changes_nothing() {
    let mv = sample();
    let after = mv.learn(&at(9, 9), BLACK);
    assert!(after.same(&mv));
}

#[test]
fn learn_without_agreeing_world_gets_stuck() {
    let mv = Multiverse::from_worlds(
        &vec![at(0, 0), at(1, 0)],
        &vec![vec![BLUE, BLACK], vec![BLUE, BLUE]],
    )
    .unwrap();
    let after = mv.learn(&at(0, 0), BLACK);
    assert_eq!(after.world_count(), 0);
    assert_eq!(after.state(), State::Stuck);
    assert!(after.invariants().is_empty());
}

#[test]
fn learn_is_idempotent() {
    let mv = sample();
    for col in [BLUE, BLACK] {
        let once = mv.learn(&at(0, 0), col);
        let twice = once.learn(&at(0, 0), col);
        assert!(once.same(&twice));
    }
}

#[test]
fn learn_commutes_on_different_cells() {
    let mv = sample();
    for x in [BLUE, BLACK] {
        for y in [BLUE, BLACK] {
            let ab = mv.learn(&at(0, 0), x).learn(&at(2, 0), y);
            let ba = mv.learn(&at(2, 0), y).learn(&at(0, 0), x);
            assert!(ab.same(&ba));
        }
    }
}

#[test]
fn merge_joins_worlds_that_agree() {
    // a + b = 1 and a + b + c = 2 leave c blue.
    let left = one_of_two(at(0, 0), at(1, 0));
    let merged = left.merge(&sample());
    assert_eq!(members(merged.scope()), vec![at(0, 0), at(1, 0), at(2, 0)]);
    assert_eq!(merged.world_count(), 2);
    let expected = Multiverse::from_worlds(
        &vec![at(0, 0), at(1, 0), at(2, 0)],
        &vec![vec![BLUE, BLACK, BLUE], vec![BLACK, BLUE, BLUE]],
    )
    .unwrap();
    assert!(merged.same(&expected));
    let inv = merged.invariants();
    assert_eq!(inv.len(), 1);
    assert_eq!(inv.get(&at(2, 0)), Some(&BLUE));
}

#[test]
fn merge_is_commutative_and_associative() {
    let m = one_of_two(at(0, 0), at(1, 0));
    let n = sample();
    let o = one_of_two(at(2, 0), at(3, 0));
    assert!(m.merge(&n).same(&n.merge(&m)));
    assert!(m.merge(&n).merge(&o).same(&m.merge(&n.merge(&o))));
    assert!(Multiverse::empty().merge(&n).same(&n));
    assert!(n.merge(&Multiverse::empty()).same(&n));
}

#[test]
fn merge_of_disjoint_scopes_is_the_product() {
    let m = sample();
    let n = one_of_two(at(7, 0), at(8, 0));
    let merged = m.merge(&n);
    assert_eq!(merged.world_count(), 6);
    assert_eq!(merged.world_count(), m.world_count() * n.world_count());
    assert_eq!(merged.scope().len(), 5);
    assert!(merged.invariants().is_empty());
}

#[test]
fn merge_never_has_more_worlds_than_pairs() {
    let m = sample();
    let n = one_of_two(at(1, 0), at(2, 0));
    let merged = m.merge(&n);
    assert!(merged.world_count() <= m.world_count() * n.world_count());
    assert_eq!(merged.world_count(), 2);
    assert_eq!(merged.invariants().get(&at(0, 0)), Some(&BLUE));
}

#[test]
fn merge_of_contradicting_multiverses_is_stuck() {
    let blue = Multiverse::from_worlds(&vec![at(0, 0)], &vec![vec![BLUE]]).unwrap();
    let black = Multiverse::from_worlds(&vec![at(0, 0)], &vec![vec![BLACK]]).unwrap();
    let merged = blue.merge(&black);
    assert_eq!(merged.state(), State::Stuck);
}

#[test]
fn invariants_hold_in_every_world_and_none_is_missed() {
    let mv = Multiverse::from_worlds(
        &vec![at(0, 0), at(1, 0), at(2, 0)],
        &vec![
            vec![BLUE, BLACK, BLACK],
            vec![BLUE, BLUE, BLACK],
        ],
    )
    .unwrap();
    let inv = mv.invariants();
    assert_eq!(inv.len(), 2);
    assert_eq!(inv.get(&at(0, 0)), Some(&BLUE));
    assert_eq!(inv.get(&at(1, 0)), None);
    assert_eq!(inv.get(&at(2, 0)), Some(&BLACK));
    // Learning an invariant loses no world; learning its opposite loses all.
    assert_eq!(mv.learn(&at(0, 0), BLUE).world_count(), 2);
    assert_eq!(mv.learn(&at(0, 0), BLACK).world_count(), 0);
}

#[test]
fn copy_is_the_same_multiverse() {
    let mv = sample();
    assert!(mv.copy().same(&mv));
    assert!(!mv.same(&one_of_two(at(0, 0), at(1, 0))));
}
