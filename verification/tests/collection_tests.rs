use hexcells_solver::coord_map::CoordMap;
use hexcells_solver::coord_set::CoordSet;
use hexcells_solver::misc::Coords;

fn at(q: isize, r: isize) -> Coords {
    Coords::new(q, r, -q - r)
}

fn set_of(cells: &[Coords]) -> CoordSet {
    let mut set = CoordSet::new();
    for c in cells {
        set.insert(*c);
    }
    set
}

#[test]
fn coord_set_keeps_its_members_in_order_and_once() {
    let mut set = CoordSet::new();
    assert!(set.is_empty());
    assert!(set.insert(at(2, 1)));
    assert!(set.insert(at(-1, 4)));
    assert!(set.insert(at(2, -3)));
    assert!(!set.insert(at(2, 1)));
    assert_eq!(set.len(), 3);
    assert_eq!(set.to_vec(), vec![at(-1, 4), at(2, -3), at(2, 1)]);
    assert_eq!(set.nth(1), at(2, -3));
    assert!(set.contains(&at(2, 1)));
    assert!(!set.contains(&at(0, 0)));
    assert_eq!(set.find(&at(0, 0)), (1, false));
    assert_eq!(set.find(&at(2, 1)), (2, true));
    assert!(set.remove(&at(2, -3)));
    assert!(!set.remove(&at(2, -3)));
    assert_eq!(set.to_vec(), vec![at(-1, 4), at(2, 1)]);
}

#[test]
fn coord_set_operations() {
    let a = set_of(&[at(0, 0), at(1, 0), at(2, 0)]);
    let b = set_of(&[at(2, 0), at(3, 0)]);
    let c = set_of(&[at(5, 5)]);
    assert_eq!(a.union(&b).to_vec(), vec![at(0, 0), at(1, 0), at(2, 0), at(3, 0)]);
    assert_eq!(a.intersection(&b).to_vec(), vec![at(2, 0)]);
    assert!(!a.is_disjoint(&b));
    assert!(a.is_disjoint(&c));
    assert!(a.same(&a.copy()));
    assert!(!a.same(&b));
    assert_eq!(CoordSet::singleton(at(4, 4)).to_vec(), vec![at(4, 4)]);
}

#[test]
fn coord_map_keeps_its_entries_by_key() {
    let mut map: CoordMap<u8> = CoordMap::new();
    assert!(map.is_empty());
    map.insert(at(3, 0), 30);
    map.insert(at(1, 0), 10);
    map.insert(at(2, 0), 20);
    map.insert(at(1, 0), 11);
    assert_eq!(map.len(), 3);
    assert_eq!(map.key_at(0), at(1, 0));
    assert_eq!(*map.value_at(0), 11);
    assert_eq!(map.get(&at(2, 0)), Some(&20));
    assert_eq!(map.get(&at(9, 0)), None);
    assert!(map.contains_key(&at(3, 0)));
    assert_eq!(map.key_set().to_vec(), vec![at(1, 0), at(2, 0), at(3, 0)]);
    map.set_at(1, 21);
    assert_eq!(map.get(&at(2, 0)), Some(&21));
    assert_eq!(map.remove(&at(1, 0)), Some(11));
    assert_eq!(map.remove(&at(1, 0)), None);
    assert_eq!(map.pop_last(), Some((at(3, 0), 30)));
    assert_eq!(map.pop_last(), Some((at(2, 0), 21)));
    assert_eq!(map.pop_last(), None);
}
