use hexcells_solver::misc::{n_choose_k, Coords};

#[test]
pub fn test_n_choose_k() {
    assert_eq!(n_choose_k(0, 0).unwrap(), 1);
    assert_eq!(n_choose_k(1, 0).unwrap(), 1);
    assert_eq!(n_choose_k(2, 0).unwrap(), 1);
    assert_eq!(n_choose_k(1, 1).unwrap(), 1);
    assert_eq!(n_choose_k(2, 1).unwrap(), 2);
    assert_eq!(n_choose_k(3, 1).unwrap(), 3);
    assert_eq!(n_choose_k(7, 1).unwrap(), 7);
    assert_eq!(n_choose_k(7, 2).unwrap(), 21);
    assert_eq!(n_choose_k(7, 3).unwrap(), 35);
    assert_eq!(n_choose_k(7, 4).unwrap(), 35);
    assert_eq!(n_choose_k(7, 5).unwrap(), 21);
    assert_eq!(n_choose_k(7, 6).unwrap(), 7);
    assert_eq!(n_choose_k(7, 7).unwrap(), 1);
}

#[test]
fn n_choose_k_follows_pascals_rule() {
    for n in 1u64..=30 {
        for k in 1u64..n {
            let above = n_choose_k(n - 1, k - 1).unwrap() + n_choose_k(n - 1, k).unwrap();
            assert_eq!(n_choose_k(n, k), Some(above));
        }
    }
}

#[test]
fn n_choose_k_exact_values() {
    assert_eq!(n_choose_k(30, 15), Some(155117520));
    assert_eq!(n_choose_k(18, 9), Some(48620));
    assert_eq!(n_choose_k(6, 3), Some(20));
    assert_eq!(n_choose_k(61, 30), Some(232714176627630544));
}

#[test]
fn n_choose_k_reports_overflow() {
    assert_eq!(n_choose_k(100, 50), None);
    assert_eq!(n_choose_k(u64::MAX, 2), None);
    assert_eq!(n_choose_k(u64::MAX, 1), Some(u64::MAX));
    assert_eq!(n_choose_k(u64::MAX, u64::MAX - 1), Some(u64::MAX));
}

#[test]
fn coords_components_sum_to_zero() {
    let c = Coords::new(3, -5, 2);
    assert_eq!(c.q(), 3);
    assert_eq!(c.r(), -5);
    assert_eq!(c.s(), 2);
    assert_eq!(c.q() + c.r() + c.s(), 0);
}

#[test]
fn coords_neighbors6_go_clockwise_from_the_top() {
    let c = Coords::new(2, 3, -5);
    let ring = c.neighbors6();
    let expected = [
        Coords::new(2, 2, -4),
        Coords::new(3, 2, -5),
        Coords::new(3, 3, -6),
        Coords::new(2, 4, -6),
        Coords::new(1, 4, -5),
        Coords::new(1, 3, -4),
    ];
    assert_eq!(ring, expected);
}

#[test]
fn coords_neighbors18_are_the_two_rings() {
    let c = Coords::new(-4, 7, -3);
    let rings = c.neighbors18();
    assert_eq!(rings.len(), 18);
    for (i, n) in rings.iter().enumerate() {
        let dq = (n.q() - c.q()).abs();
        let dr = (n.r() - c.r()).abs();
        let ds = (n.s() - c.s()).abs();
        let distance = dq.max(dr).max(ds);
        assert!(distance == 1 || distance == 2);
        for m in rings.iter().skip(i + 1) {
            assert_ne!(n, m);
        }
    }
    assert_eq!(&rings[..6], &c.neighbors6()[..]);
}

#[test]
fn coords_add_and_subtract_by_component() {
    let a = Coords::new(1, 2, -3);
    let b = Coords::new(-4, 6, -2);
    assert_eq!(a + b, Coords::new(-3, 8, -5));
    assert_eq!(a - b, Coords::new(5, -4, -1));
    assert_eq!((a + b) - b, a);
}

#[test]
fn coords_are_ordered_by_q_then_r() {
    let a = Coords::new(1, 5, -6);
    let b = Coords::new(2, -7, 5);
    let c = Coords::new(2, 0, -2);
    assert!(a < b);
    assert!(b < c);
    assert!(a.precedes(&b));
    assert!(b.precedes(&c));
    assert!(!c.precedes(&b));
    assert!(!a.precedes(&a));
}
