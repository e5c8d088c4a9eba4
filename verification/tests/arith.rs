//! Position and Shift arithmetic.

use layout_cache::{delta, shift, Position, Shift};

#[test]
fn shift_adds_and_subtracts() {
    assert_eq!(shift(5, 3, true), 8);
    assert_eq!(shift(5, 3, false), 2);
    assert_eq!(shift(5, 0, true), 5);
    assert_eq!(shift(0, 0, false), 0);
}

#[test]
fn delta_inverts_shift() {
    assert_eq!(delta(3, 8), (5, true));
    assert_eq!(delta(8, 3), (5, false));
    assert_eq!(delta(4, 4), (0, true));
    let (amount, plus) = delta(3, 8);
    assert_eq!(shift(3, amount, plus), 8);
}

#[test]
fn shift_right_decomposes_with_wrap_carry() {
    let s = Shift::right(0, 10);
    assert!(s.is_empty());
    let s = Shift::right(7, 10);
    assert_eq!((s.width, s.right, s.height, s.down), (7, true, 0, true));
    let s = Shift::right(23, 10);
    assert_eq!((s.width, s.right, s.height, s.down), (3, true, 2, true));
    let s = Shift::right(20, 10);
    assert_eq!((s.width, s.height), (0, 2));
    assert!(!s.is_empty());
}

#[test]
fn shift_delta_moves_positions() {
    let from = Position { col: 4, row: 2 };
    let to = Position { col: 1, row: 5 };
    let s = Shift::delta(from, to);
    assert_eq!((s.width, s.right, s.height, s.down), (3, false, 3, true));
    assert_eq!(from.shift(&s), to);
    let mut p = from;
    p.shift_mut(&s);
    assert_eq!(p, to);
    assert!(Shift::delta(to, to).is_empty());
}
