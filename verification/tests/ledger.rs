use kiesraad::{frac, Fraction, Seats, Votes};

#[test]
fn filled_entry_holds_its_seats_and_is_full() {
    let pool = Seats::filled(7);
    assert_eq!(pool.count(), 7);
    assert_eq!(pool.limit(), Some(7));
    assert!(!pool.has_candidates());
}

#[test]
fn limited_entry_starts_empty() {
    let entry = Seats::limited(3);
    assert_eq!(entry.count(), 0);
    assert_eq!(entry.limit(), Some(3));
    assert!(entry.has_candidates());
    assert!(!Seats::limited(0).has_candidates());
}

#[test]
fn unlimited_entry_always_has_capacity() {
    let mut entry = Seats::unlimited();
    let mut pool = Seats::filled(1000);
    assert_eq!(entry.limit(), None);
    for _ in 0..1000 {
        assert!(entry.has_candidates());
        entry.transfer(&mut pool);
    }
    assert_eq!(entry.count(), 1000);
    assert_eq!(pool.count(), 0);
    assert!(entry.has_candidates());
}

#[test]
fn transfer_moves_exactly_one_seat() {
    let mut pool = Seats::filled(2);
    let mut entry = Seats::limited(2);
    entry.transfer(&mut pool);
    assert_eq!((entry.count(), pool.count()), (1, 1));
    assert!(entry.has_candidates());
    entry.transfer(&mut pool);
    assert_eq!((entry.count(), pool.count()), (2, 0));
    assert!(!entry.has_candidates());
    assert_eq!(entry.limit(), Some(2));
    assert_eq!(pool.limit(), Some(2));
}

#[test]
fn transfer_back_into_the_pool() {
    let mut pool = Seats::filled(1);
    let mut entry = Seats::unlimited();
    entry.transfer(&mut pool);
    assert!(pool.has_candidates());
    pool.transfer(&mut entry);
    assert_eq!((entry.count(), pool.count()), (0, 1));
}

#[test]
fn entries_are_ordered_by_seats_held_alone() {
    let mut pool = Seats::filled(3);
    let mut small = Seats::limited(100);
    let mut large = Seats::limited(2);
    small.transfer(&mut pool);
    large.transfer(&mut pool);
    assert!(!small.exceeds(&large));
    assert!(!large.exceeds(&small));
    large.transfer(&mut pool);
    assert!(large.exceeds(&small));
    assert!(!small.exceeds(&large));
}

#[test]
fn votes_compare_by_their_count() {
    assert_eq!(Votes(12), Votes(12));
    assert_ne!(Votes(12), Votes(13));
    assert_eq!(Votes(5).0, 5);
}

#[test]
fn equal_fractions_have_the_same_value() {
    assert!(frac(10, 2).is_same_value(&frac(5, 1)));
    assert!(frac(10, 2).is_at_least(&frac(5, 1)));
    assert!(frac(5, 1).is_at_least(&frac(10, 2)));
    assert!(frac(0, 7).is_same_value(&frac(0, 1)));
}

#[test]
fn fractions_are_ordered_by_cross_multiplication() {
    assert!(frac(1, 2).is_at_least(&frac(1, 3)));
    assert!(!frac(1, 3).is_at_least(&frac(1, 2)));
    assert!(!frac(1, 3).is_same_value(&frac(1, 2)));
    assert!(frac(51, 2).is_at_least(&frac(25, 1)));
    assert!(!frac(49, 2).is_at_least(&frac(25, 1)));
}

#[test]
fn close_fractions_are_told_apart() {
    let a = frac(10_000_000_000_000_000_001, 10_000_000_000_000_000_000);
    let b = frac(10_000_000_000_000_000_000, 9_999_999_999_999_999_999);
    assert!(b.is_at_least(&a));
    assert!(!a.is_at_least(&b));
    assert!(!a.is_same_value(&b));
}

#[test]
fn wide_fractions_compare_without_overflow() {
    let big = Fraction::whole(u128::MAX);
    let next = Fraction::whole(u128::MAX - 1);
    assert!(big.is_at_least(&next));
    assert!(!next.is_at_least(&big));
    let third = Fraction { num: u128::MAX, den: 3 };
    let fifth = Fraction { num: u128::MAX, den: 5 };
    assert!(third.is_at_least(&fifth));
    assert!(!fifth.is_at_least(&third));
    let just_above = Fraction { num: (1u128 << 100) + 1, den: u64::MAX };
    let just_below = Fraction { num: 1u128 << 100, den: u64::MAX };
    assert!(just_above.is_at_least(&just_below));
    assert!(!just_below.is_at_least(&just_above));
    assert!(!just_below.is_same_value(&just_above));
    assert!(Fraction { num: 3 << 100, den: 6 }.is_same_value(&Fraction { num: 1 << 100, den: 2 }));
}

#[test]
fn whole_fraction_has_denominator_one() {
    let f = Fraction::whole(42);
    assert_eq!((f.num, f.den), (42, 1));
    assert!(f.is_same_value(&frac(84, 2)));
}
