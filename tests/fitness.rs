use ga::Fitness;

#[test]
fn fitness_compares_as_fractions() {
    let half = Fitness { score: 1, scale: 2 };
    let two_quarters = Fitness { score: 2, scale: 4 };
    let third = Fitness { score: 1, scale: 3 };
    assert!(half.is_at_most(&two_quarters));
    assert!(two_quarters.is_at_most(&half));
    assert!(third.is_at_most(&half));
    assert!(!half.is_at_most(&third));
}

#[test]
fn fitness_zero_scale_reads_as_one() {
    let two = Fitness { score: 2, scale: 0 };
    let one = Fitness { score: 1, scale: 1 };
    assert!(one.is_at_most(&two));
    assert!(!two.is_at_most(&one));
}

#[test]
fn fitness_extremes_compare_without_overflow() {
    let big = Fitness { score: u64::MAX, scale: 1 };
    let small = Fitness { score: 1, scale: u64::MAX };
    assert!(small.is_at_most(&big));
    assert!(!big.is_at_most(&small));
}

#[test]
fn fitness_near_full() {
    assert!(Fitness { score: 44, scale: 44 }.is_near_full());
    assert!(!Fitness { score: 43, scale: 44 }.is_near_full());
    assert!(Fitness { score: 10000, scale: 10001 }.is_near_full());
    assert!(!Fitness { score: 1001, scale: 1000 }.is_near_full());
    assert!(Fitness { score: 10001, scale: 10000 }.is_near_full());
}
