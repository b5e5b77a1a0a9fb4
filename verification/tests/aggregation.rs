use station_stats::aggregation::Aggregation;

fn of(values: &[i32]) -> Aggregation {
    let mut a = Aggregation::new();
    for &v in values {
        assert!(a.can_update(v));
        a.update(v);
    }
    a
}

#[test]
fn new_holds_sentinels() {
    let a = Aggregation::new();
    assert_eq!(a, Aggregation { min: i32::MAX, max: i32::MIN, sum: 0, count: 0 });
}

#[test]
fn update_folds_one_value() {
    let mut a = Aggregation::new();
    a.update(123);
    assert_eq!(a, Aggregation { min: 123, max: 123, sum: 123, count: 1 });
    a.update(-10);
    assert_eq!(a, Aggregation { min: -10, max: 123, sum: 113, count: 2 });
    a.update(5);
    assert_eq!(a, Aggregation { min: -10, max: 123, sum: 118, count: 3 });
}

#[test]
fn merge_combines_field_by_field() {
    let mut a = of(&[10, 20]);
    let b = of(&[-5, 40, 7]);
    a.merge(&b);
    assert_eq!(a, Aggregation { min: -5, max: 40, sum: 72, count: 5 });
}

#[test]
fn merge_is_commutative_and_associative() {
    let a = of(&[123, -10]);
    let b = of(&[55]);
    let c = of(&[-999, 999, 0]);

    let mut ab_c = a;
    ab_c.merge(&b);
    ab_c.merge(&c);

    let mut bc = b;
    bc.merge(&c);
    let mut a_bc = a;
    a_bc.merge(&bc);

    let mut ba_c = b;
    ba_c.merge(&a);
    ba_c.merge(&c);

    assert_eq!(ab_c, a_bc);
    assert_eq!(ab_c, ba_c);
    assert_eq!(ab_c, Aggregation { min: -999, max: 999, sum: 168, count: 6 });
}

#[test]
fn merge_equals_updates_in_one_accumulator() {
    let mut left = of(&[1, 2, 3]);
    let right = of(&[4, 5]);
    left.merge(&right);
    assert_eq!(left, of(&[1, 2, 3, 4, 5]));
}

#[test]
fn mean_rounds_half_up() {
    let a = Aggregation { min: 0, max: 15, sum: 15, count: 2 };
    assert_eq!(a.mean(), 8);
}

#[test]
fn mean_without_remainder() {
    let a = Aggregation { min: 0, max: 14, sum: 14, count: 2 };
    assert_eq!(a.mean(), 7);
}

#[test]
fn mean_of_negative_sum_goes_towards_zero() {
    let a = Aggregation { min: -15, max: 0, sum: -15, count: 2 };
    assert_eq!(a.mean(), -7);
    let b = Aggregation { min: -19, max: 0, sum: -19, count: 2 };
    assert_eq!(b.mean(), -9);
    let c = Aggregation { min: -1, max: 0, sum: -1, count: 2 };
    assert_eq!(c.mean(), 0);
}

#[test]
fn mean_rounds_on_the_hundredths() {
    // 1.0 / 3 = 0.33.. -> 0.3, 2.0 / 3 = 0.66.. -> 0.7, 0.1 / 2 = 0.05 -> 0.1
    assert_eq!(Aggregation { min: 0, max: 10, sum: 10, count: 3 }.mean(), 3);
    assert_eq!(Aggregation { min: 0, max: 20, sum: 20, count: 3 }.mean(), 7);
    assert_eq!(Aggregation { min: 0, max: 1, sum: 1, count: 2 }.mean(), 1);
    assert_eq!(Aggregation { min: 0, max: 1, sum: 1, count: 3 }.mean(), 0);
}

#[test]
fn mean_of_example_pair() {
    // 12.3 and -1.0: (123 - 10) / 2 = 56.5 -> 57
    assert_eq!(of(&[123, -10]).mean(), 57);
}

#[test]
fn mean_of_single_value_is_the_value() {
    for v in [-999, -1, 0, 1, 57, 999] {
        let a = of(&[v]);
        assert_eq!(a.mean(), v);
        assert_eq!(a.min, v);
        assert_eq!(a.max, v);
    }
}

#[test]
fn mean_lies_between_min_and_max() {
    let a = of(&[-999, -998, -998]);
    assert!(a.min <= a.mean() && a.mean() <= a.max);
    let b = of(&[998, 999, 999, 999]);
    assert!(b.min <= b.mean() && b.mean() <= b.max);
}

#[test]
fn mean_does_not_overflow_on_large_sums() {
    let a = Aggregation { min: 999, max: 999, sum: i32::MAX, count: 2_149_633 };
    assert_eq!(a.mean(), 999);
    let b = Aggregation { min: -999, max: -999, sum: i32::MIN, count: 2_149_633 };
    assert_eq!(b.mean(), -999);
}

#[test]
fn can_update_tells_when_the_sum_has_room() {
    let a = Aggregation { min: 0, max: 999, sum: i32::MAX - 5, count: 10 };
    assert!(a.can_update(5));
    assert!(!a.can_update(6));
    assert!(a.can_update(-999));
    let b = Aggregation { min: -999, max: 0, sum: i32::MIN + 5, count: 10 };
    assert!(b.can_update(-5));
    assert!(!b.can_update(-6));
}

#[test]
fn can_update_tells_when_the_count_has_room() {
    let a = Aggregation { min: 0, max: 0, sum: 0, count: u32::MAX };
    assert!(!a.can_update(0));
    let b = Aggregation { min: 0, max: 0, sum: 0, count: u32::MAX - 1 };
    assert!(b.can_update(0));
}

#[test]
fn can_merge_tells_when_both_have_room() {
    let a = Aggregation { min: 0, max: 999, sum: i32::MAX - 5, count: 10 };
    assert!(a.can_merge(&Aggregation { min: 5, max: 5, sum: 5, count: 1 }));
    assert!(!a.can_merge(&Aggregation { min: 6, max: 6, sum: 6, count: 1 }));
    let b = Aggregation { min: 0, max: 0, sum: 0, count: u32::MAX - 1 };
    assert!(b.can_merge(&Aggregation { min: 0, max: 0, sum: 0, count: 1 }));
    assert!(!b.can_merge(&Aggregation { min: 0, max: 0, sum: 0, count: 2 }));
}
