use onebrc::stat::{Stat, MAX_COUNT};

#[test]
fn a_single_reading_is_its_own_minimum_maximum_and_sum() {
    assert_eq!(Stat::single(-15), Stat { min: -15, max: -15, sum: -15, count: 1 });
}

#[test]
fn record_updates_all_four_fields() {
    let stat = Stat::single(120).record(-15);
    assert_eq!(stat, Stat { min: -15, max: 120, sum: 105, count: 2 });
    let stat = stat.record(999).record(0);
    assert_eq!(stat, Stat { min: -15, max: 999, sum: 1104, count: 4 });
}

#[test]
fn combine_joins_two_series() {
    let a = Stat { min: -20, max: 30, sum: 40, count: 5 };
    let b = Stat { min: -10, max: 70, sum: 90, count: 2 };
    let joined = Stat { min: -20, max: 70, sum: 130, count: 7 };
    assert_eq!(a.combine(b), joined);
    assert_eq!(b.combine(a), joined);
}

#[test]
fn combine_is_associative_on_an_example() {
    let a = Stat::single(10);
    let b = Stat::single(-999).record(5);
    let c = Stat::single(999);
    assert_eq!(a.combine(b).combine(c), a.combine(b.combine(c)));
}

#[test]
fn the_mean_is_rounded_to_the_nearest_tenth() {
    assert_eq!(Stat { min: 89, max: 182, sum: 271, count: 2 }.mean(), 136);
    assert_eq!(Stat { min: -15, max: 120, sum: 105, count: 2 }.mean(), 53);
    assert_eq!(Stat { min: 1, max: 2, sum: 4, count: 3 }.mean(), 1);
    assert_eq!(Stat { min: 1, max: 2, sum: 5, count: 3 }.mean(), 2);
    assert_eq!(Stat { min: 120, max: 120, sum: 120, count: 1 }.mean(), 120);
}

#[test]
fn a_mean_halfway_between_two_tenths_goes_up() {
    assert_eq!(Stat { min: 0, max: 1, sum: 1, count: 2 }.mean(), 1);
    assert_eq!(Stat { min: -1, max: 0, sum: -1, count: 2 }.mean(), 0);
    assert_eq!(Stat { min: -2, max: -1, sum: -3, count: 2 }.mean(), -1);
    assert_eq!(Stat { min: -99, max: 99, sum: -1, count: 4 }.mean(), 0);
    assert_eq!(Stat { min: -99, max: 99, sum: -3, count: 4 }.mean(), -1);
    assert_eq!(Stat { min: -999, max: -999, sum: -999, count: 1 }.mean(), -999);
}

#[test]
fn the_mean_lies_between_minimum_and_maximum() {
    let mut stat = Stat::single(-999);
    for tenths in [-998, 17, 999, 0, -1, 500, -500, 3] {
        stat = stat.record(tenths);
        let mean = stat.mean();
        assert!(stat.min <= mean && mean <= stat.max);
        assert!(stat.count >= 1);
    }
}

#[test]
fn the_largest_series_still_has_a_mean() {
    let stat = Stat { min: -999, max: -999, sum: -999 * MAX_COUNT as i64, count: MAX_COUNT };
    assert!(stat.is_valid());
    assert_eq!(stat.mean(), -999);
    let stat = Stat { min: 999, max: 999, sum: 999 * MAX_COUNT as i64, count: MAX_COUNT };
    assert!(stat.is_valid());
    assert_eq!(stat.mean(), 999);
}

#[test]
fn is_valid_tells_series_from_other_fields() {
    assert!(Stat { min: -5, max: 5, sum: 0, count: 2 }.is_valid());
    assert!(Stat { min: -5, max: 5, sum: -10, count: 2 }.is_valid());
    assert!(!Stat { min: -5, max: 5, sum: -11, count: 2 }.is_valid());
    assert!(!Stat { min: -5, max: 5, sum: 11, count: 2 }.is_valid());
    assert!(!Stat { min: 0, max: 0, sum: 0, count: 0 }.is_valid());
    assert!(!Stat { min: 5, max: -5, sum: 0, count: 1 }.is_valid());
    assert!(!Stat { min: -1000, max: 0, sum: -1000, count: 1 }.is_valid());
    assert!(!Stat { min: 0, max: 1000, sum: 1000, count: 1 }.is_valid());
    assert!(!Stat { min: 0, max: 0, sum: 0, count: MAX_COUNT + 1 }.is_valid());
}
