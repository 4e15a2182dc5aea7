use timetable_search::score::{count_ones, eval};
use timetable_search::timetable::Class;

fn class(day: u8, start: u16, end: u16) -> Class {
    Class { occurrence: 1, day, start, end }
}

#[test]
fn empty_week_scores_one_hundred() {
    assert_eq!(eval(&[]), 100);
}

#[test]
fn adjacent_morning_classes_score_74() {
    let a = class(0, 9 * 60, 10 * 60);
    let b = class(0, 10 * 60, 11 * 60);
    assert_eq!(eval(&[a, b]), 74);
}

#[test]
fn overlapping_classes_pay_ten_per_block() {
    let a = class(0, 9 * 60, 10 * 60);
    let c = class(0, 9 * 60 + 30, 10 * 60 + 30);
    // 3 shared blocks (-30), 6 blocks before 10:00 (-6), 4 free days (+80).
    assert_eq!(eval(&[a, c]), 44);
    assert_eq!(eval(&[c, a]), 44);
}

#[test]
fn preferred_hours_cost_nothing() {
    let a = class(2, 10 * 60, 17 * 60);
    assert_eq!(eval(&[a]), 80);
}

#[test]
fn late_and_early_blocks_each_cost_a_point() {
    let early = class(1, 4 * 60, 5 * 60);
    let late = class(4, 22 * 60, 24 * 60);
    // 6 early blocks on Tuesday, 12 late blocks on Friday, 3 free days.
    assert_eq!(eval(&[early, late]), 60 - 6 - 12);
}

#[test]
fn same_class_twice_collides_fully() {
    let a = class(3, 12 * 60, 13 * 60);
    assert_eq!(eval(&[a, a]), 80 - 60);
    assert_eq!(eval(&[a, a, a]), 80 - 120);
}

#[test]
fn count_ones_counts_bits() {
    assert_eq!(count_ones(0), 0);
    assert_eq!(count_ones(1), 1);
    assert_eq!(count_ones(0b1011_0000), 3);
    assert_eq!(count_ones(u128::MAX), 128);
}

#[test]
fn overlap_costs_ten_per_shared_block_over_union() {
    let a = class(0, 9 * 60, 10 * 60);
    let c = class(0, 9 * 60 + 30, 10 * 60 + 30);
    let d = class(0, 9 * 60, 10 * 60 + 30);
    assert_eq!(eval(&[a, c]), eval(&[d]) - 30);
}
