use aoc23::oasis::{extrapolate, part1, part2};

const SAMPLE: &str = "0 3 6 9 12 15\n1 3 6 10 15 21\n10 13 16 21 30 45\n";

#[test]
fn day9_part1_test() {
    assert_eq!(part1(SAMPLE).unwrap(), 114);
}

#[test]
fn day9_part2_test() {
    assert_eq!(part2(SAMPLE).unwrap(), 2);
}

#[test]
fn day9_single_lines() {
    assert_eq!(extrapolate(&vec![10, 13, 16, 21, 30, 45], true), Some(68));
    assert_eq!(extrapolate(&vec![10, 13, 16, 21, 30, 45], false), Some(5));
    assert_eq!(extrapolate(&vec![], true), Some(0));
    assert_eq!(part1("1 x 3"), None);
}
