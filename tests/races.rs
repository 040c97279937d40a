use aoc23::races::{count_ways, part1, part2};

const SAMPLE: &str = "Time:      7  15   30\nDistance:  9  40  200\n";

#[test]
fn day6_part1_test() {
    assert_eq!(part1(SAMPLE).unwrap(), 288);
}

#[test]
fn day6_part2_test() {
    assert_eq!(part2(SAMPLE).unwrap(), 71503);
}

#[test]
fn day6_single_races() {
    assert_eq!(count_ways(7, 9), 4);
    assert_eq!(count_ways(15, 40), 8);
    assert_eq!(count_ways(30, 200), 9);
    assert_eq!(count_ways(1, 0), 0);
    assert_eq!(part1("Time: 7\nDistances: 9"), None);
}
