use aoc23::garden::part1;

const SAMPLE: &str = "...........
.....###.#.
.###.##..#.
..#.#...#..
....#.#....
.##..S####.
.##..#...#.
.......##..
.##.#.####.
.##..##.##.
...........
";

#[test]
fn day21_part1_test() {
    assert_eq!(part1(SAMPLE, 6).unwrap(), 16);
}

#[test]
fn day21_small_counts() {
    assert_eq!(part1(SAMPLE, 0), Some(1));
    assert_eq!(part1(SAMPLE, 1), Some(2));
    assert_eq!(part1(SAMPLE, 2), Some(4));
    assert_eq!(part1("...\n...", 1), None);
}
