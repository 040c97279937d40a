use aoc23::mirrors::{parse_patterns, part1, part2, score};

const SAMPLE: &str = "#.##..##.
..#.##.#.
##......#
##......#
..#.##.#.
..##..##.
#.#.##.#.

#...##..#
#....#..#
..##..###
#####.##.
#####.##.
..##..###
#....#..#
";

#[test]
fn day13_part1_test() {
    assert_eq!(part1(SAMPLE).unwrap(), 405);
}

#[test]
fn day13_part2_test() {
    assert_eq!(part2(SAMPLE).unwrap(), 400);
}

#[test]
fn day13_pattern_scores() {
    let ps = parse_patterns(SAMPLE);
    assert_eq!(ps.len(), 2);
    assert_eq!(score(&ps[0], 0), 5);
    assert_eq!(score(&ps[1], 0), 400);
    assert_eq!(score(&ps[0], 1), 300);
    assert_eq!(score(&ps[1], 1), 100);
    assert_eq!(part1("#.\n#"), None);
}
