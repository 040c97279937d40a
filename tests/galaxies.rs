use aoc23::galaxies::{part1, part2, solve};

const SAMPLE: &str = "...#......
.......#..
#.........
..........
......#...
.#........
.........#
..........
.......#..
#...#.....
";

#[test]
fn day11_part1_sample() {
    assert_eq!(part1(SAMPLE).unwrap(), 374);
}

#[test]
fn day11_larger_growth() {
    assert_eq!(solve(SAMPLE, 10).unwrap(), 1030);
    assert_eq!(solve(SAMPLE, 100).unwrap(), 8410);
    assert_eq!(part2(SAMPLE).unwrap(), 82000210);
    assert_eq!(solve(SAMPLE, 1).unwrap(), 292);
    assert_eq!(part1("#.x"), None);
}
