use aoc23::lagoon::{parse_dig, part1, part2};

const SAMPLE: &str = "R 6 (#70c710)
D 5 (#0dc571)
L 2 (#5713f0)
D 2 (#d2c081)
R 2 (#59c680)
D 2 (#411b91)
L 5 (#8ceee2)
U 2 (#caa173)
L 1 (#1b58a2)
U 2 (#caa171)
R 2 (#7807d2)
U 3 (#a77fa3)
L 2 (#015232)
U 2 (#7a21e3)
";

#[test]
fn day18_part1_test() {
    assert_eq!(part1(SAMPLE).unwrap(), 62);
}

#[test]
fn day18_part2_test() {
    assert_eq!(part2(SAMPLE).unwrap(), 952408144115);
}

#[test]
fn day18_plan_lines() {
    assert_eq!(parse_dig("R 6 (#70c710)".as_bytes(), false), Some((1, 6)));
    assert_eq!(parse_dig("R 6 (#70c710)".as_bytes(), true), Some((1, 461937)));
    assert_eq!(parse_dig("U 2 (#7a21e3)".as_bytes(), true), Some((0, 500254)));
    assert_eq!(parse_dig("X 2 (#7a21e3)".as_bytes(), false), None);
    assert_eq!(parse_dig("U 2 (#7a21e4)".as_bytes(), false), None);
    assert_eq!(part1("U 1 (#000013)\nR 1 (#000010)\nD 1 (#000011)\nL 1 (#000012)"), Some(4));
}
