use aoc23::schematic::{part1, part2};

const SAMPLE: &str = "467..114..
...*......
..35..633.
......#...
617*......
.....+.58.
..592.....
......755.
...$.*....
.664.598..
";

#[test]
fn day3_part1_test() {
    assert_eq!(part1(SAMPLE).unwrap(), 4361);
}

#[test]
fn day3_part2_test() {
    assert_eq!(part2(SAMPLE).unwrap(), 467835);
}

#[test]
fn day3_edges() {
    assert_eq!(part1("12#\n..."), Some(12));
    assert_eq!(part1("12.\n..."), Some(0));
    assert_eq!(part2("2*3"), Some(6));
    assert_eq!(part2("2*3\n.4."), Some(0));
}
