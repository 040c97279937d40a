use aoc23::crucible::{parse_city, part1};

const SAMPLE: &str = "2413432311323
3215453535623
3255245654254
3446585845452
4546657867536
1438598798454
4457876987766
3637877979653
4654967986887
4564679986453
1224686865563
2546548887735
4322674655533
";

#[test]
fn day17_part1_test() {
    assert_eq!(part1(SAMPLE).unwrap(), 102);
}

#[test]
fn day17_small_maps() {
    assert_eq!(part1("19\n11"), Some(2));
    assert_eq!(part1("11111"), None);
    assert_eq!(part1("1111"), Some(3));
    assert!(parse_city("12\n3x").is_none());
}
