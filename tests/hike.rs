use aoc23::hike::{part1, part2};

const SAMPLE: &str = "#.#####################
#.......#########...###
#######.#########.#.###
###.....#.>.>.###.#.###
###v#####.#v#.###.#.###
###.>...#.#.#.....#...#
###v###.#.#.#########.#
###...#.#.#.......#...#
#####.#.#.#######.#.###
#.....#.#.#.......#...#
#.#####.#.#.#########v#
#.#...#...#...###...>.#
#.#.#v#######v###.###v#
#...#.>.#...>.>.#.###.#
#####v#.#.###v#.#.###.#
#.....#...#...#.#.#...#
#.#########.###.#.#.###
#...###...#...#...#.###
###.###.#.###v#####v###
#...#...#.#.>.>.#.>.###
#.###.###.#.###.#.#v###
#.....###...###...#...#
#####################.#
";

#[test]
fn day23_part1_test() {
    assert_eq!(part1(SAMPLE).unwrap(), 94);
}

#[test]
fn day23_part2_test() {
    assert_eq!(part2(SAMPLE).unwrap(), 154);
}

#[test]
fn day23_small_maps() {
    assert_eq!(part1("#.#\n#.#\n#.#"), Some(2));
    assert_eq!(part1("#.#\n#v#\n#.#"), Some(2));
    assert_eq!(part1("#.#\n#^#\n#.#"), None);
    assert_eq!(part2("#.#\n#^#\n#.#"), Some(2));
    assert_eq!(part1("###\n#.#"), None);
}
