use aoc23::platform::{north_load, parse_platform, part1, part2, spin_cycle, tilt_north};

const SAMPLE: &str = "O....#....
O.OO#....#
.....##...
OO.#O....O
.O.....O#.
O.#..O.#.#
..O..#O..O
.......O..
#....###..
#OO..#....
";

#[test]
fn day14_part1_test() {
    assert_eq!(part1(SAMPLE).unwrap(), 136);
}

#[test]
fn day14_part2_test() {
    assert_eq!(part2(SAMPLE).unwrap(), 64);
}

#[test]
fn day14_one_spin() {
    let g = parse_platform(SAMPLE).unwrap();
    let once = spin_cycle(&g);
    let expected = parse_platform(".....#....
....#...O#
...OO##...
.OO#......
.....OOO#.
.O#...O#.#
....O#....
......OOOO
#...O###..
#..OO#....
")
    .unwrap();
    assert_eq!(once, expected);
    assert_eq!(north_load(&tilt_north(&g)), 136);
    assert!(parse_platform("O.x\n...").is_none());
    assert!(parse_platform("O..\n..").is_none());
}
