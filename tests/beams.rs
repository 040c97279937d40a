use aoc23::beams::{light, parse_grid, part1, part2, Beam};

const SAMPLE: &str = r".|...\....
|.-.\.....
.....|-...
........|.
..........
.........\
..../.\\..
.-.-/..|..
.|....-|.\
..//.|....
";

#[test]
fn day16_part1_test() {
    assert_eq!(part1(SAMPLE).unwrap(), 46);
}

#[test]
fn day16_part2_test() {
    assert_eq!(part2(SAMPLE).unwrap(), 51);
}

#[test]
fn day16_single_beams() {
    let g = parse_grid(SAMPLE).unwrap();
    assert_eq!(light(&g, Beam { r: 0, c: 3, d: 2 }), Some(51));
    assert_eq!(light(&g, Beam { r: 10, c: 0, d: 1 }), None);
    assert_eq!(part1("..\n.."), Some(2));
    assert_eq!(part1("..\n."), None);
}
