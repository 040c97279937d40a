use aoc23::almanac::{parse_almanac, part1, part2, translate};

const SAMPLE: &str = "seeds: 79 14 55 13

seed-to-soil map:
50 98 2
52 50 48

soil-to-fertilizer map:
0 15 37
37 52 2
39 0 15

fertilizer-to-water map:
49 53 8
0 11 42
42 0 7
57 7 4

water-to-light map:
88 18 7
18 25 70

light-to-temperature map:
45 77 23
81 45 19
68 64 13

temperature-to-humidity map:
0 69 1
1 0 69

humidity-to-location map:
60 56 37
56 93 4
";

#[test]
fn day5_part1_test() {
    assert_eq!(part1(SAMPLE).unwrap(), 35);
}

#[test]
fn day5_part2_test() {
    assert_eq!(part2(SAMPLE).unwrap(), 46);
}

#[test]
fn day5_single_map() {
    let (seeds, maps) = parse_almanac(SAMPLE).unwrap();
    assert_eq!(seeds, vec![79, 14, 55, 13]);
    assert_eq!(maps.len(), 7);
    assert_eq!(translate(&maps[0], 79, false), 81);
    assert_eq!(translate(&maps[0], 14, false), 14);
    assert_eq!(translate(&maps[0], 81, true), 79);
    assert!(parse_almanac("seed: 1 2\n\nx map:\n1 2 3\n").is_none());
    assert!(parse_almanac("seeds: 1 2\n\nx map:\n1 2\n").is_none());
}
