use aoc23::bricks::{parse_bricks, part1, part2, settle};

const SAMPLE: &str = "1,0,1~1,2,1
0,0,2~2,0,2
0,2,3~2,2,3
0,0,4~0,2,4
2,0,5~2,2,5
0,1,6~2,1,6
1,1,8~1,1,9
";

#[test]
fn day22_part1_test() {
    assert_eq!(part1(SAMPLE).unwrap(), 5);
}

#[test]
fn day22_part2_test() {
    assert_eq!(part2(SAMPLE).unwrap(), 7);
}

#[test]
fn day22_settling() {
    let mut bs = parse_bricks(SAMPLE).unwrap();
    assert!(settle(&mut bs, 100));
    assert_eq!((bs[6].z1, bs[6].z2), (5, 6));
    assert_eq!((bs[1].z1, bs[1].z2), (2, 2));
    assert!(parse_bricks("1,0,1~1,2").is_none());
    assert!(parse_bricks("1,0,0~1,2,0").is_none());
}
