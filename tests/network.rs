use aoc23::network::{parse_network, part1, part2};

#[test]
fn day8_part2_test() {
    let input = "LR

11A = (11B, XXX)
11B = (XXX, 11Z)
11Z = (11B, XXX)
22A = (22B, XXX)
22B = (22C, 22C)
22C = (22Z, 22Z)
22Z = (22B, 22B)
XXX = (XXX, XXX)
";
    assert_eq!(part2(input).unwrap(), 6);
}

#[test]
fn day8_part1_samples() {
    let first = "RL

AAA = (BBB, CCC)
BBB = (DDD, EEE)
CCC = (ZZZ, GGG)
DDD = (DDD, DDD)
EEE = (EEE, EEE)
GGG = (GGG, GGG)
ZZZ = (ZZZ, ZZZ)
";
    let second = "LLR

AAA = (BBB, BBB)
BBB = (AAA, ZZZ)
ZZZ = (ZZZ, ZZZ)
";
    assert_eq!(part1(first).unwrap(), 2);
    assert_eq!(part1(second).unwrap(), 6);
}

#[test]
fn day8_rejects_unknown_children() {
    assert!(parse_network("LR\n\nAAA = (BBB, ZZZ)\nZZZ = (ZZZ, ZZZ)\n").is_none());
    assert!(parse_network("LX\n\nAAA = (AAA, AAA)\n").is_none());
    let net = parse_network("L\n\nAAA = (ZZZ, AAA)\nZZZ = (ZZZ, ZZZ)\n").unwrap();
    assert_eq!(net.left, vec![1, 1]);
    assert_eq!(net.steps_to_goal(0, false, 10), Some(1));
}
