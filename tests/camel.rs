use aoc23::camel::{hand_type_exec, part1, part2, weaker_exec};

const SAMPLE: &str = "32T3K 765
T55J5 684
KK677 28
KTJJT 220
QQQJA 483
";

#[test]
fn day7_part1_test() {
    assert_eq!(part1(SAMPLE).unwrap(), 6440);
}

#[test]
fn day7_part2_test() {
    assert_eq!(part2(SAMPLE).unwrap(), 5905);
}

#[test]
fn day7_hand_types() {
    assert_eq!(hand_type_exec(&b"AAAAA".to_vec(), false), 6);
    assert_eq!(hand_type_exec(&b"AA8AA".to_vec(), false), 5);
    assert_eq!(hand_type_exec(&b"23332".to_vec(), false), 4);
    assert_eq!(hand_type_exec(&b"TTT98".to_vec(), false), 3);
    assert_eq!(hand_type_exec(&b"23432".to_vec(), false), 2);
    assert_eq!(hand_type_exec(&b"A23A4".to_vec(), false), 1);
    assert_eq!(hand_type_exec(&b"23456".to_vec(), false), 0);
    assert_eq!(hand_type_exec(&b"KTJJT".to_vec(), true), 5);
    assert_eq!(hand_type_exec(&b"JJJJJ".to_vec(), true), 6);
    assert!(weaker_exec(&b"2AAAA".to_vec(), &b"33332".to_vec(), false));
    assert!(weaker_exec(&b"JKKK2".to_vec(), &b"QQQQ2".to_vec(), true));
    assert_eq!(part1("32T3 765"), None);
}
