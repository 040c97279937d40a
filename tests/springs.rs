use aoc23::springs::{count_arrangements, parse_row, part1, part2, unfold};

const SAMPLE: &str = "???.### 1,1,3
.??..??...?##. 1,1,3
?#?#?#?#?#?#?#? 1,3,1,6
????.#...#... 4,1,1
????.######..#####. 1,6,5
?###???????? 3,2,1
";

#[test]
fn day12_part1_test() {
    assert_eq!(part1(SAMPLE).unwrap(), 21);
}

#[test]
fn day12_part2_test() {
    assert_eq!(part2(SAMPLE).unwrap(), 525152);
}

#[test]
fn day12_rows() {
    let (s, g) = parse_row("?###???????? 3,2,1".as_bytes()).unwrap();
    assert_eq!(count_arrangements(&s, &g), Some(10));
    let (us, ug) = unfold(&s, &g, 2);
    assert_eq!(us.len(), 2 * s.len() + 1);
    assert_eq!(ug, vec![3, 2, 1, 3, 2, 1]);
    assert!(parse_row("?x? 1".as_bytes()).is_none());
    assert!(parse_row("??? 0".as_bytes()).is_none());
}
