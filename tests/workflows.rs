use aoc23::workflows::{parse_part, part1, part2};

const SAMPLE: &str = "px{a<2006:qkq,m>2090:A,rfg}
pv{a>1716:R,A}
lnx{m>1548:A,A}
rfg{s<537:gd,x>2440:R,A}
qs{s>3448:A,lnx}
qkq{x<1416:A,crn}
crn{x>2662:A,R}
in{s<1351:px,qqz}
qqz{s>2770:qs,m<1801:hdj,R}
gd{a>3333:R,R}
hdj{m>838:A,pv}

{x=787,m=2655,a=1222,s=2876}
{x=1679,m=44,a=2067,s=496}
{x=2036,m=264,a=79,s=2244}
{x=2461,m=1339,a=466,s=291}
{x=2127,m=1623,a=2188,s=1013}
";

#[test]
fn day19_part1_test() {
    assert_eq!(part1(SAMPLE).unwrap(), 19114);
}

#[test]
fn day19_part2_test() {
    assert_eq!(part2(SAMPLE).unwrap(), 167409079868000);
}

#[test]
fn day19_parts_and_errors() {
    assert_eq!(parse_part(&b"{x=787,m=2655,a=1222,s=2876}".to_vec()), Some(vec![787, 2655, 1222, 2876]));
    assert_eq!(parse_part(&b"{s=1,x=2}".to_vec()), Some(vec![2, 0, 0, 1]));
    assert!(parse_part(&b"{q=1}".to_vec()).is_none());
    assert_eq!(part1("in{x<5:A,R}\n\n{x=1,m=2,a=3,s=4}\n{x=9,m=2,a=3,s=4}\n"), Some(10));
    assert_eq!(part2("in{x<5:A,R}\n\n{x=1,m=2,a=3,s=4}\n"), Some(4 * 4000 * 4000 * 4000));
    assert_eq!(part1("in{x<5:zz,R}\n\n{x=1,m=2,a=3,s=4}\n"), None);
    assert_eq!(part1("in{x<5:in,R}\n\n{x=1,m=2,a=3,s=4}\n"), None);
}
