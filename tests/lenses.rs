use aoc23::lenses::{hash, parse_step, part1, part2};

const SAMPLE: &str = "rn=1,cm-,qp=3,cm=2,qp-,pc=4,ot=9,ab=5,pc-,pc=6,ot=7\n";

#[test]
fn day15_part1_test() {
    assert_eq!(part1(SAMPLE).unwrap(), 1320);
}

#[test]
fn day15_part2_test() {
    assert_eq!(part2(SAMPLE).unwrap(), 145);
}

#[test]
fn day15_hashes() {
    assert_eq!(hash("HASH".as_bytes()), 52);
    assert_eq!(hash("rn=1".as_bytes()), 30);
    assert_eq!(hash("cm-".as_bytes()), 253);
    assert_eq!(hash("ot=7".as_bytes()), 231);
    assert_eq!(hash("".as_bytes()), 0);
}

#[test]
fn day15_steps() {
    let s = parse_step("rn=1".as_bytes()).unwrap();
    assert_eq!((s.label, s.focal), (b"rn".to_vec(), Some(1)));
    let s = parse_step("cm-".as_bytes()).unwrap();
    assert_eq!((s.label, s.focal), (b"cm".to_vec(), None));
    assert!(parse_step("cm".as_bytes()).is_none());
    assert!(parse_step("=3".as_bytes()).is_none());
}
