use aoc23::arith::{lcm, lcm_all};
use aoc23::circuit::{parse_circuit, part1, part2};

const SAMPLE_1: &str = "broadcaster -> a, b, c\n%a -> b\n%b -> c\n%c -> inv\n&inv -> a\n";
const SAMPLE_2: &str = "broadcaster -> a\n%a -> inv, con\n&inv -> b\n%b -> con\n&con -> output\n";

#[test]
fn day20_part1_first_sample() {
    assert_eq!(part1(SAMPLE_1).unwrap(), 32000000);
}

#[test]
fn day20_part1_second_sample() {
    assert_eq!(part1(SAMPLE_2).unwrap(), 11687500);
}

#[test]
fn day20_totals_are_reproducible() {
    let first = part1(SAMPLE_2).unwrap();
    let second = part1(SAMPLE_2).unwrap();
    assert_eq!(first, second);
    let mut a = parse_circuit(SAMPLE_2).unwrap();
    let mut b = parse_circuit(SAMPLE_2).unwrap();
    assert_eq!(a.pulse_totals(1000), b.pulse_totals(1000));
    assert_eq!(a.pulse_totals(1000), Some((2750, 4250)));
}

#[test]
fn day20_flip_flop_pair_returns_to_rest() {
    let mut c = parse_circuit("broadcaster -> a, b\n%a -> out\n%b -> out").unwrap();
    assert!(c.is_quiescent());
    c.press().unwrap();
    assert!(!c.is_quiescent());
    c.press().unwrap();
    assert!(c.is_quiescent());
}

#[test]
fn day20_shortcut_matches_brute_force_below_period() {
    let mut shortcut = parse_circuit(SAMPLE_2).unwrap();
    let (h, l) = shortcut.pulse_totals(3).unwrap();
    let mut brute = parse_circuit(SAMPLE_2).unwrap();
    let mut highs: u128 = 0;
    let mut lows: u128 = 0;
    for _ in 0..3 {
        let log = brute.press().unwrap();
        for p in log.iter() {
            if p.high {
                highs += 1;
            } else {
                lows += 1;
            }
        }
    }
    assert_eq!((h, l), (highs, lows));
}

#[test]
fn day20_lcm_of_watch_periods() {
    assert_eq!(lcm_all(&vec![3, 4, 5]), Some(60));
    assert_eq!(lcm(4, 6), Some(12));
    assert_eq!(lcm_all(&vec![]), Some(1));
    for m in 1..60u64 {
        assert!(m % 3 != 0 || m % 4 != 0 || m % 5 != 0);
    }
}

#[test]
fn day20_part2_needs_rx() {
    assert_eq!(part2(SAMPLE_1), None);
}

#[test]
fn day20_part2_watch_periods() {
    // rx is fed by conjunction f, which hears from conjunctions p and q;
    // p inverts a (low at press 2), q inverts the second bit b (low at press 4)
    let text = "broadcaster -> a\n%a -> b, p\n%b -> q\n&p -> f\n&q -> f\n&f -> rx";
    assert_eq!(part2(text), Some(4));
}

#[test]
fn day20_rejects_malformed_lines() {
    assert!(parse_circuit("broadcaster -> a\n%a ->").is_none());
    assert!(parse_circuit("%a -> b").is_none());
    assert!(parse_circuit("broadcaster -> a\n%a -> b\n%a -> c").is_none());
    assert!(parse_circuit("broadcast -> a").is_none());
}
