use aoc23::calibration::{part1, part2};

#[test]
fn day1_part1_test() {
    let input = "1abc2\npqr3stu8vwx\na1b2c3d4e5f\ntreb7uchet\n";
    assert_eq!(part1(input).unwrap(), 142);
}

#[test]
fn day1_part2_test() {
    let input = "two1nine\neightwothree\nabcone2threexyz\nxtwone3four\n4nineeightseven2\nzoneight234\n7pqrstsixteen\n";
    assert_eq!(part2(input).unwrap(), 281);
}

#[test]
fn day1_line_without_digit_is_rejected() {
    assert_eq!(part1("abc\n"), None);
    assert_eq!(part2("oneight"), Some(18));
}
