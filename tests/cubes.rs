use aoc23::cubes::{parse_game, part1, part2};

const SAMPLE: &str = "Game 1: 3 blue, 4 red; 1 red, 2 green, 6 blue; 2 green
Game 2: 1 blue, 2 green; 3 green, 4 blue, 1 red; 1 green, 1 blue
Game 3: 8 green, 6 blue, 20 red; 5 blue, 4 red, 13 green; 5 green, 1 red
Game 4: 1 green, 3 red, 6 blue; 3 green, 6 red; 3 green, 15 blue, 14 red
Game 5: 6 red, 1 blue, 3 green; 2 blue, 1 red, 2 green
";

#[test]
fn test_part1() {
    assert_eq!(part1(SAMPLE).unwrap(), 8);
}

#[test]
fn test_part2() {
    assert_eq!(part2(SAMPLE).unwrap(), 2286);
}

#[test]
fn day2_game_maxima() {
    let g = parse_game("Game 3: 8 green, 6 blue, 20 red; 5 blue, 4 red, 13 green; 5 green, 1 red".as_bytes()).unwrap();
    assert_eq!((g.id, g.red, g.green, g.blue), (3, 20, 13, 6));
    assert!(parse_game("Game 3: 8 purple".as_bytes()).is_none());
    assert!(parse_game("Game x: 8 red".as_bytes()).is_none());
}
