use aoc23::pipes::{part1, part2};

#[test]
fn day10_farthest_point() {
    let square = ".....\n.S-7.\n.|.|.\n.L-J.\n.....\n";
    assert_eq!(part1(square), Some(4));
    let winding = "..F7.\n.FJ|.\nSJ.L7\n|F--J\nLJ...\n";
    assert_eq!(part1(winding), Some(8));
}

#[test]
fn day10_enclosed_tiles() {
    let square = ".....\n.S-7.\n.|.|.\n.L-J.\n.....\n";
    assert_eq!(part2(square), Some(1));
    let field = "...........
.S-------7.
.|F-----7|.
.||.....||.
.||.....||.
.|L-7.F-J|.
.|..|.|..|.
.L--J.L--J.
...........
";
    assert_eq!(part2(field), Some(4));
    assert_eq!(part1("...\n.S.\n..."), None);
    assert_eq!(part1("...\n...\n..."), None);
}
