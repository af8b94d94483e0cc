use maze_turns::maze::solve;

fn to_input(s: &str) -> Vec<Vec<bool>> {
    s.split_whitespace()
        .map(|row| row.chars().map(|c| c != '0').collect())
        .collect()
}

#[test]
fn maze_test_example_from_task_description() {
    let input = "000000000
                 ....0...0
                 0.0.0.0.0
                 0.0...0.0
                 0.00000.0
                 0....00.0
                 0.00.....
                 000000000";

    assert_eq!(solve(to_input(input)), Some(4));
}

#[test]
fn no_solution() {
    let input = "000000000
                 ....0...0
                 0.0.0.0.0
                 0.0...0.0
                 0.00000.0
                 0....00.0
                 0.00...0.
                 000000000";

    assert_eq!(solve(to_input(input)), None);
}

#[test]
fn no_walls() {
    let input = "000000000
                 .00000000
                 .00000000
                 .00000000
                 .00000000
                 .00000000
                 .0000000.
                 .........";

    assert_eq!(solve(to_input(input)), Some(2));
}

#[test]
fn no_corner_on_first_step() {
    let input = "000000000
                 ........0
                 .000000.0
                 .000000.0
                 .000000.0
                 .000000.0
                 .........
                 000000000";

    assert_eq!(solve(to_input(input)), Some(1));
}

#[test]
fn no_maze() {
    let input = ".........
                 .........
                 .........
                 .........
                 .........
                 .........
                 .........
                 .........";

    assert_eq!(solve(to_input(input)), Some(1));
}

#[test]
fn big_maze() {
    let input = vec![vec![true; 1000]; 1000];
    assert_eq!(solve(input), Some(1));
}

#[test]
fn test_maze() {
    // the example maze again, rows written as 0/1 digit strings as a maze
    // file holds them
    let rows = [
        "000000000",
        "111101110",
        "010101010",
        "010111010",
        "010000010",
        "011110010",
        "010011111",
        "000000000",
    ];
    let maze: Vec<Vec<bool>> = rows
        .iter()
        .map(|row| row.chars().map(|c| c == '1').collect())
        .collect();
    assert_eq!(solve(maze).unwrap(), 4);
}

#[test]
fn straight_corridor_has_no_turns() {
    let input = "000000000
                 .........
                 000000000";

    assert_eq!(solve(to_input(input)), Some(0));
}

#[test]
fn solve_is_repeatable() {
    let input = "000000000
                 ....0...0
                 0.0.0.0.0
                 0.0...0.0
                 0.00000.0
                 0....00.0
                 0.00.....
                 000000000";

    let first = solve(to_input(input));
    let second = solve(to_input(input));
    assert_eq!(first, second);
    assert_eq!(first, Some(4));
}

#[test]
fn smallest_grid_fully_open() {
    // 2 x 2, entrance (0, 1), exit (1, 0): one step right after one step up
    let input = "..
                 ..";
    assert_eq!(solve(to_input(input)), Some(1));
}

#[test]
fn blocked_exit_is_unreachable() {
    let input = "000
                 ..0
                 000";
    assert_eq!(solve(to_input(input)), None);
}
