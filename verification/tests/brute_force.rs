use maze_turns::maze::solve;

/// Independent reference: minimum turn count by exhaustive relaxation over
/// (position, arrival direction) states.  The first move is free; every
/// later change of direction costs one turn.  The entrance's own cell need
/// not be passable, every later cell must be.
fn brute_force(maze: &[Vec<bool>]) -> Option<usize> {
    let height = maze.len();
    let width = maze[0].len();
    let start = (0usize, 1usize);
    let goal = (width - 1, height - 2);

    let step = |pos: (usize, usize), d: usize| -> Option<(usize, usize)> {
        let (x, y) = pos;
        match d {
            0 if y + 1 < height => Some((x, y + 1)),
            1 if y > 0 => Some((x, y - 1)),
            2 if x + 1 < width => Some((x + 1, y)),
            3 if x > 0 => Some((x - 1, y)),
            _ => None,
        }
    };

    // dist[y][x][d]: fewest turns over routes arriving at (x, y) moving in
    // direction d
    let mut dist = vec![vec![[usize::MAX; 4]; width]; height];
    for d in 0..4 {
        if let Some((x, y)) = step(start, d) {
            if maze[y][x] {
                dist[y][x][d] = 0;
            }
        }
    }
    if start == goal {
        return Some(0);
    }
    let mut changed = true;
    while changed {
        changed = false;
        for y in 0..height {
            for x in 0..width {
                for d in 0..4 {
                    let here = dist[y][x][d];
                    if here == usize::MAX {
                        continue;
                    }
                    for nd in 0..4 {
                        if let Some((nx, ny)) = step((x, y), nd) {
                            if maze[ny][nx] {
                                let cost = here + if nd == d { 0 } else { 1 };
                                if cost < dist[ny][nx][nd] {
                                    dist[ny][nx][nd] = cost;
                                    changed = true;
                                }
                            }
                        }
                    }
                }
            }
        }
    }
    (0..4).map(|d| dist[goal.1][goal.0][d]).min().filter(|&v| v != usize::MAX)
}

fn to_input(s: &str) -> Vec<Vec<bool>> {
    s.split_whitespace()
        .map(|row| row.chars().map(|c| c != '0').collect())
        .collect()
}

#[test]
fn agrees_with_brute_force_on_reference_mazes() {
    let mazes = [
        "000000000
         ....0...0
         0.0.0.0.0
         0.0...0.0
         0.00000.0
         0....00.0
         0.00.....
         000000000",
        "000000000
         ....0...0
         0.0.0.0.0
         0.0...0.0
         0.00000.0
         0....00.0
         0.00...0.
         000000000",
        "000000000
         .00000000
         .00000000
         .00000000
         .00000000
         .00000000
         .0000000.
         .........",
        "000000000
         ........0
         .000000.0
         .000000.0
         .000000.0
         .000000.0
         .........
         000000000",
        ".........
         .........
         .........
         .........
         .........
         .........
         .........
         .........",
    ];
    for text in mazes {
        let grid = to_input(text);
        assert_eq!(solve(grid.clone()), brute_force(&grid), "maze:\n{text}");
    }
}

#[test]
fn agrees_with_brute_force_on_all_small_grids() {
    // every wall pattern of every grid from 2 x 2 up to 4 x 3
    for (width, height) in [(2usize, 2usize), (3, 2), (2, 3), (3, 3), (4, 3), (3, 4)] {
        let cells = width * height;
        for mask in 0u32..(1u32 << cells) {
            let grid: Vec<Vec<bool>> = (0..height)
                .map(|y| (0..width).map(|x| mask & (1 << (y * width + x)) != 0).collect())
                .collect();
            assert_eq!(
                solve(grid.clone()),
                brute_force(&grid),
                "width {width} height {height} mask {mask:b}"
            );
        }
    }
}
