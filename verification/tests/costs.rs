use maze_turns::maze::{g, h, neighbours, Direction};

#[test]
fn g_first_move_is_free() {
    assert_eq!(g(None, Direction::Right, 0), 0);
    assert_eq!(g(None, Direction::Up, 7), 7);
}

#[test]
fn g_counts_a_turn_only_on_direction_change() {
    assert_eq!(g(Some(Direction::Right), Direction::Right, 5), 5);
    assert_eq!(g(Some(Direction::Right), Direction::Up, 5), 6);
    assert_eq!(g(Some(Direction::Down), Direction::Left, 0), 1);
}

#[test]
fn h_at_goal_is_zero() {
    assert_eq!(h(Direction::Up, (8, 6), (8, 6)), 0);
    assert_eq!(h(Direction::Left, (8, 6), (8, 6)), 0);
}

#[test]
fn h_moving_right() {
    assert_eq!(h(Direction::Right, (3, 6), (8, 6)), 0);
    assert_eq!(h(Direction::Right, (3, 2), (8, 6)), 1);
}

#[test]
fn h_moving_up() {
    assert_eq!(h(Direction::Up, (8, 7), (8, 6)), 0);
    assert_eq!(h(Direction::Up, (8, 2), (8, 6)), 3);
    assert_eq!(h(Direction::Up, (3, 7), (8, 6)), 1);
    assert_eq!(h(Direction::Up, (3, 2), (8, 6)), 3);
    assert_eq!(h(Direction::Up, (3, 6), (8, 6)), 2);
}

#[test]
fn h_moving_down() {
    assert_eq!(h(Direction::Down, (8, 2), (8, 6)), 0);
    assert_eq!(h(Direction::Down, (8, 7), (8, 6)), 3);
    assert_eq!(h(Direction::Down, (3, 2), (8, 6)), 1);
    assert_eq!(h(Direction::Down, (3, 7), (8, 6)), 3);
    assert_eq!(h(Direction::Down, (3, 6), (8, 6)), 2);
}

#[test]
fn h_moving_left() {
    assert_eq!(h(Direction::Left, (3, 6), (8, 6)), 3);
    assert_eq!(h(Direction::Left, (3, 2), (8, 6)), 2);
}

#[test]
fn neighbours_lists_passable_cells_in_fixed_order() {
    // 3 x 3, all passable: from the centre, every neighbour in the order
    // Down, Up, Right, Left
    let maze = vec![vec![true; 3]; 3];
    assert_eq!(
        neighbours((1, 1), &maze),
        vec![
            ((1, 2), Direction::Down),
            ((1, 0), Direction::Up),
            ((2, 1), Direction::Right),
            ((0, 1), Direction::Left),
        ]
    );
}

#[test]
fn neighbours_respects_walls_and_borders() {
    let maze = vec![
        vec![false, false, false],
        vec![true, true, false],
        vec![false, true, false],
    ];
    // from (1, 1): down (1, 2) passable, up (1, 0) wall, right (2, 1) wall,
    // left (0, 1) passable
    assert_eq!(
        neighbours((1, 1), &maze),
        vec![((1, 2), Direction::Down), ((0, 1), Direction::Left)]
    );
    // from the corner (0, 0): down (0, 1) passable, right (1, 0) wall
    assert_eq!(neighbours((0, 0), &maze), vec![((0, 1), Direction::Down)]);
}
