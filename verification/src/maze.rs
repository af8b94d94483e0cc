//! Turn-minimizing pathfinder.
//!
//! `solve` searches a rectangular boolean grid for a route from the fixed
//! entrance `(0, 1)` to the fixed exit `(width - 1, height - 2)` and returns
//! the minimum number of direction changes over all such routes, or `None`
//! when the exit is unreachable.  The search settles a least turn count per
//! (cell, arrival-direction) state, expanding fewest-turns-first with ties
//! broken by the estimated total turn count `f = g + h`.

use vstd::prelude::*;

use crate::paths::{
    adjacent, dir_step, goal_pos, grid_height, grid_wf, grid_width, maze_has_path, move_dir,
    on_grid, passable, path_ok, path_turns, reaches_goal, solve_post, start_pos,
    lemma_move_is_step, lemma_path_ok_push, lemma_turns_push,
};

verus! {

/// One of the four cardinal moves.  Rows grow downward: `Up` decreases the
/// row index, `Down` increases it.
#[derive(Clone, Copy, PartialEq, Eq, Structural, Debug)]
pub enum Direction {
    Up,
    Down,
    Left,
    Right,
}

/// Cost of stepping onto a neighbouring cell: one more turn when the move's
/// direction differs from the previous move's direction; the very first move
/// (no previous direction) is free.
pub open spec fn spec_g(
    previous_direction: Option<Direction>,
    neighbour_direction: Direction,
    corners_so_far: int,
) -> int {
    match previous_direction {
        Option::Some(p) => if p != neighbour_direction {
            corners_so_far + 1
        } else {
            corners_so_far
        },
        Option::None => corners_so_far,
    }
}

/// Accumulated turn count after moving in `neighbour_direction`, given the
/// direction of the previous move (if any) and the turns taken so far.
pub fn g(
    previous_direction: Option<Direction>,
    neighbour_direction: Direction,
    corners_so_far: usize,
) -> (r: usize)
    requires
        corners_so_far < usize::MAX,
    ensures
        r == spec_g(previous_direction, neighbour_direction, corners_so_far as int),
{
    match previous_direction {
        Option::Some(p) if p != neighbour_direction => corners_so_far + 1,
        _ => corners_so_far,
    }
}

/// Estimate of the turns still needed to reach `goal` from `p` after arriving
/// there moving in direction `d`, assuming a wall-free grid: a hand-derived
/// case analysis of the alignment of `d` with the goal's row and column.
pub open spec fn spec_h(d: Direction, p: (int, int), goal: (int, int)) -> int {
    if p == goal {
        0
    } else {
        match d {
            Direction::Right => if p.1 == goal.1 {
                0
            } else {
                1
            },
            Direction::Up => if p.0 == goal.0 {
                if p.1 > goal.1 {
                    0
                } else {
                    3
                }
            } else {
                if p.1 > goal.1 {
                    1
                } else if p.1 < goal.1 {
                    3
                } else {
                    2
                }
            },
            Direction::Down => if p.0 == goal.0 {
                if p.1 < goal.1 {
                    0
                } else {
                    3
                }
            } else {
                if p.1 < goal.1 {
                    1
                } else if p.1 > goal.1 {
                    3
                } else {
                    2
                }
            },
            Direction::Left => if p.1 == goal.1 {
                3
            } else {
                2
            },
        }
    }
}

/// Heuristic estimate of the remaining turns from `pos` to `goal` when the
/// last move went in direction `d`.
pub fn h(d: Direction, pos: (usize, usize), goal: (usize, usize)) -> (r: usize)
    ensures
        r == spec_h(d, (pos.0 as int, pos.1 as int), (goal.0 as int, goal.1 as int)),
        r <= 3,
{
    if pos.0 == goal.0 && pos.1 == goal.1 {
        0
    } else {
        match d {
            Direction::Right => if pos.1 == goal.1 {
                0
            } else {
                1
            },
            Direction::Up => if pos.0 == goal.0 {
                if pos.1 > goal.1 {
                    0
                } else {
                    3
                }
            } else {
                if pos.1 > goal.1 {
                    1
                } else if pos.1 < goal.1 {
                    3
                } else {
                    2
                }
            },
            Direction::Down => if pos.0 == goal.0 {
                if pos.1 < goal.1 {
                    0
                } else {
                    3
                }
            } else {
                if pos.1 < goal.1 {
                    1
                } else if pos.1 > goal.1 {
                    3
                } else {
                    2
                }
            },
            Direction::Left => if pos.1 == goal.1 {
                3
            } else {
                2
            },
        }
    }
}

/// Law: where the heuristic estimates at most one remaining turn, it never
/// overestimates: any chain of moves from that state to the goal makes at
/// least the estimated number of turns.  (This covers exactly the estimates
/// 0 and 1; the cases estimating 2 or 3 can overestimate.)
pub proof fn lemma_h_low_admissible(
    d: Direction,
    p: (int, int),
    goal: (int, int),
    c: Seq<(int, int)>,
)
    requires
        spec_h(d, p, goal) <= 1,
        crate::paths::chain_ok(c),
        c.len() >= 1,
        c[0] == p,
        c.last() == goal,
    ensures
        spec_h(d, p, goal) <= crate::paths::cont_turns(d, c),
{
    if spec_h(d, p, goal) == 1 && crate::paths::cont_turns(d, c) == 0 {
        let last: int = c.len() - 1;
        crate::paths::lemma_straight_keeps_line(d, c, last);
        match d {
            Direction::Right => {
                assert(p.1 != goal.1);
                assert(c[last].1 == p.1);
            },
            Direction::Left => {
                assert(spec_h(d, p, goal) != 1);
            },
            Direction::Up => {
                assert(p.0 != goal.0);
                assert(c[last].0 == p.0);
            },
            Direction::Down => {
                assert(p.0 != goal.0);
                assert(c[last].0 == p.0);
            },
        }
    }
}

/// The (zero- or one-element) piece of the neighbour list contributed by
/// direction `d`: the adjacent cell in that direction when it lies on the
/// grid and is passable.
pub open spec fn dir_entry(m: Seq<Seq<bool>>, p: (usize, usize), d: Direction) -> Seq<
    ((usize, usize), Direction),
> {
    let q = dir_step((p.0 as int, p.1 as int), d);
    if on_grid(m, q) && passable(m, q) {
        seq![(((q.0 as usize), (q.1 as usize)), d)]
    } else {
        Seq::empty()
    }
}

/// All passable neighbours of `p`, listed in the fixed order Down, Up,
/// Right, Left.
pub open spec fn neighbour_list(m: Seq<Seq<bool>>, p: (usize, usize)) -> Seq<
    ((usize, usize), Direction),
> {
    dir_entry(m, p, Direction::Down) + dir_entry(m, p, Direction::Up) + dir_entry(
        m,
        p,
        Direction::Right,
    ) + dir_entry(m, p, Direction::Left)
}

/// The passable cells adjacent to `pos`, each with the direction that leads
/// to it, in the fixed order Down, Up, Right, Left.
pub fn neighbours(pos: (usize, usize), maze: &Vec<Vec<bool>>) -> (r: Vec<
    ((usize, usize), Direction),
>)
    requires
        grid_wf(maze.deep_view()),
        on_grid(maze.deep_view(), (pos.0 as int, pos.1 as int)),
    ensures
        r@ == neighbour_list(maze.deep_view(), pos),
{
    let ghost m = maze.deep_view();
    let x = pos.0;
    let y = pos.1;
    let height = maze.len();
    let width = maze[0].len();
    proof {
        assert(forall|yy: int| 0 <= yy < m.len() ==> m[yy] == maze@[yy].deep_view());
        assert forall|yy: int| 0 <= yy < maze@.len() implies (#[trigger] maze@[yy])@.len()
            == grid_width(m) by {
            assert(m[yy].len() == maze@[yy]@.len());
            assert(m[yy].len() == m[0].len());
        }
        assert(height == grid_height(m));
        assert(width == maze@[0]@.len());
        assert(width == grid_width(m));
    }
    let mut r: Vec<((usize, usize), Direction)> = Vec::new();
    if y + 1 < height && maze[y + 1][x] {
        r.push(((x, y + 1), Direction::Down));
    }
    proof {
        assert(r@ =~= dir_entry(m, pos, Direction::Down));
    }
    if y > 0 && maze[y - 1][x] {
        r.push(((x, y - 1), Direction::Up));
    }
    proof {
        assert(r@ =~= dir_entry(m, pos, Direction::Down) + dir_entry(m, pos, Direction::Up));
    }
    if x + 1 < width && maze[y][x + 1] {
        r.push(((x + 1, y), Direction::Right));
    }
    proof {
        assert(r@ =~= dir_entry(m, pos, Direction::Down) + dir_entry(m, pos, Direction::Up)
            + dir_entry(m, pos, Direction::Right));
    }
    if x > 0 && maze[y][x - 1] {
        r.push(((x - 1, y), Direction::Left));
    }
    proof {
        assert(r@ =~= neighbour_list(m, pos));
    }
    r
}

/// Every entry of the neighbour list is the passable on-grid cell one step
/// from `p` in the entry's direction.
pub proof fn lemma_neighbour_list_sound(m: Seq<Seq<bool>>, p: (usize, usize))
    requires
        grid_wf(m),
        grid_width(m) <= usize::MAX,
        grid_height(m) <= usize::MAX,
        on_grid(m, (p.0 as int, p.1 as int)),
    ensures
        forall|k: int| 0 <= k < neighbour_list(m, p).len() ==> {
            let e = #[trigger] neighbour_list(m, p)[k];
            &&& (e.0.0 as int, e.0.1 as int) == dir_step((p.0 as int, p.1 as int), e.1)
            &&& on_grid(m, (e.0.0 as int, e.0.1 as int))
            &&& passable(m, (e.0.0 as int, e.0.1 as int))
        },
{
    let pi = (p.0 as int, p.1 as int);
    assert forall|k: int| 0 <= k < neighbour_list(m, p).len() implies {
        let e = #[trigger] neighbour_list(m, p)[k];
        &&& (e.0.0 as int, e.0.1 as int) == dir_step(pi, e.1)
        &&& on_grid(m, (e.0.0 as int, e.0.1 as int))
        &&& passable(m, (e.0.0 as int, e.0.1 as int))
    } by {
        let down = dir_entry(m, p, Direction::Down);
        let up = dir_entry(m, p, Direction::Up);
        let right = dir_entry(m, p, Direction::Right);
        let left = dir_entry(m, p, Direction::Left);
        let list = neighbour_list(m, p);
        assert(list == down + up + right + left);
        if k < down.len() {
            assert(list[k] == down[0]);
        } else if k < down.len() + up.len() {
            assert(list[k] == up[0]);
        } else if k < down.len() + up.len() + right.len() {
            assert(list[k] == right[0]);
        } else {
            assert(list[k] == left[0]);
        }
    }
}

/// Every passable on-grid cell one step from `p` appears in the neighbour
/// list with its direction.
pub proof fn lemma_neighbour_list_complete(m: Seq<Seq<bool>>, p: (usize, usize), d: Direction)
    requires
        grid_wf(m),
        grid_width(m) <= usize::MAX,
        grid_height(m) <= usize::MAX,
        on_grid(m, (p.0 as int, p.1 as int)),
        on_grid(m, dir_step((p.0 as int, p.1 as int), d)),
        passable(m, dir_step((p.0 as int, p.1 as int), d)),
    ensures
        exists|k: int| 0 <= k < neighbour_list(m, p).len() && {
            let e = #[trigger] neighbour_list(m, p)[k];
            let q = dir_step((p.0 as int, p.1 as int), d);
            e == (((q.0 as usize), (q.1 as usize)), d)
        },
{
    let pi = (p.0 as int, p.1 as int);
    let q = dir_step(pi, d);
    let entry = (((q.0 as usize), (q.1 as usize)), d);
    let down = dir_entry(m, p, Direction::Down);
    let up = dir_entry(m, p, Direction::Up);
    let right = dir_entry(m, p, Direction::Right);
    let left = dir_entry(m, p, Direction::Left);
    let list = neighbour_list(m, p);
    assert(list == down + up + right + left);
    match d {
        Direction::Down => {
            assert(down[0] == entry);
            assert(list[0] == entry);
        },
        Direction::Up => {
            let k = down.len() as int;
            assert(up[0] == entry);
            assert(list[k] == entry);
        },
        Direction::Right => {
            let k = (down.len() + up.len()) as int;
            assert(right[0] == entry);
            assert(list[k] == entry);
        },
        Direction::Left => {
            let k = (down.len() + up.len() + right.len()) as int;
            assert(left[0] == entry);
            assert(list[k] == entry);
        },
    }
}

/// A frontier entry: a position, the direction of the move that reached it,
/// the turns taken so far (`g`), the estimated total turn count (`f`, used
/// only to order expansions), and a ghost witness path realizing `g`.
struct Candidate {
    pos: (usize, usize),
    direction: Direction,
    g: usize,
    f: usize,
    path: Ghost<Seq<(int, int)>>,
}

/// Index of an on-grid position in a row-major table.
spec fn cell_index(width: int, p: (int, int)) -> int {
    p.1 * width + p.0
}

/// The candidate's position as a pair of mathematical integers.
spec fn cand_pos(c: Candidate) -> (int, int) {
    (c.pos.0 as int, c.pos.1 as int)
}

/// A fixed numbering of the four directions, used to pack (cell, direction)
/// states into one table.
spec fn dir_index(d: Direction) -> int {
    match d {
        Direction::Up => 0,
        Direction::Down => 1,
        Direction::Right => 2,
        Direction::Left => 3,
    }
}

fn dir_ix(d: Direction) -> (r: usize)
    ensures
        r == dir_index(d),
{
    match d {
        Direction::Up => 0,
        Direction::Down => 1,
        Direction::Right => 2,
        Direction::Left => 3,
    }
}

/// Index of a search state (a position together with the direction of the
/// move that reached it) in the row-major state table.
spec fn state_index(width: int, p: (int, int), d: Direction) -> int {
    cell_index(width, p) * 4 + dir_index(d)
}

/// Cost of the next move: one turn when its direction changes.
spec fn turn_cost(a: Direction, b: Direction) -> int {
    if a != b {
        1
    } else {
        0
    }
}

/// Well-formedness of a frontier entry: its witness path is a valid path of
/// the grid ending at the entry's position with the entry's direction as its
/// last move, and the turn count of the witness is the entry's `g` (an
/// inequality once `g` has saturated at `usize::MAX`).
spec fn cand_inv(m: Seq<Seq<bool>>, c: Candidate) -> bool {
    &&& path_ok(m, c.path@)
    &&& c.path@.len() >= 2
    &&& c.path@.last() == cand_pos(c)
    &&& on_grid(m, cand_pos(c))
    &&& path_turns(c.path@) >= c.g
    &&& (c.g < usize::MAX ==> path_turns(c.path@) == c.g)
    &&& c.direction == move_dir(c.path@[c.path@.len() - 2], c.path@.last())
}

/// The state table records at most `b` turns for the state `(p, d)`.
spec fn settled_le(
    m: Seq<Seq<bool>>,
    tbl: Seq<Option<usize>>,
    p: (int, int),
    d: Direction,
    b: int,
) -> bool {
    tbl[state_index(grid_width(m), p, d)] matches Option::Some(v) && v <= b
}

/// The frontier holds an entry for state `(p, d)` with at most `b` turns.
spec fn open_le(s: Seq<Candidate>, p: (int, int), d: Direction, b: int) -> bool {
    exists|k: int|
        0 <= k < s.len() && cand_pos(#[trigger] s[k]) == p && s[k].direction == d && s[k].g <= b
}

/// State `(p, d)` is accounted for with cost at most `b`: either settled in
/// the table or waiting on the frontier.
spec fn reach_le(
    m: Seq<Seq<bool>>,
    tbl: Seq<Option<usize>>,
    s: Seq<Candidate>,
    p: (int, int),
    d: Direction,
    b: int,
) -> bool {
    settled_le(m, tbl, p, d, b) || open_le(s, p, d, b)
}

/// Every outgoing move of every settled state is accounted for at the
/// settled cost plus the move's turn cost, except possibly the moves of the
/// one state `(xp, xd)` (the state being expanded).
spec fn edges_covered_except(
    m: Seq<Seq<bool>>,
    tbl: Seq<Option<usize>>,
    s: Seq<Candidate>,
    xp: (int, int),
    xd: Direction,
) -> bool {
    forall|p: (int, int), d: Direction, d2: Direction|
        #![trigger state_index(grid_width(m), p, d), dir_step(p, d2)]
        on_grid(m, p) && on_grid(m, dir_step(p, d2)) && passable(m, dir_step(p, d2)) && !(p == xp
            && d == xd) ==> (tbl[state_index(grid_width(m), p, d)] matches Option::Some(v)
            ==> reach_le(m, tbl, s, dir_step(p, d2), d2, v + turn_cost(d, d2)))
}

/// Every outgoing move of every settled state is accounted for at the
/// settled cost plus the move's turn cost.
spec fn edges_covered(m: Seq<Seq<bool>>, tbl: Seq<Option<usize>>, s: Seq<Candidate>) -> bool {
    forall|p: (int, int), d: Direction, d2: Direction|
        #![trigger state_index(grid_width(m), p, d), dir_step(p, d2)]
        on_grid(m, p) && on_grid(m, dir_step(p, d2)) && passable(m, dir_step(p, d2)) ==> (
        tbl[state_index(grid_width(m), p, d)] matches Option::Some(v) ==> reach_le(
            m,
            tbl,
            s,
            dir_step(p, d2),
            d2,
            v + turn_cost(d, d2),
        ))
}

/// Every passable first move out of the entrance is accounted for at cost
/// zero: the first move is never a turn.
spec fn seeds_covered(m: Seq<Seq<bool>>, tbl: Seq<Option<usize>>, s: Seq<Candidate>) -> bool {
    forall|d: Direction|
        on_grid(m, #[trigger] dir_step(start_pos(), d)) && passable(m, dir_step(start_pos(), d))
            ==> reach_le(m, tbl, s, dir_step(start_pos(), d), d, 0)
}

/// The path `q` realizes the state `(p, d)`.
spec fn state_reached(m: Seq<Seq<bool>>, q: Seq<(int, int)>, p: (int, int), d: Direction) -> bool {
    &&& path_ok(m, q)
    &&& q.len() >= 2
    &&& q.last() == p
    &&& move_dir(q[q.len() - 2], q.last()) == d
}

/// Every settled state is realized by an actual path with exactly the
/// settled turn count (an inequality at the saturation bound).
spec fn table_witness(m: Seq<Seq<bool>>, tbl: Seq<Option<usize>>) -> bool {
    forall|p: (int, int), d: Direction|
        #![trigger state_index(grid_width(m), p, d)]
        on_grid(m, p) ==> (tbl[state_index(grid_width(m), p, d)] matches Option::Some(v)
            ==> exists|q: Seq<(int, int)>|
            #[trigger] state_reached(m, q, p, d) && path_turns(q) >= v && (v < usize::MAX
                ==> path_turns(q) == v))
}

/// The recorded best goal cost is the least settled cost over the four goal
/// states, and is absent exactly while no goal state is settled.
spec fn goal_link(m: Seq<Seq<bool>>, tbl: Seq<Option<usize>>, bg: Option<usize>) -> bool {
    match bg {
        Option::Some(bv) => {
            &&& exists|d: Direction|
                #![trigger state_index(grid_width(m), goal_pos(m), d)]
                tbl[state_index(grid_width(m), goal_pos(m), d)] == Option::Some(bv)
            &&& forall|d: Direction|
                #![trigger state_index(grid_width(m), goal_pos(m), d)]
                (tbl[state_index(grid_width(m), goal_pos(m), d)] matches Option::Some(v) ==> bv
                    <= v)
        },
        Option::None => forall|d: Direction|
            #![trigger state_index(grid_width(m), goal_pos(m), d)]
            !(tbl[state_index(grid_width(m), goal_pos(m), d)] is Some),
    }
}

/// Number of states the table has not settled yet.
spec fn count_unset(s: Seq<Option<usize>>) -> nat
    decreases s.len(),
{
    if s.len() == 0 {
        0
    } else {
        count_unset(s.drop_last()) + (if s.last() is None {
            1nat
        } else {
            0nat
        })
    }
}

spec fn entry_weight(e: Option<usize>) -> nat {
    match e {
        Option::Some(v) => v as nat,
        Option::None => 0,
    }
}

/// Sum of the settled cost values in the table.
spec fn table_weight(s: Seq<Option<usize>>) -> nat
    decreases s.len(),
{
    if s.len() == 0 {
        0
    } else {
        table_weight(s.drop_last()) + entry_weight(s.last())
    }
}

/// Effect of a single table update on the two components of the search's
/// termination measure.
proof fn lemma_measures_update(s: Seq<Option<usize>>, i: int, v: Option<usize>)
    requires
        0 <= i < s.len(),
    ensures
        count_unset(s.update(i, v)) + (if s[i] is None {
            1nat
        } else {
            0nat
        }) == count_unset(s) + (if v is None {
            1nat
        } else {
            0nat
        }),
        table_weight(s.update(i, v)) + entry_weight(s[i]) == table_weight(s) + entry_weight(v),
    decreases s.len(),
{
    let t = s.update(i, v);
    if i == s.len() - 1 {
        assert(t.drop_last() =~= s.drop_last());
        assert(t.last() == v);
    } else {
        assert(t.drop_last() =~= s.drop_last().update(i, v));
        assert(t.last() == s.last());
        lemma_measures_update(s.drop_last(), i, v);
    }
}

/// Distinct on-grid positions occupy distinct slots of a row-major table.
proof fn lemma_cell_index_inj(width: int, height: int, p: (int, int), q: (int, int))
    requires
        width >= 1,
        0 <= p.0 < width,
        0 <= p.1 < height,
        0 <= q.0 < width,
        0 <= q.1 < height,
        cell_index(width, p) == cell_index(width, q),
    ensures
        p == q,
{
    assert(p.1 * width + p.0 == q.1 * width + q.0);
    assert(p.1 == q.1 && p.0 == q.0) by (nonlinear_arith)
        requires
            width >= 1,
            0 <= p.0 < width,
            0 <= q.0 < width,
            p.1 * width + p.0 == q.1 * width + q.0,
    ;
}

/// The row-major slot of an on-grid position lies within the table.
proof fn lemma_cell_index_bounds(width: int, height: int, p: (int, int))
    requires
        width >= 1,
        height >= 1,
        0 <= p.0 < width,
        0 <= p.1 < height,
    ensures
        0 <= cell_index(width, p) < width * height,
{
    assert(0 <= p.1 * width + p.0 < width * height) by (nonlinear_arith)
        requires
            width >= 1,
            height >= 1,
            0 <= p.0 < width,
            0 <= p.1 < height,
    ;
}

/// The slot of an on-grid state lies within the state table.
proof fn lemma_state_index_bounds(width: int, height: int, p: (int, int), d: Direction)
    requires
        width >= 1,
        height >= 1,
        0 <= p.0 < width,
        0 <= p.1 < height,
    ensures
        0 <= state_index(width, p, d) < 4 * (width * height),
{
    lemma_cell_index_bounds(width, height, p);
    assert(0 <= dir_index(d) < 4);
}

/// Distinct on-grid states occupy distinct slots of the state table.
proof fn lemma_state_index_inj(
    width: int,
    height: int,
    p: (int, int),
    d: Direction,
    q: (int, int),
    d2: Direction,
)
    requires
        width >= 1,
        0 <= p.0 < width,
        0 <= p.1 < height,
        0 <= q.0 < width,
        0 <= q.1 < height,
        state_index(width, p, d) == state_index(width, q, d2),
    ensures
        p == q,
        d == d2,
{
    let a = cell_index(width, p);
    let b = cell_index(width, q);
    let r1 = dir_index(d);
    let r2 = dir_index(d2);
    assert(a == b && r1 == r2) by (nonlinear_arith)
        requires
            a * 4 + r1 == b * 4 + r2,
            0 <= r1 < 4,
            0 <= r2 < 4,
    ;
    lemma_cell_index_inj(width, height, p, q);
}

/// Removing one frontier entry by a swap keeps every other entry: a frontier
/// fact survives unless its only witness was the removed entry itself.
proof fn lemma_open_le_swap_remove(s: Seq<Candidate>, i: int)
    requires
        0 <= i < s.len(),
    ensures
        forall|p: (int, int), d: Direction, b: int|
            #![trigger open_le(s, p, d, b)]
            open_le(s, p, d, b) ==> (open_le(s.update(i, s.last()).drop_last(), p, d, b) || (
            cand_pos(s[i]) == p && s[i].direction == d && s[i].g <= b)),
{
    let s2 = s.update(i, s.last()).drop_last();
    assert forall|p: (int, int), d: Direction, b: int|
        open_le(s, p, d, b) implies (open_le(s2, p, d, b) || (cand_pos(s[i]) == p
        && s[i].direction == d && s[i].g <= b)) by {
        let k = choose|k: int|
            0 <= k < s.len() && cand_pos(#[trigger] s[k]) == p && s[k].direction == d && s[k].g
                <= b;
        if k != i {
            if k == s.len() - 1 {
                assert(s2[i] == s[k]);
            } else {
                assert(s2[k] == s[k]);
            }
        }
    }
}

/// Appending a frontier entry keeps every frontier fact and adds one for the
/// new entry.
proof fn lemma_open_le_push(s: Seq<Candidate>, c: Candidate)
    ensures
        forall|p: (int, int), d: Direction, b: int|
            #![trigger open_le(s, p, d, b)]
            open_le(s, p, d, b) ==> open_le(s.push(c), p, d, b),
        open_le(s.push(c), cand_pos(c), c.direction, c.g as int),
{
    assert forall|p: (int, int), d: Direction, b: int| open_le(s, p, d, b) implies open_le(
        s.push(c),
        p,
        d,
        b,
    ) by {
        let k = choose|k: int|
            0 <= k < s.len() && cand_pos(#[trigger] s[k]) == p && s[k].direction == d && s[k].g
                <= b;
        assert(s.push(c)[k] == s[k]);
    }
    assert(cand_pos(s.push(c)[s.len() as int]) == cand_pos(c));
}

/// Along any valid path, every state the path passes through is accounted
/// for at the turn count of the corresponding prefix — or that turn count
/// already reaches the floor `bnd` that every frontier entry is known to
/// respect.
proof fn lemma_route_lower_bound(
    m: Seq<Seq<bool>>,
    tbl: Seq<Option<usize>>,
    s: Seq<Candidate>,
    bnd: int,
    q: Seq<(int, int)>,
    i: int,
)
    requires
        grid_wf(m),
        edges_covered(m, tbl, s),
        seeds_covered(m, tbl, s),
        forall|k: int| 0 <= k < s.len() ==> (#[trigger] s[k]).g >= bnd,
        path_ok(m, q),
        1 <= i < q.len(),
    ensures
        settled_le(m, tbl, q[i], move_dir(q[i - 1], q[i]), path_turns(q.subrange(0, i + 1)) as int)
            || path_turns(q.subrange(0, i + 1)) >= bnd,
    decreases i,
{
    let d_i = move_dir(q[i - 1], q[i]);
    let pre2 = q.subrange(0, i + 1);
    let pt = path_turns(pre2);
    assert(adjacent(q[i - 1], q[i]));
    lemma_move_is_step(q[i - 1], q[i]);
    if i == 1 {
        assert(q[0] == start_pos());
        assert(q[1] == dir_step(start_pos(), d_i));
        assert(on_grid(m, q[1]) && passable(m, q[1]));
        assert(pre2.len() == 2);
        assert(pt == 0);
        assert(reach_le(m, tbl, s, dir_step(start_pos(), d_i), d_i, 0));
        if !settled_le(m, tbl, q[1], d_i, 0) {
            let k = choose|k: int|
                0 <= k < s.len() && cand_pos(#[trigger] s[k]) == q[1] && s[k].direction == d_i
                    && s[k].g <= 0;
            assert(s[k].g >= bnd);
            assert(pt >= bnd);
        }
    } else {
        lemma_route_lower_bound(m, tbl, s, bnd, q, i - 1);
        let d_p = move_dir(q[i - 2], q[i - 1]);
        let pre = q.subrange(0, i);
        let ptp = path_turns(pre);
        assert(pre2 =~= pre.push(q[i]));
        lemma_turns_push(pre, q[i]);
        assert(pre[pre.len() - 2] == q[i - 2] && pre[pre.len() - 1] == q[i - 1]);
        assert(pt == ptp + turn_cost(d_p, d_i));
        if settled_le(m, tbl, q[i - 1], d_p, ptp as int) {
            let v = tbl[state_index(grid_width(m), q[i - 1], d_p)]->Some_0;
            assert(v <= ptp);
            assert(q[i] == dir_step(q[i - 1], d_i));
            assert(on_grid(m, q[i - 1]) && on_grid(m, q[i]) && passable(m, q[i]));
            assert(reach_le(m, tbl, s, dir_step(q[i - 1], d_i), d_i, v + turn_cost(d_p, d_i)));
            if !settled_le(m, tbl, q[i], d_i, pt as int) {
                let k = choose|k: int|
                    0 <= k < s.len() && cand_pos(#[trigger] s[k]) == q[i] && s[k].direction
                        == d_i && s[k].g <= v + turn_cost(d_p, d_i);
                assert(s[k].g >= bnd);
                assert(pt >= bnd);
            }
        } else {
            assert(ptp >= bnd);
            assert(pt >= ptp);
        }
    }
}

/// Dimension facts carried through the search loops.
spec fn dims_ok(m: Seq<Seq<bool>>, width: usize, height: usize) -> bool {
    &&& grid_wf(m)
    &&& width == grid_width(m)
    &&& height == grid_height(m)
    &&& 4 * (width * height) <= usize::MAX
}

/// The position of a neighbour-list entry as mathematical integers.
spec fn entry_pos(e: ((usize, usize), Direction)) -> (int, int) {
    (e.0.0 as int, e.0.1 as int)
}

/// Rank of a direction in the fixed tie-breaking order of the frontier.
spec fn dir_order(d: Direction) -> int {
    match d {
        Direction::Up => 0,
        Direction::Down => 1,
        Direction::Left => 2,
        Direction::Right => 3,
    }
}

fn dir_rank(d: Direction) -> (r: u8)
    ensures
        r == dir_order(d),
{
    match d {
        Direction::Up => 0,
        Direction::Down => 1,
        Direction::Left => 2,
        Direction::Right => 3,
    }
}

/// The deterministic selection order of the frontier: fewest turns taken
/// (`g`) first; among equal `g`, the smaller estimate `f`, then the larger
/// direction rank (Right highest), then the larger position
/// (lexicographically by column, then row), is expanded first.
spec fn spec_cand_precedes(a: Candidate, b: Candidate) -> bool {
    if a.g != b.g {
        a.g < b.g
    } else if a.f != b.f {
        a.f < b.f
    } else if dir_order(a.direction) != dir_order(b.direction) {
        dir_order(a.direction) > dir_order(b.direction)
    } else if a.pos.0 != b.pos.0 {
        a.pos.0 > b.pos.0
    } else {
        a.pos.1 > b.pos.1
    }
}

fn cand_precedes(a: &Candidate, b: &Candidate) -> (r: bool)
    ensures
        r == spec_cand_precedes(*a, *b),
        r ==> a.g <= b.g,
        !r ==> b.g <= a.g,
{
    if a.g != b.g {
        a.g < b.g
    } else if a.f != b.f {
        a.f < b.f
    } else {
        let ra = dir_rank(a.direction);
        let rb = dir_rank(b.direction);
        if ra != rb {
            ra > rb
        } else {
            if a.pos.0 != b.pos.0 {
                a.pos.0 > b.pos.0
            } else {
                a.pos.1 > b.pos.1
            }
        }
    }
}

/// Minimum number of direction changes on a passable route from the
/// entrance `(0, 1)` to the exit `(width - 1, height - 2)`.
///
/// Returns `None` exactly when no passable route exists.  A returned count
/// is the turn count of an actual passable route, and no passable route has
/// fewer turns: the search settles, per (cell, arrival-direction) state, the
/// least turn count over routes reaching it, expanding best-estimate states
/// first and stopping only once no frontier entry could still improve on
/// the best settled goal cost.
#[verifier::rlimit(100)]
pub fn solve(input: Vec<Vec<bool>>) -> (r: Option<usize>)
    requires
        grid_wf(input.deep_view()),
        4 * (grid_width(input.deep_view()) * grid_height(input.deep_view())) <= usize::MAX,
    ensures
        solve_post(input.deep_view(), r),
{
    let ghost m = input.deep_view();
    let height = input.len();
    let width = input[0].len();
    proof {
        assert(height == grid_height(m));
        assert(m[0] == input@[0].deep_view());
        assert(m[0].len() == input@[0]@.len());
        assert(width == grid_width(m));
        assert(width >= 2 && height >= 2);
        assert(0 <= (width as int) * (height as int)) by (nonlinear_arith)
            requires
                width >= 0,
                height >= 0,
        ;
    }
    let start: (usize, usize) = (0, 1);
    let goal: (usize, usize) = (width - 1, height - 2);
    proof {
        assert((goal.0 as int, goal.1 as int) == goal_pos(m));
    }
    let cells = width * height;
    let total = 4 * cells;

    let mut best: Vec<Option<usize>> = Vec::new();
    while best.len() < total
        invariant
            best@.len() <= total,
            forall|k: int| 0 <= k < best@.len() ==> best@[k] is None,
        decreases total - best@.len(),
    {
        best.push(Option::None);
    }
    let mut bestgoal: Option<usize> = Option::None;

    let mut open: Vec<Candidate> = Vec::new();
    let nbrs0 = neighbours(start, &input);
    proof {
        lemma_neighbour_list_sound(m, start);
    }
    let mut i: usize = 0;
    while i < nbrs0.len()
        invariant
            dims_ok(m, width, height),
            nbrs0@ == neighbour_list(m, start),
            start == (0usize, 1usize),
            i <= nbrs0@.len(),
            forall|k: int| 0 <= k < open@.len() ==> cand_inv(m, #[trigger] open@[k]),
            forall|k: int| 0 <= k < open@.len() ==> (#[trigger] open@[k]).g == 0,
            forall|kk: int|
                0 <= kk < i ==> open_le(
                    open@,
                    entry_pos(#[trigger] nbrs0@[kk]),
                    nbrs0@[kk].1,
                    0,
                ),
        decreases nbrs0@.len() - i,
    {
        let e = nbrs0[i];
        let ghost qi = entry_pos(nbrs0@[i as int]);
        proof {
            lemma_neighbour_list_sound(m, start);
            assert(nbrs0@[i as int] == neighbour_list(m, start)[i as int]);
            assert(qi == dir_step(start_pos(), e.1));
            assert(on_grid(m, qi) && passable(m, qi));
            assert((e.0.0 as int, e.0.1 as int) == qi);
        }
        let hn = h(e.1, e.0, goal);
        let ghost seed_path: Seq<(int, int)> = seq![(0int, 1int), qi];
        let c = Candidate { pos: e.0, direction: e.1, g: 0, f: hn, path: Ghost(seed_path) };
        proof {
            assert(seed_path[0] == start_pos());
            assert(seed_path.last() == qi);
            assert(adjacent(start_pos(), qi));
            assert(path_ok(m, seed_path));
            assert(path_turns(seed_path) == 0);
            assert(move_dir(start_pos(), qi) == e.1);
            assert(cand_inv(m, c));
            lemma_open_le_push(open@, c);
        }
        let ghost open_pre = open@;
        open.push(c);
        proof {
            assert forall|k: int| 0 <= k < open@.len() implies cand_inv(m, #[trigger] open@[k])
                && open@[k].g == 0 by {
                if k < open_pre.len() {
                    assert(open@[k] == open_pre[k]);
                } else {
                    assert(open@[k] == c);
                }
            }
        }
        i = i + 1;
    }
    proof {
        assert forall|d: Direction|
            on_grid(m, #[trigger] dir_step(start_pos(), d)) && passable(
                m,
                dir_step(start_pos(), d),
            ) implies reach_le(m, best@, open@, dir_step(start_pos(), d), d, 0) by {
            lemma_neighbour_list_complete(m, start, d);
            let kk = choose|kk: int|
                0 <= kk < neighbour_list(m, start).len() && {
                    let e = #[trigger] neighbour_list(m, start)[kk];
                    let q = dir_step(start_pos(), d);
                    e == (((q.0 as usize), (q.1 as usize)), d)
                };
            assert(nbrs0@[kk] == neighbour_list(m, start)[kk]);
            assert(entry_pos(nbrs0@[kk]) == dir_step(start_pos(), d));
            assert(open_le(open@, entry_pos(nbrs0@[kk]), nbrs0@[kk].1, 0));
        }
        assert forall|p: (int, int), d: Direction| on_grid(m, p) implies !(best@[state_index(
            grid_width(m),
            p,
            d,
        )] is Some) by {
            lemma_state_index_bounds(grid_width(m), grid_height(m), p, d);
        }
        assert(edges_covered(m, best@, open@));
        assert(table_witness(m, best@));
        assert(goal_link(m, best@, bestgoal));
    }

    while open.len() > 0
        invariant
            m == input.deep_view(),
            dims_ok(m, width, height),
            (goal.0 as int, goal.1 as int) == goal_pos(m),
            best@.len() == 4 * ((width as int) * (height as int)),
            forall|k: int| 0 <= k < open@.len() ==> cand_inv(m, #[trigger] open@[k]),
            edges_covered(m, best@, open@),
            seeds_covered(m, best@, open@),
            table_witness(m, best@),
            goal_link(m, best@, bestgoal),
        ensures
            edges_covered(m, best@, open@),
            seeds_covered(m, best@, open@),
            table_witness(m, best@),
            goal_link(m, best@, bestgoal),
            open@.len() == 0 || (bestgoal matches Option::Some(bv) && forall|k: int|
                0 <= k < open@.len() ==> (#[trigger] open@[k]).g >= bv),
        decreases count_unset(best@), table_weight(best@), open@.len(),
    {
        let mut imin: usize = 0;
        let mut t: usize = 1;
        while t < open.len()
            invariant
                imin < open@.len(),
                t <= open@.len(),
                forall|k: int| 0 <= k < t ==> open@[imin as int].g <= (#[trigger] open@[k]).g,
            decreases open@.len() - t,
        {
            if cand_precedes(&open[t], &open[imin]) {
                imin = t;
            }
            t = t + 1;
        }
        let mut stop = false;
        if let Option::Some(bv) = bestgoal {
            if open[imin].g >= bv {
                stop = true;
            }
        }
        if stop {
            break;
        }
        let ghost open_before = open@;
        let c = open.swap_remove(imin);
        proof {
            assert(c == open_before[imin as int]);
            assert(cand_inv(m, c));
            lemma_open_le_swap_remove(open_before, imin as int);
            assert forall|k: int| 0 <= k < open@.len() implies cand_inv(
                m,
                #[trigger] open@[k],
            ) by {
                if k == imin && imin < open_before.len() - 1 {
                    assert(open@[k] == open_before[open_before.len() - 1]);
                } else {
                    assert(open@[k] == open_before[k]);
                }
            }
            lemma_state_index_bounds(grid_width(m), grid_height(m), cand_pos(c), c.direction);
            lemma_cell_index_bounds(grid_width(m), grid_height(m), cand_pos(c));
        }
        let six = (c.pos.1 * width + c.pos.0) * 4 + dir_ix(c.direction);
        proof {
            assert(six == state_index(grid_width(m), cand_pos(c), c.direction));
        }
        let cell = best[six];
        let stale = match cell {
            Option::Some(v) => v <= c.g,
            Option::None => false,
        };
        if stale {
            proof {
                // the table already dominates this entry, so dropping it
                // keeps every state accounted for
                assert forall|p: (int, int), d: Direction, b: int|
                    reach_le(m, best@, open_before, p, d, b) implies reach_le(
                    m,
                    best@,
                    open@,
                    p,
                    d,
                    b,
                ) by {
                    if !settled_le(m, best@, p, d, b) {
                        assert(open_le(open_before, p, d, b));
                        if !open_le(open@, p, d, b) {
                            assert(cand_pos(c) == p && c.direction == d && c.g <= b);
                            assert(settled_le(m, best@, p, d, b));
                        }
                    }
                }
                assert(edges_covered(m, best@, open@));
                assert(seeds_covered(m, best@, open@));
            }
        } else {
            let ghost tbl_old = best@;
            let ghost old_bestgoal = bestgoal;
            best.set(six, Option::Some(c.g));
            if c.pos.0 == goal.0 && c.pos.1 == goal.1 {
                bestgoal = match bestgoal {
                    Option::Some(bv) => if c.g < bv {
                        Option::Some(c.g)
                    } else {
                        Option::Some(bv)
                    },
                    Option::None => Option::Some(c.g),
                };
            }
            proof {
                // slots of other states are untouched
                assert forall|p: (int, int), d: Direction|
                    on_grid(m, p) && !(p == cand_pos(c) && d == c.direction) implies best@[state_index(
                    grid_width(m),
                    p,
                    d,
                )] == tbl_old[state_index(grid_width(m), p, d)] by {
                    lemma_state_index_bounds(grid_width(m), grid_height(m), p, d);
                    if state_index(grid_width(m), p, d) == six {
                        lemma_state_index_inj(
                            grid_width(m),
                            grid_height(m),
                            p,
                            d,
                            cand_pos(c),
                            c.direction,
                        );
                    }
                }
                // everything accounted for before stays accounted for
                assert forall|p: (int, int), d: Direction, b: int|
                    reach_le(m, tbl_old, open_before, p, d, b) && on_grid(m, p) implies reach_le(
                    m,
                    best@,
                    open@,
                    p,
                    d,
                    b,
                ) by {
                    if settled_le(m, tbl_old, p, d, b) {
                        if p == cand_pos(c) && d == c.direction {
                            assert(tbl_old[six as int] matches Option::Some(v) && c.g < v);
                            assert(settled_le(m, best@, p, d, b));
                        } else {
                            assert(settled_le(m, best@, p, d, b));
                        }
                    } else {
                        assert(open_le(open_before, p, d, b));
                        if !open_le(open@, p, d, b) {
                            assert(cand_pos(c) == p && c.direction == d && c.g <= b);
                            assert(settled_le(m, best@, p, d, b));
                        }
                    }
                }
                // the edges of every other settled state stay covered
                assert forall|p: (int, int), d: Direction, d2: Direction|
                    #![trigger state_index(grid_width(m), p, d), dir_step(p, d2)]
                    on_grid(m, p) && on_grid(m, dir_step(p, d2)) && passable(m, dir_step(p, d2))
                        && !(p == cand_pos(c) && d == c.direction) implies (best@[state_index(
                    grid_width(m),
                    p,
                    d,
                )] matches Option::Some(v) ==> reach_le(
                    m,
                    best@,
                    open@,
                    dir_step(p, d2),
                    d2,
                    v + turn_cost(d, d2),
                )) by {
                    match best@[state_index(grid_width(m), p, d)] {
                        Option::Some(v) => {
                            assert(tbl_old[state_index(grid_width(m), p, d)] == Option::Some(
                                v,
                            ));
                            assert(reach_le(
                                m,
                                tbl_old,
                                open_before,
                                dir_step(p, d2),
                                d2,
                                v + turn_cost(d, d2),
                            ));
                            assert(on_grid(m, dir_step(p, d2)));
                        },
                        Option::None => {},
                    }
                }
                assert(edges_covered_except(m, best@, open@, cand_pos(c), c.direction));
                assert(seeds_covered(m, best@, open@));
                // the new table entry is realized by the popped entry's
                // witness path
                assert(state_reached(m, c.path@, cand_pos(c), c.direction));
                assert forall|p: (int, int), d: Direction|
                    #![trigger state_index(grid_width(m), p, d)]
                    on_grid(m, p) implies (best@[state_index(grid_width(m), p, d)] matches Option::Some(
                    v,
                ) ==> exists|q: Seq<(int, int)>|
                    #[trigger] state_reached(m, q, p, d) && path_turns(q) >= v && (v
                        < usize::MAX ==> path_turns(q) == v)) by {
                    match best@[state_index(grid_width(m), p, d)] {
                        Option::Some(v) => {
                            if p == cand_pos(c) && d == c.direction {
                                assert(state_index(grid_width(m), p, d) == six);
                                assert(v == c.g);
                                assert(state_reached(m, c.path@, p, d) && path_turns(c.path@)
                                    >= v && (v < usize::MAX ==> path_turns(c.path@) == v));
                            } else {
                                assert(tbl_old[state_index(grid_width(m), p, d)]
                                    == Option::Some(v));
                            }
                        },
                        Option::None => {},
                    }
                }
                assert(table_witness(m, best@));
                // the recorded best goal cost still matches the goal states
                if c.pos.0 == goal.0 && c.pos.1 == goal.1 {
                    assert(cand_pos(c) == goal_pos(m));
                    match old_bestgoal {
                        Option::None => {
                            assert(best@[state_index(
                                grid_width(m),
                                goal_pos(m),
                                c.direction,
                            )] == Option::Some(c.g));
                            assert forall|d: Direction|
                                #![trigger state_index(grid_width(m), goal_pos(m), d)]
                                (best@[state_index(grid_width(m), goal_pos(m), d)] matches Option::Some(
                                    v,
                                ) ==> c.g <= v) by {
                                if d != c.direction {
                                    assert(best@[state_index(grid_width(m), goal_pos(m), d)]
                                        == tbl_old[state_index(grid_width(m), goal_pos(m), d)]);
                                }
                            }
                        },
                        Option::Some(bv) => {
                            if c.g < bv {
                                assert(best@[state_index(
                                    grid_width(m),
                                    goal_pos(m),
                                    c.direction,
                                )] == Option::Some(c.g));
                                assert forall|d: Direction|
                                    #![trigger state_index(grid_width(m), goal_pos(m), d)]
                                    (best@[state_index(grid_width(m), goal_pos(m), d)] matches Option::Some(
                                        v,
                                    ) ==> c.g <= v) by {
                                    if d != c.direction {
                                        assert(best@[state_index(grid_width(m), goal_pos(m), d)]
                                            == tbl_old[state_index(
                                            grid_width(m),
                                            goal_pos(m),
                                            d,
                                        )]);
                                    }
                                }
                            } else {
                                let dw = choose|d: Direction|
                                    #![trigger state_index(grid_width(m), goal_pos(m), d)]
                                    tbl_old[state_index(grid_width(m), goal_pos(m), d)]
                                        == Option::Some(bv);
                                assert(dw != c.direction);
                                assert(best@[state_index(grid_width(m), goal_pos(m), dw)]
                                    == Option::Some(bv));
                                assert forall|d: Direction|
                                    #![trigger state_index(grid_width(m), goal_pos(m), d)]
                                    (best@[state_index(grid_width(m), goal_pos(m), d)] matches Option::Some(
                                        v,
                                    ) ==> bv <= v) by {
                                    if d != c.direction {
                                        assert(best@[state_index(grid_width(m), goal_pos(m), d)]
                                            == tbl_old[state_index(
                                            grid_width(m),
                                            goal_pos(m),
                                            d,
                                        )]);
                                    }
                                }
                            }
                        },
                    }
                } else {
                    assert(cand_pos(c) != goal_pos(m));
                    assert forall|d: Direction|
                        #![trigger state_index(grid_width(m), goal_pos(m), d)]
                        best@[state_index(grid_width(m), goal_pos(m), d)] == tbl_old[state_index(
                            grid_width(m),
                            goal_pos(m),
                            d,
                        )] by {
                        assert(on_grid(m, goal_pos(m)));
                    }
                    match bestgoal {
                        Option::Some(bv) => {
                            let dw = choose|d: Direction|
                                #![trigger state_index(grid_width(m), goal_pos(m), d)]
                                tbl_old[state_index(grid_width(m), goal_pos(m), d)]
                                    == Option::Some(bv);
                            assert(best@[state_index(grid_width(m), goal_pos(m), dw)]
                                == Option::Some(bv));
                        },
                        Option::None => {},
                    }
                }
                assert(goal_link(m, best@, bestgoal));
            }
            let nbrs = neighbours(c.pos, &input);
            proof {
                lemma_neighbour_list_sound(m, c.pos);
            }
            let mut j2: usize = 0;
            while j2 < nbrs.len()
                invariant
                    dims_ok(m, width, height),
                    (goal.0 as int, goal.1 as int) == goal_pos(m),
                    best@.len() == 4 * ((width as int) * (height as int)),
                    cand_inv(m, c),
                    nbrs@ == neighbour_list(m, c.pos),
                    j2 <= nbrs@.len(),
                    forall|k: int| 0 <= k < open@.len() ==> cand_inv(m, #[trigger] open@[k]),
                    edges_covered_except(m, best@, open@, cand_pos(c), c.direction),
                    seeds_covered(m, best@, open@),
                    table_witness(m, best@),
                    goal_link(m, best@, bestgoal),
                    forall|kk: int|
                        0 <= kk < j2 ==> reach_le(
                            m,
                            best@,
                            open@,
                            entry_pos(#[trigger] nbrs@[kk]),
                            nbrs@[kk].1,
                            c.g + turn_cost(c.direction, nbrs@[kk].1),
                        ),
                decreases nbrs@.len() - j2,
            {
                let e = nbrs[j2];
                let ghost qi = entry_pos(nbrs@[j2 as int]);
                proof {
                    lemma_neighbour_list_sound(m, c.pos);
                    assert(nbrs@[j2 as int] == neighbour_list(m, c.pos)[j2 as int]);
                    assert(qi == dir_step(cand_pos(c), e.1));
                    assert(on_grid(m, qi) && passable(m, qi));
                    assert((e.0.0 as int, e.0.1 as int) == qi);
                }
                let gn = if c.g == usize::MAX {
                    usize::MAX
                } else {
                    g(Option::Some(c.direction), e.1, c.g)
                };
                let hn = h(e.1, e.0, goal);
                let fnew = if gn <= usize::MAX - hn {
                    gn + hn
                } else {
                    usize::MAX
                };
                let newc = Candidate {
                    pos: e.0,
                    direction: e.1,
                    g: gn,
                    f: fnew,
                    path: Ghost(c.path@.push(qi)),
                };
                proof {
                    let w = c.path@;
                    assert(adjacent(w.last(), qi));
                    lemma_path_ok_push(m, w, qi);
                    lemma_turns_push(w, qi);
                    assert(move_dir(w.last(), qi) == e.1);
                    assert(newc.path@.last() == qi);
                    assert(path_turns(newc.path@) == path_turns(w) + (if move_dir(
                        w[w.len() - 2],
                        w[w.len() - 1],
                    ) != e.1 {
                        1nat
                    } else {
                        0nat
                    }));
                    assert(cand_inv(m, newc));
                    assert(gn <= c.g + turn_cost(c.direction, e.1));
                    lemma_open_le_push(open@, newc);
                }
                let ghost open_pre = open@;
                open.push(newc);
                proof {
                    assert forall|k: int| 0 <= k < open@.len() implies cand_inv(
                        m,
                        #[trigger] open@[k],
                    ) by {
                        if k < open_pre.len() {
                            assert(open@[k] == open_pre[k]);
                        } else {
                            assert(open@[k] == newc);
                        }
                    }
                    assert forall|p: (int, int), d: Direction, b: int|
                        reach_le(m, best@, open_pre, p, d, b) implies reach_le(
                        m,
                        best@,
                        open@,
                        p,
                        d,
                        b,
                    ) by {}
                    assert(open_le(open@, qi, e.1, gn as int));
                    assert(reach_le(
                        m,
                        best@,
                        open@,
                        qi,
                        e.1,
                        c.g + turn_cost(c.direction, e.1),
                    ));
                    assert(edges_covered_except(m, best@, open@, cand_pos(c), c.direction));
                    assert(seeds_covered(m, best@, open@));
                }
                j2 = j2 + 1;
            }
            proof {
                // every outgoing move of the freshly settled state is now on
                // the frontier (or already settled at least as well)
                assert forall|d2: Direction|
                    on_grid(m, #[trigger] dir_step(cand_pos(c), d2)) && passable(
                        m,
                        dir_step(cand_pos(c), d2),
                    ) implies reach_le(
                    m,
                    best@,
                    open@,
                    dir_step(cand_pos(c), d2),
                    d2,
                    c.g + turn_cost(c.direction, d2),
                ) by {
                    lemma_neighbour_list_complete(m, c.pos, d2);
                    let kk = choose|kk: int|
                        0 <= kk < neighbour_list(m, c.pos).len() && {
                            let e = #[trigger] neighbour_list(m, c.pos)[kk];
                            let q = dir_step(cand_pos(c), d2);
                            e == (((q.0 as usize), (q.1 as usize)), d2)
                        };
                    assert(nbrs@[kk] == neighbour_list(m, c.pos)[kk]);
                    assert(entry_pos(nbrs@[kk]) == dir_step(cand_pos(c), d2));
                    assert(reach_le(
                        m,
                        best@,
                        open@,
                        entry_pos(nbrs@[kk]),
                        nbrs@[kk].1,
                        c.g + turn_cost(c.direction, nbrs@[kk].1),
                    ));
                }
                assert forall|p: (int, int), d: Direction, d2: Direction|
                    #![trigger state_index(grid_width(m), p, d), dir_step(p, d2)]
                    on_grid(m, p) && on_grid(m, dir_step(p, d2)) && passable(
                        m,
                        dir_step(p, d2),
                    ) implies (best@[state_index(grid_width(m), p, d)] matches Option::Some(v)
                    ==> reach_le(m, best@, open@, dir_step(p, d2), d2, v + turn_cost(d, d2))) by {
                    if p == cand_pos(c) && d == c.direction {
                        match best@[state_index(grid_width(m), p, d)] {
                            Option::Some(v) => {
                                assert(v == c.g);
                            },
                            Option::None => {},
                        }
                    }
                }
                assert(edges_covered(m, best@, open@));
                lemma_measures_update(tbl_old, six as int, Option::Some(c.g));
            }
        }
    }

    match bestgoal {
        Option::None => {
            proof {
                assert(open@.len() == 0);
                if maze_has_path(m) {
                    let q = choose|q: Seq<(int, int)>| reaches_goal(m, q);
                    assert(q[0] == start_pos());
                    assert(q.last() == goal_pos(m));
                    assert(goal_pos(m).0 >= 1);
                    assert(q.len() >= 2);
                    lemma_route_lower_bound(
                        m,
                        best@,
                        open@,
                        path_turns(q) as int + 1,
                        q,
                        q.len() - 1,
                    );
                    assert(q.subrange(0, q.len() as int) =~= q);
                    assert(false);
                }
            }
            Option::None
        },
        Option::Some(bv) => {
            proof {
                let d = choose|d: Direction|
                    #![trigger state_index(grid_width(m), goal_pos(m), d)]
                    best@[state_index(grid_width(m), goal_pos(m), d)] == Option::Some(bv);
                assert(on_grid(m, goal_pos(m)));
                let q = choose|q: Seq<(int, int)>|
                    #[trigger] state_reached(m, q, goal_pos(m), d) && path_turns(q) >= bv && (bv
                        < usize::MAX ==> path_turns(q) == bv);
                assert(reaches_goal(m, q));
                assert(maze_has_path(m));
                assert forall|q2: Seq<(int, int)>| #[trigger] reaches_goal(m, q2) implies bv
                    <= path_turns(q2) by {
                    assert(q2.last() == goal_pos(m));
                    assert(goal_pos(m).0 >= 1);
                    assert(q2.len() >= 2);
                    lemma_route_lower_bound(m, best@, open@, bv as int, q2, q2.len() - 1);
                    assert(q2.subrange(0, q2.len() as int) =~= q2);
                    if settled_le(
                        m,
                        best@,
                        goal_pos(m),
                        move_dir(q2[q2.len() - 2], q2.last()),
                        path_turns(q2) as int,
                    ) {
                        assert(best@[state_index(
                            grid_width(m),
                            goal_pos(m),
                            move_dir(q2[q2.len() - 2], q2.last()),
                        )] matches Option::Some(v) ==> bv <= v);
                    }
                }
            }
            Option::Some(bv)
        },
    }
}

} // verus!
