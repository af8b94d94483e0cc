//! Mathematical model of mazes and paths.
//!
//! A maze is a rectangular grid of booleans (`true` = passable).  A path is a
//! sequence of grid positions starting at the fixed entrance; the cost of a
//! path is the number of direction changes ("turns") along it.  The solver's
//! contract is stated over this model.

use vstd::prelude::*;

use crate::maze::Direction;

verus! {

/// A grid is well formed when it has at least two rows and two columns and
/// every row has the same length.
pub open spec fn grid_wf(m: Seq<Seq<bool>>) -> bool {
    &&& m.len() >= 2
    &&& m[0].len() >= 2
    &&& forall|y: int| 0 <= y < m.len() ==> (#[trigger] m[y]).len() == m[0].len()
}

pub open spec fn grid_width(m: Seq<Seq<bool>>) -> int {
    m[0].len() as int
}

pub open spec fn grid_height(m: Seq<Seq<bool>>) -> int {
    m.len() as int
}

/// The entrance: first column, second row.
pub open spec fn start_pos() -> (int, int) {
    (0, 1)
}

/// The exit: last column, second-to-last row.
pub open spec fn goal_pos(m: Seq<Seq<bool>>) -> (int, int) {
    (grid_width(m) - 1, grid_height(m) - 2)
}

pub open spec fn on_grid(m: Seq<Seq<bool>>, p: (int, int)) -> bool {
    &&& 0 <= p.0 < grid_width(m)
    &&& 0 <= p.1 < grid_height(m)
}

/// A cell admits the path iff its boolean is true.
pub open spec fn passable(m: Seq<Seq<bool>>, p: (int, int)) -> bool {
    m[p.1][p.0]
}

/// The cell one move away from `p` in direction `d`.  Rows grow downward, so
/// `Up` decreases the row index.
pub open spec fn dir_step(p: (int, int), d: Direction) -> (int, int) {
    match d {
        Direction::Up => (p.0, p.1 - 1),
        Direction::Down => (p.0, p.1 + 1),
        Direction::Left => (p.0 - 1, p.1),
        Direction::Right => (p.0 + 1, p.1),
    }
}

/// Two positions are adjacent when they differ by one in exactly one
/// coordinate.
pub open spec fn adjacent(a: (int, int), b: (int, int)) -> bool {
    ||| (a.0 == b.0 && (b.1 == a.1 + 1 || b.1 == a.1 - 1))
    ||| (a.1 == b.1 && (b.0 == a.0 + 1 || b.0 == a.0 - 1))
}

/// The direction of the move from `a` to an adjacent `b`.
pub open spec fn move_dir(a: (int, int), b: (int, int)) -> Direction {
    if b.0 == a.0 && b.1 == a.1 - 1 {
        Direction::Up
    } else if b.0 == a.0 && b.1 == a.1 + 1 {
        Direction::Down
    } else if b.1 == a.1 && b.0 == a.0 - 1 {
        Direction::Left
    } else {
        Direction::Right
    }
}

/// A valid path starts at the entrance, stays on the grid, moves one cell at
/// a time, and crosses only passable cells.  The entrance itself is exempt
/// from the passability requirement: the search seeds it unconditionally.
pub open spec fn path_ok(m: Seq<Seq<bool>>, p: Seq<(int, int)>) -> bool {
    &&& p.len() >= 1
    &&& p[0] == start_pos()
    &&& forall|i: int| 0 <= i < p.len() ==> on_grid(m, #[trigger] p[i])
    &&& forall|i: int| 1 <= i < p.len() ==> passable(m, #[trigger] p[i])
    &&& forall|i: int| 1 <= i < p.len() ==> adjacent(p[i - 1], #[trigger] p[i])
}

/// The number of turns of a path: positions where the direction of the next
/// move differs from the direction of the previous one.  The first move is
/// never a turn.
pub open spec fn path_turns(p: Seq<(int, int)>) -> nat
    decreases p.len(),
{
    if p.len() < 3 {
        0
    } else {
        path_turns(p.drop_last()) + (if move_dir(p[p.len() - 3], p[p.len() - 2])
            != move_dir(p[p.len() - 2], p[p.len() - 1]) {
            1nat
        } else {
            0nat
        })
    }
}

/// A path that ends at the exit.
pub open spec fn reaches_goal(m: Seq<Seq<bool>>, p: Seq<(int, int)>) -> bool {
    &&& path_ok(m, p)
    &&& p.last() == goal_pos(m)
}

pub open spec fn maze_has_path(m: Seq<Seq<bool>>) -> bool {
    exists|p: Seq<(int, int)>| reaches_goal(m, p)
}

/// What `solve` promises: `None` exactly when the exit is unreachable; a
/// returned count is realized by an actual passable path (exactly, unless
/// the count saturated at `usize::MAX`); and no passable path has fewer
/// turns than the returned count.
pub open spec fn solve_post(m: Seq<Seq<bool>>, r: Option<usize>) -> bool {
    &&& (r is None <==> !maze_has_path(m))
    &&& (r matches Some(t) ==> exists|p: Seq<(int, int)>|
            #[trigger] reaches_goal(m, p) && path_turns(p) >= t
            && (t < usize::MAX ==> path_turns(p) == t))
    &&& (r matches Some(t) ==> forall|q: Seq<(int, int)>|
            #[trigger] reaches_goal(m, q) ==> t <= path_turns(q))
}

/// Extending a valid path by one passable adjacent cell keeps it valid.
pub proof fn lemma_path_ok_push(m: Seq<Seq<bool>>, p: Seq<(int, int)>, q: (int, int))
    requires
        path_ok(m, p),
        adjacent(p.last(), q),
        on_grid(m, q),
        passable(m, q),
    ensures
        path_ok(m, p.push(q)),
{
    let r = p.push(q);
    assert forall|i: int| 0 <= i < r.len() implies on_grid(m, #[trigger] r[i]) by {
        if i < p.len() {
            assert(r[i] == p[i]);
        }
    }
    assert forall|i: int| 1 <= i < r.len() implies passable(m, #[trigger] r[i]) by {
        if i < p.len() {
            assert(r[i] == p[i]);
        }
    }
    assert forall|i: int| 1 <= i < r.len() implies adjacent(r[i - 1], #[trigger] r[i]) by {
        if i < p.len() {
            assert(r[i] == p[i] && r[i - 1] == p[i - 1]);
        } else {
            assert(r[i] == q && r[i - 1] == p.last());
        }
    }
}

/// Extending a path by one cell adds a turn exactly when the new move's
/// direction differs from the previous move's direction.
pub proof fn lemma_turns_push(p: Seq<(int, int)>, q: (int, int))
    requires
        p.len() >= 1,
    ensures
        path_turns(p.push(q)) == path_turns(p) + (if p.len() >= 2 && move_dir(
            p[p.len() - 2],
            p[p.len() - 1],
        ) != move_dir(p[p.len() - 1], q) {
            1nat
        } else {
            0nat
        }),
{
    let r = p.push(q);
    assert(r.drop_last() =~= p);
    if p.len() < 2 {
        assert(path_turns(r) == 0);
        assert(path_turns(p) == 0);
    }
}

/// A chain of single-cell moves (not anchored at the entrance).
pub open spec fn chain_ok(c: Seq<(int, int)>) -> bool {
    forall|i: int| 1 <= i < c.len() ==> adjacent(c[i - 1], #[trigger] c[i])
}

/// Turns of a continuation begun while moving in direction `d`: every move
/// in a different direction than the one before it is a turn, including the
/// very first move of the continuation.
pub open spec fn cont_turns(d: Direction, c: Seq<(int, int)>) -> nat
    decreases c.len(),
{
    if c.len() < 2 {
        0
    } else {
        let d2 = move_dir(c[0], c[1]);
        (if d2 != d {
            1nat
        } else {
            0nat
        }) + cont_turns(d2, c.subrange(1, c.len() as int))
    }
}

/// The direction of the last move of a continuation, or its starting
/// direction while it has made no move yet.
spec fn last_dir(d: Direction, c: Seq<(int, int)>) -> Direction {
    if c.len() < 2 {
        d
    } else {
        move_dir(c[c.len() - 2], c[c.len() - 1])
    }
}

/// Extending a continuation by one cell adds a turn exactly when the new
/// move's direction differs from the last one.
proof fn lemma_cont_turns_snoc(d: Direction, c: Seq<(int, int)>, q: (int, int))
    requires
        c.len() >= 1,
    ensures
        cont_turns(d, c.push(q)) == cont_turns(d, c) + (if move_dir(c.last(), q) != last_dir(
            d,
            c,
        ) {
            1nat
        } else {
            0nat
        }),
    decreases c.len(),
{
    if c.len() == 1 {
        let e = c.push(q);
        assert(e.subrange(1, e.len() as int) =~= seq![q]);
        assert(cont_turns(move_dir(c[0], q), seq![q]) == 0);
    } else {
        let d2 = move_dir(c[0], c[1]);
        let tail = c.subrange(1, c.len() as int);
        lemma_cont_turns_snoc(d2, tail, q);
        assert(c.push(q).subrange(1, c.len() as int + 1) =~= tail.push(q));
        assert(c.push(q)[0] == c[0] && c.push(q)[1] == c[1]);
        assert(tail.last() == c.last());
        assert(last_dir(d2, tail) == last_dir(d, c));
    }
}

/// The turns of a path are the turns of its continuation after the first
/// move: the two countings agree.
pub proof fn lemma_path_turns_is_cont_turns(p: Seq<(int, int)>)
    requires
        p.len() >= 2,
    ensures
        path_turns(p) == cont_turns(move_dir(p[0], p[1]), p.subrange(1, p.len() as int)),
    decreases p.len(),
{
    let d1 = move_dir(p[0], p[1]);
    if p.len() == 2 {
        assert(p.subrange(1, 2) =~= seq![p[1]]);
        assert(cont_turns(d1, seq![p[1]]) == 0);
    } else {
        let dl = p.drop_last();
        let dls = dl.subrange(1, dl.len() as int);
        lemma_path_turns_is_cont_turns(dl);
        lemma_cont_turns_snoc(d1, dls, p.last());
        assert(p.subrange(1, p.len() as int) =~= dls.push(p.last()));
        assert(dls.last() == p[p.len() - 2]);
        assert(last_dir(d1, dls) == move_dir(p[p.len() - 3], p[p.len() - 2]));
    }
}

/// An adjacent move is one step in the direction `move_dir` reports.
pub proof fn lemma_move_is_step(a: (int, int), b: (int, int))
    requires
        adjacent(a, b),
    ensures
        b == dir_step(a, move_dir(a, b)),
{
}

/// A continuation without turns repeats its starting direction at every
/// move.
proof fn lemma_straight_run_dirs(d: Direction, c: Seq<(int, int)>)
    requires
        cont_turns(d, c) == 0,
    ensures
        forall|i: int| 1 <= i < c.len() ==> move_dir(c[i - 1], #[trigger] c[i]) == d,
    decreases c.len(),
{
    if c.len() >= 2 {
        let tail = c.subrange(1, c.len() as int);
        lemma_straight_run_dirs(d, tail);
        assert forall|i: int| 1 <= i < c.len() implies move_dir(c[i - 1], #[trigger] c[i])
            == d by {
            if i >= 2 {
                assert(tail[i - 2] == c[i - 1] && tail[i - 1] == c[i]);
                assert(move_dir(tail[i - 2], tail[i - 1]) == d);
            }
        }
    }
}

/// A horizontal continuation without turns keeps its row; a vertical one
/// keeps its column.
pub proof fn lemma_straight_keeps_line(d: Direction, c: Seq<(int, int)>, i: int)
    requires
        chain_ok(c),
        cont_turns(d, c) == 0,
        0 <= i < c.len(),
    ensures
        (d == Direction::Right || d == Direction::Left) ==> c[i].1 == c[0].1,
        (d == Direction::Up || d == Direction::Down) ==> c[i].0 == c[0].0,
    decreases i,
{
    if i > 0 {
        lemma_straight_keeps_line(d, c, i - 1);
        lemma_straight_run_dirs(d, c);
        lemma_move_is_step(c[i - 1], c[i]);
    }
}

/// Law: the solver's contract pins its result down completely, so any two
/// results that satisfy it on the same grid are equal: repeated calls on
/// the same grid value return the same result.
pub proof fn lemma_solve_deterministic(m: Seq<Seq<bool>>, r1: Option<usize>, r2: Option<usize>)
    requires
        solve_post(m, r1),
        solve_post(m, r2),
    ensures
        r1 == r2,
{
    match (r1, r2) {
        (Option::Some(t1), Option::Some(t2)) => {
            if t1 < usize::MAX {
                let q1 = choose|p: Seq<(int, int)>|
                    #[trigger] reaches_goal(m, p) && path_turns(p) >= t1 && (t1 < usize::MAX
                        ==> path_turns(p) == t1);
                assert(reaches_goal(m, q1) && path_turns(q1) == t1);
                assert(t2 <= t1);
            }
            if t2 < usize::MAX {
                let q2 = choose|p: Seq<(int, int)>|
                    #[trigger] reaches_goal(m, p) && path_turns(p) >= t2 && (t2 < usize::MAX
                        ==> path_turns(p) == t2);
                assert(reaches_goal(m, q2) && path_turns(q2) == t2);
                assert(t1 <= t2);
            }
        },
        (Option::None, Option::None) => {},
        (Option::Some(t1), Option::None) => {
            assert(maze_has_path(m));
        },
        (Option::None, Option::Some(t2)) => {
            assert(maze_has_path(m));
        },
    }
}

/// Law: a returned turn count below the saturation bound is realized exactly
/// by an actually passable route.
pub proof fn lemma_solved_count_achieved(m: Seq<Seq<bool>>, r: Option<usize>, t: usize)
    requires
        solve_post(m, r),
        r == Option::<usize>::Some(t),
        t < usize::MAX,
    ensures
        exists|p: Seq<(int, int)>| #[trigger] reaches_goal(m, p) && path_turns(p) == t,
{
    let p = choose|p: Seq<(int, int)>|
        #[trigger] reaches_goal(m, p) && path_turns(p) >= t && (t < usize::MAX ==> path_turns(p)
            == t);
    assert(reaches_goal(m, p) && path_turns(p) == t);
}

/// A grid whose middle row is one open corridor from the entrance's row to
/// the exit: three rows, with every cell of row 1 after the entrance
/// passable.  On such a grid the exit `(width - 1, height - 2)` sits at the
/// end of the entrance's own row.
pub open spec fn straight_corridor(m: Seq<Seq<bool>>) -> bool {
    &&& grid_wf(m)
    &&& grid_height(m) == 3
    &&& forall|x: int| 1 <= x < grid_width(m) ==> passable(m, (x, 1))
}

/// The first `k` cells of row 1, left to right.
spec fn row_path(k: int) -> Seq<(int, int)> {
    Seq::new(k as nat, |i: int| (i, 1))
}

proof fn lemma_row_path_turns(k: int)
    requires
        k >= 1,
    ensures
        path_turns(row_path(k)) == 0,
    decreases k,
{
    let p = row_path(k);
    if k >= 3 {
        lemma_row_path_turns(k - 1);
        assert(p.drop_last() =~= row_path(k - 1));
        assert(move_dir(p[k - 3], p[k - 2]) == Direction::Right);
        assert(move_dir(p[k - 2], p[k - 1]) == Direction::Right);
    }
}

/// Law: a straight open corridor from entrance to exit admits a route with
/// no turns at all.
pub proof fn lemma_corridor_zero_turn_path(m: Seq<Seq<bool>>)
    requires
        straight_corridor(m),
    ensures
        exists|p: Seq<(int, int)>| #[trigger] reaches_goal(m, p) && path_turns(p) == 0,
        maze_has_path(m),
{
    let w = grid_width(m);
    let p = row_path(w);
    assert(p[0] == start_pos());
    assert forall|i: int| 0 <= i < p.len() implies on_grid(m, #[trigger] p[i]) by {
        assert(p[i] == (i, 1int));
    }
    assert forall|i: int| 1 <= i < p.len() implies passable(m, #[trigger] p[i]) by {
        assert(p[i] == (i, 1int));
    }
    assert forall|i: int| 1 <= i < p.len() implies adjacent(p[i - 1], #[trigger] p[i]) by {
        assert(p[i] == (i, 1int) && p[i - 1] == (i - 1, 1int));
    }
    assert(path_ok(m, p));
    assert(p.last() == (w - 1, 1int));
    assert(goal_pos(m) == (w - 1, 1int));
    lemma_row_path_turns(w);
    assert(reaches_goal(m, p) && path_turns(p) == 0);
}

/// Law: on a straight open corridor directly connecting the entrance to the
/// exit, the solver reports zero turns.
pub proof fn lemma_corridor_solve_zero(m: Seq<Seq<bool>>, r: Option<usize>)
    requires
        straight_corridor(m),
        solve_post(m, r),
    ensures
        r == Option::<usize>::Some(0usize),
{
    lemma_corridor_zero_turn_path(m);
    match r {
        Option::Some(t) => {
            let p = choose|p: Seq<(int, int)>| #[trigger] reaches_goal(m, p) && path_turns(p)
                == 0;
            assert(t <= path_turns(p));
        },
        Option::None => {
            assert(maze_has_path(m));
            assert(false);
        },
    }
}

} // verus!
