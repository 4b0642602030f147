pub mod bfs;
pub mod dfs;

use crate::board::grid::{col_of, delta_target, deltas_for, grid_column_len, grid_rect, is_adjacent, orthogonal_neighbor, pos_in_bounds, row_of, CellAdjacency, Position2d, Position2dDiff};
use vstd::prelude::*;

verus! {

/// A walk over the grid: starts at `root`, ends at `goal`, stays in bounds,
/// and each step leads to a neighbor under the grid's adjacency offsets.
pub open spec fn valid_path<T>(
    cells: Seq<Seq<T>>,
    deltas: Seq<Position2dDiff>,
    path: Seq<Position2d>,
    root: Position2d,
    goal: Position2d,
) -> bool {
    &&& path.len() >= 1
    &&& path[0] == root
    &&& path[path.len() - 1] == goal
    &&& pos_in_bounds(cells, root)
    &&& forall|i: int|
        0 <= i < path.len() - 1 ==> is_adjacent(cells, deltas, #[trigger] path[i], path[i + 1])
}

/// Some walk connects `root` to `goal`.
pub open spec fn reachable<T>(
    cells: Seq<Seq<T>>,
    deltas: Seq<Position2dDiff>,
    root: Position2d,
    goal: Position2d,
) -> bool {
    exists|path: Seq<Position2d>| valid_path(cells, deltas, path, root, goal)
}

/// The marker entry for a position (meaningful when in bounds).
pub open spec fn marked_at(marked: Seq<Seq<bool>>, p: Position2d) -> bool {
    marked[p.0 as int][p.1 as int]
}

/// The marker grid mirrors the searched grid cell for cell.
pub open spec fn same_shape<T>(cells: Seq<Seq<T>>, marked: Seq<Seq<bool>>) -> bool {
    &&& marked.len() == cells.len()
    &&& forall|i: int| 0 <= i < cells.len() ==> (#[trigger] marked[i]).len() == cells[i].len()
}

/// A set of marks that contains `root` and is closed under adjacency
/// swallows every walk that starts at `root`: its endpoint is marked too.
pub proof fn lemma_closed_marks_cover_paths<T>(
    cells: Seq<Seq<T>>,
    deltas: Seq<Position2dDiff>,
    marked: Seq<Seq<bool>>,
    path: Seq<Position2d>,
    root: Position2d,
    goal: Position2d,
)
    requires
        same_shape(cells, marked),
        valid_path(cells, deltas, path, root, goal),
        marked_at(marked, root),
        forall|p: Position2d, q: Position2d|
            pos_in_bounds(cells, p) && marked_at(marked, p) && #[trigger] is_adjacent(
                cells,
                deltas,
                p,
                q,
            ) ==> marked_at(marked, q),
    ensures
        marked_at(marked, goal),
    decreases path.len(),
{
    if path.len() == 1 {
    } else {
        let next = path[1];
        assert(is_adjacent(cells, deltas, path[0], next));
        crate::board::grid::lemma_is_adjacent_in_bounds(cells, deltas, root, next);
        let rest = path.skip(1);
        assert(valid_path(cells, deltas, rest, next, goal)) by {
            assert(rest.len() == path.len() - 1);
            assert(rest[0] == next);
            assert(rest[rest.len() - 1] == path[path.len() - 1]);
            assert(forall|i: int|
                0 <= i < rest.len() - 1 ==> is_adjacent(
                    cells,
                    deltas,
                    #[trigger] rest[i],
                    rest[i + 1],
                )) by {
                assert(forall|i: int| 0 <= i < rest.len() ==> rest[i] == path[i + 1]);
            }
        }
        lemma_closed_marks_cover_paths(cells, deltas, marked, rest, next, goal);
    }
}

/// How many cells of one row are still unmarked.
pub open spec fn row_unmarked(row: Seq<bool>) -> nat
    decreases row.len(),
{
    if row.len() == 0 {
        0
    } else {
        (if !row[0] {
            1nat
        } else {
            0nat
        }) + row_unmarked(row.skip(1))
    }
}

/// How many cells of the whole marker grid are still unmarked.
pub open spec fn grid_unmarked(marked: Seq<Seq<bool>>) -> nat
    decreases marked.len(),
{
    if marked.len() == 0 {
        0
    } else {
        row_unmarked(marked[0]) + grid_unmarked(marked.skip(1))
    }
}

/// Marking one unmarked cell of a row lowers its count by one.
proof fn lemma_row_mark(row: Seq<bool>, j: int)
    requires
        0 <= j < row.len(),
        !row[j],
    ensures
        row_unmarked(row.update(j, true)) + 1 == row_unmarked(row),
    decreases row.len(),
{
    let upd = row.update(j, true);
    if j == 0 {
        assert(upd.skip(1) =~= row.skip(1));
    } else {
        assert(upd.skip(1) =~= row.skip(1).update(j - 1, true));
        assert(upd[0] == row[0]);
        lemma_row_mark(row.skip(1), j - 1);
    }
}

/// Marking one unmarked cell lowers the grid's count by one.
pub proof fn lemma_grid_mark(marked: Seq<Seq<bool>>, p: Position2d)
    requires
        (p.0 as int) < marked.len(),
        (p.1 as int) < marked[p.0 as int].len(),
        !marked_at(marked, p),
    ensures
        grid_unmarked(
            marked.update(p.0 as int, marked[p.0 as int].update(p.1 as int, true)),
        ) + 1 == grid_unmarked(marked),
    decreases marked.len(),
{
    let i = p.0 as int;
    let j = p.1 as int;
    let upd = marked.update(i, marked[i].update(j, true));
    if i == 0 {
        lemma_row_mark(marked[0], j);
        assert(upd.skip(1) =~= marked.skip(1));
    } else {
        assert(upd[0] == marked[0]);
        assert(upd.skip(1) =~= marked.skip(1).update(i - 1, marked.skip(1)[i - 1].update(j, true)));
        let q = ((p.0 - 1) as usize, p.1);
        lemma_grid_mark(marked.skip(1), q);
    }
}

/// The marker grid with one more position marked.
pub open spec fn spec_mark(e: Seq<Seq<bool>>, p: Position2d) -> Seq<Seq<bool>> {
    e.update(p.0 as int, e[p.0 as int].update(p.1 as int, true))
}

/// The visited marks a fresh search starts from: one unset marker per cell.
pub open spec fn blank_marks<T>(cells: Seq<Seq<T>>) -> Seq<Seq<bool>> {
    Seq::new(cells.len(), |i: int| Seq::new(cells[i].len(), |j: int| false))
}

/// No two positions of the path coincide.
pub open spec fn path_distinct(path: Seq<Position2d>) -> bool {
    forall|a: int, b: int| 0 <= a < b < path.len() ==> path[a] != path[b]
}

/// Every position of the path carries a mark.
pub open spec fn path_positions_marked(e: Seq<Seq<bool>>, path: Seq<Position2d>) -> bool {
    forall|a: int| 0 <= a < path.len() ==> marked_at(e, #[trigger] path[a])
}

/// Every position of a valid walk is in bounds.
pub proof fn lemma_valid_path_all_in_bounds<T>(
    cells: Seq<Seq<T>>,
    deltas: Seq<Position2dDiff>,
    path: Seq<Position2d>,
    root: Position2d,
    goal: Position2d,
)
    requires
        valid_path(cells, deltas, path, root, goal),
    ensures
        forall|i: int| 0 <= i < path.len() ==> pos_in_bounds(cells, #[trigger] path[i]),
{
    assert forall|i: int| 0 <= i < path.len() implies pos_in_bounds(cells, #[trigger] path[i]) by {
        if i > 0 {
            assert(is_adjacent(cells, deltas, path[i - 1], path[i]));
            crate::board::grid::lemma_is_adjacent_in_bounds(cells, deltas, path[i - 1], path[i]);
        }
    }
}

/// The last position of a recorded path.
pub open spec fn endpoint(path: Vec<Position2d>) -> Position2d {
    path@[path@.len() - 1]
}

/// One recorded path of a search worklist: a walk from the search root to
/// its own endpoint.
pub open spec fn path_ok<T>(
    cells: Seq<Seq<T>>,
    deltas: Seq<Position2dDiff>,
    path: Vec<Position2d>,
    root: Position2d,
) -> bool {
    valid_path(cells, deltas, path@, root, endpoint(path))
}

/// The endpoint of a valid walk is in bounds.
pub proof fn lemma_valid_path_goal_in_bounds<T>(
    cells: Seq<Seq<T>>,
    deltas: Seq<Position2dDiff>,
    path: Seq<Position2d>,
    root: Position2d,
    goal: Position2d,
)
    requires
        valid_path(cells, deltas, path, root, goal),
    ensures
        pos_in_bounds(cells, goal),
{
    if path.len() == 1 {
    } else {
        let n = path.len() - 1;
        assert(is_adjacent(cells, deltas, path[n - 1], path[n]));
        crate::board::grid::lemma_is_adjacent_in_bounds(cells, deltas, path[n - 1], path[n]);
    }
}

/// One adjacency step in front of a reachable target keeps it reachable.
proof fn lemma_reachable_prepend<T>(
    cells: Seq<Seq<T>>,
    deltas: Seq<Position2dDiff>,
    p: Position2d,
    p2: Position2d,
    q: Position2d,
)
    requires
        is_adjacent(cells, deltas, p, p2),
        pos_in_bounds(cells, p),
        reachable(cells, deltas, p2, q),
    ensures
        reachable(cells, deltas, p, q),
{
    let path = choose|path: Seq<Position2d>| valid_path(cells, deltas, path, p2, q);
    let path2 = seq![p] + path;
    assert(valid_path(cells, deltas, path2, p, q)) by {
        assert(path2[0] == p);
        assert(forall|i: int| 0 <= i < path.len() ==> path2[i + 1] == #[trigger] path[i]);
        assert(path2[path2.len() - 1] == path[path.len() - 1]);
        assert forall|i: int| 0 <= i < path2.len() - 1 implies is_adjacent(
            cells,
            deltas,
            #[trigger] path2[i],
            path2[i + 1],
        ) by {
            if i == 0 {
                assert(path2[0] == p && path2[1] == path[0]);
            } else {
                assert(path2[i] == path[i - 1] && path2[i + 1] == path[i]);
            }
        }
    }
}

/// How many orthogonal steps separate two positions.
pub open spec fn manhattan(p: Position2d, q: Position2d) -> int {
    (if p.0 >= q.0 {
        p.0 - q.0
    } else {
        q.0 - p.0
    }) + (if p.1 >= q.1 {
        p.1 - q.1
    } else {
        q.1 - p.1
    })
}

/// One orthogonal unit step to an on-board target is an adjacency step
/// under every supported policy: each policy's enumeration holds the four
/// orthogonal offsets.
proof fn lemma_orthogonal_step_adjacent<T>(
    cells: Seq<Seq<T>>,
    adjacency: CellAdjacency,
    p: Position2d,
    q: Position2d,
)
    requires
        pos_in_bounds(cells, q),
        orthogonal_neighbor(p, q),
    ensures
        is_adjacent(cells, deltas_for(adjacency), p, q),
{
    let d = deltas_for(adjacency);
    match adjacency {
        CellAdjacency::Side => {
            assert(d == crate::board::grid::side_deltas());
            if row_of(q) + 1 == row_of(p) && col_of(q) == col_of(p) {
                assert(delta_target(cells, p, d[0]) == Some(q));
            } else if row_of(p) + 1 == row_of(q) && col_of(q) == col_of(p) {
                assert(delta_target(cells, p, d[3]) == Some(q));
            } else if col_of(q) + 1 == col_of(p) && row_of(q) == row_of(p) {
                assert(delta_target(cells, p, d[1]) == Some(q));
            } else {
                assert(delta_target(cells, p, d[2]) == Some(q));
            }
        },
        _ => {
            assert(d == crate::board::grid::vertex_deltas());
            if row_of(q) + 1 == row_of(p) && col_of(q) == col_of(p) {
                assert(delta_target(cells, p, d[1]) == Some(q));
            } else if row_of(p) + 1 == row_of(q) && col_of(q) == col_of(p) {
                assert(delta_target(cells, p, d[6]) == Some(q));
            } else if col_of(q) + 1 == col_of(p) && row_of(q) == row_of(p) {
                assert(delta_target(cells, p, d[3]) == Some(q));
            } else {
                assert(delta_target(cells, p, d[4]) == Some(q));
            }
        },
    }
}

/// A rectangular grid is fully connected: every on-board cell reaches
/// every other under the grid's own adjacency policy, walking rows first
/// and then columns.
pub proof fn lemma_grid_fully_connected<T>(
    cells: Seq<Seq<T>>,
    adjacency: CellAdjacency,
    p: Position2d,
    q: Position2d,
)
    requires
        grid_rect(cells),
        pos_in_bounds(cells, p),
        pos_in_bounds(cells, q),
    ensures
        reachable(cells, deltas_for(adjacency), p, q),
    decreases manhattan(p, q),
{
    let deltas = deltas_for(adjacency);
    if p == q {
        let path = seq![p];
        assert(valid_path(cells, deltas, path, p, q));
        assert(reachable(cells, deltas, p, q));
    } else {
        let p2: Position2d = if p.0 < q.0 {
            ((p.0 + 1) as usize, p.1)
        } else if p.0 > q.0 {
            ((p.0 - 1) as usize, p.1)
        } else if p.1 < q.1 {
            (p.0, (p.1 + 1) as usize)
        } else {
            (p.0, (p.1 - 1) as usize)
        };
        assert(pos_in_bounds(cells, p2)) by {
            assert(cells[row_of(p)].len() == grid_column_len(cells));
            assert(cells[row_of(q)].len() == grid_column_len(cells));
            assert(cells[row_of(p2)].len() == grid_column_len(cells));
        }
        assert(orthogonal_neighbor(p, p2));
        lemma_orthogonal_step_adjacent(cells, adjacency, p, p2);
        assert(manhattan(p2, q) < manhattan(p, q));
        lemma_grid_fully_connected(cells, adjacency, p2, q);
        lemma_reachable_prepend(cells, deltas, p, p2, q);
    }
}

/// The steps of a returned walk are mutual neighbors: adjacency is
/// symmetric along the whole path.
pub proof fn lemma_path_steps_mutual<T>(
    cells: Seq<Seq<T>>,
    adjacency: CellAdjacency,
    path: Seq<Position2d>,
    root: Position2d,
    goal: Position2d,
)
    requires
        valid_path(cells, deltas_for(adjacency), path, root, goal),
    ensures
        forall|i: int|
            0 <= i < path.len() - 1 ==> is_adjacent(
                cells,
                deltas_for(adjacency),
                #[trigger] path[i + 1],
                path[i],
            ),
{
    let deltas = deltas_for(adjacency);
    assert forall|i: int| 0 <= i < path.len() - 1 implies is_adjacent(
        cells,
        deltas,
        #[trigger] path[i + 1],
        path[i],
    ) by {
        assert(pos_in_bounds(cells, path[i])) by {
            if i > 0 {
                assert(is_adjacent(cells, deltas, path[i - 1], path[i]));
                crate::board::grid::lemma_is_adjacent_in_bounds(cells, deltas, path[i - 1], path[i]);
            }
        }
        assert(is_adjacent(cells, deltas, path[i], path[i + 1]));
        crate::board::grid::lemma_adjacency_symmetric(cells, adjacency, path[i], path[i + 1]);
    }
}

/// A fresh copy of a path of positions.
pub(crate) fn copy_path(path: &Vec<Position2d>) -> (r: Vec<Position2d>)
    ensures
        r@ == path@,
{
    let mut r: Vec<Position2d> = Vec::new();
    let mut i: usize = 0;
    while i < path.len()
        invariant
            i <= path@.len(),
            r@ == path@.take(i as int),
        decreases path@.len() - i,
    {
        r.push(path[i]);
        proof {
            assert(r@ =~= path@.take(i + 1));
        }
        i = i + 1;
    }
    proof {
        assert(path@.take(path@.len() as int) =~= path@);
    }
    r
}

} // verus!
