use crate::board::grid::{
    adjacent_positions, grid_rect, is_adjacent, lemma_adjacent_positions_iff,
    lemma_adjacent_positions_in_bounds, pos_in_bounds, Grid, GridBuilder, GridExt, Position2d,
    Position2dDiff,
};
use crate::pathfinder::{
    blank_marks, copy_path, endpoint, grid_unmarked, lemma_closed_marks_cover_paths,
    lemma_grid_mark, lemma_valid_path_all_in_bounds, lemma_valid_path_goal_in_bounds, marked_at,
    path_distinct, path_ok, path_positions_marked, reachable, same_shape, spec_mark, valid_path,
};
use vstd::prelude::*;

verus! {

/// A worklist of recorded paths, as plain sequences.
pub open spec fn queue_view(queue: Seq<Vec<Position2d>>) -> Seq<Seq<Position2d>> {
    queue.map_values(|pv: Vec<Position2d>| pv@)
}

/// One enqueue pass over the endpoint's neighbor list: each yet unmarked
/// neighbor is marked and its extended path inserted at the queue's front,
/// in enumeration order.
pub open spec fn bfs_expand(
    e: Seq<Seq<bool>>,
    path: Seq<Position2d>,
    rem: Seq<Position2d>,
    queue: Seq<Seq<Position2d>>,
) -> (Seq<Seq<bool>>, Seq<Seq<Position2d>>)
    decreases rem.len(),
{
    if rem.len() == 0 {
        (e, queue)
    } else {
        let q = rem[0];
        if !marked_at(e, q) {
            bfs_expand(spec_mark(e, q), path, rem.skip(1), queue.insert(0, path.push(q)))
        } else {
            bfs_expand(e, path, rem.skip(1), queue)
        }
    }
}

/// Expanding keeps the marker shape, never unmarks, and grows the queue
/// only while marking.
proof fn lemma_bfs_expand_props<T>(
    cells: Seq<Seq<T>>,
    e: Seq<Seq<bool>>,
    path: Seq<Position2d>,
    rem: Seq<Position2d>,
    queue: Seq<Seq<Position2d>>,
)
    requires
        same_shape(cells, e),
        forall|i: int| 0 <= i < rem.len() ==> pos_in_bounds(cells, #[trigger] rem[i]),
    ensures
        same_shape(cells, bfs_expand(e, path, rem, queue).0),
        grid_unmarked(bfs_expand(e, path, rem, queue).0) <= grid_unmarked(e),
        grid_unmarked(bfs_expand(e, path, rem, queue).0) == grid_unmarked(e) ==> bfs_expand(
            e,
            path,
            rem,
            queue,
        ).1 == queue,
    decreases rem.len(),
{
    if rem.len() == 0 {
    } else {
        let q = rem[0];
        assert(forall|i: int|
            0 <= i < rem.skip(1).len() ==> pos_in_bounds(cells, #[trigger] rem.skip(1)[i]));
        if !marked_at(e, q) {
            lemma_grid_mark(e, q);
            assert(same_shape(cells, spec_mark(e, q)));
            lemma_bfs_expand_props(cells, spec_mark(e, q), path, rem.skip(1), queue.insert(
                0,
                path.push(q),
            ));
        } else {
            lemma_bfs_expand_props(cells, e, path, rem.skip(1), queue);
        }
    }
}

/// The search's worklist discipline, step by step over marks and queue:
/// the queue's back entry is dequeued; a dequeued path ending at the goal
/// is the result; otherwise the in-bounds neighbors of its endpoint that
/// are not yet marked are marked and enqueued at the front, and the search
/// goes on. This pins the exact path the search returns.
#[verifier::opaque]
pub open spec fn bfs_from<T>(
    cells: Seq<Seq<T>>,
    deltas: Seq<Position2dDiff>,
    e: Seq<Seq<bool>>,
    queue: Seq<Seq<Position2d>>,
    goal: Position2d,
) -> Option<Seq<Position2d>>
    decreases grid_unmarked(e), queue.len(),
        when same_shape(cells, e)
    via bfs_from_decreases::<T>
{
    if queue.len() == 0 {
        None
    } else {
        let path = queue.last();
        let rest = queue.drop_last();
        if path.last() == goal {
            Some(path)
        } else {
            let ex = bfs_expand(
                e,
                path,
                adjacent_positions(cells, deltas, path.last()),
                rest,
            );
            bfs_from(cells, deltas, ex.0, ex.1, goal)
        }
    }
}

#[via_fn]
proof fn bfs_from_decreases<T>(
    cells: Seq<Seq<T>>,
    deltas: Seq<Position2dDiff>,
    e: Seq<Seq<bool>>,
    queue: Seq<Seq<Position2d>>,
    goal: Position2d,
) {
    if queue.len() != 0 {
        let path = queue.last();
        let rest = queue.drop_last();
        if path.last() != goal {
            let aps = adjacent_positions(cells, deltas, path.last());
            lemma_adjacent_positions_in_bounds(cells, deltas, path.last());
            lemma_bfs_expand_props(cells, e, path, aps, rest);
        }
    }
}

/// An exhausted worklist ends the search without a result.
pub proof fn lemma_bfs_from_empty<T>(
    cells: Seq<Seq<T>>,
    deltas: Seq<Position2dDiff>,
    e: Seq<Seq<bool>>,
    queue: Seq<Seq<Position2d>>,
    goal: Position2d,
)
    requires
        same_shape(cells, e),
        queue.len() == 0,
    ensures
        bfs_from(cells, deltas, e, queue, goal) is None,
{
    reveal(bfs_from);
}

/// A dequeued path ending at the goal is the search's result.
pub proof fn lemma_bfs_from_found<T>(
    cells: Seq<Seq<T>>,
    deltas: Seq<Position2dDiff>,
    e: Seq<Seq<bool>>,
    queue: Seq<Seq<Position2d>>,
    goal: Position2d,
)
    requires
        same_shape(cells, e),
        queue.len() >= 1,
        queue.last().last() == goal,
    ensures
        bfs_from(cells, deltas, e, queue, goal) == Some(queue.last()),
{
    reveal(bfs_from);
}

/// A dequeued path not ending at the goal hands the search on to the
/// expanded state.
pub proof fn lemma_bfs_from_step<T>(
    cells: Seq<Seq<T>>,
    deltas: Seq<Position2dDiff>,
    e: Seq<Seq<bool>>,
    queue: Seq<Seq<Position2d>>,
    goal: Position2d,
)
    requires
        same_shape(cells, e),
        queue.len() >= 1,
        queue.last().last() != goal,
    ensures
        bfs_from(cells, deltas, e, queue, goal) == ({
            let ex = bfs_expand(
                e,
                queue.last(),
                adjacent_positions(cells, deltas, queue.last().last()),
                queue.drop_last(),
            );
            bfs_from(cells, deltas, ex.0, ex.1, goal)
        }),
{
    reveal(bfs_from);
    let path = queue.last();
    let aps = adjacent_positions(cells, deltas, path.last());
    lemma_adjacent_positions_in_bounds(cells, deltas, path.last());
    lemma_bfs_expand_props(cells, e, path, aps, queue.drop_last());
}

/// A fresh search whose root is the goal stops on its first dequeue with
/// the single-element path.
pub proof fn lemma_bfs_from_initial_goal<T>(
    cells: Seq<Seq<T>>,
    deltas: Seq<Position2dDiff>,
    root: Position2d,
)
    requires
        pos_in_bounds(cells, root),
    ensures
        bfs_from(
            cells,
            deltas,
            spec_mark(blank_marks(cells), root),
            seq![seq![root]],
            root,
        ) == Some(seq![root]),
{
    let e = spec_mark(blank_marks(cells), root);
    assert(same_shape(cells, e)) by {
        assert(forall|i: int|
            0 <= i < cells.len() ==> (#[trigger] blank_marks(cells)[i]).len() == cells[i].len());
        assert(forall|i: int|
            0 <= i < cells.len() ==> (#[trigger] e[i]).len() == cells[i].len());
    }
    let queue: Seq<Seq<Position2d>> = seq![seq![root]];
    assert(queue.last() == seq![root]);
    assert(queue.last().last() == root);
    lemma_bfs_from_found(cells, deltas, e, queue, root);
}

/// Some queued path ends at the given position.
pub open spec fn queue_has_endpoint(queue: Seq<Vec<Position2d>>, p: Position2d) -> bool {
    exists|j: int| 0 <= j < queue.len() && endpoint(#[trigger] queue[j]) == p
}

/// What holds between iterations of the search: every queued entry is a
/// valid walk from the root with a marked endpoint, no two entries share an
/// endpoint, and every marked cell either waits in the queue or is fully
/// processed (it is not the goal and all its neighbors are marked).
pub open spec fn bfs_inv<T>(
    cells: Seq<Seq<T>>,
    deltas: Seq<Position2dDiff>,
    e: Seq<Seq<bool>>,
    queue: Seq<Vec<Position2d>>,
    root: Position2d,
    goal: Position2d,
) -> bool {
    &&& same_shape(cells, e)
    &&& marked_at(e, root)
    &&& forall|j: int|
        0 <= j < queue.len() ==> path_ok(cells, deltas, #[trigger] queue[j], root) && marked_at(
            e,
            endpoint(queue[j]),
        )
    &&& forall|j: int, k: int|
        0 <= j < k < queue.len() ==> endpoint(#[trigger] queue[j]) != endpoint(
            #[trigger] queue[k],
        )
    &&& forall|p: Position2d|
        pos_in_bounds(cells, p) && marked_at(e, p) ==> (queue_has_endpoint(queue, p) || (p != goal
            && forall|q: Position2d|
            #[trigger] is_adjacent(cells, deltas, p, q) ==> marked_at(e, q)))
}

/// What holds while the neighbors of the freshly popped endpoint `p` are
/// being handled: as `bfs_inv`, except that `p` itself is neither queued
/// nor yet fully processed.
pub open spec fn bfs_step_inv<T>(
    cells: Seq<Seq<T>>,
    deltas: Seq<Position2dDiff>,
    e: Seq<Seq<bool>>,
    queue: Seq<Vec<Position2d>>,
    root: Position2d,
    goal: Position2d,
    p: Position2d,
) -> bool {
    &&& same_shape(cells, e)
    &&& marked_at(e, root)
    &&& marked_at(e, p)
    &&& p != goal
    &&& !queue_has_endpoint(queue, p)
    &&& forall|j: int|
        0 <= j < queue.len() ==> path_ok(cells, deltas, #[trigger] queue[j], root) && marked_at(
            e,
            endpoint(queue[j]),
        )
    &&& forall|j: int, k: int|
        0 <= j < k < queue.len() ==> endpoint(#[trigger] queue[j]) != endpoint(
            #[trigger] queue[k],
        )
    &&& forall|x: Position2d|
        pos_in_bounds(cells, x) && marked_at(e, x) ==> (queue_has_endpoint(queue, x) || x == p || (
        x != goal && forall|q: Position2d|
            #[trigger] is_adjacent(cells, deltas, x, q) ==> marked_at(e, q)))
}

/// Popping the last queued walk, whose endpoint is not the goal, leaves the
/// queue in the stepping state for that endpoint.
proof fn lemma_bfs_pop<T>(
    cells: Seq<Seq<T>>,
    deltas: Seq<Position2dDiff>,
    e: Seq<Seq<bool>>,
    queue: Seq<Vec<Position2d>>,
    root: Position2d,
    goal: Position2d,
    p: Position2d,
)
    requires
        bfs_inv(cells, deltas, e, queue, root, goal),
        queue.len() >= 1,
        p == endpoint(queue[queue.len() - 1]),
        p != goal,
    ensures
        bfs_step_inv(cells, deltas, e, queue.drop_last(), root, goal, p),
        valid_path(cells, deltas, queue[queue.len() - 1]@, root, p),
{
    let rest = queue.drop_last();
    assert(!queue_has_endpoint(rest, p)) by {
        if queue_has_endpoint(rest, p) {
            let j = choose|j: int| 0 <= j < rest.len() && endpoint(#[trigger] rest[j]) == p;
            assert(rest[j] == queue[j]);
            assert(endpoint(queue[j]) != endpoint(queue[queue.len() - 1]));
        }
    }
    assert forall|x: Position2d|
        pos_in_bounds(cells, x) && marked_at(e, x) implies (queue_has_endpoint(rest, x) || x == p
        || (x != goal && forall|q: Position2d|
        #[trigger] is_adjacent(cells, deltas, x, q) ==> marked_at(e, q))) by {
        if queue_has_endpoint(queue, x) {
            let j = choose|j: int| 0 <= j < queue.len() && endpoint(#[trigger] queue[j]) == x;
            if j < queue.len() - 1 {
                assert(rest[j] == queue[j]);
                assert(queue_has_endpoint(rest, x));
            } else {
                assert(x == p);
            }
        }
    }
}

/// Enqueuing the first walk to reach a fresh neighbor `next`, while marking
/// it, keeps the stepping state and extends the handled prefix.
proof fn lemma_bfs_enqueue<T>(
    cells: Seq<Seq<T>>,
    deltas: Seq<Position2dDiff>,
    e_before: Seq<Seq<bool>>,
    e_now: Seq<Seq<bool>>,
    v_before: Seq<Vec<Position2d>>,
    v_now: Seq<Vec<Position2d>>,
    path: Vec<Position2d>,
    new_path: Vec<Position2d>,
    root: Position2d,
    goal: Position2d,
    p: Position2d,
    next: Position2d,
)
    requires
        bfs_step_inv(cells, deltas, e_before, v_before, root, goal, p),
        pos_in_bounds(cells, root),
        pos_in_bounds(cells, p),
        pos_in_bounds(cells, next),
        !marked_at(e_before, next),
        e_now == e_before.update(
            next.0 as int,
            e_before[next.0 as int].update(next.1 as int, true),
        ),
        is_adjacent(cells, deltas, p, next),
        valid_path(cells, deltas, path@, root, p),
        path_distinct(path@),
        path_positions_marked(e_before, path@),
        forall|j: int|
            0 <= j < v_before.len() ==> path_distinct((#[trigger] v_before[j])@)
                && path_positions_marked(e_before, v_before[j]@),
        new_path@ == path@.push(next),
        v_now == v_before.insert(0, new_path),
    ensures
        bfs_step_inv(cells, deltas, e_now, v_now, root, goal, p),
        marked_at(e_now, next),
        forall|x: Position2d|
            pos_in_bounds(cells, x) && x != next ==> marked_at(e_now, x) == marked_at(e_before, x),
        path_distinct(path@),
        path_positions_marked(e_now, path@),
        forall|j: int|
            0 <= j < v_now.len() ==> path_distinct((#[trigger] v_now[j])@)
                && path_positions_marked(e_now, v_now[j]@),
{
    lemma_valid_path_all_in_bounds(cells, deltas, path@, root, p);
    assert(path_positions_marked(e_now, path@)) by {
        assert forall|a: int| 0 <= a < path@.len() implies marked_at(e_now, #[trigger] path@[a]) by {
            assert(marked_at(e_before, path@[a]));
            assert(path@[a] != next);
        }
    }
    assert(path_distinct(new_path@)) by {
        assert forall|a: int, b: int| 0 <= a < b < new_path@.len() implies new_path@[a]
            != new_path@[b] by {
            if b == new_path@.len() - 1 {
                assert(new_path@[a] == path@[a]);
                assert(marked_at(e_before, path@[a]));
                assert(!marked_at(e_before, next));
            } else {
                assert(new_path@[a] == path@[a] && new_path@[b] == path@[b]);
            }
        }
    }
    assert forall|j: int|
        0 <= j < v_now.len() implies path_distinct((#[trigger] v_now[j])@)
        && path_positions_marked(e_now, v_now[j]@) by {
        if j == 0 {
            assert(v_now[0] == new_path);
            assert(path_positions_marked(e_now, new_path@)) by {
                assert forall|a: int| 0 <= a < new_path@.len() implies marked_at(
                    e_now,
                    #[trigger] new_path@[a],
                ) by {
                    if a < path@.len() {
                        assert(new_path@[a] == path@[a]);
                        assert(marked_at(e_now, path@[a]));
                    } else {
                        assert(new_path@[a] == next);
                    }
                }
            }
        } else {
            assert(v_now[j] == v_before[j - 1]);
            let pv = v_before[j - 1];
            assert(path_ok(cells, deltas, pv, root));
            lemma_valid_path_all_in_bounds(cells, deltas, pv@, root, endpoint(pv));
            assert(path_positions_marked(e_now, pv@)) by {
                assert forall|a: int| 0 <= a < pv@.len() implies marked_at(
                    e_now,
                    #[trigger] pv@[a],
                ) by {
                    assert(marked_at(e_before, pv@[a]));
                    assert(!marked_at(e_before, next));
                }
            }
        }
    }
    assert(marked_at(e_now, next));
    assert(forall|x: Position2d|
        pos_in_bounds(cells, x) && x != next ==> marked_at(e_now, x) == marked_at(e_before, x));
    assert(same_shape(cells, e_now));
    assert(next != root);
    assert(next != p);
    assert(marked_at(e_now, root));
    assert(marked_at(e_now, p));
    assert(valid_path(cells, deltas, new_path@, root, next)) by {
        assert(forall|i: int| 0 <= i < path@.len() ==> #[trigger] new_path@[i] == path@[i]);
        assert(new_path@[new_path@.len() - 1] == next);
        assert(new_path@[new_path@.len() - 2] == p);
    }
    assert(endpoint(new_path) == next);
    assert(v_now[0] == new_path);
    assert(forall|j: int| 0 <= j < v_before.len() ==> v_now[j + 1] == #[trigger] v_before[j]);
    assert forall|x: Position2d| queue_has_endpoint(v_before, x) implies queue_has_endpoint(
        v_now,
        x,
    ) by {
        let j = choose|j: int| 0 <= j < v_before.len() && endpoint(#[trigger] v_before[j]) == x;
        assert(endpoint(v_now[j + 1]) == x);
    }
    assert(queue_has_endpoint(v_now, next)) by {
        assert(endpoint(v_now[0]) == next);
    }
    assert forall|j: int| 0 <= j < v_now.len() implies path_ok(
        cells,
        deltas,
        #[trigger] v_now[j],
        root,
    ) && marked_at(e_now, endpoint(v_now[j])) by {
        if j == 0 {
            assert(v_now[0] == new_path);
        } else {
            assert(v_now[j] == v_before[j - 1]);
            assert(path_ok(cells, deltas, v_before[j - 1], root));
            lemma_valid_path_goal_in_bounds(
                cells,
                deltas,
                v_before[j - 1]@,
                root,
                endpoint(v_before[j - 1]),
            );
            assert(endpoint(v_before[j - 1]) != next);
            assert(marked_at(e_now, endpoint(v_before[j - 1])));
        }
    }
    assert forall|j: int, k: int| 0 <= j < k < v_now.len() implies endpoint(#[trigger] v_now[j])
        != endpoint(#[trigger] v_now[k]) by {
        if j == 0 {
            assert(endpoint(v_now[k]) == endpoint(v_before[k - 1]));
            assert(marked_at(e_before, endpoint(v_before[k - 1])));
        } else {
            assert(endpoint(v_now[j]) == endpoint(v_before[j - 1]));
            assert(endpoint(v_now[k]) == endpoint(v_before[k - 1]));
        }
    }
    assert(!queue_has_endpoint(v_now, p)) by {
        if queue_has_endpoint(v_now, p) {
            let j = choose|j: int| 0 <= j < v_now.len() && endpoint(#[trigger] v_now[j]) == p;
            if j == 0 {
                assert(marked_at(e_before, p));
            } else {
                assert(endpoint(v_before[j - 1]) == p);
                assert(queue_has_endpoint(v_before, p));
            }
        }
    }
    assert forall|x: Position2d|
        pos_in_bounds(cells, x) && marked_at(e_now, x) implies (queue_has_endpoint(v_now, x) || x
        == p || (x != goal && forall|q: Position2d|
        #[trigger] is_adjacent(cells, deltas, x, q) ==> marked_at(e_now, q))) by {
        if x == next {
            assert(queue_has_endpoint(v_now, x));
        } else {
            assert(marked_at(e_before, x));
            if queue_has_endpoint(v_before, x) {
                assert(queue_has_endpoint(v_now, x));
            } else if x != p {
                assert(forall|q: Position2d|
                    #[trigger] is_adjacent(cells, deltas, x, q) ==> marked_at(e_before, q));
                assert forall|q: Position2d|
                    #[trigger] is_adjacent(cells, deltas, x, q) implies marked_at(e_now, q) by {
                    if q != next {
                        crate::board::grid::lemma_is_adjacent_in_bounds(cells, deltas, x, q);
                    }
                }
            }
        }
    }
}

/// Once every neighbor of `p` is marked, the stepping state collapses back
/// into the plain invariant.
proof fn lemma_bfs_step_done<T>(
    cells: Seq<Seq<T>>,
    deltas: Seq<Position2dDiff>,
    e: Seq<Seq<bool>>,
    queue: Seq<Vec<Position2d>>,
    root: Position2d,
    goal: Position2d,
    p: Position2d,
)
    requires
        bfs_step_inv(cells, deltas, e, queue, root, goal, p),
        forall|q: Position2d| #[trigger] is_adjacent(cells, deltas, p, q) ==> marked_at(e, q),
    ensures
        bfs_inv(cells, deltas, e, queue, root, goal),
{
}

/// An exhausted queue under the invariant means the goal is unreachable.
proof fn lemma_bfs_exhausted<T>(
    cells: Seq<Seq<T>>,
    deltas: Seq<Position2dDiff>,
    e: Seq<Seq<bool>>,
    queue: Seq<Vec<Position2d>>,
    root: Position2d,
    goal: Position2d,
)
    requires
        bfs_inv(cells, deltas, e, queue, root, goal),
        queue.len() == 0,
    ensures
        !reachable(cells, deltas, root, goal),
{
    if reachable(cells, deltas, root, goal) {
        let path = choose|path: Seq<Position2d>| valid_path(cells, deltas, path, root, goal);
        lemma_valid_path_goal_in_bounds(cells, deltas, path, root, goal);
        assert forall|x: Position2d, q: Position2d|
            pos_in_bounds(cells, x) && marked_at(e, x) && #[trigger] is_adjacent(
                cells,
                deltas,
                x,
                q,
            ) implies marked_at(e, q) by {
            assert(!queue_has_endpoint(queue, x));
        }
        lemma_closed_marks_cover_paths(cells, deltas, e, path, root, goal);
        assert(!queue_has_endpoint(queue, goal));
    }
}

/// Breadth-first reachability over a grid's own adjacency model.
pub trait BreadthFirstSearch<T>: GridExt<T> {
    /// Searches for any path of positions from `root` to `goal`,
    /// irrespective of cell content: `Some` holds a walk whose consecutive
    /// entries are adjacency neighbors, starting at `root` and ending at
    /// `goal`; `None` means no such walk exists at all.
    ///
    /// A node is marked visited the moment its path is enqueued, and the
    /// first dequeued path whose endpoint equals `goal` is returned, so the
    /// result is deterministic in the adjacency enumeration order: it
    /// equals `bfs_from` run on a fresh marker grid, step by step. A path
    /// never repeats a position, and a root that is the goal yields the
    /// single-element path.
    fn bfs(&self, root: &Position2d, goal: &Position2d) -> (r: Option<Vec<Position2d>>)
        requires
            grid_rect(self.cells()),
            self.adjacency_supported(),
            pos_in_bounds(self.cells(), *root),
        ensures
            r matches Some(path) ==> valid_path(
                self.cells(),
                self.adjacency_deltas(),
                path@,
                *root,
                *goal,
            ),
            r is Some <==> reachable(self.cells(), self.adjacency_deltas(), *root, *goal),
            ({
                let expected = bfs_from(
                    self.cells(),
                    self.adjacency_deltas(),
                    spec_mark(blank_marks(self.cells()), *root),
                    seq![seq![*root]],
                    *goal,
                );
                &&& (r is Some <==> expected is Some)
                &&& (r matches Some(path) ==> expected == Some(path@))
            }),
            r matches Some(path) ==> path_distinct(path@),
            *root == *goal ==> (r matches Some(path) && path@ == seq![*root]),
    ;
}

impl<T> BreadthFirstSearch<T> for Grid<T> {
    #[verifier::rlimit(100)]
    #[verifier::spinoff_prover]
    fn bfs(&self, root: &Position2d, goal: &Position2d) -> (r: Option<Vec<Position2d>>) {
        let ghost cells = self.cells();
        let ghost deltas = self.adjacency_deltas();

        let mut explored: Grid<bool> = GridBuilder::new_square_grid()
            .with_rows(self.row_len())
            .with_columns(self.column_len())
            .with_initial_value(false)
            .build();
        proof {
            assert(same_shape(cells, explored.contents()));
            assert(forall|i: int, j: int|
                0 <= i < explored.contents().len() && 0 <= j < explored.contents()[i].len()
                    ==> !(#[trigger] explored.contents()[i][j]));
            assert(pos_in_bounds(explored.contents(), *root));
        }
        let ghost blank = explored.contents();
        proof {
            assert forall|i: int| 0 <= i < cells.len() implies blank[i] =~= blank_marks(cells)[i] by {
                assert(blank[i].len() == cells[i].len());
            }
            assert(blank =~= blank_marks(cells));
        }

        match explored.get_mut(root) {
            Some(m) => {
                *m = true;
            },
            None => {
                proof {
                    assert(false);
                }
            },
        }
        proof {
            assert(explored.contents() == spec_mark(blank_marks(cells), *root));
        }

        let mut first: Vec<Position2d> = Vec::new();
        first.push(*root);
        let mut v: Vec<Vec<Position2d>> = Vec::new();
        v.push(first);
        let ghost expected = bfs_from(
            cells,
            deltas,
            spec_mark(blank_marks(cells), *root),
            seq![seq![*root]],
            *goal,
        );

        proof {
            assert(endpoint(first) == *root);
            assert(marked_at(explored.contents(), *root));
            assert(valid_path(cells, deltas, first@, *root, *root));
            assert(queue_has_endpoint(v@, *root)) by {
                assert(endpoint(v@[0]) == *root);
            }
            assert forall|x: Position2d|
                pos_in_bounds(cells, x) && marked_at(explored.contents(), x)
                    implies queue_has_endpoint(v@, x) by {
                if x != *root {
                    assert(marked_at(explored.contents(), x) == marked_at(blank, x));
                    assert(!marked_at(blank, x));
                }
            }
            assert(bfs_inv(cells, deltas, explored.contents(), v@, *root, *goal));
            assert(queue_view(v@) =~= seq![seq![*root]]) by {
                assert(queue_view(v@)[0] == first@);
                assert(first@ =~= seq![*root]);
            }
            assert(path_distinct(first@));
            assert(path_positions_marked(explored.contents(), first@)) by {
                assert(first@[0] == *root);
            }
        }

        while v.len() != 0
            invariant
                self.cells() == cells,
                self.adjacency_deltas() == deltas,
                self.adjacency_supported(),
                grid_rect(cells),
                pos_in_bounds(cells, *root),
                bfs_inv(cells, deltas, explored.contents(), v@, *root, *goal),
                expected == bfs_from(
                    cells,
                    deltas,
                    spec_mark(blank_marks(cells), *root),
                    seq![seq![*root]],
                    *goal,
                ),
                bfs_from(cells, deltas, explored.contents(), queue_view(v@), *goal) == expected,
                forall|j: int|
                    0 <= j < v@.len() ==> path_distinct((#[trigger] v@[j])@)
                        && path_positions_marked(explored.contents(), v@[j]@),
            decreases grid_unmarked(explored.contents()), v@.len(),
        {
            let ghost unmarked0 = grid_unmarked(explored.contents());
            let ghost len0 = v@.len();
            let ghost v_popped = v@;
            let path = v.pop().unwrap();
            let p: Position2d = path[path.len() - 1];
            proof {
                assert(path == v_popped[len0 - 1]);
                assert(v@ =~= v_popped.drop_last());
                assert(p == endpoint(path));
                assert(queue_view(v_popped).len() == len0);
                assert(queue_view(v_popped).last() == path@);
                assert(queue_view(v@) =~= queue_view(v_popped).drop_last());
                assert(path_distinct(path@) && path_positions_marked(explored.contents(), path@));
                assert(forall|j: int| 0 <= j < v@.len() ==> v@[j] == #[trigger] v_popped[j]);
                assert(path@.last() == p);
            }
            if p.0 == goal.0 && p.1 == goal.1 {
                proof {
                    assert(p == *goal);
                    assert(path_ok(cells, deltas, path, *root));
                    assert(valid_path(cells, deltas, path@, *root, *goal));
                    assert(reachable(cells, deltas, *root, *goal));
                    lemma_bfs_from_found(
                        cells,
                        deltas,
                        explored.contents(),
                        queue_view(v_popped),
                        *goal,
                    );
                    assert(expected == Some(path@));
                    if *root == *goal {
                        lemma_bfs_from_initial_goal(cells, deltas, *root);
                        assert(path@ == seq![*root]);
                    }
                }
                return Some(path);
            }

            proof {
                assert(p != *goal);
                lemma_bfs_pop(cells, deltas, explored.contents(), v_popped, *root, *goal, p);
            }

            let adj = match self.adjacent_cells(&p) {
                Ok(a) => a,
                Err(_) => {
                    proof {
                        assert(false);
                    }
                    return None;
                },
            };
            let ghost adj_ps = adjacent_positions(cells, deltas, p);
            let ghost e_pop = explored.contents();
            let ghost qv_rest = queue_view(v@);
            let ghost ex_target = bfs_expand(e_pop, path@, adj_ps, qv_rest);
            proof {
                lemma_adjacent_positions_in_bounds(cells, deltas, p);
                // one unfolding of the mirror: the dequeued endpoint is not
                // the goal, so the search continues from the expanded state
                lemma_bfs_from_step(cells, deltas, e_pop, queue_view(v_popped), *goal);
                assert(bfs_from(cells, deltas, e_pop, queue_view(v_popped), *goal) == bfs_from(
                    cells,
                    deltas,
                    ex_target.0,
                    ex_target.1,
                    *goal,
                ));
                assert(expected == bfs_from(cells, deltas, ex_target.0, ex_target.1, *goal));
                assert(adj_ps.skip(0) =~= adj_ps);
            }

            let mut k: usize = 0;
            while k < adj.len()
                invariant
                    self.cells() == cells,
                    self.adjacency_deltas() == deltas,
                    self.adjacency_supported(),
                    grid_rect(cells),
                    pos_in_bounds(cells, *root),
                    adj@.len() == adj_ps.len(),
                    forall|i: int| 0 <= i < adj@.len() ==> (#[trigger] adj@[i]).0 == adj_ps[i],
                    adj_ps == adjacent_positions(cells, deltas, p),
                    forall|i: int|
                        0 <= i < adj_ps.len() ==> pos_in_bounds(cells, #[trigger] adj_ps[i]),
                    k <= adj@.len(),
                    bfs_step_inv(cells, deltas, explored.contents(), v@, *root, *goal, p),
                    forall|i: int|
                        0 <= i < k ==> marked_at(explored.contents(), #[trigger] adj_ps[i]),
                    valid_path(cells, deltas, path@, *root, p),
                    path_distinct(path@),
                    path_positions_marked(explored.contents(), path@),
                    forall|j: int|
                        0 <= j < v@.len() ==> path_distinct((#[trigger] v@[j])@)
                            && path_positions_marked(explored.contents(), v@[j]@),
                    expected == bfs_from(cells, deltas, ex_target.0, ex_target.1, *goal),
                    ex_target == bfs_expand(e_pop, path@, adj_ps, qv_rest),
                    bfs_expand(
                        explored.contents(),
                        path@,
                        adj_ps.skip(k as int),
                        queue_view(v@),
                    ) == ex_target,
                    grid_unmarked(explored.contents()) <= unmarked0,
                    grid_unmarked(explored.contents()) == unmarked0 ==> v@.len() == len0 - 1,
                decreases adj@.len() - k,
            {
                let next = adj[k].0;
                proof {
                    assert(next == adj_ps[k as int]);
                    assert(pos_in_bounds(cells, next));
                }
                let ghost e_before = explored.contents();
                let ghost qv_before = queue_view(v@);
                proof {
                    assert(adj_ps.skip(k as int)[0] == adj_ps[k as int]);
                    assert(adj_ps.skip(k as int).skip(1) =~= adj_ps.skip(k + 1));
                }
                match explored.get(&next) {
                    Some(b) => {
                        if !*b {
                            proof {
                                lemma_grid_mark(e_before, next);
                                // the mirror's step on this neighbor: mark
                                // and enqueue at the front
                                assert(bfs_expand(e_before, path@, adj_ps.skip(k as int), qv_before)
                                    == bfs_expand(
                                    spec_mark(e_before, next),
                                    path@,
                                    adj_ps.skip(k + 1),
                                    qv_before.insert(0, path@.push(next)),
                                ));
                            }
                            match explored.get_mut(&next) {
                                Some(m) => {
                                    *m = true;
                                },
                                None => {
                                    proof {
                                        assert(false);
                                    }
                                },
                            }
                            let mut new_path = copy_path(&path);
                            new_path.push(next);
                            let ghost v_before = v@;
                            v.insert(0, new_path);
                            proof {
                                assert(adj_ps.contains(next)) by {
                                    assert(adj_ps[k as int] == next);
                                }
                                lemma_adjacent_positions_iff(cells, deltas, p, next);
                                lemma_valid_path_goal_in_bounds(cells, deltas, path@, *root, p);
                                lemma_bfs_enqueue(
                                    cells,
                                    deltas,
                                    e_before,
                                    explored.contents(),
                                    v_before,
                                    v@,
                                    path,
                                    new_path,
                                    *root,
                                    *goal,
                                    p,
                                    next,
                                );
                                assert(explored.contents() == spec_mark(e_before, next));
                                assert(new_path@ == path@.push(next));
                                assert(queue_view(v@) =~= qv_before.insert(0, new_path@)) by {
                                    assert(queue_view(v@).len() == v_before.len() + 1);
                                    assert(queue_view(v@)[0] == new_path@);
                                    assert(forall|j: int|
                                        0 <= j < v_before.len() ==> queue_view(v@)[j + 1]
                                            == #[trigger] qv_before[j]);
                                }
                                assert(bfs_expand(
                                    explored.contents(),
                                    path@,
                                    adj_ps.skip(k + 1),
                                    queue_view(v@),
                                ) == ex_target);
                            }
                        } else {
                            proof {
                                // the mirror skips an already marked neighbor
                                assert(marked_at(e_before, next));
                                assert(bfs_expand(e_before, path@, adj_ps.skip(k as int), qv_before)
                                    == bfs_expand(e_before, path@, adj_ps.skip(k + 1), qv_before));
                            }
                        }
                    },
                    None => {
                        proof {
                            assert(false);
                        }
                    },
                }
                k = k + 1;
            }
            proof {
                assert forall|q: Position2d|
                    #[trigger] is_adjacent(cells, deltas, p, q) implies marked_at(
                    explored.contents(),
                    q,
                ) by {
                    lemma_adjacent_positions_iff(cells, deltas, p, q);
                    let i = choose|i: int| 0 <= i < adj_ps.len() && adj_ps[i] == q;
                    assert(marked_at(explored.contents(), adj_ps[i]));
                }
                lemma_bfs_step_done(cells, deltas, explored.contents(), v@, *root, *goal, p);
                assert(adj_ps.skip(adj_ps.len() as int) =~= Seq::<Position2d>::empty());
                assert(bfs_expand(
                    explored.contents(),
                    path@,
                    Seq::<Position2d>::empty(),
                    queue_view(v@),
                ) == (explored.contents(), queue_view(v@)));
                assert(explored.contents() == ex_target.0 && queue_view(v@) == ex_target.1);
                assert(bfs_from(cells, deltas, explored.contents(), queue_view(v@), *goal)
                    == expected);
            }
        }

        proof {
            lemma_bfs_exhausted(cells, deltas, explored.contents(), v@, *root, *goal);
            assert(queue_view(v@).len() == 0);
            lemma_bfs_from_empty(cells, deltas, explored.contents(), queue_view(v@), *goal);
            assert(expected is None);
            assert(*root != *goal) by {
                if *root == *goal {
                    lemma_bfs_from_initial_goal(cells, deltas, *root);
                }
            }
        }
        None
    }
}

} // verus!
