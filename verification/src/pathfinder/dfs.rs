use crate::board::grid::{
    adjacent_positions, grid_rect, is_adjacent, lemma_adjacent_positions_iff,
    lemma_adjacent_positions_in_bounds, lemma_is_adjacent_in_bounds, pos_in_bounds, Grid,
    GridBuilder, GridExt, Position2d, Position2dDiff,
};
use crate::pathfinder::{
    blank_marks, copy_path, grid_unmarked, lemma_closed_marks_cover_paths, lemma_grid_mark,
    lemma_valid_path_all_in_bounds, lemma_valid_path_goal_in_bounds, marked_at, path_distinct,
    path_positions_marked, reachable, same_shape, spec_mark, valid_path,
};
use vstd::prelude::*;

verus! {

/// A worklist of position/path entries, as plain sequences.
pub open spec fn stack_view(stack: Seq<(Position2d, Vec<Position2d>)>) -> Seq<
    (Position2d, Seq<Position2d>),
> {
    stack.map_values(|en: (Position2d, Vec<Position2d>)| (en.0, en.1@))
}

/// One push pass over the popped cell's neighbor list: each yet unmarked
/// neighbor is stacked with its extended path, in enumeration order.
pub open spec fn dfs_expand(
    e: Seq<Seq<bool>>,
    path: Seq<Position2d>,
    rem: Seq<Position2d>,
    stack: Seq<(Position2d, Seq<Position2d>)>,
) -> Seq<(Position2d, Seq<Position2d>)>
    decreases rem.len(),
{
    if rem.len() == 0 {
        stack
    } else {
        let q = rem[0];
        if !marked_at(e, q) {
            dfs_expand(e, path, rem.skip(1), stack.push((q, path.push(q))))
        } else {
            dfs_expand(e, path, rem.skip(1), stack)
        }
    }
}

/// The search's worklist discipline, step by step over marks and stack:
/// the top entry is popped; one whose position left the board or was
/// already visited is pruned; an unvisited position equal to the goal ends
/// the search with the entry's path; otherwise the position is marked and
/// its unmarked neighbors stacked, in enumeration order. This pins the
/// exact path the search returns.
#[verifier::opaque]
pub open spec fn dfs_from<T>(
    cells: Seq<Seq<T>>,
    deltas: Seq<Position2dDiff>,
    e: Seq<Seq<bool>>,
    stack: Seq<(Position2d, Seq<Position2d>)>,
    goal: Position2d,
) -> Option<Seq<Position2d>>
    decreases grid_unmarked(e), stack.len(),
        when same_shape(cells, e)
    via dfs_from_decreases::<T>
{
    if stack.len() == 0 {
        None
    } else {
        let entry = stack.last();
        let rest = stack.drop_last();
        if !pos_in_bounds(e, entry.0) || marked_at(e, entry.0) {
            dfs_from(cells, deltas, e, rest, goal)
        } else if entry.0 == goal {
            Some(entry.1)
        } else {
            let marked = spec_mark(e, entry.0);
            dfs_from(
                cells,
                deltas,
                marked,
                dfs_expand(marked, entry.1, adjacent_positions(cells, deltas, entry.0), rest),
                goal,
            )
        }
    }
}

#[via_fn]
proof fn dfs_from_decreases<T>(
    cells: Seq<Seq<T>>,
    deltas: Seq<Position2dDiff>,
    e: Seq<Seq<bool>>,
    stack: Seq<(Position2d, Seq<Position2d>)>,
    goal: Position2d,
) {
    if stack.len() != 0 {
        let entry = stack.last();
        if pos_in_bounds(e, entry.0) && !marked_at(e, entry.0) && entry.0 != goal {
            lemma_grid_mark(e, entry.0);
            assert(same_shape(cells, spec_mark(e, entry.0)));
        }
    }
}

/// An exhausted stack ends the search without a result.
pub proof fn lemma_dfs_from_empty<T>(
    cells: Seq<Seq<T>>,
    deltas: Seq<Position2dDiff>,
    e: Seq<Seq<bool>>,
    stack: Seq<(Position2d, Seq<Position2d>)>,
    goal: Position2d,
)
    requires
        same_shape(cells, e),
        stack.len() == 0,
    ensures
        dfs_from(cells, deltas, e, stack, goal) is None,
{
    reveal(dfs_from);
}

/// A popped entry whose position left the board or was already visited is
/// pruned.
pub proof fn lemma_dfs_from_skip<T>(
    cells: Seq<Seq<T>>,
    deltas: Seq<Position2dDiff>,
    e: Seq<Seq<bool>>,
    stack: Seq<(Position2d, Seq<Position2d>)>,
    goal: Position2d,
)
    requires
        same_shape(cells, e),
        stack.len() >= 1,
        !pos_in_bounds(e, stack.last().0) || marked_at(e, stack.last().0),
    ensures
        dfs_from(cells, deltas, e, stack, goal) == dfs_from(
            cells,
            deltas,
            e,
            stack.drop_last(),
            goal,
        ),
{
    reveal(dfs_from);
}

/// A popped unvisited position equal to the goal ends the search with the
/// entry's path.
pub proof fn lemma_dfs_from_found<T>(
    cells: Seq<Seq<T>>,
    deltas: Seq<Position2dDiff>,
    e: Seq<Seq<bool>>,
    stack: Seq<(Position2d, Seq<Position2d>)>,
    goal: Position2d,
)
    requires
        same_shape(cells, e),
        stack.len() >= 1,
        pos_in_bounds(e, stack.last().0),
        !marked_at(e, stack.last().0),
        stack.last().0 == goal,
    ensures
        dfs_from(cells, deltas, e, stack, goal) == Some(stack.last().1),
{
    reveal(dfs_from);
}

/// A popped unvisited position other than the goal is marked, and the
/// search goes on with its unmarked neighbors stacked.
pub proof fn lemma_dfs_from_step<T>(
    cells: Seq<Seq<T>>,
    deltas: Seq<Position2dDiff>,
    e: Seq<Seq<bool>>,
    stack: Seq<(Position2d, Seq<Position2d>)>,
    goal: Position2d,
)
    requires
        same_shape(cells, e),
        stack.len() >= 1,
        pos_in_bounds(e, stack.last().0),
        !marked_at(e, stack.last().0),
        stack.last().0 != goal,
    ensures
        dfs_from(cells, deltas, e, stack, goal) == ({
            let marked = spec_mark(e, stack.last().0);
            dfs_from(
                cells,
                deltas,
                marked,
                dfs_expand(
                    marked,
                    stack.last().1,
                    adjacent_positions(cells, deltas, stack.last().0),
                    stack.drop_last(),
                ),
                goal,
            )
        }),
{
    reveal(dfs_from);
    lemma_grid_mark(e, stack.last().0);
    assert(same_shape(cells, spec_mark(e, stack.last().0)));
}

/// A fresh search whose in-bounds root is the goal stops on its first pop
/// with the single-element path.
pub proof fn lemma_dfs_from_initial_goal<T>(
    cells: Seq<Seq<T>>,
    deltas: Seq<Position2dDiff>,
    root: Position2d,
)
    requires
        pos_in_bounds(cells, root),
    ensures
        dfs_from(
            cells,
            deltas,
            blank_marks(cells),
            seq![(root, seq![root])],
            root,
        ) == Some(seq![root]),
{
    let e = blank_marks(cells);
    assert(same_shape(cells, e)) by {
        assert(forall|i: int|
            0 <= i < cells.len() ==> (#[trigger] e[i]).len() == cells[i].len());
    }
    let stack: Seq<(Position2d, Seq<Position2d>)> = seq![(root, seq![root])];
    assert(stack.last() == (root, seq![root]));
    assert(pos_in_bounds(e, root));
    assert(!marked_at(e, root));
    lemma_dfs_from_found(cells, deltas, e, stack, root);
}

/// A fresh search whose root left the board ends without a result.
pub proof fn lemma_dfs_from_initial_out_of_bounds<T>(
    cells: Seq<Seq<T>>,
    deltas: Seq<Position2dDiff>,
    root: Position2d,
    goal: Position2d,
)
    requires
        !pos_in_bounds(cells, root),
    ensures
        dfs_from(
            cells,
            deltas,
            blank_marks(cells),
            seq![(root, seq![root])],
            goal,
        ) is None,
{
    let e = blank_marks(cells);
    assert(same_shape(cells, e)) by {
        assert(forall|i: int|
            0 <= i < cells.len() ==> (#[trigger] e[i]).len() == cells[i].len());
    }
    let stack: Seq<(Position2d, Seq<Position2d>)> = seq![(root, seq![root])];
    assert(stack.last() == (root, seq![root]));
    assert(!pos_in_bounds(e, root)) by {
        if (root.0 as int) < e.len() {
            assert(e[root.0 as int].len() == cells[root.0 as int].len());
        }
    }
    lemma_dfs_from_skip(cells, deltas, e, stack, goal);
    assert(stack.drop_last() =~= Seq::<(Position2d, Seq<Position2d>)>::empty());
    lemma_dfs_from_empty(cells, deltas, e, stack.drop_last(), goal);
}

/// The prefix of a stacked entry's path: everything before its position.
pub open spec fn entry_prefix_marked(
    e: Seq<Seq<bool>>,
    entry: (Position2d, Vec<Position2d>),
) -> bool {
    forall|a: int| 0 <= a < entry.1@.len() - 1 ==> marked_at(e, #[trigger] entry.1@[a])
}

/// Some stacked entry waits at the given position.
pub open spec fn stack_has_pos(
    stack: Seq<(Position2d, Vec<Position2d>)>,
    q: Position2d,
) -> bool {
    exists|j: int| 0 <= j < stack.len() && (#[trigger] stack[j]).0 == q
}

/// A stacked entry pairs a position with a valid walk from the root to it.
pub open spec fn dfs_entry_ok<T>(
    cells: Seq<Seq<T>>,
    deltas: Seq<Position2dDiff>,
    entry: (Position2d, Vec<Position2d>),
    root: Position2d,
) -> bool {
    valid_path(cells, deltas, entry.1@, root, entry.0)
}

/// What holds between iterations: every entry carries a valid walk, the
/// root is marked or still waiting, no marked cell is the goal, and every
/// neighbor of a marked cell is marked or waiting on the stack.
pub open spec fn dfs_inv<T>(
    cells: Seq<Seq<T>>,
    deltas: Seq<Position2dDiff>,
    e: Seq<Seq<bool>>,
    stack: Seq<(Position2d, Vec<Position2d>)>,
    root: Position2d,
    goal: Position2d,
) -> bool {
    &&& same_shape(cells, e)
    &&& forall|j: int|
        0 <= j < stack.len() ==> dfs_entry_ok(cells, deltas, #[trigger] stack[j], root)
    &&& marked_at(e, root) || stack_has_pos(stack, root)
    &&& forall|x: Position2d| pos_in_bounds(cells, x) && marked_at(e, x) ==> x != goal
    &&& forall|x: Position2d|
        pos_in_bounds(cells, x) && marked_at(e, x) ==> (forall|q: Position2d|
            #[trigger] is_adjacent(cells, deltas, x, q) ==> (marked_at(e, q) || stack_has_pos(
                stack,
                q,
            )))
}

/// What holds while the neighbors of the freshly marked cell `x` are being
/// pushed: as `dfs_inv`, except that `x`'s own neighbors are only covered
/// up to the handled prefix, which the loop tracks separately.
pub open spec fn dfs_step_inv<T>(
    cells: Seq<Seq<T>>,
    deltas: Seq<Position2dDiff>,
    e: Seq<Seq<bool>>,
    stack: Seq<(Position2d, Vec<Position2d>)>,
    root: Position2d,
    goal: Position2d,
    x: Position2d,
) -> bool {
    &&& same_shape(cells, e)
    &&& marked_at(e, x)
    &&& forall|j: int|
        0 <= j < stack.len() ==> dfs_entry_ok(cells, deltas, #[trigger] stack[j], root)
    &&& marked_at(e, root) || stack_has_pos(stack, root)
    &&& forall|y: Position2d| pos_in_bounds(cells, y) && marked_at(e, y) ==> y != goal
    &&& forall|y: Position2d|
        pos_in_bounds(cells, y) && marked_at(e, y) && y != x ==> (forall|q: Position2d|
            #[trigger] is_adjacent(cells, deltas, y, q) ==> (marked_at(e, q) || stack_has_pos(
                stack,
                q,
            )))
}

/// Popping an entry whose position is already marked keeps the invariant.
proof fn lemma_dfs_pop_marked<T>(
    cells: Seq<Seq<T>>,
    deltas: Seq<Position2dDiff>,
    e: Seq<Seq<bool>>,
    stack: Seq<(Position2d, Vec<Position2d>)>,
    root: Position2d,
    goal: Position2d,
)
    requires
        dfs_inv(cells, deltas, e, stack, root, goal),
        stack.len() >= 1,
        pos_in_bounds(cells, stack[stack.len() - 1].0),
        marked_at(e, stack[stack.len() - 1].0),
    ensures
        dfs_inv(cells, deltas, e, stack.drop_last(), root, goal),
{
    let x = stack[stack.len() - 1].0;
    let rest = stack.drop_last();
    assert forall|q: Position2d| stack_has_pos(stack, q) && q != x implies stack_has_pos(
        rest,
        q,
    ) by {
        let j = choose|j: int| 0 <= j < stack.len() && (#[trigger] stack[j]).0 == q;
        assert(rest[j] == stack[j]);
    }
    assert(marked_at(e, root) || stack_has_pos(rest, root)) by {
        if !marked_at(e, root) && stack_has_pos(stack, root) {
            assert(root != x);
        }
    }
    assert forall|y: Position2d, q: Position2d|
        pos_in_bounds(cells, y) && marked_at(e, y) && #[trigger] is_adjacent(
            cells,
            deltas,
            y,
            q,
        ) implies (marked_at(e, q) || stack_has_pos(rest, q)) by {
        if !marked_at(e, q) {
            assert(stack_has_pos(stack, q));
            assert(q != x);
        }
    }
}

/// Popping an entry whose position is unmarked and not the goal, then
/// marking it, enters the stepping state for that position.
proof fn lemma_dfs_pop_fresh<T>(
    cells: Seq<Seq<T>>,
    deltas: Seq<Position2dDiff>,
    e: Seq<Seq<bool>>,
    e_now: Seq<Seq<bool>>,
    stack: Seq<(Position2d, Vec<Position2d>)>,
    root: Position2d,
    goal: Position2d,
    x: Position2d,
)
    requires
        dfs_inv(cells, deltas, e, stack, root, goal),
        stack.len() >= 1,
        x == stack[stack.len() - 1].0,
        pos_in_bounds(cells, root),
        pos_in_bounds(cells, x),
        !marked_at(e, x),
        x != goal,
        e_now == spec_mark(e, x),
        forall|j: int|
            0 <= j < stack.len() ==> path_distinct((#[trigger] stack[j]).1@)
                && entry_prefix_marked(e, stack[j]),
    ensures
        dfs_step_inv(cells, deltas, e_now, stack.drop_last(), root, goal, x),
        path_distinct(stack[stack.len() - 1].1@),
        path_positions_marked(e_now, stack[stack.len() - 1].1@),
        forall|j: int|
            0 <= j < stack.drop_last().len() ==> path_distinct(
                (#[trigger] stack.drop_last()[j]).1@,
            ) && entry_prefix_marked(e_now, stack.drop_last()[j]),
{
    let rest = stack.drop_last();
    assert(marked_at(e_now, x));
    assert forall|y: Position2d| pos_in_bounds(cells, y) && y != x implies marked_at(e_now, y)
        == marked_at(e, y) by {
        if y.0 != x.0 {
            assert(e_now[y.0 as int] == e[y.0 as int]);
        }
    }
    assert forall|q: Position2d| stack_has_pos(stack, q) && q != x implies stack_has_pos(
        rest,
        q,
    ) by {
        let j = choose|j: int| 0 <= j < stack.len() && (#[trigger] stack[j]).0 == q;
        assert(rest[j] == stack[j]);
    }
    assert(marked_at(e_now, root) || stack_has_pos(rest, root)) by {
        if root == x {
            assert(marked_at(e_now, root));
        } else if !marked_at(e, root) && stack_has_pos(stack, root) {
            assert(root != x);
        }
    }
    assert forall|y: Position2d| pos_in_bounds(cells, y) && marked_at(e_now, y) implies y
        != goal by {
        if y != x {
            assert(marked_at(e, y));
        }
    }
    assert forall|y: Position2d, q: Position2d|
        pos_in_bounds(cells, y) && marked_at(e_now, y) && y != x && #[trigger] is_adjacent(
            cells,
            deltas,
            y,
            q,
        ) implies (marked_at(e_now, q) || stack_has_pos(rest, q)) by {
        assert(marked_at(e, y));
        lemma_is_adjacent_in_bounds(cells, deltas, y, q);
        if !marked_at(e, q) && q != x {
            assert(stack_has_pos(stack, q));
            assert(stack_has_pos(rest, q));
        }
    }
    let popped = stack[stack.len() - 1];
    assert(path_positions_marked(e_now, popped.1@)) by {
        assert(dfs_entry_ok(cells, deltas, popped, root));
        lemma_valid_path_all_in_bounds(cells, deltas, popped.1@, root, popped.0);
        assert forall|a: int| 0 <= a < popped.1@.len() implies marked_at(
            e_now,
            #[trigger] popped.1@[a],
        ) by {
            if a < popped.1@.len() - 1 {
                assert(marked_at(e, popped.1@[a]));
                if popped.1@[a] != x {
                } else {
                    assert(marked_at(e_now, x));
                }
            } else {
                assert(popped.1@[a] == x);
            }
        }
    }
    assert forall|j: int|
        0 <= j < rest.len() implies path_distinct((#[trigger] rest[j]).1@) && entry_prefix_marked(
        e_now,
        rest[j],
    ) by {
        assert(rest[j] == stack[j]);
        assert(dfs_entry_ok(cells, deltas, stack[j], root));
        lemma_valid_path_all_in_bounds(cells, deltas, stack[j].1@, root, stack[j].0);
        assert forall|a: int| 0 <= a < rest[j].1@.len() - 1 implies marked_at(
            e_now,
            #[trigger] rest[j].1@[a],
        ) by {
            assert(marked_at(e, stack[j].1@[a]));
            if stack[j].1@[a] != x {
            }
        }
    }
}

/// Pushing a fresh neighbor of `x` keeps the stepping state.
proof fn lemma_dfs_push<T>(
    cells: Seq<Seq<T>>,
    deltas: Seq<Position2dDiff>,
    e: Seq<Seq<bool>>,
    stack: Seq<(Position2d, Vec<Position2d>)>,
    stack_now: Seq<(Position2d, Vec<Position2d>)>,
    path: Vec<Position2d>,
    new_path: Vec<Position2d>,
    root: Position2d,
    goal: Position2d,
    x: Position2d,
    next: Position2d,
)
    requires
        dfs_step_inv(cells, deltas, e, stack, root, goal, x),
        is_adjacent(cells, deltas, x, next),
        valid_path(cells, deltas, path@, root, x),
        path_distinct(path@),
        path_positions_marked(e, path@),
        !marked_at(e, next),
        forall|j: int|
            0 <= j < stack.len() ==> path_distinct((#[trigger] stack[j]).1@)
                && entry_prefix_marked(e, stack[j]),
        new_path@ == path@.push(next),
        stack_now == stack.push((next, new_path)),
    ensures
        dfs_step_inv(cells, deltas, e, stack_now, root, goal, x),
        stack_has_pos(stack_now, next),
        forall|q: Position2d| stack_has_pos(stack, q) ==> stack_has_pos(stack_now, q),
        forall|j: int|
            0 <= j < stack_now.len() ==> path_distinct((#[trigger] stack_now[j]).1@)
                && entry_prefix_marked(e, stack_now[j]),
{
    assert(path_distinct(new_path@)) by {
        assert forall|a: int, b: int| 0 <= a < b < new_path@.len() implies new_path@[a]
            != new_path@[b] by {
            if b == new_path@.len() - 1 {
                assert(new_path@[a] == path@[a]);
                assert(marked_at(e, path@[a]));
            } else {
                assert(new_path@[a] == path@[a] && new_path@[b] == path@[b]);
            }
        }
    }
    assert(entry_prefix_marked(e, (next, new_path))) by {
        assert(forall|a: int|
            0 <= a < new_path@.len() - 1 ==> #[trigger] new_path@[a] == path@[a]);
    }
    assert(forall|j: int| 0 <= j < stack.len() ==> stack_now[j] == #[trigger] stack[j]);
    assert(stack_now[stack_now.len() - 1] == (next, new_path));
    lemma_is_adjacent_in_bounds(cells, deltas, x, next);
    assert(valid_path(cells, deltas, new_path@, root, next)) by {
        assert(forall|i: int| 0 <= i < path@.len() ==> #[trigger] new_path@[i] == path@[i]);
        assert(new_path@[new_path@.len() - 1] == next);
        assert(new_path@[new_path@.len() - 2] == x);
    }
    assert(stack_now[stack_now.len() - 1] == (next, new_path));
    assert(stack_has_pos(stack_now, next));
    assert(forall|j: int| 0 <= j < stack.len() ==> stack_now[j] == #[trigger] stack[j]);
    assert forall|q: Position2d| stack_has_pos(stack, q) implies stack_has_pos(stack_now, q) by {
        let j = choose|j: int| 0 <= j < stack.len() && (#[trigger] stack[j]).0 == q;
        assert(stack_now[j].0 == q);
    }
}

/// Once every neighbor of `x` is marked or stacked, the stepping state
/// collapses back into the plain invariant.
proof fn lemma_dfs_step_done<T>(
    cells: Seq<Seq<T>>,
    deltas: Seq<Position2dDiff>,
    e: Seq<Seq<bool>>,
    stack: Seq<(Position2d, Vec<Position2d>)>,
    root: Position2d,
    goal: Position2d,
    x: Position2d,
)
    requires
        dfs_step_inv(cells, deltas, e, stack, root, goal, x),
        forall|q: Position2d|
            #[trigger] is_adjacent(cells, deltas, x, q) ==> (marked_at(e, q) || stack_has_pos(
                stack,
                q,
            )),
    ensures
        dfs_inv(cells, deltas, e, stack, root, goal),
{
}

/// An exhausted stack under the invariant means the goal is unreachable.
proof fn lemma_dfs_exhausted<T>(
    cells: Seq<Seq<T>>,
    deltas: Seq<Position2dDiff>,
    e: Seq<Seq<bool>>,
    stack: Seq<(Position2d, Vec<Position2d>)>,
    root: Position2d,
    goal: Position2d,
)
    requires
        dfs_inv(cells, deltas, e, stack, root, goal),
        stack.len() == 0,
    ensures
        !reachable(cells, deltas, root, goal),
{
    if reachable(cells, deltas, root, goal) {
        let path = choose|path: Seq<Position2d>| valid_path(cells, deltas, path, root, goal);
        lemma_valid_path_goal_in_bounds(cells, deltas, path, root, goal);
        assert(marked_at(e, root)) by {
            assert(!stack_has_pos(stack, root));
        }
        assert forall|y: Position2d, q: Position2d|
            pos_in_bounds(cells, y) && marked_at(e, y) && #[trigger] is_adjacent(
                cells,
                deltas,
                y,
                q,
            ) implies marked_at(e, q) by {
            assert(!stack_has_pos(stack, q));
        }
        lemma_closed_marks_cover_paths(cells, deltas, e, path, root, goal);
    }
}

/// Depth-first reachability over a grid's own adjacency model.
pub trait BreadthFirstSearch<T>: GridExt<T> {
    /// Searches for any path of positions from `root` to `goal`,
    /// irrespective of cell content: `Some` holds a walk whose consecutive
    /// entries are adjacency neighbors, starting at `root` and ending at
    /// `goal`; `None` means no such walk exists at all.
    ///
    /// A node is marked visited only when it is popped; stale entries for
    /// already visited nodes are pruned lazily, and the goal test happens
    /// on pop, so the result is deterministic in the adjacency enumeration
    /// order: it equals `dfs_from` run on a fresh marker grid, step by
    /// step. A path never repeats a position, and an in-bounds root that
    /// is the goal yields the single-element path.
    fn dfs(&self, root: &Position2d, goal: &Position2d) -> (r: Option<Vec<Position2d>>)
        requires
            grid_rect(self.cells()),
            self.adjacency_supported(),
        ensures
            r matches Some(path) ==> valid_path(
                self.cells(),
                self.adjacency_deltas(),
                path@,
                *root,
                *goal,
            ),
            r is Some <==> reachable(self.cells(), self.adjacency_deltas(), *root, *goal),
            ({
                let expected = dfs_from(
                    self.cells(),
                    self.adjacency_deltas(),
                    blank_marks(self.cells()),
                    seq![(*root, seq![*root])],
                    *goal,
                );
                &&& (r is Some <==> expected is Some)
                &&& (r matches Some(path) ==> expected == Some(path@))
            }),
            r matches Some(path) ==> path_distinct(path@),
            (*root == *goal && pos_in_bounds(self.cells(), *root)) ==> (r matches Some(path)
                && path@ == seq![*root]),
    ;
}

impl<T> BreadthFirstSearch<T> for Grid<T> {
    fn dfs(&self, root: &Position2d, goal: &Position2d) -> (r: Option<Vec<Position2d>>) {
        let ghost cells = self.cells();
        let ghost deltas = self.adjacency_deltas();

        if self.get(root).is_none() {
            proof {
                assert(!reachable(cells, deltas, *root, *goal)) by {
                    if reachable(cells, deltas, *root, *goal) {
                        let path = choose|path: Seq<Position2d>|
                            valid_path(cells, deltas, path, *root, *goal);
                        assert(pos_in_bounds(cells, *root));
                    }
                }
                lemma_dfs_from_initial_out_of_bounds(cells, deltas, *root, *goal);
            }
            return None;
        }

        let mut explored: Grid<bool> = GridBuilder::new_square_grid()
            .with_rows(self.row_len())
            .with_columns(self.column_len())
            .with_initial_value(false)
            .build();
        proof {
            assert(same_shape(cells, explored.contents()));
            assert(forall|i: int, j: int|
                0 <= i < explored.contents().len() && 0 <= j < explored.contents()[i].len()
                    ==> !(#[trigger] explored.contents()[i][j]));
        }

        let mut first: Vec<Position2d> = Vec::new();
        first.push(*root);
        let mut stack: Vec<(Position2d, Vec<Position2d>)> = Vec::new();
        stack.push((*root, first));
        let ghost expected = dfs_from(
            cells,
            deltas,
            blank_marks(cells),
            seq![(*root, seq![*root])],
            *goal,
        );

        proof {
            assert(valid_path(cells, deltas, first@, *root, *root));
            assert(stack@[0].0 == *root);
            assert(stack_has_pos(stack@, *root));
            assert(forall|x: Position2d|
                pos_in_bounds(cells, x) ==> !marked_at(explored.contents(), x));
            assert(dfs_inv(cells, deltas, explored.contents(), stack@, *root, *goal));
            assert forall|i: int|
                0 <= i < cells.len() implies explored.contents()[i] =~= blank_marks(cells)[i] by {
                assert(explored.contents()[i].len() == cells[i].len());
            }
            assert(explored.contents() =~= blank_marks(cells));
            assert(stack_view(stack@) =~= seq![(*root, seq![*root])]) by {
                assert(stack_view(stack@)[0] == (stack@[0].0, stack@[0].1@));
                assert(first@ =~= seq![*root]);
            }
            assert(path_distinct(first@));
            assert(entry_prefix_marked(explored.contents(), (*root, first)));
        }

        while stack.len() != 0
            invariant
                self.cells() == cells,
                self.adjacency_deltas() == deltas,
                self.adjacency_supported(),
                grid_rect(cells),
                pos_in_bounds(cells, *root),
                dfs_inv(cells, deltas, explored.contents(), stack@, *root, *goal),
                expected == dfs_from(
                    cells,
                    deltas,
                    blank_marks(cells),
                    seq![(*root, seq![*root])],
                    *goal,
                ),
                dfs_from(cells, deltas, explored.contents(), stack_view(stack@), *goal)
                    == expected,
                forall|j: int|
                    0 <= j < stack@.len() ==> path_distinct((#[trigger] stack@[j]).1@)
                        && entry_prefix_marked(explored.contents(), stack@[j]),
            decreases grid_unmarked(explored.contents()), stack@.len(),
        {
            let ghost unmarked0 = grid_unmarked(explored.contents());
            let ghost stack0 = stack@;
            let top = stack.pop().unwrap();
            let current = top.0;
            let path = top.1;
            proof {
                assert(top == stack0[stack0.len() - 1]);
                assert(stack@ =~= stack0.drop_last());
                assert(dfs_entry_ok(cells, deltas, stack0[stack0.len() - 1], *root));
                assert(stack_view(stack0).len() == stack0.len());
                assert(stack_view(stack0).last() == (current, path@));
                assert(stack_view(stack@) =~= stack_view(stack0).drop_last());
                assert(forall|j: int| 0 <= j < stack@.len() ==> stack@[j] == #[trigger] stack0[j]);
                assert(path_distinct(path@));
                assert(entry_prefix_marked(explored.contents(), top));
            }
            match explored.get(&current) {
                Some(b) => {
                    proof {
                        assert(pos_in_bounds(explored.contents(), current));
                        assert(pos_in_bounds(cells, current));
                    }
                    if !*b {
                        if current.0 == goal.0 && current.1 == goal.1 {
                            proof {
                                assert(current == *goal);
                                assert(valid_path(cells, deltas, path@, *root, *goal));
                                assert(reachable(cells, deltas, *root, *goal));
                                lemma_dfs_from_found(
                                    cells,
                                    deltas,
                                    explored.contents(),
                                    stack_view(stack0),
                                    *goal,
                                );
                                assert(expected == Some(path@));
                                if *root == *goal {
                                    lemma_dfs_from_initial_goal(cells, deltas, *root);
                                    assert(path@ == seq![*root]);
                                }
                            }
                            return Some(path);
                        }
                        let ghost e_before = explored.contents();
                        proof {
                            lemma_grid_mark(e_before, current);
                        }
                        match explored.get_mut(&current) {
                            Some(m) => {
                                *m = true;
                            },
                            None => {
                                proof {
                                    assert(false);
                                }
                            },
                        }
                        proof {
                            assert(current != *goal);
                            assert(explored.contents() == spec_mark(e_before, current));
                            lemma_dfs_pop_fresh(
                                cells,
                                deltas,
                                e_before,
                                explored.contents(),
                                stack0,
                                *root,
                                *goal,
                                current,
                            );
                        }

                        let adj = match self.adjacent_cells(&current) {
                            Ok(a) => a,
                            Err(_) => {
                                proof {
                                    assert(false);
                                }
                                return None;
                            },
                        };
                        let ghost adj_ps = adjacent_positions(cells, deltas, current);
                        let ghost e_marked = explored.contents();
                        let ghost sv_rest = stack_view(stack@);
                        let ghost ex_target = dfs_expand(e_marked, path@, adj_ps, sv_rest);
                        proof {
                            lemma_adjacent_positions_in_bounds(cells, deltas, current);
                            // one unfolding of the mirror: the popped cell is
                            // fresh and not the goal, so it is marked and the
                            // search continues over the expanded stack
                            lemma_dfs_from_step(
                                cells,
                                deltas,
                                e_before,
                                stack_view(stack0),
                                *goal,
                            );
                            assert(expected == dfs_from(cells, deltas, e_marked, ex_target, *goal));
                            assert(adj_ps.skip(0) =~= adj_ps);
                        }

                        let mut k: usize = 0;
                        while k < adj.len()
                            invariant
                                self.cells() == cells,
                                self.adjacency_deltas() == deltas,
                                self.adjacency_supported(),
                                grid_rect(cells),
                                adj@.len() == adj_ps.len(),
                                forall|i: int|
                                    0 <= i < adj@.len() ==> (#[trigger] adj@[i]).0 == adj_ps[i],
                                adj_ps == adjacent_positions(cells, deltas, current),
                                forall|i: int|
                                    0 <= i < adj_ps.len() ==> pos_in_bounds(
                                        cells,
                                        #[trigger] adj_ps[i],
                                    ),
                                k <= adj@.len(),
                                dfs_step_inv(
                                    cells,
                                    deltas,
                                    explored.contents(),
                                    stack@,
                                    *root,
                                    *goal,
                                    current,
                                ),
                                forall|i: int|
                                    0 <= i < k ==> (marked_at(
                                        explored.contents(),
                                        #[trigger] adj_ps[i],
                                    ) || stack_has_pos(stack@, adj_ps[i])),
                                valid_path(cells, deltas, path@, *root, current),
                                explored.contents() == spec_mark(e_before, current),
                                explored.contents() == e_marked,
                                path_distinct(path@),
                                path_positions_marked(e_marked, path@),
                                forall|j: int|
                                    0 <= j < stack@.len() ==> path_distinct(
                                        (#[trigger] stack@[j]).1@,
                                    ) && entry_prefix_marked(e_marked, stack@[j]),
                                expected == dfs_from(cells, deltas, e_marked, ex_target, *goal),
                                ex_target == dfs_expand(e_marked, path@, adj_ps, sv_rest),
                                dfs_expand(
                                    e_marked,
                                    path@,
                                    adj_ps.skip(k as int),
                                    stack_view(stack@),
                                ) == ex_target,
                            decreases adj@.len() - k,
                        {
                            let next = adj[k].0;
                            proof {
                                assert(next == adj_ps[k as int]);
                                assert(pos_in_bounds(cells, next));
                                assert(adj_ps.skip(k as int)[0] == adj_ps[k as int]);
                                assert(adj_ps.skip(k as int).skip(1) =~= adj_ps.skip(k + 1));
                            }
                            match explored.get(&next) {
                                Some(b2) => {
                                    if !*b2 {
                                        let mut new_path = copy_path(&path);
                                        new_path.push(next);
                                        let ghost stack_before = stack@;
                                        stack.push((next, new_path));
                                        proof {
                                            assert(adj_ps.contains(next)) by {
                                                assert(adj_ps[k as int] == next);
                                            }
                                            lemma_adjacent_positions_iff(
                                                cells,
                                                deltas,
                                                current,
                                                next,
                                            );
                                            lemma_dfs_push(
                                                cells,
                                                deltas,
                                                explored.contents(),
                                                stack_before,
                                                stack@,
                                                path,
                                                new_path,
                                                *root,
                                                *goal,
                                                current,
                                                next,
                                            );
                                            // the mirror stacks this fresh
                                            // neighbor too
                                            assert(dfs_expand(
                                                e_marked,
                                                path@,
                                                adj_ps.skip(k as int),
                                                stack_view(stack_before),
                                            ) == dfs_expand(
                                                e_marked,
                                                path@,
                                                adj_ps.skip(k + 1),
                                                stack_view(stack_before).push(
                                                    (next, path@.push(next)),
                                                ),
                                            ));
                                            assert(stack_view(stack@) =~= stack_view(
                                                stack_before,
                                            ).push((next, new_path@))) by {
                                                assert(stack_view(stack@).len()
                                                    == stack_before.len() + 1);
                                                assert(forall|j: int|
                                                    0 <= j < stack_before.len() ==> stack_view(
                                                        stack@,
                                                    )[j] == #[trigger] stack_view(
                                                        stack_before,
                                                    )[j]);
                                                assert(stack_view(stack@)[stack_before.len() as int]
                                                    == (next, new_path@));
                                            }
                                            assert(new_path@ == path@.push(next));
                                        }
                                    } else {
                                        proof {
                                            // the mirror skips a visited
                                            // neighbor too
                                            assert(marked_at(e_marked, next));
                                            assert(dfs_expand(
                                                e_marked,
                                                path@,
                                                adj_ps.skip(k as int),
                                                stack_view(stack@),
                                            ) == dfs_expand(
                                                e_marked,
                                                path@,
                                                adj_ps.skip(k + 1),
                                                stack_view(stack@),
                                            ));
                                        }
                                    }
                                },
                                None => {
                                    proof {
                                        assert(false);
                                    }
                                },
                            }
                            k = k + 1;
                        }
                        proof {
                            assert forall|q: Position2d|
                                #[trigger] is_adjacent(cells, deltas, current, q) implies (
                            marked_at(explored.contents(), q) || stack_has_pos(stack@, q)) by {
                                lemma_adjacent_positions_iff(cells, deltas, current, q);
                                let i = choose|i: int| 0 <= i < adj_ps.len() && adj_ps[i] == q;
                                assert(marked_at(explored.contents(), adj_ps[i])
                                    || stack_has_pos(stack@, adj_ps[i]));
                            }
                            lemma_dfs_step_done(
                                cells,
                                deltas,
                                explored.contents(),
                                stack@,
                                *root,
                                *goal,
                                current,
                            );
                            assert(adj_ps.skip(adj_ps.len() as int) =~= Seq::<Position2d>::empty());
                            assert(dfs_expand(
                                e_marked,
                                path@,
                                Seq::<Position2d>::empty(),
                                stack_view(stack@),
                            ) == stack_view(stack@));
                            assert(stack_view(stack@) == ex_target);
                            assert(dfs_from(cells, deltas, explored.contents(), stack_view(stack@), *goal)
                                == expected);
                        }
                    } else {
                        proof {
                            lemma_dfs_pop_marked(
                                cells,
                                deltas,
                                explored.contents(),
                                stack0,
                                *root,
                                *goal,
                            );
                            lemma_dfs_from_skip(
                                cells,
                                deltas,
                                explored.contents(),
                                stack_view(stack0),
                                *goal,
                            );
                        }
                    }
                },
                None => {
                    proof {
                        lemma_valid_path_goal_in_bounds(cells, deltas, path@, *root, current);
                        assert(pos_in_bounds(explored.contents(), current));
                        assert(false);
                    }
                },
            }
        }

        proof {
            lemma_dfs_exhausted(cells, deltas, explored.contents(), stack@, *root, *goal);
            assert(stack_view(stack@).len() == 0);
            lemma_dfs_from_empty(cells, deltas, explored.contents(), stack_view(stack@), *goal);
            assert(expected is None);
            assert(!(*root == *goal && pos_in_bounds(cells, *root))) by {
                if *root == *goal && pos_in_bounds(cells, *root) {
                    lemma_dfs_from_initial_goal(cells, deltas, *root);
                }
            }
        }
        None
    }
}

} // verus!
