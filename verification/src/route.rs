//! What a path on the grid is, and how long it must be at least.

use crate::grid::Cell;
use vstd::prelude::*;

verus! {

/// Whether a unit that set out from `from` may stand on `c`: the cell lies
/// on the grid and is free, or it is the cell the unit set out from.
pub open spec fn passable(grid: Map<Cell, bool>, from: Cell, c: Cell) -> bool {
    grid.dom().contains(c) && (!grid[c] || c == from)
}

/// Whether two cells share an edge.
pub open spec fn adjacent(a: Cell, b: Cell) -> bool {
    (a.0 == b.0 && (a.1 + 1 == b.1 || b.1 + 1 == a.1)) || (a.1 == b.1 && (a.0 + 1 == b.0 || b.0
        + 1 == a.0))
}

/// The number of steps between two cells where nothing is in the way.
pub open spec fn manhattan(a: Cell, b: Cell) -> int {
    (if a.0 >= b.0 {
        a.0 - b.0
    } else {
        b.0 - a.0
    }) + (if a.1 >= b.1 {
        a.1 - b.1
    } else {
        b.1 - a.1
    })
}

/// The number of steps between two cells for a piece that also moves
/// diagonally.
pub open spec fn chebyshev(a: Cell, b: Cell) -> int {
    let dx = if a.0 >= b.0 {
        a.0 - b.0
    } else {
        b.0 - a.0
    };
    let dy = if a.1 >= b.1 {
        a.1 - b.1
    } else {
        b.1 - a.1
    };
    if dx >= dy {
        dx
    } else {
        dy
    }
}

/// Whether `path` leads from `from` to `to`. A path is a stack of steps: it
/// holds the cells to enter, without `from`, the destination at the bottom
/// (index 0) and the next step on top (the last index). Each step goes to a
/// passable cell next to the one before.
pub open spec fn is_path(grid: Map<Cell, bool>, from: Cell, to: Cell, path: Seq<Cell>) -> bool {
    &&& forall|i: int| 0 <= i < path.len() ==> passable(grid, from, #[trigger] path[i])
    &&& forall|i: int|
        #![trigger path[i]]
        0 <= i < path.len() - 1 ==> adjacent(path[i + 1], path[i])
    &&& if path.len() == 0 {
        from == to
    } else {
        path[0] == to && adjacent(from, path.last())
    }
}

/// Whether no path from `from` to `to` has fewer than `steps` steps.
pub open spec fn no_shorter(grid: Map<Cell, bool>, from: Cell, to: Cell, steps: int) -> bool {
    forall|path: Seq<Cell>| #[trigger] is_path(grid, from, to, path) ==> steps <= path.len()
}

/// Whether `to` cannot be reached from `from`.
pub open spec fn cut_off(grid: Map<Cell, bool>, from: Cell, to: Cell) -> bool {
    forall|path: Seq<Cell>| !#[trigger] is_path(grid, from, to, path)
}

/// The cell that a unit stands on after `k` steps along `path`.
pub open spec fn cell_after(from: Cell, path: Seq<Cell>, k: int) -> Cell {
    if k <= 0 {
        from
    } else {
        path[path.len() - k]
    }
}

/// The first `k` steps of a path are a path to the cell they end on.
pub proof fn lemma_first_steps(grid: Map<Cell, bool>, from: Cell, to: Cell, path: Seq<Cell>, k: int)
    requires
        is_path(grid, from, to, path),
        0 <= k <= path.len(),
    ensures
        is_path(
            grid,
            from,
            cell_after(from, path, k),
            path.subrange(path.len() - k, path.len() as int),
        ),
{
    let len = path.len() as int;
    let part = path.subrange(len - k, len);
    assert forall|i: int| 0 <= i < part.len() implies passable(grid, from, #[trigger] part[i]) by {
        assert(part[i] == path[len - k + i]);
    }
    assert forall|i: int| #![trigger part[i]] 0 <= i < part.len() - 1 implies adjacent(
        part[i + 1],
        part[i],
    ) by {
        assert(part[i] == path[len - k + i]);
        assert(part[i + 1] == path[len - k + i + 1]);
    }
    if k > 0 {
        assert(part[0] == path[len - k]);
        assert(part.last() == path.last());
    }
}

/// A path to `prev` with one more step, to the cell `c` next to `prev`, is
/// a path to `c`.
pub proof fn lemma_path_extends(
    grid: Map<Cell, bool>,
    from: Cell,
    prev: Cell,
    c: Cell,
    rest: Seq<Cell>,
)
    requires
        is_path(grid, from, prev, rest),
        adjacent(prev, c),
        passable(grid, from, c),
    ensures
        is_path(grid, from, c, seq![c] + rest),
{
    let path = seq![c] + rest;
    assert forall|i: int| 0 <= i < path.len() implies passable(grid, from, #[trigger] path[i]) by {
        if i > 0 {
            assert(path[i] == rest[i - 1]);
        }
    }
    assert forall|i: int| #![trigger path[i]] 0 <= i < path.len() - 1 implies adjacent(
        path[i + 1],
        path[i],
    ) by {
        assert(path[i + 1] == rest[i]);
        if i > 0 {
            assert(path[i] == rest[i - 1]);
        }
    }
    if rest.len() > 0 {
        assert(path.last() == rest.last());
    }
}

/// One step changes the distance to any goal by one at most.
pub proof fn lemma_step_distance(goal: Cell, a: Cell, b: Cell)
    requires
        adjacent(a, b),
    ensures
        manhattan(goal, a) <= manhattan(goal, b) + 1,
{
}

/// After `k` steps of a path the goal of the path is no further away than
/// the steps that are left, and any other goal no further than that much
/// more.
pub proof fn lemma_steps_left(
    grid: Map<Cell, bool>,
    from: Cell,
    to: Cell,
    path: Seq<Cell>,
    goal: Cell,
    k: int,
)
    requires
        is_path(grid, from, to, path),
        0 <= k <= path.len(),
    ensures
        manhattan(goal, cell_after(from, path, k)) <= manhattan(goal, to) + path.len() - k,
    decreases path.len() - k,
{
    let len = path.len() as int;
    if k == len {
        if len > 0 {
            assert(cell_after(from, path, k) == path[0]);
        }
    } else {
        lemma_steps_left(grid, from, to, path, goal, k + 1);
        let here = cell_after(from, path, k);
        let next = cell_after(from, path, k + 1);
        assert(next == path[len - k - 1]);
        if k == 0 {
            assert(next == path.last());
        } else {
            assert(here == path[(len - k - 1) + 1]);
        }
        assert(adjacent(here, next));
        lemma_step_distance(goal, here, next);
    }
}

/// A path has as many steps as its two ends are apart, or more.
pub proof fn lemma_path_covers_distance(
    grid: Map<Cell, bool>,
    from: Cell,
    to: Cell,
    path: Seq<Cell>,
)
    requires
        is_path(grid, from, to, path),
    ensures
        manhattan(from, to) <= path.len(),
{
    lemma_steps_left(grid, from, to, path, to, 0);
}

/// Whether the grid is the square of the given side and none of its cells
/// is blocked.
pub open spec fn clear_square(grid: Map<Cell, bool>, side: int) -> bool {
    forall|c: Cell|
        #![trigger grid.dom().contains(c)]
        grid.dom().contains(c) == (0 <= c.0 < side && 0 <= c.1 < side) && (grid.dom().contains(c)
            ==> !grid[c])
}

/// The cell next to `to` on a straight way back to `from`: along the
/// column first, then along the row.
pub open spec fn towards(from: Cell, to: Cell) -> Cell {
    if to.0 > from.0 {
        ((to.0 - 1) as i32, to.1)
    } else if to.0 < from.0 {
        ((to.0 + 1) as i32, to.1)
    } else if to.1 > from.1 {
        (to.0, (to.1 - 1) as i32)
    } else {
        (to.0, (to.1 + 1) as i32)
    }
}

/// The path from `from` to `to` that keeps to the row of `from` and then to
/// the column of `to`.
pub open spec fn straight_path(from: Cell, to: Cell) -> Seq<Cell>
    decreases manhattan(from, to),
{
    if from == to {
        Seq::empty()
    } else {
        seq![to] + straight_path(from, towards(from, to))
    }
}

/// Where nothing is blocked, the straight path between two cells of the
/// grid is a path, of as many steps as the cells are apart.
pub proof fn lemma_straight_path(grid: Map<Cell, bool>, side: int, from: Cell, to: Cell)
    requires
        clear_square(grid, side),
        grid.dom().contains(from),
        grid.dom().contains(to),
    ensures
        is_path(grid, from, to, straight_path(from, to)),
        straight_path(from, to).len() == manhattan(from, to),
    decreases manhattan(from, to),
{
    if from != to {
        let prev = towards(from, to);
        assert(grid.dom().contains(prev));
        lemma_straight_path(grid, side, from, prev);
        lemma_path_extends(grid, from, prev, to, straight_path(from, prev));
    }
}

/// On a grid where nothing is blocked, any cell of the grid can be reached
/// from any other, and a shortest path between two of them has as many
/// steps as they are apart along the rows and columns.
pub proof fn lemma_clear_grid_distance(
    grid: Map<Cell, bool>,
    side: int,
    from: Cell,
    to: Cell,
    path: Seq<Cell>,
)
    requires
        clear_square(grid, side),
        grid.dom().contains(from),
        grid.dom().contains(to),
    ensures
        !cut_off(grid, from, to),
        is_path(grid, from, to, path) && no_shorter(grid, from, to, path.len() as int)
            ==> path.len() == manhattan(from, to),
{
    lemma_straight_path(grid, side, from, to);
    if is_path(grid, from, to, path) {
        lemma_path_covers_distance(grid, from, to, path);
    }
}

} // verus!
