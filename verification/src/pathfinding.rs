//! Shortest paths on the grid, found by a best-first search that looks at
//! the cells nearest to the goal first.

use crate::grid::{filled, lemma_slot, lemma_slot_injective, on_grid, slot, BlockedTiles, Cell};
use crate::open_set::{open_entries, open_set_new, open_set_pop, open_set_push, OpenSet, Rank};
use crate::route::{
    clear_square, cut_off, is_path, lemma_clear_grid_distance, manhattan, no_shorter,
};
use crate::search::{
    closed, expand, holds, leads, lemma_arrived, lemma_exhausted, lemma_found, lemma_leader,
    lemma_open_cell, lemma_round, lemma_start, rank_of, round_limit, search, start, taken, trace,
    visit, Search,
};
use vstd::prelude::*;

verus! {

/// The path that the search finds from `from` to `to` on a grid of the
/// given side, or `None` where there is no path.
pub open spec fn a_star_path(grid: Map<Cell, bool>, side: int, from: Cell, to: Cell) -> Option<
    Seq<Cell>,
> {
    search(start(from, to), grid, from, to, (side * side + 1) as nat)
}

/// Two searches on the same grid between the same two cells give the same
/// answer: the same path, or none both times.
pub proof fn lemma_search_repeats(
    grid: Map<Cell, bool>,
    side: int,
    from: Cell,
    to: Cell,
    first: Option<Seq<Cell>>,
    second: Option<Seq<Cell>>,
)
    requires
        first == a_star_path(grid, side, from, to),
        second == a_star_path(grid, side, from, to),
    ensures
        first == second,
{
}

/// The cell that is kept in slot `i` of a grid.
spec fn cell_at(side: int, i: int) -> Cell {
    ((i / side) as i32, (i % side) as i32)
}

/// Among the first `n` cells of the grid, those not closed yet.
spec fn waiting(s: Search, side: int, n: nat) -> nat
    decreases n,
{
    if n == 0 {
        0
    } else {
        waiting(s, side, (n - 1) as nat) + if closed(s, cell_at(side, n - 1)) {
            0nat
        } else {
            1nat
        }
    }
}

/// The cells that the search may still have to close: those of the grid,
/// and the start where it lies off the grid.
spec fn to_close(s: Search, side: int, from: Cell) -> int {
    waiting(s, side, (side * side) as nat) + if on_grid(side, from) || closed(s, from) {
        0int
    } else {
        1int
    }
}

/// A cell of the grid is kept in its slot.
proof fn lemma_cell_at(side: int, c: Cell)
    requires
        on_grid(side, c),
    ensures
        cell_at(side, slot(side, c)) == c,
{
    lemma_slot(side, c);
}

/// No more cells are counted than were gone through.
proof fn lemma_waiting_bound(s: Search, side: int, n: nat)
    ensures
        waiting(s, side, n) <= n,
    decreases n,
{
    if n > 0 {
        lemma_waiting_bound(s, side, (n - 1) as nat);
    }
}

/// A cell of the grid that is not closed is counted.
proof fn lemma_waiting_counts(s: Search, side: int, n: nat, u: Cell)
    requires
        on_grid(side, u),
        !closed(s, u),
        slot(side, u) < n,
    ensures
        waiting(s, side, n) >= 1,
    decreases n,
{
    lemma_cell_at(side, u);
    if slot(side, u) < n - 1 {
        lemma_waiting_counts(s, side, (n - 1) as nat, u);
    }
}

/// Closing one cell of the grid takes one from the count.
proof fn lemma_waiting_closes(s: Search, t: Search, side: int, n: nat, u: Cell)
    requires
        on_grid(side, u),
        side <= 0xFFFF,
        !closed(s, u),
        closed(t, u),
        forall|c: Cell| c != u ==> closed(s, c) == closed(t, c),
        n <= side * side,
    ensures
        waiting(t, side, n) + (if slot(side, u) < n {
            1int
        } else {
            0int
        }) == waiting(s, side, n),
    decreases n,
{
    if n > 0 {
        lemma_waiting_closes(s, t, side, (n - 1) as nat, u);
        lemma_cell_at(side, u);
        let i = n - 1;
        if cell_at(side, i) == u && slot(side, u) != i {
            assert(i == side * (i / side) + i % side && 0 <= i % side < side && 0 <= i / side
                < side) by (nonlinear_arith)
                requires
                    0 < side,
                    0 <= i < side * side,
            ;
            assert((i / side) * side == side * (i / side)) by (nonlinear_arith);
        }
    }
}

/// While a cell is open, there is something to close.
proof fn lemma_pending(s: Search, side: int, from: Cell, u: Cell)
    requires
        !closed(s, u),
        u == from || on_grid(side, u),
    ensures
        to_close(s, side, from) >= 1,
{
    if on_grid(side, u) {
        lemma_slot(side, u);
        lemma_waiting_counts(s, side, (side * side) as nat, u);
    }
}

/// Closing a cell leaves one cell less to close.
proof fn lemma_closing(s: Search, t: Search, side: int, from: Cell, u: Cell)
    requires
        0 <= side <= 0xFFFF,
        !closed(s, u),
        u == from || on_grid(side, u),
        forall|c: Cell| closed(t, c) == (closed(s, c) || c == u),
    ensures
        to_close(t, side, from) + 1 == to_close(s, side, from),
{
    if on_grid(side, u) {
        lemma_slot(side, u);
        lemma_waiting_closes(s, t, side, (side * side) as nat, u);
    } else {
        assert forall|i: int| 0 <= i < side * side implies cell_at(side, i) != u by {
            assert(0 < side && 0 <= i % side < side && 0 <= i / side < side) by (nonlinear_arith)
                requires
                    0 <= side,
                    0 <= i < side * side,
            ;
        }
        lemma_waiting_off(s, t, side, (side * side) as nat, u);
    }
}

/// Closing a cell off the grid does not change the count.
proof fn lemma_waiting_off(s: Search, t: Search, side: int, n: nat, u: Cell)
    requires
        forall|c: Cell| c != u ==> closed(t, c) == closed(s, c),
        forall|i: int| 0 <= i < side * side ==> cell_at(side, i) != u,
        n <= side * side,
    ensures
        waiting(t, side, n) == waiting(s, side, n),
    decreases n,
{
    if n > 0 {
        lemma_waiting_off(s, t, side, (n - 1) as nat, u);
    }
}

/// A cell's own cost stays as it is while its neighbours are looked at.
proof fn lemma_visit_keeps(
    s: Search,
    grid: Map<Cell, bool>,
    from: Cell,
    goal: Cell,
    cur: Cell,
    x: int,
    y: int,
)
    requires
        (x == cur.0 && (y == cur.1 + 1 || y == cur.1 - 1)) || (y == cur.1 && (x == cur.0 + 1 || x
            == cur.0 - 1)),
    ensures
        visit(s, grid, from, goal, cur, x, y).cost[cur] == s.cost[cur],
{
}

/// From any state between two rounds, with rounds enough left to close
/// what may still have to be closed, the search comes to the right answer.
proof fn lemma_search_is_right(
    s: Search,
    grid: Map<Cell, bool>,
    side: int,
    from: Cell,
    to: Cell,
    done: int,
    fuel: nat,
)
    requires
        0 <= side <= 0xFFFF,
        forall|c: Cell| grid.dom().contains(c) ==> on_grid(side, c),
        holds(s, grid, from, to, None, done),
        to_close(s, side, from) <= fuel,
        done + fuel == side * side + 1,
    ensures
        match search(s, grid, from, to, fuel) {
            Some(path) => is_path(grid, from, to, path) && no_shorter(
                grid,
                from,
                to,
                path.len() as int,
            ),
            None => cut_off(grid, from, to),
        },
    decreases fuel,
{
    if exists|c: Cell| s.open.dom().contains(c) {
        let cur = lemma_leader(s, grid, from, to, done);
        lemma_open_cell(s, grid, from, to, done, cur);
        lemma_pending(s, side, from, cur);
        assert(side * side <= 0xFFFF * 0xFFFF) by (nonlinear_arith)
            requires
                0 <= side <= 0xFFFF,
        ;
        if cur == to {
            lemma_arrived(s, grid, from, to, done, fuel);
        } else {
            let next = expand(taken(s, cur), grid, from, to, cur);
            lemma_round(s, grid, from, to, done, fuel, cur);
            lemma_closing(s, next, side, from, cur);
            lemma_search_is_right(next, grid, side, from, to, done + 1, (fuel - 1) as nat);
        }
    } else {
        lemma_exhausted(s, grid, from, to, done);
    }
}

/// The search finds a shortest path, and finds none only where there is
/// none.
pub proof fn lemma_a_star_path(grid: Map<Cell, bool>, side: int, from: Cell, to: Cell)
    requires
        0 <= side <= 0xFFFF,
        forall|c: Cell| grid.dom().contains(c) ==> on_grid(side, c),
    ensures
        match a_star_path(grid, side, from, to) {
            Some(path) => is_path(grid, from, to, path) && no_shorter(
                grid,
                from,
                to,
                path.len() as int,
            ),
            None => cut_off(grid, from, to),
        },
{
    lemma_start(grid, from, to);
    lemma_waiting_bound(start(from, to), side, (side * side) as nat);
    assert(0 <= side * side) by (nonlinear_arith)
        requires
            0 <= side,
    ;
    lemma_search_is_right(
        start(from, to),
        grid,
        side,
        from,
        to,
        0,
        (side * side + 1) as nat,
    );
}

/// On a grid where nothing is blocked, the path that the search finds
/// between two cells of the grid has as many steps as the cells are apart
/// along the rows and columns.
pub proof fn lemma_clear_grid_search(grid: Map<Cell, bool>, side: int, from: Cell, to: Cell)
    requires
        0 <= side <= 0xFFFF,
        clear_square(grid, side),
        grid.dom().contains(from),
        grid.dom().contains(to),
    ensures
        a_star_path(grid, side, from, to) is Some,
        a_star_path(grid, side, from, to)->0.len() == manhattan(from, to),
{
    lemma_a_star_path(grid, side, from, to);
    match a_star_path(grid, side, from, to) {
        Some(path) => lemma_clear_grid_distance(grid, side, from, to, path),
        None => lemma_clear_grid_distance(grid, side, from, to, Seq::empty()),
    }
}

/// The path that the search finds from a cell to itself has no step.
pub proof fn lemma_search_stays(grid: Map<Cell, bool>, side: int, from: Cell)
    requires
        0 <= side <= 0xFFFF,
        forall|c: Cell| grid.dom().contains(c) ==> on_grid(side, c),
    ensures
        a_star_path(grid, side, from, from) == Some(Seq::<Cell>::empty()),
{
    lemma_a_star_path(grid, side, from, from);
    assert(is_path(grid, from, from, Seq::empty()));
    assert(a_star_path(grid, side, from, from)->0 =~= Seq::empty());
}

/// The path that the search finds holds no blocked cell, but for the cell
/// it sets out from, and no cell off the grid.
pub proof fn lemma_search_avoids_blocked(
    grid: Map<Cell, bool>,
    side: int,
    from: Cell,
    to: Cell,
    i: int,
)
    requires
        0 <= side <= 0xFFFF,
        forall|c: Cell| grid.dom().contains(c) ==> on_grid(side, c),
        a_star_path(grid, side, from, to) is Some,
        0 <= i < a_star_path(grid, side, from, to)->0.len(),
    ensures
        grid.dom().contains(a_star_path(grid, side, from, to)->0[i]),
        grid[a_star_path(grid, side, from, to)->0[i]] ==> a_star_path(grid, side, from, to)->0[i]
            == from,
{
    lemma_a_star_path(grid, side, from, to);
}

/// How the vectors of the search stand for its state: slot by slot, the
/// cost of each cell of the grid that was found, and its parent.
spec fn linked(
    cost: Seq<Option<u64>>,
    parent: Seq<Cell>,
    s: Search,
    side: int,
    from: Cell,
) -> bool {
    &&& cost.len() == side * side
    &&& parent.len() == side * side
    &&& forall|c: Cell|
        #![trigger slot(side, c)]
        on_grid(side, c) ==> (cost[slot(side, c)] is Some <==> s.cost.dom().contains(c))
    &&& forall|c: Cell|
        #![trigger slot(side, c)]
        on_grid(side, c) && s.cost.dom().contains(c) ==> cost[slot(side, c)] == Some(
            s.cost[c] as u64,
        ) && 0 <= s.cost[c] <= round_limit()
    &&& forall|c: Cell|
        #![trigger slot(side, c)]
        on_grid(side, c) && s.parent.dom().contains(c) ==> parent[slot(side, c)] == s.parent[c]
}

/// The distance from `next_step` to `goal` in steps along the rows and
/// columns, which no path can undercut.
pub fn heuristic(goal: (i32, i32), next_step: (i32, i32)) -> (h: i64)
    ensures
        h == manhattan(goal, next_step),
{
    let dx: i64 = goal.0 as i64 - next_step.0 as i64;
    let dy: i64 = goal.1 as i64 - next_step.1 as i64;
    (if dx < 0 {
        -dx
    } else {
        dx
    }) + (if dy < 0 {
        -dy
    } else {
        dy
    })
}

/// The four places next to `tile`: above, below, right, left. Not each of
/// them need be a cell of any grid.
pub fn adjacents(tile: (i32, i32)) -> (around: Vec<(i64, i64)>)
    ensures
        around@.len() == 4,
        around@[0] == (tile.0 as i64, (tile.1 + 1) as i64),
        around@[1] == (tile.0 as i64, (tile.1 - 1) as i64),
        around@[2] == ((tile.0 + 1) as i64, tile.1 as i64),
        around@[3] == ((tile.0 - 1) as i64, tile.1 as i64),
{
    let x: i64 = tile.0 as i64;
    let y: i64 = tile.1 as i64;
    let mut around: Vec<(i64, i64)> = Vec::new();
    around.push((x, y + 1));
    around.push((x, y - 1));
    around.push((x + 1, y));
    around.push((x - 1, y));
    around
}

/// The priority in the open set of the cell `c`, found `cost` steps from
/// the start.
fn rank(cost: u64, goal: Cell, c: Cell) -> (r: Rank)
    requires
        cost <= round_limit(),
    ensures
        r == rank_of(cost as int, goal, c),
{
    let f: i64 = cost as i64 + heuristic(goal, c);
    (0 - f, 0 - c.0 as i64, 0 - c.1 as i64)
}

/// Looks at the place `(x, y)` next to `cur`, a cell just closed: where it
/// is a passable cell and the way over `cur`, of `new_cost` steps, is the
/// first to it or the shortest so far, the cell is opened with that cost
/// and with `cur` as its parent.
fn visit_neighbour(
    cost: &mut Vec<Option<u64>>,
    parent: &mut Vec<Cell>,
    open: &mut OpenSet,
    blocked: &BlockedTiles,
    from: Cell,
    to: Cell,
    cur: Cell,
    new_cost: u64,
    x: i64,
    y: i64,
    Ghost(s): Ghost<Search>,
)
    requires
        linked(old(cost)@, old(parent)@, s, blocked.side(), from),
        open_entries(*old(open)) == s.open,
        new_cost == s.cost[cur] + 1,
        new_cost <= round_limit(),
    ensures
        linked(
            final(cost)@,
            final(parent)@,
            visit(s, blocked@, from, to, cur, x as int, y as int),
            blocked.side(),
            from,
        ),
        open_entries(*final(open)) == visit(s, blocked@, from, to, cur, x as int, y as int).open,
{
    if x < i32::MIN as i64 || x > i32::MAX as i64 || y < i32::MIN as i64 || y > i32::MAX as i64 {
        return ;
    }
    let n: Cell = (x as i32, y as i32);
    let side = blocked.rows_cols() as usize;
    if let Some(is_blocked) = blocked.get(n.0, n.1) {
        if !is_blocked || (n.0 == from.0 && n.1 == from.1) {
            proof {
                lemma_slot(side as int, n);
            }
            let i = n.0 as usize * side + n.1 as usize;
            let better = match cost[i] {
                None => true,
                Some(known) => new_cost < known,
            };
            if better {
                cost[i] = Some(new_cost);
                parent[i] = cur;
                open_set_push(open, n, rank(new_cost, to, n));
                proof {
                    let t = visit(s, blocked@, from, to, cur, x as int, y as int);
                    assert forall|c: Cell| on_grid(side as int, c) && c != n implies slot(
                        side as int,
                        c,
                    ) != i by {
                        if slot(side as int, c) == i {
                            lemma_slot_injective(side as int, c, n);
                        }
                    }
                    assert forall|c: Cell| on_grid(side as int, c) implies 0 <= #[trigger] slot(
                        side as int,
                        c,
                    ) < side * side by {
                        lemma_slot(side as int, c);
                    }
                    assert(linked(final(cost)@, final(parent)@, t, side as int, from));
                }
            }
        }
    }
}

/// Looks at the four places next to `cur`, a cell just closed that was
/// found `cur_cost` steps from the start.
fn visit_neighbours(
    cost: &mut Vec<Option<u64>>,
    parent: &mut Vec<Cell>,
    open: &mut OpenSet,
    blocked: &BlockedTiles,
    from: Cell,
    to: Cell,
    cur: Cell,
    cur_cost: u64,
    Ghost(s): Ghost<Search>,
)
    requires
        linked(old(cost)@, old(parent)@, s, blocked.side(), from),
        open_entries(*old(open)) == s.open,
        cur_cost == s.cost[cur],
        cur_cost < round_limit(),
    ensures
        linked(
            final(cost)@,
            final(parent)@,
            expand(s, blocked@, from, to, cur),
            blocked.side(),
            from,
        ),
        open_entries(*final(open)) == expand(s, blocked@, from, to, cur).open,
{
    let around = adjacents(cur);
    let new_cost = cur_cost + 1;
    let ghost grid = blocked@;
    let ghost s1 = visit(s, grid, from, to, cur, cur.0 as int, cur.1 + 1);
    let ghost s2 = visit(s1, grid, from, to, cur, cur.0 as int, cur.1 - 1);
    let ghost s3 = visit(s2, grid, from, to, cur, cur.0 + 1, cur.1 as int);
    proof {
        lemma_visit_keeps(s, grid, from, to, cur, cur.0 as int, cur.1 + 1);
        lemma_visit_keeps(s1, grid, from, to, cur, cur.0 as int, cur.1 - 1);
        lemma_visit_keeps(s2, grid, from, to, cur, cur.0 + 1, cur.1 as int);
    }
    let (x, y) = around[0];
    visit_neighbour(cost, parent, open, blocked, from, to, cur, new_cost, x, y, Ghost(s));
    let (x, y) = around[1];
    visit_neighbour(cost, parent, open, blocked, from, to, cur, new_cost, x, y, Ghost(s1));
    let (x, y) = around[2];
    visit_neighbour(cost, parent, open, blocked, from, to, cur, new_cost, x, y, Ghost(s2));
    let (x, y) = around[3];
    visit_neighbour(cost, parent, open, blocked, from, to, cur, new_cost, x, y, Ghost(s3));
}

/// The way back from `to` to `from` by the parents that the search has
/// recorded: the path from `from` to `to`, its last step first.
fn get_path(
    parent: &Vec<Cell>,
    side: u16,
    from: (i32, i32),
    to: (i32, i32),
    Ghost(s): Ghost<Search>,
    Ghost(grid): Ghost<Map<Cell, bool>>,
    Ghost(done): Ghost<int>,
) -> (path: Vec<(i32, i32)>)
    requires
        holds(s, grid, from, to, None, done),
        s.cost.dom().contains(to),
        s.cost[to] >= 0,
        parent@.len() == side * side,
        forall|c: Cell| grid.dom().contains(c) ==> on_grid(side as int, c),
        forall|c: Cell|
            #![trigger slot(side as int, c)]
            on_grid(side as int, c) && s.parent.dom().contains(c) ==> parent@[slot(side as int, c)]
                == s.parent[c],
    ensures
        path@ == trace(s.parent, from, to, s.cost[to] as nat),
{
    let mut path: Vec<(i32, i32)> = Vec::new();
    let mut cur = to;
    while !(cur.0 == from.0 && cur.1 == from.1)
        invariant
            holds(s, grid, from, to, None, done),
            s.cost.dom().contains(cur),
            s.cost[cur] >= 0,
            parent@.len() == side * side,
            forall|c: Cell| grid.dom().contains(c) ==> on_grid(side as int, c),
            forall|c: Cell|
                #![trigger slot(side as int, c)]
                on_grid(side as int, c) && s.parent.dom().contains(c) ==> parent@[slot(
                    side as int,
                    c,
                )] == s.parent[c],
            path@ + trace(s.parent, from, cur, s.cost[cur] as nat) == trace(
                s.parent,
                from,
                to,
                s.cost[to] as nat,
            ),
        decreases s.cost[cur],
    {
        proof {
            lemma_found(s, grid, from, to, None, done, cur);
            lemma_slot(side as int, cur);
            let rest = trace(s.parent, from, s.parent[cur], s.cost[s.parent[cur]] as nat);
            assert(path@.push(cur) + rest == path@ + (seq![cur] + rest));
        }
        path.push(cur);
        cur = parent[cur.0 as usize * side as usize + cur.1 as usize];
    }
    proof {
        assert(cur == from);
        assert(path@ + Seq::<Cell>::empty() == path@);
    }
    path
}

/// The shortest path from `from` to `to` over cells that are not blocked,
/// moving along the rows and columns, or `None` where `to` cannot be
/// reached. The cell `from` itself may be blocked, by the unit that sets
/// out from it. The path is a stack of steps: it holds the cells to enter,
/// the destination first and the next step last, and is empty where `to`
/// is `from`.
pub fn calculate_a_star_path(from: (i32, i32), to: (i32, i32), blocked: &BlockedTiles) -> (found:
    Option<Vec<(i32, i32)>>)
    ensures
        match found {
            Some(path) => {
                &&& is_path(blocked@, from, to, path@)
                &&& no_shorter(blocked@, from, to, path@.len() as int)
                &&& a_star_path(blocked@, blocked.side(), from, to) == Some(path@)
            },
            None => {
                &&& cut_off(blocked@, from, to)
                &&& a_star_path(blocked@, blocked.side(), from, to) is None
            },
        },
        clear_square(blocked@, blocked.side()) && blocked@.dom().contains(from)
            && blocked@.dom().contains(to) ==> found is Some && found->0@.len() == manhattan(
            from,
            to,
        ),
{
    let rows_cols = blocked.rows_cols();
    let side = rows_cols as usize;
    assert(side * side <= 0xFFFE_0001) by (nonlinear_arith)
        requires
            side <= 0xFFFF,
    ;
    let mut cost: Vec<Option<u64>> = filled(side * side, None);
    let mut parent: Vec<Cell> = filled(side * side, from);
    let mut open = open_set_new();
    open_set_push(&mut open, from, rank(0, to, from));
    if blocked.contains(from.0, from.1) {
        proof {
            lemma_slot(side as int, from);
        }
        cost[from.0 as usize * side + from.1 as usize] = Some(0);
    }
    let ghost grid = blocked@;
    let ghost mut s = start(from, to);
    let ghost mut done: int = 0;
    let ghost mut fuel: nat = (side * side + 1) as nat;
    proof {
        lemma_start(grid, from, to);
        lemma_waiting_bound(s, side as int, (side * side) as nat);
        assert(open_entries(open) =~= s.open);
        assert forall|c: Cell| on_grid(side as int, c) implies 0 <= #[trigger] slot(
            side as int,
            c,
        ) < side * side && (c != from && on_grid(side as int, from) ==> slot(side as int, c)
            != slot(side as int, from)) by {
            lemma_slot(side as int, c);
            if on_grid(side as int, from) && slot(side as int, c) == slot(side as int, from) {
                lemma_slot_injective(side as int, c, from);
            }
        }
        assert(linked(cost@, parent@, s, side as int, from));
    }
    loop
        invariant
            rows_cols == blocked.side(),
            side == rows_cols,
            grid == blocked@,
            holds(s, grid, from, to, None, done),
            linked(cost@, parent@, s, side as int, from),
            open_entries(open) == s.open,
            search(s, grid, from, to, fuel) == a_star_path(grid, side as int, from, to),
            to_close(s, side as int, from) <= fuel,
            done + fuel == side * side + 1,
            side * side <= 0xFFFE_0001,
        decreases fuel,
    {
        let popped = open_set_pop(&mut open);
        match popped {
            None => {
                proof {
                    lemma_exhausted(s, grid, from, to, done);
                    if clear_square(grid, side as int) && grid.dom().contains(from)
                        && grid.dom().contains(to) {
                        lemma_clear_grid_distance(grid, side as int, from, to, Seq::empty());
                    }
                }
                return None;
            },
            Some((cur, _)) => {
                proof {
                    assert(leads(s.open, cur));
                    lemma_open_cell(s, grid, from, to, done, cur);
                    lemma_pending(s, side as int, from, cur);
                }
                if cur.0 == to.0 && cur.1 == to.1 {
                    proof {
                        lemma_arrived(s, grid, from, to, done, fuel);
                    }
                    let path = get_path(
                        &parent,
                        rows_cols,
                        from,
                        to,
                        Ghost(s),
                        Ghost(grid),
                        Ghost(done),
                    );
                    proof {
                        if clear_square(grid, side as int) && grid.dom().contains(from)
                            && grid.dom().contains(to) {
                            lemma_clear_grid_distance(grid, side as int, from, to, path@);
                        }
                    }
                    return Some(path);
                }
                let ghost t = taken(s, cur);
                let ghost next = expand(t, grid, from, to, cur);
                proof {
                    lemma_round(s, grid, from, to, done, fuel, cur);
                    lemma_closing(s, next, side as int, from, cur);
                }
                let cur_cost: u64 = if cur.0 == from.0 && cur.1 == from.1 {
                    0
                } else {
                    proof {
                        lemma_slot(side as int, cur);
                    }
                    match cost[cur.0 as usize * side + cur.1 as usize] {
                        Some(known) => known,
                        None => 0,
                    }
                };
                visit_neighbours(
                    &mut cost,
                    &mut parent,
                    &mut open,
                    blocked,
                    from,
                    to,
                    cur,
                    cur_cost,
                    Ghost(t),
                );
                proof {
                    s = next;
                    done = done + 1;
                    fuel = (fuel - 1) as nat;
                }
            },
        }
    }
}

} // verus!
