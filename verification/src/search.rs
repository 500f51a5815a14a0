//! The best-first search for a shortest path, as a mathematical model: the
//! state of the search, one round of it, and why its answer is right.

use crate::grid::Cell;
use crate::open_set::{outranks, Rank};
use crate::route::{
    adjacent, cell_after, cut_off, is_path, lemma_first_steps, lemma_path_extends,
    lemma_steps_left, manhattan, no_shorter, passable,
};
use vstd::prelude::*;

verus! {

/// The state of a search.
pub struct Search {
    /// The cells found so far, each with the length of the shortest way to
    /// it that is known.
    pub cost: Map<Cell, int>,
    /// For each cell found, but the one the search set out from, the cell
    /// before it on that way.
    pub parent: Map<Cell, Cell>,
    /// The cells found whose neighbours have not been looked at yet.
    pub open: Map<Cell, Rank>,
}

/// No search takes more rounds than this: the grid has fewer cells.
pub open spec fn round_limit() -> int {
    0x1_0000_0000
}

/// The priority of a cell that is `cost` steps from the start: the lower
/// the cost plus the distance left to the goal, the higher; of two cells
/// with the same sum the one with the lower coordinates comes first.
pub open spec fn rank_of(cost: int, goal: Cell, c: Cell) -> Rank {
    ((0 - (cost + manhattan(goal, c))) as i64, (0 - c.0) as i64, (0 - c.1) as i64)
}

/// The state before the first round: only the start is known and open.
pub open spec fn start(from: Cell, goal: Cell) -> Search {
    Search {
        cost: Map::empty().insert(from, 0int),
        parent: Map::empty(),
        open: Map::empty().insert(from, rank_of(0, goal, from)),
    }
}

/// Looks at `n`, a neighbour of `cur`: where it is passable and the way
/// over `cur` is the first or the shortest known, that way is recorded and
/// `n` is opened.
pub open spec fn relax(
    s: Search,
    grid: Map<Cell, bool>,
    from: Cell,
    goal: Cell,
    cur: Cell,
    n: Cell,
) -> Search {
    let new_cost = s.cost[cur] + 1;
    if passable(grid, from, n) && (!s.cost.dom().contains(n) || new_cost < s.cost[n]) {
        Search {
            cost: s.cost.insert(n, new_cost),
            parent: s.parent.insert(n, cur),
            open: s.open.insert(n, rank_of(new_cost, goal, n)),
        }
    } else {
        s
    }
}

/// Looks at the neighbour `(x, y)` of `cur`, if there is such a cell.
pub open spec fn visit(
    s: Search,
    grid: Map<Cell, bool>,
    from: Cell,
    goal: Cell,
    cur: Cell,
    x: int,
    y: int,
) -> Search {
    if i32::MIN <= x <= i32::MAX && i32::MIN <= y <= i32::MAX {
        relax(s, grid, from, goal, cur, (x as i32, y as i32))
    } else {
        s
    }
}

/// Looks at the four neighbours of `cur`: above, below, right, left.
pub open spec fn expand(
    s: Search,
    grid: Map<Cell, bool>,
    from: Cell,
    goal: Cell,
    cur: Cell,
) -> Search {
    let s1 = visit(s, grid, from, goal, cur, cur.0 as int, cur.1 + 1);
    let s2 = visit(s1, grid, from, goal, cur, cur.0 as int, cur.1 - 1);
    let s3 = visit(s2, grid, from, goal, cur, cur.0 + 1, cur.1 as int);
    visit(s3, grid, from, goal, cur, cur.0 - 1, cur.1 as int)
}

/// Whether `c` is open and no open cell outranks it.
pub open spec fn leads(open: Map<Cell, Rank>, c: Cell) -> bool {
    &&& open.dom().contains(c)
    &&& forall|d: Cell| #[trigger] open.dom().contains(d) ==> !outranks(open[d], open[c])
}

/// The open cell that is expanded next.
pub open spec fn best(open: Map<Cell, Rank>) -> Cell {
    choose|c: Cell| leads(open, c)
}

/// The state with `cur` taken from the open cells.
pub open spec fn taken(s: Search, cur: Cell) -> Search {
    Search { cost: s.cost, parent: s.parent, open: s.open.remove(cur) }
}

/// The way back from `c` by the recorded parents, as a path: `c` first.
pub open spec fn trace(parent: Map<Cell, Cell>, from: Cell, c: Cell, steps: nat) -> Seq<Cell>
    decreases steps,
{
    if c == from || steps == 0 || !parent.dom().contains(c) {
        Seq::empty()
    } else {
        seq![c] + trace(parent, from, parent[c], (steps - 1) as nat)
    }
}

/// The answer of the search that goes on from state `s` for `fuel` rounds
/// at most: the path to `goal` by the recorded parents once `goal` is the
/// best open cell, `None` once no cell is open.
#[verifier::opaque]
pub open spec fn search(
    s: Search,
    grid: Map<Cell, bool>,
    from: Cell,
    goal: Cell,
    fuel: nat,
) -> Option<Seq<Cell>>
    decreases fuel,
{
    if fuel == 0 || !(exists|c: Cell| s.open.dom().contains(c)) {
        None
    } else {
        let cur = best(s.open);
        if cur == goal {
            Some(trace(s.parent, from, goal, s.cost[goal] as nat))
        } else {
            search(
                expand(taken(s, cur), grid, from, goal, cur),
                grid,
                from,
                goal,
                (fuel - 1) as nat,
            )
        }
    }
}

/// Whether `c` has been expanded: it was found and is open no more.
pub open spec fn closed(s: Search, c: Cell) -> bool {
    s.cost.dom().contains(c) && !s.open.dom().contains(c)
}

/// Whether the cell `c`, found on the way over its parent, is recorded as
/// it should be.
pub open spec fn hangs(s: Search, grid: Map<Cell, bool>, from: Cell, c: Cell) -> bool {
    &&& passable(grid, from, c)
    &&& s.parent.dom().contains(c)
    &&& closed(s, s.parent[c])
    &&& s.cost[c] == s.cost[s.parent[c]] + 1
    &&& adjacent(s.parent[c], c)
}

/// What holds of the state between two rounds, after `done` rounds; with
/// `cur` given, while the neighbours of `cur` are being looked at.
#[verifier::opaque]
pub closed spec fn holds(
    s: Search,
    grid: Map<Cell, bool>,
    from: Cell,
    goal: Cell,
    cur: Option<Cell>,
    done: int,
) -> bool {
    &&& 0 <= done <= round_limit()
    &&& s.open.dom().finite()
    &&& s.cost.dom().contains(from)
    &&& s.cost[from] == 0
    &&& forall|c: Cell| #[trigger] s.cost.dom().contains(c) && c != from ==> hangs(s, grid, from, c)
    &&& forall|c: Cell| #[trigger] s.cost.dom().contains(c) ==> 0 <= s.cost[c] <= done
    &&& forall|c: Cell| #[trigger]
        s.open.dom().contains(c) ==> s.cost.dom().contains(c) && s.open[c] == rank_of(
            s.cost[c],
            goal,
            c,
        )
    &&& forall|c: Cell| #[trigger] closed(s, c) ==> no_shorter(grid, from, c, s.cost[c])
    &&& forall|c: Cell, n: Cell|
        #![trigger closed(s, c), passable(grid, from, n)]
        closed(s, c) && Some(c) != cur && adjacent(c, n) && passable(grid, from, n)
            ==> s.cost.dom().contains(n) && s.cost[n] <= s.cost[c] + 1
    &&& !closed(s, goal)
    &&& cur matches Some(u) ==> closed(s, u) && s.cost[u] < done
}

/// The search begins in a state of which all of this holds.
pub proof fn lemma_start(grid: Map<Cell, bool>, from: Cell, goal: Cell)
    ensures
        holds(start(from, goal), grid, from, goal, None, 0),
{
    reveal(holds);
    let s = start(from, goal);
    assert(s.open.dom().contains(from));
    assert forall|c: Cell| !closed(s, c) by {}
}

/// What is known of a cell that was found: the start was found in no
/// step; any other cell hangs on its parent, which was found one step
/// earlier, and the way back from the cell goes over the parent.
pub proof fn lemma_found(
    s: Search,
    grid: Map<Cell, bool>,
    from: Cell,
    goal: Cell,
    cur: Option<Cell>,
    done: int,
    c: Cell,
)
    requires
        holds(s, grid, from, goal, cur, done),
        s.cost.dom().contains(c),
    ensures
        s.cost.dom().contains(from),
        0 <= s.cost[c] <= done <= round_limit(),
        c == from ==> s.cost[c] == 0,
        c != from ==> {
            &&& hangs(s, grid, from, c)
            &&& s.cost.dom().contains(s.parent[c])
            &&& s.cost[s.parent[c]] >= 0
            &&& trace(s.parent, from, c, s.cost[c] as nat) == seq![c] + trace(
                s.parent,
                from,
                s.parent[c],
                s.cost[s.parent[c]] as nat,
            )
        },
{
    reveal(holds);
    if c != from {
        assert(hangs(s, grid, from, c));
    }
}

/// What is known of a closed cell: no path to it is shorter than the way
/// by which it was found.
pub proof fn lemma_closed(
    s: Search,
    grid: Map<Cell, bool>,
    from: Cell,
    goal: Cell,
    cur: Option<Cell>,
    done: int,
    c: Cell,
)
    requires
        holds(s, grid, from, goal, cur, done),
        closed(s, c),
    ensures
        no_shorter(grid, from, c, s.cost[c]),
        c != goal,
{
    reveal(holds);
}

/// Between two rounds, every passable cell next to a closed cell was
/// found, one step further than the closed cell or nearer.
pub proof fn lemma_settled(
    s: Search,
    grid: Map<Cell, bool>,
    from: Cell,
    goal: Cell,
    done: int,
    c: Cell,
    n: Cell,
)
    requires
        holds(s, grid, from, goal, None, done),
        closed(s, c),
        adjacent(c, n),
        passable(grid, from, n),
    ensures
        s.cost.dom().contains(n),
        s.cost[n] <= s.cost[c] + 1,
{
    reveal(holds);
}

/// The recorded parents lead back from every cell found, in as many steps
/// as its cost says.
pub proof fn lemma_trace(
    s: Search,
    grid: Map<Cell, bool>,
    from: Cell,
    goal: Cell,
    cur: Option<Cell>,
    done: int,
    c: Cell,
)
    requires
        holds(s, grid, from, goal, cur, done),
        s.cost.dom().contains(c),
    ensures
        is_path(grid, from, c, trace(s.parent, from, c, s.cost[c] as nat)),
        trace(s.parent, from, c, s.cost[c] as nat).len() == s.cost[c],
    decreases s.cost[c],
{
    lemma_found(s, grid, from, goal, cur, done, c);
    if c != from {
        let p = s.parent[c];
        lemma_found(s, grid, from, goal, cur, done, p);
        lemma_trace(s, grid, from, goal, cur, done, p);
        lemma_path_extends(grid, from, p, c, trace(s.parent, from, p, s.cost[p] as nat));
    }
}

/// Along any path from the start, up to its step `k`: either every cell is
/// closed (the answer is -1), or some cell on the way is open and found by
/// a way no longer than the path's own way to it (the answer is its step).
pub proof fn lemma_frontier(
    s: Search,
    grid: Map<Cell, bool>,
    from: Cell,
    goal: Cell,
    done: int,
    to: Cell,
    path: Seq<Cell>,
    k: int,
) -> (i: int)
    requires
        holds(s, grid, from, goal, None, done),
        is_path(grid, from, to, path),
        0 <= k <= path.len(),
    ensures
        -1 <= i <= k,
        i == -1 ==> forall|j: int| 0 <= j <= k ==> closed(s, #[trigger] cell_after(from, path, j)),
        i >= 0 ==> s.open.dom().contains(cell_after(from, path, i)) && s.cost[cell_after(
            from,
            path,
            i,
        )] <= i,
    decreases k,
{
    if k == 0 {
        lemma_start_found(s, grid, from, goal, done);
        if s.open.dom().contains(from) {
            0
        } else {
            -1
        }
    } else {
        let i = lemma_frontier(s, grid, from, goal, done, to, path, k - 1);
        if i >= 0 {
            i
        } else {
            let len = path.len() as int;
            let here = cell_after(from, path, k - 1);
            let next = cell_after(from, path, k);
            assert(closed(s, here));
            assert(next == path[len - k]);
            if k == 1 {
                assert(next == path.last());
            } else {
                assert(here == path[(len - k) + 1]);
            }
            assert(adjacent(here, next));
            assert(passable(grid, from, next));
            lemma_first_steps(grid, from, to, path, k - 1);
            lemma_closed(s, grid, from, goal, None, done, here);
            assert(is_path(grid, from, here, path.subrange(len - (k - 1), len)));
            assert(s.cost[here] <= k - 1);
            lemma_settled(s, grid, from, goal, done, here, next);
            if s.open.dom().contains(next) {
                k
            } else {
                assert(closed(s, next));
                assert forall|j: int| 0 <= j <= k implies closed(
                    s,
                    #[trigger] cell_after(from, path, j),
                ) by {
                    if j < k {
                    }
                }
                -1
            }
        }
    }
}

/// The start was found, in no step.
pub proof fn lemma_start_found(s: Search, grid: Map<Cell, bool>, from: Cell, goal: Cell, done: int)
    requires
        holds(s, grid, from, goal, None, done),
    ensures
        s.cost.dom().contains(from),
        s.cost[from] == 0,
{
    reveal(holds);
}

/// The open cell that leads is found by a shortest way.
pub proof fn lemma_leader_is_near(
    s: Search,
    grid: Map<Cell, bool>,
    from: Cell,
    goal: Cell,
    done: int,
    u: Cell,
)
    requires
        holds(s, grid, from, goal, None, done),
        leads(s.open, u),
    ensures
        no_shorter(grid, from, u, s.cost[u]),
{
    lemma_open_cell(s, grid, from, goal, done, u);
    assert forall|path: Seq<Cell>| #[trigger] is_path(grid, from, u, path) implies s.cost[u]
        <= path.len() by {
        let len = path.len() as int;
        let i = lemma_frontier(s, grid, from, goal, done, u, path, len);
        if len > 0 {
            assert(cell_after(from, path, len) == path[0]);
        }
        assert(cell_after(from, path, len) == u);
        if i == -1 {
            assert(closed(s, cell_after(from, path, len)));
        } else {
            let w = cell_after(from, path, i);
            lemma_steps_left(grid, from, u, path, goal, i);
            lemma_open_cell(s, grid, from, goal, done, w);
            assert(!outranks(s.open[w], s.open[u]));
            assert(s.open[w].0 == 0 - (s.cost[w] + manhattan(goal, w)));
            assert(s.open[u].0 == 0 - (s.cost[u] + manhattan(goal, u)));
        }
    }
}

/// Among open cells, finitely many and one at least, one leads.
pub proof fn lemma_some_leader(open: Map<Cell, Rank>)
    requires
        open.dom().finite(),
        open.dom().len() > 0,
    ensures
        exists|c: Cell| leads(open, c),
    decreases open.dom().len(),
{
    let x = open.dom().choose();
    let rest = open.remove(x);
    if rest.dom().len() == 0 {
        assert forall|d: Cell| #[trigger] open.dom().contains(d) implies !outranks(
            open[d],
            open[x],
        ) by {
            if d != x {
                assert(rest.dom().contains(d));
            }
        }
        assert(leads(open, x));
    } else {
        lemma_some_leader(rest);
        let c = choose|c: Cell| leads(rest, c);
        assert(leads(rest, c));
        assert(open[c] == rest[c]);
        if outranks(open[x], open[c]) {
            assert forall|d: Cell| #[trigger] open.dom().contains(d) implies !outranks(
                open[d],
                open[x],
            ) by {
                if d != x {
                    assert(rest.dom().contains(d));
                    assert(!outranks(rest[d], rest[c]));
                }
            }
            assert(leads(open, x));
        } else {
            assert forall|d: Cell| #[trigger] open.dom().contains(d) implies !outranks(
                open[d],
                open[c],
            ) by {
                if d != x {
                    assert(rest.dom().contains(d));
                    assert(!outranks(rest[d], rest[c]));
                }
            }
            assert(leads(open, c));
        }
    }
}

/// Between two rounds, while a cell is open, one open cell leads.
pub proof fn lemma_leader(
    s: Search,
    grid: Map<Cell, bool>,
    from: Cell,
    goal: Cell,
    done: int,
) -> (cur: Cell)
    requires
        holds(s, grid, from, goal, None, done),
        exists|c: Cell| s.open.dom().contains(c),
    ensures
        leads(s.open, cur),
{
    reveal(holds);
    let c = choose|c: Cell| s.open.dom().contains(c);
    assert(s.open.dom().len() > 0) by {
        if s.open.dom().len() == 0 {
            assert(s.open.dom().contains(c));
            vstd::set_lib::lemma_set_empty_equivalency_len(s.open.dom());
        }
    }
    lemma_some_leader(s.open);
    choose|cur: Cell| leads(s.open, cur)
}

/// Only one cell leads.
pub proof fn lemma_one_leader(
    s: Search,
    grid: Map<Cell, bool>,
    from: Cell,
    goal: Cell,
    done: int,
    u: Cell,
)
    requires
        holds(s, grid, from, goal, None, done),
        leads(s.open, u),
    ensures
        best(s.open) == u,
{
    let b = best(s.open);
    assert(leads(s.open, b));
    lemma_open_cell(s, grid, from, goal, done, u);
    lemma_open_cell(s, grid, from, goal, done, b);
    assert(!outranks(s.open[u], s.open[b]));
    assert(!outranks(s.open[b], s.open[u]));
    assert(s.open[u].1 == 0 - u.0 && s.open[u].2 == 0 - u.1);
    assert(s.open[b].1 == 0 - b.0 && s.open[b].2 == 0 - b.1);
}

/// Once the goal leads, the way back from it is a shortest path.
pub proof fn lemma_arrived(
    s: Search,
    grid: Map<Cell, bool>,
    from: Cell,
    goal: Cell,
    done: int,
    fuel: nat,
)
    requires
        holds(s, grid, from, goal, None, done),
        leads(s.open, goal),
        fuel >= 1,
    ensures
        is_path(grid, from, goal, trace(s.parent, from, goal, s.cost[goal] as nat)),
        no_shorter(grid, from, goal, trace(s.parent, from, goal, s.cost[goal] as nat).len() as int),
        search(s, grid, from, goal, fuel) == Some(
            trace(s.parent, from, goal, s.cost[goal] as nat),
        ),
{
    reveal(search);
    lemma_open_cell(s, grid, from, goal, done, goal);
    lemma_leader_is_near(s, grid, from, goal, done, goal);
    lemma_trace(s, grid, from, goal, None, done, goal);
    lemma_one_leader(s, grid, from, goal, done, goal);
    assert(s.open.dom().contains(goal));
}

/// Once no cell is open, the goal cannot be reached.
pub proof fn lemma_exhausted(s: Search, grid: Map<Cell, bool>, from: Cell, goal: Cell, done: int)
    requires
        holds(s, grid, from, goal, None, done),
        forall|c: Cell| !s.open.dom().contains(c),
    ensures
        cut_off(grid, from, goal),
        forall|fuel: nat| search(s, grid, from, goal, fuel) is None,
{
    reveal(search);
    assert forall|path: Seq<Cell>| !#[trigger] is_path(grid, from, goal, path) by {
        if is_path(grid, from, goal, path) {
            let len = path.len() as int;
            let i = lemma_frontier(s, grid, from, goal, done, goal, path, len);
            if len > 0 {
                assert(cell_after(from, path, len) == path[0]);
            }
            assert(closed(s, cell_after(from, path, len)));
            lemma_closed(s, grid, from, goal, None, done, goal);
        }
    }
}

/// Taking the leader from the open cells closes it, rightly.
#[verifier::rlimit(60)]
pub proof fn lemma_taken(
    s: Search,
    grid: Map<Cell, bool>,
    from: Cell,
    goal: Cell,
    done: int,
    u: Cell,
)
    requires
        holds(s, grid, from, goal, None, done),
        leads(s.open, u),
        u != goal,
        done < round_limit(),
    ensures
        holds(taken(s, u), grid, from, goal, Some(u), done + 1),
        forall|c: Cell| closed(taken(s, u), c) == (closed(s, c) || c == u),
{
    reveal(holds);
    let t = taken(s, u);
    lemma_leader_is_near(s, grid, from, goal, done, u);
    assert forall|c: Cell| #[trigger] t.cost.dom().contains(c) && c != from implies hangs(
        t,
        grid,
        from,
        c,
    ) by {
        assert(hangs(s, grid, from, c));
        assert(closed(s, s.parent[c]));
    }
    assert forall|c: Cell| #[trigger] closed(t, c) implies no_shorter(grid, from, c, t.cost[c]) by {
        if c != u {
            assert(closed(s, c));
        }
    }
    assert forall|c: Cell, n: Cell|
        #![trigger closed(t, c), passable(grid, from, n)]
        closed(t, c) && Some(c) != Some(u) && adjacent(c, n) && passable(
            grid,
            from,
            n,
        ) implies t.cost.dom().contains(n) && t.cost[n] <= t.cost[c] + 1 by {
        assert(closed(s, c));
    }
    assert(!closed(t, goal)) by {
        if closed(t, goal) {
            assert(closed(s, goal));
        }
    }
}

/// A closed cell next to the cell that is being expanded is no further
/// from the start than one step more.
pub proof fn lemma_closed_is_near(
    s: Search,
    grid: Map<Cell, bool>,
    from: Cell,
    goal: Cell,
    done: int,
    cur: Cell,
    n: Cell,
)
    requires
        holds(s, grid, from, goal, Some(cur), done),
        adjacent(cur, n),
        passable(grid, from, n),
        closed(s, n),
    ensures
        s.cost[n] <= s.cost[cur] + 1,
{
    lemma_cur(s, grid, from, goal, done, cur);
    lemma_trace(s, grid, from, goal, Some(cur), done, cur);
    let back = trace(s.parent, from, cur, s.cost[cur] as nat);
    lemma_path_extends(grid, from, cur, n, back);
    lemma_closed(s, grid, from, goal, Some(cur), done, n);
    assert(is_path(grid, from, n, seq![n] + back));
}

/// The cell that is being expanded is closed, and was found in fewer steps
/// than rounds were made.
pub proof fn lemma_cur(
    s: Search,
    grid: Map<Cell, bool>,
    from: Cell,
    goal: Cell,
    done: int,
    cur: Cell,
)
    requires
        holds(s, grid, from, goal, Some(cur), done),
    ensures
        closed(s, cur),
        s.cost[cur] < done,
{
    reveal(holds);
}

/// Looking at one neighbour of the cell that is being expanded keeps what
/// holds, loses no cell and lengthens no way; and a passable neighbour is
/// found then, one step further than the cell or nearer.
#[verifier::rlimit(60)]
pub proof fn lemma_relax(
    s: Search,
    grid: Map<Cell, bool>,
    from: Cell,
    goal: Cell,
    done: int,
    cur: Cell,
    n: Cell,
)
    requires
        holds(s, grid, from, goal, Some(cur), done),
        adjacent(cur, n),
    ensures
        holds(relax(s, grid, from, goal, cur, n), grid, from, goal, Some(cur), done),
        forall|c: Cell| #[trigger]
            s.cost.dom().contains(c) ==> relax(s, grid, from, goal, cur, n).cost.dom().contains(c)
                && relax(s, grid, from, goal, cur, n).cost[c] <= s.cost[c],
        relax(s, grid, from, goal, cur, n).cost[cur] == s.cost[cur],
        passable(grid, from, n) ==> relax(s, grid, from, goal, cur, n).cost.dom().contains(n)
            && relax(s, grid, from, goal, cur, n).cost[n] <= s.cost[cur] + 1,
        forall|c: Cell| closed(relax(s, grid, from, goal, cur, n), c) == closed(s, c),
{
    reveal(holds);
    let r = relax(s, grid, from, goal, cur, n);
    let new_cost = s.cost[cur] + 1;
    if passable(grid, from, n) && (!s.cost.dom().contains(n) || new_cost < s.cost[n]) {
        assert(n != from);
        assert(closed(s, cur));
        if closed(s, n) {
            lemma_closed_is_near(s, grid, from, goal, done, cur, n);
        }
        assert(n != cur);
        assert forall|c: Cell| closed(r, c) == closed(s, c) by {}
        assert forall|c: Cell| #[trigger] r.cost.dom().contains(c) && c != from implies hangs(
            r,
            grid,
            from,
            c,
        ) by {
            if c == n {
                assert(closed(r, cur));
            } else {
                assert(hangs(s, grid, from, c));
                assert(closed(s, s.parent[c]));
                assert(closed(r, s.parent[c]));
            }
        }
        assert forall|c: Cell| #[trigger] r.open.dom().contains(c) implies r.cost.dom().contains(c)
            && r.open[c] == rank_of(r.cost[c], goal, c) by {
            if c != n {
                assert(s.open.dom().contains(c));
            }
        }
        assert forall|c: Cell| #[trigger] closed(r, c) implies no_shorter(
            grid,
            from,
            c,
            r.cost[c],
        ) by {
            assert(closed(s, c));
        }
        assert forall|c: Cell, m: Cell|
            #![trigger closed(r, c), passable(grid, from, m)]
            closed(r, c) && Some(c) != Some(cur) && adjacent(c, m) && passable(
                grid,
                from,
                m,
            ) implies r.cost.dom().contains(m) && r.cost[m] <= r.cost[c] + 1 by {
            assert(closed(s, c));
        }
        assert(!closed(r, goal)) by {
            assert(closed(r, goal) == closed(s, goal));
        }
    }
}

/// `lemma_relax`, for a neighbour given by two integers.
pub proof fn lemma_visit(
    s: Search,
    grid: Map<Cell, bool>,
    from: Cell,
    goal: Cell,
    done: int,
    cur: Cell,
    x: int,
    y: int,
)
    requires
        holds(s, grid, from, goal, Some(cur), done),
        (x == cur.0 && (y == cur.1 + 1 || y == cur.1 - 1)) || (y == cur.1 && (x == cur.0 + 1 || x
            == cur.0 - 1)),
    ensures
        holds(visit(s, grid, from, goal, cur, x, y), grid, from, goal, Some(cur), done),
        forall|c: Cell| #[trigger]
            s.cost.dom().contains(c) ==> visit(s, grid, from, goal, cur, x, y).cost.dom().contains(
                c,
            ) && visit(s, grid, from, goal, cur, x, y).cost[c] <= s.cost[c],
        visit(s, grid, from, goal, cur, x, y).cost[cur] == s.cost[cur],
        forall|n: Cell|
            n.0 == x && n.1 == y && #[trigger] passable(grid, from, n) ==> visit(
                s,
                grid,
                from,
                goal,
                cur,
                x,
                y,
            ).cost.dom().contains(n) && visit(s, grid, from, goal, cur, x, y).cost[n] <= s.cost[cur]
                + 1,
        forall|c: Cell| closed(visit(s, grid, from, goal, cur, x, y), c) == closed(s, c),
{
    if i32::MIN <= x <= i32::MAX && i32::MIN <= y <= i32::MAX {
        let n = (x as i32, y as i32);
        lemma_relax(s, grid, from, goal, done, cur, n);
        assert forall|m: Cell| m.0 == x && m.1 == y implies m == n by {}
    }
}

/// When its four neighbours have been looked at, the cell is done with.
#[verifier::rlimit(60)]
pub proof fn lemma_expand(
    s: Search,
    grid: Map<Cell, bool>,
    from: Cell,
    goal: Cell,
    done: int,
    cur: Cell,
)
    requires
        holds(s, grid, from, goal, Some(cur), done),
    ensures
        holds(expand(s, grid, from, goal, cur), grid, from, goal, None, done),
        forall|c: Cell| closed(expand(s, grid, from, goal, cur), c) == closed(s, c),
{
    reveal(holds);
    let s1 = visit(s, grid, from, goal, cur, cur.0 as int, cur.1 + 1);
    lemma_visit(s, grid, from, goal, done, cur, cur.0 as int, cur.1 + 1);
    let s2 = visit(s1, grid, from, goal, cur, cur.0 as int, cur.1 - 1);
    lemma_visit(s1, grid, from, goal, done, cur, cur.0 as int, cur.1 - 1);
    let s3 = visit(s2, grid, from, goal, cur, cur.0 + 1, cur.1 as int);
    lemma_visit(s2, grid, from, goal, done, cur, cur.0 + 1, cur.1 as int);
    let s4 = visit(s3, grid, from, goal, cur, cur.0 - 1, cur.1 as int);
    lemma_visit(s3, grid, from, goal, done, cur, cur.0 - 1, cur.1 as int);
    assert(s4 == expand(s, grid, from, goal, cur));
    assert forall|c: Cell, n: Cell|
        #![trigger closed(s4, c), passable(grid, from, n)]
        closed(s4, c) && adjacent(c, n) && passable(grid, from, n) implies s4.cost.dom().contains(
        n,
    ) && s4.cost[n] <= s4.cost[c] + 1 by {
        if c == cur {
            if n.0 == cur.0 && n.1 == cur.1 + 1 {
                assert(s1.cost.dom().contains(n));
                assert(s2.cost.dom().contains(n));
                assert(s3.cost.dom().contains(n));
            } else if n.0 == cur.0 && n.1 == cur.1 - 1 {
                assert(s2.cost.dom().contains(n));
                assert(s3.cost.dom().contains(n));
            } else if n.0 == cur.0 + 1 && n.1 == cur.1 {
                assert(s3.cost.dom().contains(n));
            } else {
                assert(n.0 == cur.0 - 1 && n.1 == cur.1);
            }
        }
    }
}

/// One round of the search: the leader `cur`, which is not the goal, is
/// closed and its neighbours are looked at. What held before holds after,
/// and the search goes on from there to the same answer.
pub proof fn lemma_round(
    s: Search,
    grid: Map<Cell, bool>,
    from: Cell,
    goal: Cell,
    done: int,
    fuel: nat,
    cur: Cell,
)
    requires
        holds(s, grid, from, goal, None, done),
        leads(s.open, cur),
        cur != goal,
        done < round_limit(),
        fuel >= 1,
    ensures
        holds(expand(taken(s, cur), grid, from, goal, cur), grid, from, goal, None, done + 1),
        forall|c: Cell|
            closed(expand(taken(s, cur), grid, from, goal, cur), c) == (closed(s, c) || c == cur),
        search(s, grid, from, goal, fuel) == search(
            expand(taken(s, cur), grid, from, goal, cur),
            grid,
            from,
            goal,
            (fuel - 1) as nat,
        ),
{
    reveal(search);
    lemma_one_leader(s, grid, from, goal, done, cur);
    lemma_taken(s, grid, from, goal, done, cur);
    lemma_expand(taken(s, cur), grid, from, goal, done + 1, cur);
    assert(s.open.dom().contains(cur));
}

/// What is known of an open cell: it was found, by a way of no more steps
/// than rounds were made, and it is passable unless the search set out
/// from it.
pub proof fn lemma_open_cell(
    s: Search,
    grid: Map<Cell, bool>,
    from: Cell,
    goal: Cell,
    done: int,
    c: Cell,
)
    requires
        holds(s, grid, from, goal, None, done),
        s.open.dom().contains(c),
    ensures
        !closed(s, c),
        s.cost.dom().contains(c),
        0 <= s.cost[c] <= done <= round_limit(),
        c != from ==> passable(grid, from, c),
        c == from ==> s.cost[c] == 0,
        s.open[c] == rank_of(s.cost[c], goal, c),
{
    reveal(holds);
    if c != from {
        assert(hangs(s, grid, from, c));
    }
}

} // verus!
