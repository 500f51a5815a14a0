//! The square grid: which cells exist and which of them are blocked.

use crate::units::{stands_on, unit_among, unit_on, UnitSlot, Units};
use vstd::prelude::*;

verus! {

/// A cell of the grid, by its two coordinates.
pub type Cell = (i32, i32);

/// The place of a unit or of a tile on the grid.
#[derive(Clone, Copy, Debug, PartialEq, Eq, Structural)]
pub struct GridPosition {
    pub x: i32,
    pub y: i32,
}

impl GridPosition {
    /// The position as a cell.
    pub open spec fn cell(self) -> Cell {
        (self.x, self.y)
    }
}

/// The tile that the next move is to end on.
#[derive(Clone, Copy, Debug, PartialEq, Eq, Structural)]
pub struct SelectedTile {
    pub x: i32,
    pub y: i32,
}

/// The steps of a move that are still to be made: the cells to enter, the
/// destination first and the next step last.
pub struct SelectedPath {
    pub tiles: Vec<(i32, i32)>,
}

/// The cells that the units of each side come in by.
pub struct Spawners {
    pub ai_locations: Vec<GridPosition>,
    pub player_locations: Vec<GridPosition>,
}

/// Whether a cell lies on the square grid of the given side.
pub open spec fn on_grid(side: int, c: Cell) -> bool {
    0 <= c.0 < side && 0 <= c.1 < side
}

/// Where a cell of the grid is kept: column after column.
pub open spec fn slot(side: int, c: Cell) -> int {
    c.0 * side + c.1
}

/// A cell of the grid has a slot of its own below `side * side`.
pub proof fn lemma_slot(side: int, c: Cell)
    requires
        on_grid(side, c),
    ensures
        0 <= c.0 * side <= slot(side, c) < side * side,
        side <= 0xFFFF ==> side * side <= 0xFFFE_0001,
        slot(side, c) / side == c.0,
        slot(side, c) % side == c.1,
{
    assert(0 <= c.0 * side) by (nonlinear_arith)
        requires
            0 <= c.0 < side,
    ;
    assert(side <= 0xFFFF ==> side * side <= 0xFFFE_0001) by (nonlinear_arith)
        requires
            0 < side,
    ;
    assert(0 <= c.0 * side + c.1 < side * side) by (nonlinear_arith)
        requires
            0 <= c.0 < side,
            0 <= c.1 < side,
    ;
    assert((c.0 * side + c.1) / side == c.0 && (c.0 * side + c.1) % side == c.1)
        by (nonlinear_arith)
        requires
            0 <= c.0 < side,
            0 <= c.1 < side,
    ;
}

/// Two cells of the grid that share a slot are one cell.
pub proof fn lemma_slot_injective(side: int, a: Cell, b: Cell)
    requires
        on_grid(side, a),
        on_grid(side, b),
        slot(side, a) == slot(side, b),
    ensures
        a == b,
{
    lemma_slot(side, a);
    lemma_slot(side, b);
}

/// A vector of `n` copies of `value`.
pub fn filled<T: Copy>(n: usize, value: T) -> (v: Vec<T>)
    ensures
        v@.len() == n,
        forall|i: int| 0 <= i < n ==> v@[i] == value,
{
    let mut v: Vec<T> = Vec::new();
    let mut i: usize = 0;
    while i < n
        invariant
            i <= n,
            v@.len() == i,
            forall|j: int| 0 <= j < i ==> v@[j] == value,
        decreases n - i,
    {
        v.push(value);
        i += 1;
    }
    v
}

/// For every cell of a square grid, whether it is blocked: by a unit that
/// stands on it, or by an obstacle.
pub struct BlockedTiles {
    rows_cols: u16,
    cells: Vec<bool>,
}

impl View for BlockedTiles {
    type V = Map<Cell, bool>;

    /// The cells of the grid, each with `true` where it is blocked.
    open spec fn view(&self) -> Map<Cell, bool> {
        Map::new(|c: Cell| on_grid(self.side(), c), |c: Cell| self.blocked_at(c))
    }
}

impl BlockedTiles {
    #[verifier::type_invariant]
    spec fn well_formed(self) -> bool {
        self.cells@.len() == self.rows_cols * self.rows_cols
    }

    /// The number of rows, which is that of columns.
    pub closed spec fn side(&self) -> int {
        self.rows_cols as int
    }

    /// Whether a cell of the grid is blocked.
    pub closed spec fn blocked_at(&self, c: Cell) -> bool {
        self.cells@[slot(self.rows_cols as int, c)]
    }

    /// A grid has no more rows than fit in 16 bits.
    pub proof fn rows_cols_bound(&self) -> (side: int)
        ensures
            side == self.side(),
            0 <= side <= 0xFFFF,
    {
        self.rows_cols as int
    }

    /// A grid of `rows_cols` rows and as many columns, with no cell blocked.
    pub fn new(rows_cols: u16) -> (grid: BlockedTiles)
        ensures
            grid.side() == rows_cols,
            forall|c: Cell| on_grid(rows_cols as int, c) ==> !grid.blocked_at(c),
    {
        let side = rows_cols as usize;
        assert(side * side <= 0xFFFF * 0xFFFF) by (nonlinear_arith)
            requires
                side <= 0xFFFF,
        ;
        let cells = filled(side * side, false);
        let grid = BlockedTiles { rows_cols, cells };
        assert forall|c: Cell| on_grid(rows_cols as int, c) implies !grid.blocked_at(c) by {
            lemma_slot(rows_cols as int, c);
        }
        grid
    }

    /// The number of rows, which is that of columns.
    pub fn rows_cols(&self) -> (side: u16)
        ensures
            side == self.side(),
    {
        self.rows_cols
    }

    /// Whether the cell `(x, y)` lies on the grid.
    pub fn contains(&self, x: i32, y: i32) -> (found: bool)
        ensures
            found == self@.dom().contains((x, y)),
    {
        0 <= x && x < self.rows_cols as i32 && 0 <= y && y < self.rows_cols as i32
    }

    /// Whether the cell `(x, y)` is blocked; `None` for a cell off the grid.
    pub fn get(&self, x: i32, y: i32) -> (found: Option<bool>)
        ensures
            found == (if self@.dom().contains((x, y)) {
                Some(self@[(x, y)])
            } else {
                None
            }),
    {
        if self.contains(x, y) {
            proof {
                use_type_invariant(self);
                lemma_slot(self.rows_cols as int, (x, y));
            }
            Some(self.cells[x as usize * self.rows_cols as usize + y as usize])
        } else {
            None
        }
    }

    /// Marks the cell `(x, y)` as blocked or as free. Off the grid there is
    /// nothing to mark.
    pub fn insert(&mut self, x: i32, y: i32, blocked: bool)
        ensures
            final(self).side() == old(self).side(),
            final(self)@ == (if old(self)@.dom().contains((x, y)) {
                old(self)@.insert((x, y), blocked)
            } else {
                old(self)@
            }),
    {
        if self.contains(x, y) {
            let side = self.rows_cols as usize;
            proof {
                use_type_invariant(&*self);
                lemma_slot(side as int, (x, y));
            }
            self.cells[x as usize * side + y as usize] = blocked;
            proof {
                assert forall|c: Cell| on_grid(side as int, c) implies final(self).blocked_at(c)
                    == (if c == (x, y) {
                    blocked
                } else {
                    old(self).blocked_at(c)
                }) by {
                    lemma_slot(side as int, c);
                    if c != (x, y) {
                        if slot(side as int, c) == slot(side as int, (x, y)) {
                            lemma_slot_injective(side as int, c, (x, y));
                        }
                    }
                }
                assert(final(self)@ =~= old(self)@.insert((x, y), blocked));
            }
        }
    }
}

/// The tile with number `i`, counted column after column.
pub open spec fn tile_at(side: int, i: int) -> GridPosition {
    GridPosition { x: (i / side) as i32, y: (i % side) as i32 }
}

/// The tiles of a board of `rows_cols` rows and as many columns, in the
/// order in which they are gone through everywhere: column after column,
/// each from its first row up.
pub fn make_tiles(rows_cols: u16) -> (tiles: Vec<GridPosition>)
    ensures
        tiles@.len() == rows_cols * rows_cols,
        forall|i: int| 0 <= i < tiles@.len() ==> tiles@[i] == tile_at(rows_cols as int, i),
        forall|i: int|
            0 <= i < tiles@.len() ==> on_grid(rows_cols as int, (#[trigger] tiles@[i]).cell()),
{
    let side = rows_cols as usize;
    let mut tiles: Vec<GridPosition> = Vec::new();
    let mut x: usize = 0;
    while x < side
        invariant
            side == rows_cols,
            x <= side,
            tiles@.len() == x * side,
            forall|i: int| 0 <= i < tiles@.len() ==> tiles@[i] == tile_at(side as int, i),
            forall|i: int|
                0 <= i < tiles@.len() ==> on_grid(side as int, (#[trigger] tiles@[i]).cell()),
        decreases side - x,
    {
        let mut y: usize = 0;
        while y < side
            invariant
                side == rows_cols,
                x < side,
                y <= side,
                tiles@.len() == x * side + y,
                forall|i: int| 0 <= i < tiles@.len() ==> tiles@[i] == tile_at(side as int, i),
                forall|i: int|
                    0 <= i < tiles@.len() ==> on_grid(side as int, (#[trigger] tiles@[i]).cell()),
            decreases side - y,
        {
            proof {
                lemma_slot(side as int, (x as i32, y as i32));
            }
            tiles.push(GridPosition { x: x as i32, y: y as i32 });
            y += 1;
        }
        proof {
            assert(x * side + side == (x + 1) * side) by (nonlinear_arith);
        }
        x += 1;
    }
    proof {
        assert(side * side == rows_cols * rows_cols) by (nonlinear_arith)
            requires
                side == rows_cols,
        ;
    }
    tiles
}

/// The cell where the player's unit number `i` of three begins: the middle
/// of the board, the cell before it, the cell after it.
pub open spec fn starting_cell(rows_cols: u16, i: int) -> Cell {
    let mid = (rows_cols / 2) as i32;
    if i == 0 {
        (mid, mid)
    } else if i == 1 {
        ((mid - 1) as i32, mid)
    } else {
        ((mid + 1) as i32, mid)
    }
}

/// Whether the cell lies in the first or last row or column of the board.
pub open spec fn on_edge(side: int, c: Cell) -> bool {
    c.0 == 0 || c.1 == 0 || c.0 == side - 1 || c.1 == side - 1
}

/// Whether the tile with number `i` gets an obstacle: it does not lie on
/// the edge, none of the player's units begins on it, and its roll says
/// so. A tile without a roll gets none.
pub open spec fn gets_obstacle(rows_cols: u16, rolls: Seq<bool>, i: int) -> bool {
    let c = tile_at(rows_cols as int, i).cell();
    &&& !on_edge(rows_cols as int, c)
    &&& c != starting_cell(rows_cols, 0)
    &&& c != starting_cell(rows_cols, 1)
    &&& c != starting_cell(rows_cols, 2)
    &&& i < rolls.len()
    &&& rolls[i]
}

/// Of the first `n` tiles, those that get an obstacle, in their order.
pub open spec fn obstacles_among(rows_cols: u16, rolls: Seq<bool>, n: nat) -> Seq<GridPosition>
    decreases n,
{
    if n == 0 {
        Seq::empty()
    } else {
        let before = obstacles_among(rows_cols, rolls, (n - 1) as nat);
        if gets_obstacle(rows_cols, rolls, n - 1) {
            before.push(tile_at(rows_cols as int, n - 1))
        } else {
            before
        }
    }
}

/// Of the first `n` tiles, those on the edge of the board, in their order.
pub open spec fn edge_among(side: int, n: nat) -> Seq<GridPosition>
    decreases n,
{
    if n == 0 {
        Seq::empty()
    } else {
        let before = edge_among(side, (n - 1) as nat);
        if on_edge(side, tile_at(side, n - 1).cell()) {
            before.push(tile_at(side, n - 1))
        } else {
            before
        }
    }
}

/// A board as it is laid out before the battle: where its obstacles lie,
/// and where the units come in.
pub struct Board {
    pub obstacles: Vec<GridPosition>,
    pub spawners: Spawners,
}

/// Lays out a board of `rows_cols` rows and as many columns. The tiles are
/// gone through in their order, each with its roll from `rolls`: a tile
/// off the edge on which no unit of the player begins gets an obstacle
/// where its roll is `true`. The computer's units come in by the tiles on
/// the edge, the player's by the three cells in the middle.
pub fn create_level(rows_cols: u16, rolls: &Vec<bool>) -> (board: Board)
    ensures
        board.obstacles@ == obstacles_among(rows_cols, rolls@, (rows_cols * rows_cols) as nat),
        board.spawners.ai_locations@ == edge_among(
            rows_cols as int,
            (rows_cols * rows_cols) as nat,
        ),
        board.spawners.player_locations@.len() == 3,
        forall|i: int|
            0 <= i < 3 ==> (#[trigger] board.spawners.player_locations@[i]).cell() == starting_cell(
                rows_cols,
                i,
            ),
{
    let tiles = make_tiles(rows_cols);
    let last = rows_cols as i32 - 1;
    let mid = (rows_cols / 2) as i32;
    let mut obstacles: Vec<GridPosition> = Vec::new();
    let mut ai_locations: Vec<GridPosition> = Vec::new();
    let mut i: usize = 0;
    while i < tiles.len()
        invariant
            i <= tiles@.len(),
            last == rows_cols - 1,
            mid == (rows_cols / 2) as i32,
            tiles@.len() == rows_cols * rows_cols,
            forall|k: int| 0 <= k < tiles@.len() ==> tiles@[k] == tile_at(rows_cols as int, k),
            obstacles@ == obstacles_among(rows_cols, rolls@, i as nat),
            ai_locations@ == edge_among(rows_cols as int, i as nat),
        decreases tiles@.len() - i,
    {
        let tile = tiles[i];
        let edge = tile.x == 0 || tile.y == 0 || tile.x == last || tile.y == last;
        let taken = tile.y == mid && (tile.x == mid || tile.x == mid - 1 || tile.x == mid + 1);
        let roll = i < rolls.len() && rolls[i];
        if !edge && !taken && roll {
            obstacles.push(tile);
        }
        if edge {
            ai_locations.push(tile);
        }
        i += 1;
    }
    let mut player_locations: Vec<GridPosition> = Vec::new();
    player_locations.push(GridPosition { x: mid, y: mid });
    player_locations.push(GridPosition { x: mid - 1, y: mid });
    player_locations.push(GridPosition { x: mid + 1, y: mid });
    Board { obstacles, spawners: Spawners { ai_locations, player_locations } }
}

/// Whether one of the first `n` obstacles lies on the cell.
pub open spec fn obstacle_among(obstacles: Seq<GridPosition>, n: int, c: Cell) -> bool {
    exists|j: int| 0 <= j < n && (#[trigger] obstacles[j]).cell() == c
}

/// The grid on which a cell is blocked where a unit stands on it or an
/// obstacle lies on it, and free else.
pub open spec fn blocked_by(units: Seq<UnitSlot>, obstacles: Seq<GridPosition>, side: int) -> Map<
    Cell,
    bool,
> {
    Map::new(
        |c: Cell| on_grid(side, c),
        |c: Cell| unit_on(units, c) || obstacle_among(obstacles, obstacles.len() as int, c),
    )
}

/// Works out anew which cells are blocked: those that a unit stands on and
/// those that an obstacle lies on. All others are free.
pub fn set_blocked_tiles(units: &Units, obstacles: &Vec<GridPosition>, blocked: &mut BlockedTiles)
    ensures
        final(blocked).side() == old(blocked).side(),
        final(blocked)@ == blocked_by(units@, obstacles@, old(blocked).side()),
{
    let rows_cols = blocked.rows_cols();
    let ghost side = rows_cols as int;
    *blocked = BlockedTiles::new(rows_cols);
    let mut j: usize = 0;
    while j < obstacles.len()
        invariant
            j <= obstacles@.len(),
            blocked.side() == side,
            forall|c: Cell|
                on_grid(side, c) ==> #[trigger] blocked.blocked_at(c) == obstacle_among(
                    obstacles@,
                    j as int,
                    c,
                ),
        decreases obstacles@.len() - j,
    {
        let at = obstacles[j];
        let ghost before = *blocked;
        blocked.insert(at.x, at.y, true);
        proof {
            assert forall|c: Cell| on_grid(side, c) implies #[trigger] blocked.blocked_at(c)
                == obstacle_among(obstacles@, j + 1, c) by {
                assert(before@.dom().contains(c) && blocked@.dom().contains(c));
                assert(blocked@[c] == blocked.blocked_at(c));
                assert(before@[c] == before.blocked_at(c));
                if c == at.cell() {
                    assert(obstacles@[j as int].cell() == c);
                } else if obstacle_among(obstacles@, j + 1, c) {
                    let k = choose|k: int| 0 <= k < j + 1 && (#[trigger] obstacles@[k]).cell() == c;
                    assert(0 <= k < j && obstacles@[k].cell() == c);
                }
            }
        }
        j += 1;
    }
    let mut i: usize = 0;
    while i < units.len()
        invariant
            i <= units@.len(),
            j == obstacles@.len(),
            blocked.side() == side,
            forall|c: Cell|
                on_grid(side, c) ==> #[trigger] blocked.blocked_at(c) == (unit_among(
                    units@,
                    i as int,
                    c,
                ) || obstacle_among(obstacles@, j as int, c)),
        decreases units@.len() - i,
    {
        if let Some(slot) = units.slot(i) {
            if let Some(record) = slot.record {
                let ghost before = *blocked;
                blocked.insert(record.grid.x, record.grid.y, true);
                proof {
                    assert forall|c: Cell| on_grid(side, c) implies #[trigger] blocked.blocked_at(c)
                        == (unit_among(units@, i + 1, c) || obstacle_among(
                        obstacles@,
                        j as int,
                        c,
                    )) by {
                        assert(before@.dom().contains(c) && blocked@.dom().contains(c));
                        assert(blocked@[c] == blocked.blocked_at(c));
                        assert(before@[c] == before.blocked_at(c));
                        if c == record.grid.cell() {
                            assert(stands_on(units@, i as int, c));
                        } else if unit_among(units@, i + 1, c) {
                            let k = choose|k: int|
                                0 <= k < i + 1 && #[trigger] stands_on(units@, k, c);
                            assert(0 <= k < i && stands_on(units@, k, c));
                        }
                    }
                }
            } else {
                proof {
                    assert forall|c: Cell| unit_among(units@, i + 1, c) implies unit_among(
                        units@,
                        i as int,
                        c,
                    ) by {
                        let k = choose|k: int| 0 <= k < i + 1 && #[trigger] stands_on(units@, k, c);
                        assert(0 <= k < i && stands_on(units@, k, c));
                    }
                }
            }
        }
        i += 1;
    }
    proof {
        assert(blocked@ =~= blocked_by(units@, obstacles@, side));
    }
}

} // verus!
