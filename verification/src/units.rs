//! The units on the grid and the registry that owns them.

use crate::grid::{Cell, GridPosition};
use vstd::prelude::*;

verus! {

/// The two sides of the battle.
#[derive(Clone, Copy, Debug, PartialEq, Eq, Structural)]
pub enum Team {
    PLAYER,
    AI,
}

/// What every unit is: of one team, and done or not with the present part
/// of its team's turn.
#[derive(Clone, Copy, Debug, PartialEq, Eq, Structural)]
pub struct Unit {
    pub has_acted: bool,
    pub team: Team,
}

/// How many steps a unit may go in one move.
#[derive(Clone, Copy, Debug, PartialEq, Eq, Structural)]
pub struct Movement {
    pub distance: i32,
}

/// The health that a unit has left, and what it began with.
#[derive(Clone, Copy, Debug, PartialEq, Eq, Structural)]
pub struct Health {
    pub max: i32,
    pub value: i32,
}

/// The damage that a unit deals, and how far it reaches: over so many
/// cells in any direction, the diagonals too.
#[derive(Clone, Copy, Debug, PartialEq, Eq, Structural)]
pub struct Attack {
    pub dmg: i32,
    pub range: i32,
}

/// The handle of a unit: the slot that the registry keeps it in, and the
/// generation of that slot at the time the unit was put there. Once the
/// unit is gone, its handle finds nothing, also when the slot is in use
/// again.
#[derive(Clone, Copy, Debug, PartialEq, Eq, Structural)]
pub struct UnitId {
    pub index: usize,
    pub generation: u32,
}

/// All that the registry keeps of one unit.
#[derive(Clone, Copy, Debug, PartialEq, Eq, Structural)]
pub struct UnitRecord {
    pub unit: Unit,
    pub grid: GridPosition,
    pub movement: Movement,
    pub health: Health,
    pub attack: Attack,
}

/// One slot of the registry: the unit in it, if any, and how many units
/// were in it before.
#[derive(Clone, Copy, Debug, PartialEq, Eq, Structural)]
pub struct UnitSlot {
    pub generation: u32,
    pub record: Option<UnitRecord>,
}

/// Whether every unit of a team has acted in the present part of its turn.
#[derive(Clone, Copy, Debug, PartialEq, Eq, Structural)]
pub struct AllUnitsActed {
    pub value: bool,
}

/// The unit that is to act in the present phase, if one is chosen.
#[derive(Clone, Copy, Debug, PartialEq, Eq, Structural)]
pub struct ActiveUnit {
    pub value: Option<UnitId>,
}

/// The unit that was last pointed at, if any, and where it stood then.
#[derive(Clone, Copy, Debug)]
pub struct SelectedUnit {
    pub value: Option<UnitId>,
    pub grid: (i32, i32),
}

/// Whether the handle `id` finds a unit in the slots.
pub open spec fn live(slots: Seq<UnitSlot>, id: UnitId) -> bool {
    &&& id.index < slots.len()
    &&& slots[id.index as int].generation == id.generation
    &&& slots[id.index as int].record is Some
}

/// The unit that a live handle finds.
pub open spec fn record_of(slots: Seq<UnitSlot>, id: UnitId) -> UnitRecord {
    slots[id.index as int].record->0
}

/// Whether slot `i` holds a unit.
pub open spec fn occupied(slots: Seq<UnitSlot>, i: int) -> bool {
    0 <= i < slots.len() && slots[i].record is Some
}

/// The handle of the unit in slot `i`.
pub open spec fn id_at(slots: Seq<UnitSlot>, i: int) -> UnitId {
    UnitId { index: i as usize, generation: slots[i].generation }
}

/// Whether slot `i` holds a unit of the team.
pub open spec fn on_team(slots: Seq<UnitSlot>, team: Team, i: int) -> bool {
    occupied(slots, i) && slots[i].record->0.unit.team == team
}

/// Whether slot `i` holds a unit of the team that has yet to act.
pub open spec fn ready(slots: Seq<UnitSlot>, team: Team, i: int) -> bool {
    on_team(slots, team, i) && !slots[i].record->0.unit.has_acted
}

/// Whether every unit of the team has acted. Of a team without units this
/// holds.
pub open spec fn all_acted(slots: Seq<UnitSlot>, team: Team) -> bool {
    forall|i: int| 0 <= i < slots.len() ==> !#[trigger] ready(slots, team, i)
}

/// Whether no unit of the team has acted.
pub open spec fn none_acted(slots: Seq<UnitSlot>, team: Team) -> bool {
    forall|i: int| #[trigger] on_team(slots, team, i) ==> ready(slots, team, i)
}

/// Whether slot `i` is the first to hold a unit of the team that has yet
/// to act.
pub open spec fn first_ready(slots: Seq<UnitSlot>, team: Team, i: int) -> bool {
    &&& ready(slots, team, i)
    &&& forall|j: int| 0 <= j < i ==> !#[trigger] ready(slots, team, j)
}

/// Whether the unit in slot `i` stands on the cell.
pub open spec fn stands_on(slots: Seq<UnitSlot>, i: int, c: Cell) -> bool {
    occupied(slots, i) && slots[i].record->0.grid.cell() == c
}

/// Whether a unit in one of the first `n` slots stands on the cell.
pub open spec fn unit_among(slots: Seq<UnitSlot>, n: int, c: Cell) -> bool {
    exists|i: int| 0 <= i < n && #[trigger] stands_on(slots, i, c)
}

/// Whether a unit stands on the cell.
pub open spec fn unit_on(slots: Seq<UnitSlot>, c: Cell) -> bool {
    unit_among(slots, slots.len() as int, c)
}

/// The cell of the unit in slot `i`.
pub open spec fn cell_of(units: Seq<UnitSlot>, i: int) -> Cell {
    units[i].record->0.grid.cell()
}

/// Whether no two units stand on one cell.
pub open spec fn apart(units: Seq<UnitSlot>) -> bool {
    forall|i: int, j: int|
        #![trigger occupied(units, i), occupied(units, j)]
        occupied(units, i) && occupied(units, j) && i != j ==> cell_of(units, i) != cell_of(
            units,
            j,
        )
}

/// Whether `id` is the handle that the next unit put in the registry gets:
/// that of the first slot that is free and was not in use too often, or of
/// a new slot after the last, in the generation after the slot's own.
pub open spec fn new_handle(slots: Seq<UnitSlot>, id: UnitId) -> bool {
    &&& Units::next_slot(slots, id.index as int)
    &&& id.generation == (if id.index < slots.len() {
        slots[id.index as int].generation + 1
    } else {
        0
    })
}

/// The slots with the unit `record` put in under the handle `id`.
pub open spec fn joined(slots: Seq<UnitSlot>, id: UnitId, record: UnitRecord) -> Seq<UnitSlot> {
    if id.index < slots.len() {
        slots.update(id.index as int, UnitSlot { generation: id.generation, record: Some(record) })
    } else {
        slots.push(UnitSlot { generation: id.generation, record: Some(record) })
    }
}

/// What putting a unit in the registry does: the unit is there under its
/// new handle, which found nothing before; the other units are as they
/// were, and no other unit has come; the new unit's cell is the one cell
/// more that a unit stands on; and where the units stood apart and none on
/// that cell, they stand apart still.
pub proof fn lemma_joined(slots: Seq<UnitSlot>, id: UnitId, record: UnitRecord)
    requires
        new_handle(slots, id),
    ensures
        !live(slots, id),
        live(joined(slots, id, record), id),
        record_of(joined(slots, id, record), id) == record,
        forall|other: UnitId|
            live(slots, other) ==> live(joined(slots, id, record), other) && record_of(
                joined(slots, id, record),
                other,
            ) == record_of(slots, other),
        forall|other: UnitId|
            #![trigger live(joined(slots, id, record), other)]
            live(joined(slots, id, record), other) ==> other == id || live(slots, other),
        forall|c: Cell|
            #![trigger unit_on(joined(slots, id, record), c)]
            unit_on(joined(slots, id, record), c) == (unit_on(slots, c) || record.grid.cell() == c),
        apart(slots) && !unit_on(slots, record.grid.cell()) ==> apart(joined(slots, id, record)),
{
    let after = joined(slots, id, record);
    let at = id.index as int;
    assert forall|i: int| i != at implies occupied(after, i) == occupied(slots, i) && (occupied(
        slots,
        i,
    ) ==> after[i] == slots[i]) by {}
    assert(occupied(after, at) && !occupied(slots, at));
    assert forall|c: Cell| #![trigger unit_on(after, c)] unit_on(after, c) == (unit_on(slots, c)
        || record.grid.cell() == c) by {
        if unit_on(after, c) {
            let i = choose|i: int| 0 <= i < after.len() && #[trigger] stands_on(after, i, c);
            if i != at {
                assert(stands_on(slots, i, c));
            }
        }
        if unit_on(slots, c) {
            let i = choose|i: int| 0 <= i < slots.len() && #[trigger] stands_on(slots, i, c);
            assert(i != at);
            assert(stands_on(after, i, c));
        }
        if record.grid.cell() == c {
            assert(stands_on(after, at, c));
        }
    }
    if apart(slots) && !unit_on(slots, record.grid.cell()) {
        assert forall|i: int, j: int|
            #![trigger occupied(after, i), occupied(after, j)]
            occupied(after, i) && occupied(after, j) && i != j implies cell_of(after, i) != cell_of(
            after,
            j,
        ) by {
            if i == at {
                assert(occupied(slots, j));
                assert(stands_on(slots, j, cell_of(slots, j)));
            } else if j == at {
                assert(occupied(slots, i));
                assert(stands_on(slots, i, cell_of(slots, i)));
            } else {
                assert(occupied(slots, i) && occupied(slots, j));
            }
        }
    }
}

/// The slot with the flag of its unit taken back, where the unit is of the
/// team.
pub open spec fn rested(slot: UnitSlot, team: Team) -> UnitSlot {
    if slot.record is Some && slot.record->0.unit.team == team {
        let r = slot.record->0;
        UnitSlot {
            generation: slot.generation,
            record: Some(
                UnitRecord {
                    unit: Unit { has_acted: false, team: r.unit.team },
                    grid: r.grid,
                    movement: r.movement,
                    health: r.health,
                    attack: r.attack,
                },
            ),
        }
    } else {
        slot
    }
}

/// The slots with the flags of the team's units taken back.
pub open spec fn rest_all(slots: Seq<UnitSlot>, team: Team) -> Seq<UnitSlot> {
    Seq::new(slots.len(), |i: int| rested(slots[i], team))
}

/// The first unit of the team that has yet to act, if there is one.
pub open spec fn next_ready(slots: Seq<UnitSlot>, team: Team) -> Option<UnitId> {
    if all_acted(slots, team) {
        None
    } else {
        Some(id_at(slots, choose|i: int| first_ready(slots, team, i)))
    }
}

/// Of every unit that is there before and after: if it had acted, it has
/// acted still.
pub open spec fn flags_kept(before: Seq<UnitSlot>, after: Seq<UnitSlot>) -> bool {
    forall|id: UnitId|
        #![trigger live(after, id)]
        live(before, id) && live(after, id) && record_of(before, id).unit.has_acted ==> record_of(
            after,
            id,
        ).unit.has_acted
}

/// The registry of units. A unit is known by the handle that `spawn` gave
/// for it; the units are gone through slot by slot, in the order of their
/// handles' `index`.
pub struct Units {
    slots: Vec<UnitSlot>,
}

impl View for Units {
    type V = Seq<UnitSlot>;

    closed spec fn view(&self) -> Seq<UnitSlot> {
        self.slots@
    }
}

impl Units {
    /// A registry without units.
    pub fn new() -> (units: Units)
        ensures
            units@.len() == 0,
    {
        Units { slots: Vec::new() }
    }

    /// The number of slots, those in use and those that were.
    pub fn len(&self) -> (n: usize)
        ensures
            n == self@.len(),
    {
        self.slots.len()
    }

    /// The slot `index`, as it stands.
    pub fn slot(&self, index: usize) -> (slot: Option<UnitSlot>)
        ensures
            slot == (if index < self@.len() {
                Some(self@[index as int])
            } else {
                None
            }),
    {
        if index < self.slots.len() {
            Some(self.slots[index])
        } else {
            None
        }
    }

    /// The handle of the unit in slot `index`, if the slot holds one.
    pub fn id_at(&self, index: usize) -> (id: Option<UnitId>)
        ensures
            id == (if occupied(self@, index as int) {
                Some(id_at(self@, index as int))
            } else {
                None
            }),
    {
        if index < self.slots.len() && self.slots[index].record.is_some() {
            Some(UnitId { index, generation: self.slots[index].generation })
        } else {
            None
        }
    }

    /// The unit of the handle, or `None` where the unit is gone.
    pub fn get(&self, id: UnitId) -> (found: Option<UnitRecord>)
        ensures
            found == (if live(self@, id) {
                Some(record_of(self@, id))
            } else {
                None
            }),
    {
        if id.index < self.slots.len() && self.slots[id.index].generation == id.generation {
            self.slots[id.index].record
        } else {
            None
        }
    }

    /// Puts `record` in the place of the unit of the handle. Where the unit
    /// is gone, nothing changes and the answer is `false`.
    pub fn set(&mut self, id: UnitId, record: UnitRecord) -> (done: bool)
        ensures
            done == live(old(self)@, id),
            final(self)@ == (if live(old(self)@, id) {
                old(self)@.update(
                    id.index as int,
                    UnitSlot { generation: id.generation, record: Some(record) },
                )
            } else {
                old(self)@
            }),
    {
        if id.index < self.slots.len() && self.slots[id.index].generation == id.generation
            && self.slots[id.index].record.is_some() {
            self.slots[id.index] = UnitSlot { generation: id.generation, record: Some(record) };
            true
        } else {
            false
        }
    }

    /// Takes the unit of the handle from the registry and returns it. Where
    /// the unit is gone already, nothing changes and the answer is `None`.
    pub fn remove(&mut self, id: UnitId) -> (removed: Option<UnitRecord>)
        ensures
            removed == (if live(old(self)@, id) {
                Some(record_of(old(self)@, id))
            } else {
                None
            }),
            final(self)@ == (if live(old(self)@, id) {
                old(self)@.update(
                    id.index as int,
                    UnitSlot { generation: id.generation, record: None },
                )
            } else {
                old(self)@
            }),
    {
        if id.index < self.slots.len() && self.slots[id.index].generation == id.generation {
            let removed = self.slots[id.index].record;
            if removed.is_some() {
                self.slots[id.index] = UnitSlot { generation: id.generation, record: None };
            }
            removed
        } else {
            None
        }
    }

    /// The first slot that is free and can be used again.
    fn free_slot(&self) -> (found: Option<usize>)
        ensures
            match found {
                Some(i) => {
                    &&& i < self@.len()
                    &&& self@[i as int].record is None
                    &&& self@[i as int].generation < u32::MAX
                    &&& forall|j: int|
                        0 <= j < i ==> (#[trigger] self@[j]).record is Some || self@[j].generation
                            == u32::MAX
                },
                None => forall|j: int|
                    0 <= j < self@.len() ==> (#[trigger] self@[j]).record is Some
                        || self@[j].generation == u32::MAX,
            },
    {
        let mut i: usize = 0;
        while i < self.slots.len()
            invariant
                i <= self.slots@.len(),
                forall|j: int|
                    0 <= j < i ==> (#[trigger] self@[j]).record is Some || self@[j].generation
                        == u32::MAX,
            decreases self.slots@.len() - i,
        {
            if self.slots[i].record.is_none() && self.slots[i].generation < u32::MAX {
                return Some(i);
            }
            i += 1;
        }
        None
    }

    /// Whether `spawn` would put a unit in slot `i`: the first slot that is
    /// free and was not in use too often; the slot after the last where
    /// there is none.
    pub open spec fn next_slot(slots: Seq<UnitSlot>, i: int) -> bool {
        &&& 0 <= i <= slots.len()
        &&& i < slots.len() ==> slots[i].record is None && slots[i].generation < u32::MAX
        &&& forall|j: int|
            0 <= j < i && j < slots.len() ==> (#[trigger] slots[j]).record is Some
                || slots[j].generation == u32::MAX
    }

    /// Whether a unit stands on the cell `(x, y)`.
    pub fn occupies(&self, x: i32, y: i32) -> (found: bool)
        ensures
            found == unit_on(self@, (x, y)),
    {
        let mut i: usize = 0;
        while i < self.slots.len()
            invariant
                i <= self.slots@.len(),
                !unit_among(self@, i as int, (x, y)),
            decreases self.slots@.len() - i,
        {
            if let Some(record) = self.slots[i].record {
                if record.grid.x == x && record.grid.y == y {
                    assert(stands_on(self@, i as int, (x, y)));
                    return true;
                }
            }
            proof {
                if unit_among(self@, i + 1, (x, y)) {
                    let k = choose|k: int| 0 <= k < i + 1 && #[trigger] stands_on(self@, k, (x, y));
                    assert(stands_on(self@, k, (x, y)) && k < i);
                }
            }
            i += 1;
        }
        false
    }

    /// Puts a unit in the registry and returns its handle. No handle given
    /// before is equal to it, and the other units stay as they are.
    pub fn spawn(&mut self, record: UnitRecord) -> (id: UnitId)
        ensures
            new_handle(old(self)@, id),
            final(self)@ == joined(old(self)@, id, record),
    {
        match self.free_slot() {
            Some(index) => {
                let generation = self.slots[index].generation + 1;
                self.slots[index] = UnitSlot { generation, record: Some(record) };
                UnitId { index, generation }
            },
            None => {
                let index = self.slots.len();
                self.slots.push(UnitSlot { generation: 0, record: Some(record) });
                UnitId { index, generation: 0 }
            },
        }
    }

    /// Whether every unit of the team has acted.
    pub fn all_have_acted(&self, team: Team) -> (all: bool)
        ensures
            all == all_acted(self@, team),
    {
        self.first_ready(team).is_none()
    }

    /// The first unit of the team that has yet to act: the one in the slot
    /// of the lowest number.
    pub fn first_ready(&self, team: Team) -> (found: Option<UnitId>)
        ensures
            found == next_ready(self@, team),
            found matches Some(id) ==> live(self@, id) && first_ready(self@, team, id.index as int),
    {
        let mut i: usize = 0;
        while i < self.slots.len()
            invariant
                i <= self.slots@.len(),
                forall|j: int| 0 <= j < i ==> !#[trigger] ready(self@, team, j),
            decreases self.slots@.len() - i,
        {
            if let Some(record) = self.slots[i].record {
                if record.unit.team == team && !record.unit.has_acted {
                    proof {
                        assert(first_ready(self@, team, i as int));
                        assert(ready(self@, team, i as int));
                        let k = choose|k: int| first_ready(self@, team, k);
                        assert(first_ready(self@, team, k));
                        assert(k == i) by {
                            if k < i {
                                assert(!ready(self@, team, k));
                            } else if i < k {
                                assert(!ready(self@, team, i as int));
                            }
                        }
                    }
                    return Some(UnitId { index: i, generation: self.slots[i].generation });
                }
            }
            i += 1;
        }
        None
    }

    /// Takes back the flag of every unit of the team: none of them has
    /// acted.
    pub fn rest(&mut self, team: Team)
        ensures
            final(self)@ == rest_all(old(self)@, team),
    {
        let mut i: usize = 0;
        while i < self.slots.len()
            invariant
                i <= self.slots@.len(),
                self.slots@.len() == old(self).slots@.len(),
                forall|j: int| 0 <= j < i ==> self@[j] == rested(old(self)@[j], team),
                forall|j: int| i <= j < self.slots@.len() ==> self@[j] == old(self)@[j],
            decreases self.slots@.len() - i,
        {
            let slot = self.slots[i];
            let ghost before = self@;
            if let Some(record) = slot.record {
                if record.unit.team == team {
                    let mut rested = record;
                    rested.unit.has_acted = false;
                    self.slots[i] = UnitSlot { generation: slot.generation, record: Some(rested) };
                }
            }
            proof {
                assert(before[i as int] == old(self)@[i as int]);
                assert(self@[i as int] == rested(old(self)@[i as int], team));
                assert forall|j: int| 0 <= j < i implies self@[j] == rested(
                    old(self)@[j],
                    team,
                ) by {
                    assert(self@[j] == before[j]);
                }
            }
            i += 1;
        }
        proof {
            assert(self@ =~= rest_all(old(self)@, team));
        }
    }
}

} // verus!
