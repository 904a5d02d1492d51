//! The generation engine: the arena of cells, the spatial index, the
//! propagation queue, and the invariants that tie them together.

use std::collections::VecDeque;
use vstd::prelude::*;

use crate::cell::Cell;
use crate::rules::RuleTable;
use crate::spatial::CellSpatialIndex;
use crate::tiles::Direction;

verus! {

/// Live cells keep both coordinates strictly within this bound, so that a
/// neighbor coordinate can always be formed without overflow.
pub const POS_LIMIT: i32 = 0x40000000;

/// Whether both components of `p` lie strictly within `POS_LIMIT`.
pub open spec fn pos_in_bounds(p: (i32, i32)) -> bool {
    &&& -(POS_LIMIT as int) < (p.0 as int)
    &&& (p.0 as int) < (POS_LIMIT as int)
    &&& -(POS_LIMIT as int) < (p.1 as int)
    &&& (p.1 as int) < (POS_LIMIT as int)
}

/// Whether `q` is the coordinate reached from `p` by one step in
/// direction `d`.
pub open spec fn is_neighbor(p: (i32, i32), d: Direction, q: (i32, i32)) -> bool {
    &&& q.0 as int == p.0 as int + d.delta_spec().0
    &&& q.1 as int == p.1 as int + d.delta_spec().1
}

/// Whether some entry of `handles` denotes handle `h`.
pub open spec fn contains_handle(handles: Seq<usize>, h: int) -> bool {
    exists|i: int| 0 <= i < handles.len() && handles[i] as int == h
}

/// Appending an entry keeps every denoted handle denoted, and adds only
/// the appended one.
pub proof fn lemma_contains_handle_push(handles: Seq<usize>, v: usize, h: int)
    ensures
        contains_handle(handles, h) ==> contains_handle(handles.push(v), h),
        contains_handle(handles.push(v), h) ==> contains_handle(handles, h) || h == v as int,
{
    if contains_handle(handles, h) {
        let i = choose|i: int| 0 <= i < handles.len() && handles[i] as int == h;
        assert(handles.push(v)[i] as int == h);
    }
    if contains_handle(handles.push(v), h) {
        let i = choose|i: int| 0 <= i < handles.push(v).len() && handles.push(v)[i] as int == h;
        if i < handles.len() {
            assert(handles[i] as int == h);
        }
    }
}

/// The ordered collection of cell handles awaiting constraint
/// re-evaluation. Entries may be duplicated or stale; processing is
/// revisit-tolerant.
pub struct PropagationQueue {
    /// The queued handles, oldest first.
    pub queue: VecDeque<usize>,
}

impl PropagationQueue {
    /// An empty queue.
    pub fn new() -> (q: PropagationQueue)
        ensures
            q.queue@ == Seq::<usize>::empty(),
    {
        PropagationQueue { queue: VecDeque::new() }
    }

    /// Appends a handle at the back.
    pub fn push_back(&mut self, h: usize)
        ensures
            final(self).queue@ == old(self).queue@.push(h),
    {
        self.queue.push_back(h);
    }

    /// Takes the oldest handle, if any.
    pub fn pop_front(&mut self) -> (h: Option<usize>)
        ensures
            match h {
                Option::Some(v) => old(self).queue@.len() > 0 && v == old(self).queue@[0]
                    && final(self).queue@ == old(self).queue@.subrange(
                    1,
                    old(self).queue@.len() as int,
                ),
                Option::None => old(self).queue@.len() == 0 && final(self).queue@ == old(
                    self,
                ).queue@,
            },
    {
        self.queue.pop_front()
    }

    /// Whether the queue holds no handles.
    pub fn is_empty(&self) -> (empty: bool)
        ensures
            empty == (self.queue@.len() == 0),
    {
        self.queue.len() == 0
    }

    /// The number of queued handles.
    pub fn len(&self) -> (n: usize)
        ensures
            n == self.queue@.len(),
    {
        self.queue.len()
    }
}

/// The generation engine: owns the cell arena, the spatial index, the
/// propagation queue, and the throttling timestamps of the streaming
/// policy. A handle is an index into the arena; destroyed cells leave
/// `None` behind so handles stay stable.
pub struct WfcEngine {
    /// The cell arena; `None` marks a destroyed cell.
    pub cells: Vec<Option<Cell>>,
    /// Maps each live cell's coordinate to its handle.
    pub spatial_index: CellSpatialIndex,
    /// Handles awaiting constraint re-evaluation.
    pub queue: PropagationQueue,
    /// When the creation pass last ran, in milliseconds of elapsed time.
    pub last_create_ms: u64,
    /// When the destruction pass last ran, in milliseconds of elapsed time.
    pub last_destroy_ms: u64,
}

impl WfcEngine {
    /// Whether handle `h` denotes a live cell.
    pub open spec fn live(self, h: int) -> bool {
        0 <= h < self.cells@.len() && self.cells@[h] is Some
    }

    /// The live cell behind handle `h`.
    pub open spec fn cell(self, h: int) -> Cell {
        self.cells@[h]->0
    }

    /// Every live cell is well formed and lies within the coordinate
    /// bounds.
    pub open spec fn cells_wf(self) -> bool {
        forall|h: int|
            #[trigger] self.live(h) ==> self.cell(h).wf() && pos_in_bounds(self.cell(h).position)
    }

    /// The index and the arena agree: every indexed coordinate holds the
    /// handle of the live cell at exactly that coordinate, and every live
    /// cell is indexed under its coordinate.
    pub open spec fn index_ok(self) -> bool {
        &&& forall|p: (i32, i32)|
            #[trigger] self.spatial_index.has(p) ==> self.live(self.spatial_index.at(p) as int)
                && self.cell(self.spatial_index.at(p) as int).position == p
        &&& forall|h: int|
            #[trigger] self.live(h) ==> self.spatial_index.has(self.cell(h).position)
                && self.spatial_index.at(self.cell(h).position) as int == h
    }

    /// The engine's structural invariant.
    pub open spec fn wf(self) -> bool {
        self.cells_wf() && self.index_ok()
    }

    /// Whether handle `h` occurs in the propagation queue.
    pub open spec fn in_queue(self, h: int) -> bool {
        contains_handle(self.queue.queue@, h)
    }

    /// Whether the uncollapsed live cell at `ch` has a collapsed live
    /// neighbor at `nh`, one step along `d` from the neighbor.
    pub open spec fn constrained(self, ch: int, nh: int, d: Direction) -> bool {
        &&& self.live(ch) && self.live(nh)
        &&& !self.cell(ch).is_collapsed
        &&& self.cell(nh).is_collapsed
        &&& is_neighbor(self.cell(nh).position, d, self.cell(ch).position)
    }

    /// Every candidate of the cell at `ch` is allowed beside the collapsed
    /// neighbor at `nh` in direction `d` (from the neighbor toward the
    /// cell).
    pub open spec fn pair_ok(self, table: RuleTable, ch: int, nh: int, d: Direction) -> bool {
        forall|i: int|
            0 <= i < self.cell(ch).valid_tiles@.len() ==> table.allows(
                self.cell(nh).tile_type->0,
                d,
                #[trigger] self.cell(ch).valid_tiles@[i],
            )
    }

    /// Local arc-consistency: every live uncollapsed cell's candidate set
    /// respects the constraint of every collapsed live neighbor.
    pub open spec fn all_consistent(self, table: RuleTable) -> bool {
        forall|ch: int, nh: int, d: Direction|
            #[trigger] self.constrained(ch, nh, d) ==> self.pair_ok(table, ch, nh, d)
    }

    /// No live uncollapsed cell has an empty candidate set.
    pub open spec fn no_contradiction(self) -> bool {
        forall|h: int|
            #[trigger] self.live(h) && !self.cell(h).is_collapsed ==> self.cell(
                h,
            ).valid_tiles@.len() > 0
    }

    /// Consistent and contradiction-free: the state the propagation engine
    /// leaves behind once its queue drains.
    pub open spec fn settled(self, table: RuleTable) -> bool {
        self.all_consistent(table) && self.no_contradiction()
    }

    /// Every inconsistent pair has an endpoint in the queue or among
    /// `extra`, and every contradiction is in the queue or among `extra`.
    pub open spec fn covered_except(self, table: RuleTable, extra: Seq<usize>) -> bool {
        &&& forall|ch: int, nh: int, d: Direction|
            #[trigger] self.constrained(ch, nh, d) && !self.pair_ok(table, ch, nh, d)
                ==> self.in_queue(ch) || self.in_queue(nh) || contains_handle(extra, ch)
                || contains_handle(extra, nh)
        &&& forall|h: int|
            #[trigger] self.live(h) && !self.cell(h).is_collapsed && self.cell(
                h,
            ).valid_tiles@.len() == 0 ==> self.in_queue(h) || contains_handle(extra, h)
    }

    /// Every inconsistent pair has an endpoint in the queue, and every
    /// contradiction is in the queue: what each phase re-establishes, so
    /// that draining the queue settles the whole grid.
    pub open spec fn queue_covers(self, table: RuleTable) -> bool {
        self.covered_except(table, Seq::<usize>::empty())
    }

    /// The structural invariant does not depend on the queue or the
    /// timestamps: an engine with the same cells and index is as well
    /// formed.
    pub proof fn lemma_wf_same_cells(self, other: WfcEngine)
        requires
            self.wf(),
            other.cells@ == self.cells@,
            other.spatial_index == self.spatial_index,
        ensures
            other.wf(),
    {
        assert forall|h: int| #[trigger] other.live(h) implies other.cell(h).wf()
            && pos_in_bounds(other.cell(h).position) by {
            assert(self.live(h));
        }
        assert forall|p: (i32, i32)| #[trigger] other.spatial_index.has(p) implies other.live(
            other.spatial_index.at(p) as int,
        ) && other.cell(other.spatial_index.at(p) as int).position == p by {
            assert(self.spatial_index.has(p));
        }
        assert forall|h: int| #[trigger] other.live(h) implies other.spatial_index.has(
            other.cell(h).position,
        ) && other.spatial_index.at(other.cell(h).position) as int == h by {
            assert(self.live(h));
        }
    }

    /// Replacing a live cell by a well-formed cell at the same coordinate
    /// keeps the engine well formed, and touches no other slot.
    pub proof fn lemma_wf_update_cell(self, other: WfcEngine, j: int, c: Cell)
        requires
            self.wf(),
            self.live(j),
            other.cells@ == self.cells@.update(j, Option::Some(c)),
            other.spatial_index == self.spatial_index,
            c.wf(),
            c.position == self.cell(j).position,
        ensures
            other.wf(),
            forall|h: int| #![trigger self.live(h)] #![trigger other.live(h)] self.live(h) <==> other.live(h),
            forall|h: int| #[trigger] other.live(h) ==> other.cell(h).position == self.cell(h).position,
            forall|h: int| #[trigger] other.live(h) && h != j ==> other.cell(h) == self.cell(h),
            other.cell(j) == c,
    {
        assert forall|h: int| #[trigger] other.live(h) implies other.cell(h).wf()
            && pos_in_bounds(other.cell(h).position) by {
            assert(self.live(h));
        }
        assert forall|p: (i32, i32)| #[trigger] other.spatial_index.has(p) implies other.live(
            other.spatial_index.at(p) as int,
        ) && other.cell(other.spatial_index.at(p) as int).position == p by {
            assert(self.spatial_index.has(p));
        }
        assert forall|h: int| #[trigger] other.live(h) implies other.spatial_index.has(
            other.cell(h).position,
        ) && other.spatial_index.at(other.cell(h).position) as int == h by {
            assert(self.live(h));
        }
    }

    /// Two distinct live cells stand at distinct coordinates.
    pub proof fn lemma_live_positions_distinct(self, a: int, b: int)
        requires
            self.wf(),
            self.live(a),
            self.live(b),
            a != b,
        ensures
            self.cell(a).position != self.cell(b).position,
    {
        assert(self.spatial_index.at(self.cell(a).position) as int == a);
        assert(self.spatial_index.at(self.cell(b).position) as int == b);
    }

    /// Appending a fresh well-formed cell at an unoccupied coordinate and
    /// indexing it under its new handle keeps the engine well formed.
    pub proof fn lemma_wf_spawn(self, other: WfcEngine, c: Cell, hnew: usize)
        requires
            self.wf(),
            c.wf(),
            pos_in_bounds(c.position),
            !self.spatial_index.has(c.position),
            hnew as int == self.cells@.len(),
            other.cells@ == self.cells@.push(Option::Some(c)),
            other.spatial_index.has(c.position),
            other.spatial_index.at(c.position) == hnew,
            forall|q: (i32, i32)|
                q != c.position ==> #[trigger] other.spatial_index.has(q)
                    == self.spatial_index.has(q) && other.spatial_index.at(q)
                    == self.spatial_index.at(q),
        ensures
            other.wf(),
            other.live(hnew as int),
            other.cell(hnew as int) == c,
            forall|h: int| 0 <= h < self.cells@.len() ==> other.cells@[h] == self.cells@[h],
    {
        assert forall|h: int| #[trigger] other.live(h) implies other.cell(h).wf()
            && pos_in_bounds(other.cell(h).position) by {
            if h < self.cells@.len() {
                assert(self.live(h));
            }
        }
        assert forall|p: (i32, i32)| #[trigger] other.spatial_index.has(p) implies other.live(
            other.spatial_index.at(p) as int,
        ) && other.cell(other.spatial_index.at(p) as int).position == p by {
            if p != c.position {
                assert(self.spatial_index.has(p));
                assert(self.live(self.spatial_index.at(p) as int));
            }
        }
        assert forall|h: int| #[trigger] other.live(h) implies other.spatial_index.has(
            other.cell(h).position,
        ) && other.spatial_index.at(other.cell(h).position) as int == h by {
            if h < self.cells@.len() {
                assert(self.live(h));
                assert(self.cell(h).position != c.position) by {
                    if self.cell(h).position == c.position {
                        assert(self.spatial_index.has(c.position));
                    }
                }
            }
        }
    }

    /// Clearing a live cell's slot and dropping its index entry keeps the
    /// engine well formed.
    pub proof fn lemma_wf_despawn(self, other: WfcEngine, h: int)
        requires
            self.wf(),
            self.live(h),
            other.cells@ == self.cells@.update(h, Option::None),
            !other.spatial_index.has(self.cell(h).position),
            forall|q: (i32, i32)|
                q != self.cell(h).position ==> #[trigger] other.spatial_index.has(q)
                    == self.spatial_index.has(q) && other.spatial_index.at(q)
                    == self.spatial_index.at(q),
        ensures
            other.wf(),
            !other.live(h),
            forall|x: int| #[trigger] other.live(x) ==> self.live(x) && other.cell(x) == self.cell(
                x,
            ),
            forall|x: int|
                0 <= x < other.cells@.len() && x != h ==> other.cells@[x] == self.cells@[x],
    {
        assert forall|x: int| #[trigger] other.live(x) implies other.cell(x).wf()
            && pos_in_bounds(other.cell(x).position) by {
            assert(self.live(x));
        }
        assert forall|p: (i32, i32)| #[trigger] other.spatial_index.has(p) implies other.live(
            other.spatial_index.at(p) as int,
        ) && other.cell(other.spatial_index.at(p) as int).position == p by {
            assert(p != self.cell(h).position);
            assert(self.spatial_index.has(p));
            assert(self.spatial_index.at(p) as int != h) by {
                if self.spatial_index.at(p) as int == h {
                    assert(self.cell(h).position == p);
                }
            }
        }
        assert forall|x: int| #[trigger] other.live(x) implies other.spatial_index.has(
            other.cell(x).position,
        ) && other.spatial_index.at(other.cell(x).position) as int == x by {
            assert(self.live(x));
            assert(x != h);
            assert(other.cell(x).position != self.cell(h).position) by {
                self.lemma_live_positions_distinct(x, h);
            }
        }
    }

    /// Whether some live cell occupies coordinate `p`.
    pub open spec fn occupied(self, p: (i32, i32)) -> bool {
        exists|h: int| #[trigger] self.live(h) && self.cell(h).position == p
    }

    /// The entropy invariant: for every uncollapsed live cell, the
    /// entropy equals the number of remaining candidate tiles; once the
    /// cell is collapsed it is pinned to zero.
    pub proof fn lemma_entropy_invariant(self, h: int)
        requires
            self.wf(),
            self.live(h),
        ensures
            !self.cell(h).is_collapsed ==> self.cell(h).entropy == self.cell(
                h,
            ).valid_tiles@.len(),
            self.cell(h).is_collapsed ==> self.cell(h).entropy == 0,
    {
    }

    /// The collapse invariant: a live cell is collapsed exactly when it
    /// holds a resolved tile. (That the flag, once set, never reverts is
    /// stated by `narrowing_only` and `collapse_commit` in the ensures of
    /// the phases that mutate cells.)
    pub proof fn lemma_collapse_flag_agrees(self, h: int)
        requires
            self.wf(),
            self.live(h),
        ensures
            self.cell(h).is_collapsed <==> self.cell(h).tile_type is Some,
    {
    }

    /// Index/liveness agreement: the set of coordinates in the spatial
    /// index equals the set of positions of live cells.
    pub proof fn lemma_index_liveness_agreement(self)
        requires
            self.wf(),
        ensures
            forall|p: (i32, i32)| #[trigger] self.spatial_index.has(p) <==> self.occupied(p),
    {
        assert forall|p: (i32, i32)| #[trigger] self.spatial_index.has(p) <==> self.occupied(
            p,
        ) by {
            if self.spatial_index.has(p) {
                assert(self.live(self.spatial_index.at(p) as int));
            }
            if self.occupied(p) {
                let h = choose|h: int| #[trigger] self.live(h) && self.cell(h).position == p;
                assert(self.spatial_index.has(self.cell(h).position));
            }
        }
    }

    /// A fresh engine: no cells, nothing indexed, nothing queued.
    pub fn new() -> (engine: WfcEngine)
        ensures
            engine.wf(),
            engine.cells@.len() == 0,
            engine.queue.queue@.len() == 0,
            forall|p: (i32, i32)| !engine.spatial_index.has(p),
            engine.last_create_ms == 0,
            engine.last_destroy_ms == 0,
            forall|table: RuleTable| engine.queue_covers(table),
    {
        let engine = WfcEngine {
            cells: Vec::new(),
            spatial_index: CellSpatialIndex::new(),
            queue: PropagationQueue::new(),
            last_create_ms: 0,
            last_destroy_ms: 0,
        };
        engine
    }

    /// Whether the propagation queue is empty; the collapse engine waits
    /// for this before resolving a new cell.
    pub fn propagation_queue_empty(&self) -> (empty: bool)
        ensures
            empty == (self.queue.queue@.len() == 0),
    {
        self.queue.is_empty()
    }

    /// The size of the arena; handles are smaller than this.
    pub fn cell_slot_count(&self) -> (n: usize)
        ensures
            n == self.cells@.len(),
    {
        self.cells.len()
    }

    /// The cell behind handle `h`, if `h` is a live handle.
    pub fn get_cell(&self, h: usize) -> (cell: Option<&Cell>)
        ensures
            match cell {
                Option::Some(c) => self.live(h as int) && *c == self.cell(h as int),
                Option::None => !self.live(h as int),
            },
    {
        if h < self.cells.len() {
            match &self.cells[h] {
                Option::Some(c) => Option::Some(c),
                Option::None => Option::None,
            }
        } else {
            Option::None
        }
    }

    /// The live cell at coordinate `p`, if any.
    pub fn cell_at(&self, p: (i32, i32)) -> (cell: Option<&Cell>)
        requires
            self.wf(),
        ensures
            match cell {
                Option::Some(c) => self.spatial_index.has(p) && *c == self.cell(
                    self.spatial_index.at(p) as int,
                ) && c.position == p,
                Option::None => !self.spatial_index.has(p),
            },
    {
        match self.spatial_index.get_pos(p) {
            Option::Some(h) => self.get_cell(h),
            Option::None => Option::None,
        }
    }
}

} // verus!
