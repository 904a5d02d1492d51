//! The tile catalogs: per-tile per-direction lists of allowed neighboring
//! tiles, the seed list of all tiles, and per-tile spawn weights.
//!
//! Weights are fixed-point: a weight of `WEIGHT_ONE` stands for a relative
//! spawn probability of one. A tile absent from a weight table defaults to
//! `WEIGHT_ONE`.

use vstd::prelude::*;

use crate::tiles::Direction;
use crate::tiles::NUM_DIRECTIONS;
use crate::tiles::NUM_TILE_TYPES;
use crate::tiles::TileType;

verus! {

/// The fixed-point weight that stands for a relative probability of one.
pub const WEIGHT_ONE: u32 = 100000;

/// The number of rows of a `RuleTable`: one per (tile, direction) pair.
pub const NUM_RULE_ROWS: usize = 48;

/// For a tile T and direction D, a `RuleTable` row holds the tiles permitted
/// to occupy the cell at T's position + D; a missing row means that T puts
/// no constraint on that side.
pub struct RuleTable {
    /// Row `t.index() * NUM_DIRECTIONS + d.index()` belongs to tile `t` and
    /// direction `d`.
    pub rows: Vec<Option<Vec<TileType>>>,
}

impl RuleTable {
    /// The row index of tile `t` and direction `d`.
    pub open spec fn slot(t: TileType, d: Direction) -> int {
        t.index_spec() * (NUM_DIRECTIONS as int) + d.index_spec()
    }

    /// The table has one row per (tile, direction) pair.
    pub open spec fn wf(self) -> bool {
        self.rows@.len() == NUM_RULE_ROWS
    }

    /// The tiles permitted next to `t` in direction `d`, or `None` when `t`
    /// constrains nothing there.
    pub open spec fn entry(self, t: TileType, d: Direction) -> Option<Seq<TileType>> {
        match self.rows@[Self::slot(t, d)] {
            Option::None => Option::None,
            Option::Some(v) => Option::Some(v@),
        }
    }

    /// Whether tile `candidate` may stand at `source`'s position shifted by
    /// `d`; a missing row constrains nothing.
    pub open spec fn allows(self, source: TileType, d: Direction, candidate: TileType) -> bool {
        match self.entry(source, d) {
            Option::None => true,
            Option::Some(s) => s.contains(candidate),
        }
    }

    /// An empty table: no tile constrains any direction.
    pub fn new() -> (table: RuleTable)
        ensures
            table.wf(),
            forall|t: TileType, d: Direction| table.entry(t, d) is None,
    {
        let mut rows: Vec<Option<Vec<TileType>>> = Vec::new();
        let mut i: usize = 0;
        while i < NUM_RULE_ROWS
            invariant
                i <= NUM_RULE_ROWS,
                rows@.len() == i,
                forall|j: int| 0 <= j < i ==> rows@[j] is None,
            decreases NUM_RULE_ROWS - i,
        {
            rows.push(Option::None);
            i = i + 1;
        }
        let table = RuleTable { rows };
        proof {
            assert forall|t: TileType, d: Direction| table.entry(t, d) is None by {
                assert(0 <= Self::slot(t, d) < NUM_RULE_ROWS);
            }
        }
        table
    }

    /// Replaces the row of tile `t` and direction `d` with `tiles`; all
    /// other rows keep their contents.
    pub fn set(&mut self, t: TileType, d: Direction, tiles: Vec<TileType>)
        requires
            old(self).wf(),
        ensures
            final(self).wf(),
            final(self).entry(t, d) == Option::Some(tiles@),
            forall|t2: TileType, d2: Direction|
                !(t2 == t && d2 == d) ==> final(self).entry(t2, d2) == old(self).entry(t2, d2),
    {
        let slot = t.index() * NUM_DIRECTIONS + d.index();
        self.rows[slot] = Option::Some(tiles);
        proof {
            assert forall|t2: TileType, d2: Direction|
                !(t2 == t && d2 == d) implies final(self).entry(t2, d2) == old(self).entry(
                t2,
                d2,
            ) by {
                assert(Self::slot(t2, d2) != Self::slot(t, d));
            }
        }
    }

    /// The row of tile `t` and direction `d`, if `t` constrains that side.
    pub fn get(&self, t: TileType, d: Direction) -> (row: Option<&Vec<TileType>>)
        requires
            self.wf(),
        ensures
            match row {
                Option::Some(v) => self.entry(t, d) == Option::Some(v@),
                Option::None => self.entry(t, d) is None,
            },
    {
        let slot = t.index() * NUM_DIRECTIONS + d.index();
        match &self.rows[slot] {
            Option::Some(v) => Option::Some(v),
            Option::None => Option::None,
        }
    }
}

/// A per-tile spawn weight table; a tile absent from it weighs `WEIGHT_ONE`.
/// Every weight stored is positive.
pub struct WeightTable {
    /// Entry `t.index()` belongs to tile `t`.
    pub entries: Vec<Option<u32>>,
}

impl WeightTable {
    /// One entry per tile kind, and every stored weight is positive.
    pub open spec fn wf(self) -> bool {
        &&& self.entries@.len() == NUM_TILE_TYPES
        &&& forall|i: int|
            0 <= i < self.entries@.len() ==> (#[trigger] self.entries@[i] matches Option::Some(w)
                ==> w > 0)
    }

    /// The weight of tile `t`, defaulting to `WEIGHT_ONE` when absent.
    pub open spec fn weight_spec(self, t: TileType) -> int {
        match self.entries@[t.index_spec()] {
            Option::None => WEIGHT_ONE as int,
            Option::Some(w) => w as int,
        }
    }

    /// An empty table: every tile weighs `WEIGHT_ONE`.
    pub fn new() -> (table: WeightTable)
        ensures
            table.wf(),
            forall|t: TileType| table.weight_spec(t) == WEIGHT_ONE as int,
    {
        let mut entries: Vec<Option<u32>> = Vec::new();
        let mut i: usize = 0;
        while i < NUM_TILE_TYPES
            invariant
                i <= NUM_TILE_TYPES,
                entries@.len() == i,
                forall|j: int| 0 <= j < i ==> entries@[j] is None,
            decreases NUM_TILE_TYPES - i,
        {
            entries.push(Option::None);
            i = i + 1;
        }
        let table = WeightTable { entries };
        proof {
            assert forall|t: TileType| table.weight_spec(t) == WEIGHT_ONE as int by {
                assert(0 <= t.index_spec() < NUM_TILE_TYPES);
            }
        }
        table
    }

    /// Gives tile `t` the positive weight `w`; other tiles keep theirs.
    pub fn set(&mut self, t: TileType, w: u32)
        requires
            old(self).wf(),
            w > 0,
        ensures
            final(self).wf(),
            final(self).weight_spec(t) == w as int,
            forall|t2: TileType| t2 != t ==> final(self).weight_spec(t2) == old(self).weight_spec(t2),
    {
        let i = t.index();
        self.entries[i] = Option::Some(w);
        proof {
            assert forall|t2: TileType| t2 != t implies final(self).weight_spec(t2) == old(
                self,
            ).weight_spec(t2) by {
                assert(t2.index_spec() != t.index_spec());
            }
        }
    }

    /// The weight of tile `t`, `WEIGHT_ONE` when the table has no entry.
    pub fn weight_of(&self, t: TileType) -> (w: u32)
        requires
            self.wf(),
        ensures
            w as int == self.weight_spec(t),
            w > 0,
    {
        let i = t.index();
        match self.entries[i] {
            Option::Some(w) => w,
            Option::None => WEIGHT_ONE,
        }
    }
}

/// A rule catalog: the interface through which the propagation and collapse
/// engines read adjacency rules and spawn weights. Each concrete catalog
/// (open space, simple outdoor, building, dungeon) implements it.
pub trait Rules: Sized {
    /// The catalog's adjacency table, as a specification-level value.
    spec fn rule_table(&self) -> RuleTable;

    /// The catalog's weight table, as a specification-level value.
    spec fn weight_table(&self) -> WeightTable;

    /// The catalog's seed list of all tiles, as a specification-level value.
    spec fn tiles_seq(&self) -> Seq<TileType>;

    /// The catalog's tables are well formed and its tile list is non-empty
    /// and of bounded length.
    spec fn wf(&self) -> bool;

    /// A well-formed catalog has well-formed tables and a non-empty tile
    /// list short enough for a cell entropy counter.
    proof fn wf_implies(&self)
        requires
            self.wf(),
        ensures
            self.rule_table().wf(),
            self.weight_table().wf(),
            0 < self.tiles_seq().len() <= 0x7fffffff,
    ;

    /// The per-tile per-direction adjacency table.
    fn allowed_neighbors(&self) -> (table: &RuleTable)
        requires
            self.wf(),
        ensures
            *table == self.rule_table(),
    ;

    /// The per-tile spawn weight table.
    fn weights(&self) -> (table: &WeightTable)
        requires
            self.wf(),
        ensures
            *table == self.weight_table(),
    ;

    /// The ordered list of all tiles, used to seed a new cell's candidates.
    fn all_tiles(&self) -> (tiles: &Vec<TileType>)
        requires
            self.wf(),
        ensures
            tiles@ == self.tiles_seq(),
    ;
}

} // verus!
