//! Per-grid-position state: the collapse flag, the resolved tile, the
//! current candidate set and its derived entropy, and the grid coordinate.

use vstd::prelude::*;

use crate::tiles::TileType;

verus! {

/// One cell of the grid. A cell starts uncollapsed with every tile as a
/// candidate; propagation narrows the candidates, and collapse commits the
/// cell to exactly one tile.
pub struct Cell {
    /// Whether this cell has been finalized to a specific tile type.
    pub is_collapsed: bool,
    /// The resolved tile: `Some` exactly when the cell is collapsed.
    pub tile_type: Option<TileType>,
    /// The number of remaining candidates while uncollapsed; zero once
    /// collapsed.
    pub entropy: i32,
    /// The tile types still possible for this cell.
    pub valid_tiles: Vec<TileType>,
    /// The grid coordinate of this cell, as (x, z).
    pub position: (i32, i32),
}

impl Cell {
    /// The cell's internal invariant: the collapse flag agrees with the
    /// resolved tile, and the entropy counts the candidates while the cell
    /// is uncollapsed and is pinned to zero once it is collapsed.
    pub open spec fn wf(self) -> bool {
        &&& self.is_collapsed <==> self.tile_type is Some
        &&& self.is_collapsed ==> self.entropy == 0
        &&& !self.is_collapsed ==> self.entropy == self.valid_tiles@.len()
        &&& self.valid_tiles@.len() <= 0x7fffffff
    }

    /// An uncollapsed cell whose candidate set is empty: an unsatisfiable
    /// local constraint.
    pub open spec fn is_contradiction_spec(self) -> bool {
        self.valid_tiles@.len() == 0 && !self.is_collapsed
    }

    /// Creates a cell at `position` with every tile of `all_tiles` as a
    /// candidate and maximal entropy.
    pub fn new(all_tiles: &[TileType], position: (i32, i32)) -> (cell: Cell)
        requires
            all_tiles@.len() <= 0x7fffffff,
        ensures
            cell.wf(),
            !cell.is_collapsed,
            cell.tile_type is None,
            cell.valid_tiles@ == all_tiles@,
            cell.entropy == all_tiles@.len(),
            cell.position == position,
    {
        let mut valid_tiles: Vec<TileType> = Vec::new();
        let mut i: usize = 0;
        while i < all_tiles.len()
            invariant
                i <= all_tiles@.len(),
                valid_tiles@ == all_tiles@.subrange(0, i as int),
            decreases all_tiles@.len() - i,
        {
            valid_tiles.push(all_tiles[i]);
            proof {
                assert(valid_tiles@ =~= all_tiles@.subrange(0, i + 1 as int));
            }
            i = i + 1;
        }
        proof {
            assert(valid_tiles@ =~= all_tiles@);
        }
        Cell {
            is_collapsed: false,
            tile_type: Option::None,
            entropy: all_tiles.len() as i32,
            valid_tiles,
            position,
        }
    }

    /// Recomputes the entropy from the candidate count; a collapsed cell
    /// keeps its entropy of zero.
    pub fn update_entropy(&mut self)
        requires
            old(self).valid_tiles@.len() <= 0x7fffffff,
        ensures
            old(self).is_collapsed ==> *final(self) == *old(self),
            !old(self).is_collapsed ==> *final(self) == (Cell {
                entropy: old(self).valid_tiles@.len() as i32,
                ..*old(self)
            }),
    {
        if !self.is_collapsed {
            self.entropy = self.valid_tiles.len() as i32;
        }
    }

    /// Whether the candidate set is empty.
    pub fn is_contradicted(&mut self) -> (contradicted: bool)
        ensures
            *final(self) == *old(self),
            contradicted == (old(self).valid_tiles@.len() == 0),
    {
        self.valid_tiles.is_empty()
    }

    /// Whether this cell is an uncollapsed contradiction.
    pub fn is_contradiction(&self) -> (contradiction: bool)
        ensures
            contradiction == self.is_contradiction_spec(),
    {
        self.valid_tiles.is_empty() && !self.is_collapsed
    }
}

} // verus!
