//! The closed catalogs of placeable tile kinds and of grid neighbor
//! directions, together with the coordinate geometry they induce.

use vstd::prelude::*;

verus! {

/// A placeable tile kind. Compared by value; the fountain pieces are the
/// multi-part structure variants (a center, four corners, four edges).
#[derive(Clone, Copy, PartialEq, Eq, Structural, Debug, Hash)]
pub enum TileType {
    Ground,
    Tree,
    Chest,
    FountainCenter,
    FountainCorner1,
    FountainCorner2,
    FountainCorner3,
    FountainCorner4,
    FountainEdge1,
    FountainEdge2,
    FountainEdge3,
    FountainEdge4,
}

/// Marker for the plain ground tile kind, for embedding applications that
/// tag their own entities by kind.
#[derive(Clone, Copy, PartialEq, Eq, Structural, Debug)]
pub struct Ground;

/// Marker for the tree tile kind.
#[derive(Clone, Copy, PartialEq, Eq, Structural, Debug)]
pub struct Tree;

/// Marker for the chest tile kind.
#[derive(Clone, Copy, PartialEq, Eq, Structural, Debug)]
pub struct Chest;

/// The number of tile kinds in `TileType`.
pub const NUM_TILE_TYPES: usize = 12;

/// A neighbor offset supported by the grid: the four axis directions.
/// `Front` is +z, `Back` is -z, `Right` is +x, `Left` is -x.
#[derive(Clone, Copy, PartialEq, Eq, Structural, Debug, Hash)]
pub enum Direction {
    Front,
    Back,
    Right,
    Left,
}

/// The number of directions in `Direction`.
pub const NUM_DIRECTIONS: usize = 4;

impl TileType {
    /// A distinct index below `NUM_TILE_TYPES` for each tile kind, used to
    /// key the rule and weight tables.
    pub open spec fn index_spec(self) -> int {
        match self {
            TileType::Ground => 0,
            TileType::Tree => 1,
            TileType::Chest => 2,
            TileType::FountainCenter => 3,
            TileType::FountainCorner1 => 4,
            TileType::FountainCorner2 => 5,
            TileType::FountainCorner3 => 6,
            TileType::FountainCorner4 => 7,
            TileType::FountainEdge1 => 8,
            TileType::FountainEdge2 => 9,
            TileType::FountainEdge3 => 10,
            TileType::FountainEdge4 => 11,
        }
    }

    /// Executable form of `index_spec`.
    pub fn index(self) -> (i: usize)
        ensures
            i == self.index_spec(),
            i < NUM_TILE_TYPES,
    {
        match self {
            TileType::Ground => 0,
            TileType::Tree => 1,
            TileType::Chest => 2,
            TileType::FountainCenter => 3,
            TileType::FountainCorner1 => 4,
            TileType::FountainCorner2 => 5,
            TileType::FountainCorner3 => 6,
            TileType::FountainCorner4 => 7,
            TileType::FountainEdge1 => 8,
            TileType::FountainEdge2 => 9,
            TileType::FountainEdge3 => 10,
            TileType::FountainEdge4 => 11,
        }
    }
}

impl Direction {
    /// A distinct index below `NUM_DIRECTIONS` for each direction.
    pub open spec fn index_spec(self) -> int {
        match self {
            Direction::Front => 0,
            Direction::Back => 1,
            Direction::Right => 2,
            Direction::Left => 3,
        }
    }

    /// Executable form of `index_spec`.
    pub fn index(self) -> (i: usize)
        ensures
            i == self.index_spec(),
            i < NUM_DIRECTIONS,
    {
        match self {
            Direction::Front => 0,
            Direction::Back => 1,
            Direction::Right => 2,
            Direction::Left => 3,
        }
    }

    /// The integer coordinate delta of this direction, as (dx, dz).
    pub open spec fn delta_spec(self) -> (int, int) {
        match self {
            Direction::Front => (0int, 1int),
            Direction::Back => (0int, -1int),
            Direction::Right => (1int, 0int),
            Direction::Left => (-1int, 0int),
        }
    }

    /// Executable form of `delta_spec`.
    pub fn delta(self) -> (d: (i32, i32))
        ensures
            d.0 as int == self.delta_spec().0,
            d.1 as int == self.delta_spec().1,
    {
        match self {
            Direction::Front => (0i32, 1i32),
            Direction::Back => (0i32, -1i32),
            Direction::Right => (1i32, 0i32),
            Direction::Left => (-1i32, 0i32),
        }
    }
}

/// All four directions, in a fixed order, for iterating over a cell's
/// neighborhood.
pub fn all_directions() -> (ds: Vec<Direction>)
    ensures
        ds@ =~= seq![Direction::Front, Direction::Back, Direction::Right, Direction::Left],
{
    let mut ds: Vec<Direction> = Vec::new();
    ds.push(Direction::Front);
    ds.push(Direction::Back);
    ds.push(Direction::Right);
    ds.push(Direction::Left);
    ds
}

/// Copies a tile list; tiles are plain values.
pub fn clone_tiles(tiles: &Vec<TileType>) -> (copy: Vec<TileType>)
    ensures
        copy@ == tiles@,
{
    let mut copy: Vec<TileType> = Vec::new();
    let mut i: usize = 0;
    while i < tiles.len()
        invariant
            i <= tiles@.len(),
            copy@ == tiles@.subrange(0, i as int),
        decreases tiles@.len() - i,
    {
        copy.push(tiles[i]);
        proof {
            assert(copy@ =~= tiles@.subrange(0, i + 1 as int));
        }
        i = i + 1;
    }
    proof {
        assert(copy@ =~= tiles@);
    }
    copy
}

/// The direction whose delta is the negation of the given one: what can be
/// placed in a cell's front is what that front neighbor allows in its back.
pub open spec fn opposite_spec(direction: Direction) -> Direction {
    match direction {
        Direction::Front => Direction::Back,
        Direction::Back => Direction::Front,
        Direction::Right => Direction::Left,
        Direction::Left => Direction::Right,
    }
}

/// Returns the opposite of `direction`; its delta is the negation of the
/// delta of `direction`.
pub fn get_opposite_direction(direction: Direction) -> (opposite: Direction)
    ensures
        opposite == opposite_spec(direction),
        opposite.delta_spec().0 == -direction.delta_spec().0,
        opposite.delta_spec().1 == -direction.delta_spec().1,
{
    match direction {
        Direction::Front => Direction::Back,
        Direction::Back => Direction::Front,
        Direction::Right => Direction::Left,
        Direction::Left => Direction::Right,
    }
}

} // verus!
