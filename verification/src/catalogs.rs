//! The concrete rule catalogs: the open-space catalog with the full tile
//! set and fountain structure pieces, a simple outdoor catalog, and the
//! (still empty) building and dungeon catalogs.

use vstd::prelude::*;

use crate::rules::RuleTable;
use crate::rules::Rules;
use crate::rules::WEIGHT_ONE;
use crate::rules::WeightTable;
use crate::tiles::Direction;
use crate::tiles::TileType;
use crate::tiles::clone_tiles;

verus! {

/// Gives tile `t` the same allowed-neighbor list in all four directions.
fn set_all_directions(table: &mut RuleTable, t: TileType, tiles: Vec<TileType>)
    requires
        old(table).wf(),
    ensures
        final(table).wf(),
        forall|d: Direction| final(table).entry(t, d) == Option::Some(tiles@),
        forall|t2: TileType, d2: Direction|
            t2 != t ==> final(table).entry(t2, d2) == old(table).entry(t2, d2),
{
    let copy_front = clone_tiles(&tiles);
    let copy_back = clone_tiles(&tiles);
    let copy_right = clone_tiles(&tiles);
    table.set(t, Direction::Front, copy_front);
    table.set(t, Direction::Back, copy_back);
    table.set(t, Direction::Right, copy_right);
    table.set(t, Direction::Left, tiles);
    proof {
        assert forall|d: Direction| final(table).entry(t, d) == Option::Some(tiles@) by {
            match d {
                Direction::Front => {},
                Direction::Back => {},
                Direction::Right => {},
                Direction::Left => {},
            }
        }
    }
}

/// The authored open-space adjacency row: the tiles permitted beside `t`
/// in direction `d`, exactly as `OpenSpaceRules::default` installs them.
pub open spec fn open_space_row(t: TileType, d: Direction) -> Seq<TileType> {
    match t {
        TileType::Ground => match d {
            Direction::Front => seq![
                TileType::Ground,
                TileType::Tree,
                TileType::Chest,
                TileType::FountainCorner3,
                TileType::FountainCorner4,
                TileType::FountainEdge4,
            ],
            Direction::Back => seq![
                TileType::Ground,
                TileType::Tree,
                TileType::Chest,
                TileType::FountainCorner1,
                TileType::FountainCorner2,
                TileType::FountainEdge1,
            ],
            Direction::Right => seq![
                TileType::Ground,
                TileType::Tree,
                TileType::Chest,
                TileType::FountainCorner1,
                TileType::FountainCorner3,
                TileType::FountainEdge3,
            ],
            Direction::Left => seq![
                TileType::Ground,
                TileType::Tree,
                TileType::Chest,
                TileType::FountainCorner2,
                TileType::FountainCorner4,
                TileType::FountainEdge3,
            ],
        },
        TileType::Tree => seq![TileType::Ground, TileType::Tree, TileType::Chest],
        TileType::Chest => seq![TileType::Ground, TileType::Tree, TileType::Chest],
        TileType::FountainCenter => match d {
            Direction::Front => seq![TileType::FountainEdge1, TileType::FountainCenter],
            Direction::Back => seq![TileType::FountainEdge4, TileType::FountainCenter],
            Direction::Right => seq![TileType::FountainEdge2, TileType::FountainCenter],
            Direction::Left => seq![TileType::FountainEdge3, TileType::FountainCenter],
        },
        TileType::FountainCorner1 => match d {
            Direction::Front => seq![TileType::Ground],
            Direction::Back => seq![TileType::FountainEdge3, TileType::FountainCorner3],
            Direction::Right => seq![TileType::FountainEdge1, TileType::FountainCorner2],
            Direction::Left => seq![TileType::Ground],
        },
        TileType::FountainCorner2 => match d {
            Direction::Front => seq![TileType::Ground],
            Direction::Back => seq![TileType::FountainEdge2, TileType::FountainCorner4],
            Direction::Right => seq![TileType::Ground],
            Direction::Left => seq![TileType::FountainEdge1, TileType::FountainCorner1],
        },
        TileType::FountainCorner3 => match d {
            Direction::Front => seq![TileType::FountainEdge3, TileType::FountainCorner1],
            Direction::Back => seq![TileType::Ground],
            Direction::Right => seq![TileType::FountainEdge4, TileType::FountainCorner4],
            Direction::Left => seq![TileType::Ground],
        },
        TileType::FountainCorner4 => match d {
            Direction::Front => seq![TileType::FountainEdge2, TileType::FountainCorner2],
            Direction::Back => seq![TileType::Ground],
            Direction::Right => seq![TileType::Ground],
            Direction::Left => seq![TileType::FountainEdge4, TileType::FountainCorner3],
        },
        TileType::FountainEdge1 => match d {
            Direction::Front => seq![TileType::Ground],
            Direction::Back => seq![TileType::FountainCenter, TileType::FountainEdge4],
            Direction::Right => seq![TileType::FountainEdge1, TileType::FountainCorner2],
            Direction::Left => seq![TileType::FountainEdge1, TileType::FountainCorner1],
        },
        TileType::FountainEdge2 => match d {
            Direction::Front => seq![TileType::FountainEdge2, TileType::FountainCorner2],
            Direction::Back => seq![TileType::FountainEdge2, TileType::FountainCorner4],
            Direction::Right => seq![TileType::Ground],
            Direction::Left => seq![TileType::FountainCenter, TileType::FountainEdge3],
        },
        TileType::FountainEdge3 => match d {
            Direction::Front => seq![TileType::FountainEdge3, TileType::FountainCorner1],
            Direction::Back => seq![TileType::FountainEdge3, TileType::FountainCorner3],
            Direction::Right => seq![TileType::FountainCenter, TileType::FountainEdge2],
            Direction::Left => seq![TileType::Ground],
        },
        TileType::FountainEdge4 => match d {
            Direction::Front => seq![TileType::FountainCenter, TileType::FountainEdge1],
            Direction::Back => seq![TileType::Ground],
            Direction::Right => seq![TileType::FountainEdge4, TileType::FountainCorner4],
            Direction::Left => seq![TileType::FountainEdge4, TileType::FountainCorner3],
        },
    }
}

/// The authored open-space spawn weight of `t`, in fixed point.
pub open spec fn open_space_weight(t: TileType) -> int {
    match t {
        TileType::Ground => 30000,
        TileType::Tree => 20000,
        TileType::Chest => 10000,
        TileType::FountainCenter => 50000,
        TileType::FountainCorner1 => 34567,
        TileType::FountainCorner2 => 34560,
        TileType::FountainCorner3 => 34500,
        TileType::FountainCorner4 => 34000,
        TileType::FountainEdge1 => 33900,
        TileType::FountainEdge2 => 33800,
        TileType::FountainEdge3 => 33700,
        TileType::FountainEdge4 => 33600,
    }
}

/// The catalog for open outdoor space: ground, trees, chests, and a
/// four-by-four family of fountain pieces whose rules make the pieces
/// assemble into rectangular fountains ringed by ground.
pub struct OpenSpaceRules {
    /// Per-tile per-direction allowed neighbors.
    pub allowed_neighbors: RuleTable,
    /// The seed candidate list of every new cell.
    pub all_tiles: Vec<TileType>,
    /// Per-tile spawn weights.
    pub weights: WeightTable,
}

impl Rules for OpenSpaceRules {
    open spec fn rule_table(&self) -> RuleTable {
        self.allowed_neighbors
    }

    open spec fn weight_table(&self) -> WeightTable {
        self.weights
    }

    open spec fn tiles_seq(&self) -> Seq<TileType> {
        self.all_tiles@
    }

    open spec fn wf(&self) -> bool {
        &&& self.allowed_neighbors.wf()
        &&& self.weights.wf()
        &&& 0 < self.all_tiles@.len() <= 0x7fffffff
    }

    proof fn wf_implies(&self) {
    }

    fn allowed_neighbors(&self) -> &RuleTable {
        &self.allowed_neighbors
    }

    fn weights(&self) -> &WeightTable {
        &self.weights
    }

    fn all_tiles(&self) -> &Vec<TileType> {
        &self.all_tiles
    }
}

impl Default for OpenSpaceRules {
    /// Builds the full open-space catalog: every tile kind is a candidate,
    /// every (tile, direction) row is populated, and the weights favor
    /// fountain growth over scattered objects.
    fn default() -> (catalog: Self)
        ensures
            catalog.wf(),
            catalog.tiles_seq() =~= seq![
                TileType::Ground,
                TileType::Tree,
                TileType::Chest,
                TileType::FountainCenter,
                TileType::FountainCorner1,
                TileType::FountainCorner2,
                TileType::FountainCorner3,
                TileType::FountainCorner4,
                TileType::FountainEdge1,
                TileType::FountainEdge2,
                TileType::FountainEdge3,
                TileType::FountainEdge4,
            ],
            forall|t: TileType, d: Direction| catalog.rule_table().entry(t, d)
                == Option::Some(open_space_row(t, d)),
            forall|t: TileType| catalog.weight_table().weight_spec(t) == open_space_weight(t),
    {
        let mut table = RuleTable::new();

        // Ground borders everything open plus the outward-facing fountain
        // sides that expect ground beyond them.
        table.set(
            TileType::Ground,
            Direction::Front,
            vec![
                TileType::Ground,
                TileType::Tree,
                TileType::Chest,
                TileType::FountainCorner3,
                TileType::FountainCorner4,
                TileType::FountainEdge4,
            ],
        );
        table.set(
            TileType::Ground,
            Direction::Back,
            vec![
                TileType::Ground,
                TileType::Tree,
                TileType::Chest,
                TileType::FountainCorner1,
                TileType::FountainCorner2,
                TileType::FountainEdge1,
            ],
        );
        table.set(
            TileType::Ground,
            Direction::Right,
            vec![
                TileType::Ground,
                TileType::Tree,
                TileType::Chest,
                TileType::FountainCorner1,
                TileType::FountainCorner3,
                TileType::FountainEdge3,
            ],
        );
        table.set(
            TileType::Ground,
            Direction::Left,
            vec![
                TileType::Ground,
                TileType::Tree,
                TileType::Chest,
                TileType::FountainCorner2,
                TileType::FountainCorner4,
                TileType::FountainEdge3,
            ],
        );

        set_all_directions(
            &mut table,
            TileType::Tree,
            vec![TileType::Ground, TileType::Tree, TileType::Chest],
        );
        set_all_directions(
            &mut table,
            TileType::Chest,
            vec![TileType::Ground, TileType::Tree, TileType::Chest],
        );

        // The fountain center wants edges (or more center) on every side.
        table.set(
            TileType::FountainCenter,
            Direction::Front,
            vec![TileType::FountainEdge1, TileType::FountainCenter],
        );
        table.set(
            TileType::FountainCenter,
            Direction::Back,
            vec![TileType::FountainEdge4, TileType::FountainCenter],
        );
        table.set(
            TileType::FountainCenter,
            Direction::Right,
            vec![TileType::FountainEdge2, TileType::FountainCenter],
        );
        table.set(
            TileType::FountainCenter,
            Direction::Left,
            vec![TileType::FountainEdge3, TileType::FountainCenter],
        );

        // Top-left corner: ground outward, edges or corners inward.
        table.set(TileType::FountainCorner1, Direction::Front, vec![TileType::Ground]);
        table.set(
            TileType::FountainCorner1,
            Direction::Back,
            vec![TileType::FountainEdge3, TileType::FountainCorner3],
        );
        table.set(
            TileType::FountainCorner1,
            Direction::Right,
            vec![TileType::FountainEdge1, TileType::FountainCorner2],
        );
        table.set(TileType::FountainCorner1, Direction::Left, vec![TileType::Ground]);

        // Top-right corner.
        table.set(TileType::FountainCorner2, Direction::Front, vec![TileType::Ground]);
        table.set(
            TileType::FountainCorner2,
            Direction::Back,
            vec![TileType::FountainEdge2, TileType::FountainCorner4],
        );
        table.set(TileType::FountainCorner2, Direction::Right, vec![TileType::Ground]);
        table.set(
            TileType::FountainCorner2,
            Direction::Left,
            vec![TileType::FountainEdge1, TileType::FountainCorner1],
        );

        // Bottom-left corner.
        table.set(
            TileType::FountainCorner3,
            Direction::Front,
            vec![TileType::FountainEdge3, TileType::FountainCorner1],
        );
        table.set(TileType::FountainCorner3, Direction::Back, vec![TileType::Ground]);
        table.set(
            TileType::FountainCorner3,
            Direction::Right,
            vec![TileType::FountainEdge4, TileType::FountainCorner4],
        );
        table.set(TileType::FountainCorner3, Direction::Left, vec![TileType::Ground]);

        // Bottom-right corner.
        table.set(
            TileType::FountainCorner4,
            Direction::Front,
            vec![TileType::FountainEdge2, TileType::FountainCorner2],
        );
        table.set(TileType::FountainCorner4, Direction::Back, vec![TileType::Ground]);
        table.set(TileType::FountainCorner4, Direction::Right, vec![TileType::Ground]);
        table.set(
            TileType::FountainCorner4,
            Direction::Left,
            vec![TileType::FountainEdge4, TileType::FountainCorner3],
        );

        // Top edge, expandable horizontally.
        table.set(TileType::FountainEdge1, Direction::Front, vec![TileType::Ground]);
        table.set(
            TileType::FountainEdge1,
            Direction::Back,
            vec![TileType::FountainCenter, TileType::FountainEdge4],
        );
        table.set(
            TileType::FountainEdge1,
            Direction::Right,
            vec![TileType::FountainEdge1, TileType::FountainCorner2],
        );
        table.set(
            TileType::FountainEdge1,
            Direction::Left,
            vec![TileType::FountainEdge1, TileType::FountainCorner1],
        );

        // Right edge, expandable vertically.
        table.set(
            TileType::FountainEdge2,
            Direction::Front,
            vec![TileType::FountainEdge2, TileType::FountainCorner2],
        );
        table.set(
            TileType::FountainEdge2,
            Direction::Back,
            vec![TileType::FountainEdge2, TileType::FountainCorner4],
        );
        table.set(TileType::FountainEdge2, Direction::Right, vec![TileType::Ground]);
        table.set(
            TileType::FountainEdge2,
            Direction::Left,
            vec![TileType::FountainCenter, TileType::FountainEdge3],
        );

        // Left edge, expandable vertically.
        table.set(
            TileType::FountainEdge3,
            Direction::Front,
            vec![TileType::FountainEdge3, TileType::FountainCorner1],
        );
        table.set(
            TileType::FountainEdge3,
            Direction::Back,
            vec![TileType::FountainEdge3, TileType::FountainCorner3],
        );
        table.set(
            TileType::FountainEdge3,
            Direction::Right,
            vec![TileType::FountainCenter, TileType::FountainEdge2],
        );
        table.set(TileType::FountainEdge3, Direction::Left, vec![TileType::Ground]);

        // Bottom edge, expandable horizontally.
        table.set(
            TileType::FountainEdge4,
            Direction::Front,
            vec![TileType::FountainCenter, TileType::FountainEdge1],
        );
        table.set(TileType::FountainEdge4, Direction::Back, vec![TileType::Ground]);
        table.set(
            TileType::FountainEdge4,
            Direction::Right,
            vec![TileType::FountainEdge4, TileType::FountainCorner4],
        );
        table.set(
            TileType::FountainEdge4,
            Direction::Left,
            vec![TileType::FountainEdge4, TileType::FountainCorner3],
        );

        let mut weights = WeightTable::new();
        weights.set(TileType::Ground, 30000);
        weights.set(TileType::Tree, 20000);
        weights.set(TileType::Chest, 10000);
        weights.set(TileType::FountainCenter, 50000);
        weights.set(TileType::FountainCorner1, 34567);
        weights.set(TileType::FountainCorner2, 34560);
        weights.set(TileType::FountainCorner3, 34500);
        weights.set(TileType::FountainCorner4, 34000);
        weights.set(TileType::FountainEdge1, 33900);
        weights.set(TileType::FountainEdge2, 33800);
        weights.set(TileType::FountainEdge3, 33700);
        weights.set(TileType::FountainEdge4, 33600);

        let catalog = OpenSpaceRules {
            allowed_neighbors: table,
            all_tiles: vec![
                TileType::Ground,
                TileType::Tree,
                TileType::Chest,
                TileType::FountainCenter,
                TileType::FountainCorner1,
                TileType::FountainCorner2,
                TileType::FountainCorner3,
                TileType::FountainCorner4,
                TileType::FountainEdge1,
                TileType::FountainEdge2,
                TileType::FountainEdge3,
                TileType::FountainEdge4,
            ],
            weights,
        };
        proof {
            assert forall|t: TileType, d: Direction| catalog.rule_table().entry(t, d)
                == Option::Some(open_space_row(t, d)) by {
                match t {
                    TileType::Ground => {},
                    TileType::Tree => {},
                    TileType::Chest => {},
                    TileType::FountainCenter => {},
                    TileType::FountainCorner1 => {},
                    TileType::FountainCorner2 => {},
                    TileType::FountainCorner3 => {},
                    TileType::FountainCorner4 => {},
                    TileType::FountainEdge1 => {},
                    TileType::FountainEdge2 => {},
                    TileType::FountainEdge3 => {},
                    TileType::FountainEdge4 => {},
                }
                assert(catalog.rule_table().entry(t, d)->0 =~= open_space_row(t, d));
            }
            assert forall|t: TileType| catalog.weight_table().weight_spec(t) == open_space_weight(
                t,
            ) by {
                match t {
                    TileType::Ground => {},
                    TileType::Tree => {},
                    TileType::Chest => {},
                    TileType::FountainCenter => {},
                    TileType::FountainCorner1 => {},
                    TileType::FountainCorner2 => {},
                    TileType::FountainCorner3 => {},
                    TileType::FountainCorner4 => {},
                    TileType::FountainEdge1 => {},
                    TileType::FountainEdge2 => {},
                    TileType::FountainEdge3 => {},
                    TileType::FountainEdge4 => {},
                }
            }
        }
        catalog
    }
}

/// The authored simple-outdoor adjacency row of `t`, the same toward all
/// four directions: chests stand alone on ground, trees refuse chests.
pub open spec fn outdoor_row(t: TileType) -> Seq<TileType> {
    match t {
        TileType::Ground => seq![TileType::Ground, TileType::Chest, TileType::Tree],
        TileType::Tree => seq![TileType::Ground, TileType::Tree],
        TileType::Chest => seq![TileType::Ground],
        _ => Seq::<TileType>::empty(),
    }
}

/// The authored simple-outdoor spawn weight of `t`, in fixed point:
/// mostly ground, some trees, rare chests, everything else defaulted.
pub open spec fn outdoor_weight(t: TileType) -> int {
    match t {
        TileType::Ground => 80000,
        TileType::Tree => 20000,
        TileType::Chest => 1000,
        _ => WEIGHT_ONE as int,
    }
}

/// A simple outdoor catalog of ground, trees and chests: trees refuse
/// chests beside them, chests stand alone on ground.
pub struct ODYRules {
    /// Per-tile per-direction allowed neighbors.
    pub allowed_neighbors: RuleTable,
    /// The seed candidate list of every new cell.
    pub all_tiles: Vec<TileType>,
    /// Per-tile spawn weights.
    pub weights: WeightTable,
}

impl Rules for ODYRules {
    open spec fn rule_table(&self) -> RuleTable {
        self.allowed_neighbors
    }

    open spec fn weight_table(&self) -> WeightTable {
        self.weights
    }

    open spec fn tiles_seq(&self) -> Seq<TileType> {
        self.all_tiles@
    }

    open spec fn wf(&self) -> bool {
        &&& self.allowed_neighbors.wf()
        &&& self.weights.wf()
        &&& 0 < self.all_tiles@.len() <= 0x7fffffff
    }

    proof fn wf_implies(&self) {
    }

    fn allowed_neighbors(&self) -> &RuleTable {
        &self.allowed_neighbors
    }

    fn weights(&self) -> &WeightTable {
        &self.weights
    }

    fn all_tiles(&self) -> &Vec<TileType> {
        &self.all_tiles
    }
}

impl Default for ODYRules {
    /// Builds the simple outdoor catalog: ground accepts everything, trees
    /// accept ground and trees, chests accept only ground, and ground far
    /// outweighs the others.
    fn default() -> (catalog: Self)
        ensures
            catalog.wf(),
            catalog.tiles_seq() =~= seq![TileType::Ground, TileType::Tree, TileType::Chest],
            forall|t: TileType, d: Direction|
                (t == TileType::Ground || t == TileType::Tree || t == TileType::Chest)
                    ==> catalog.rule_table().entry(t, d) == Option::Some(outdoor_row(t)),
            forall|t: TileType, d: Direction|
                !(t == TileType::Ground || t == TileType::Tree || t == TileType::Chest)
                    ==> catalog.rule_table().entry(t, d) is None,
            forall|t: TileType| catalog.weight_table().weight_spec(t) == outdoor_weight(t),
    {
        let mut table = RuleTable::new();
        set_all_directions(
            &mut table,
            TileType::Ground,
            vec![TileType::Ground, TileType::Chest, TileType::Tree],
        );
        set_all_directions(&mut table, TileType::Tree, vec![TileType::Ground, TileType::Tree]);
        set_all_directions(&mut table, TileType::Chest, vec![TileType::Ground]);

        let mut weights = WeightTable::new();
        weights.set(TileType::Ground, 80000);
        weights.set(TileType::Tree, 20000);
        weights.set(TileType::Chest, 1000);

        let catalog = ODYRules {
            allowed_neighbors: table,
            all_tiles: vec![TileType::Ground, TileType::Tree, TileType::Chest],
            weights,
        };
        proof {
            assert forall|t: TileType, d: Direction|
                (t == TileType::Ground || t == TileType::Tree || t == TileType::Chest)
                    implies catalog.rule_table().entry(t, d) == Option::Some(outdoor_row(t)) by {
                assert(catalog.rule_table().entry(t, d)->0 =~= outdoor_row(t));
            }
            assert forall|t: TileType| catalog.weight_table().weight_spec(t) == outdoor_weight(
                t,
            ) by {
                match t {
                    TileType::Ground => {},
                    TileType::Tree => {},
                    TileType::Chest => {},
                    _ => {
                        assert(t != TileType::Ground && t != TileType::Tree && t
                            != TileType::Chest);
                    },
                }
            }
        }
        catalog
    }
}

/// The catalog for building interiors; its rule rows are not yet authored,
/// so it constrains nothing and seeds cells with the basic outdoor tiles.
pub struct BuildingRules {
    /// Per-tile per-direction allowed neighbors.
    pub allowed_neighbors: RuleTable,
    /// The seed candidate list of every new cell.
    pub all_tiles: Vec<TileType>,
    /// Per-tile spawn weights.
    pub weights: WeightTable,
}

impl Rules for BuildingRules {
    open spec fn rule_table(&self) -> RuleTable {
        self.allowed_neighbors
    }

    open spec fn weight_table(&self) -> WeightTable {
        self.weights
    }

    open spec fn tiles_seq(&self) -> Seq<TileType> {
        self.all_tiles@
    }

    open spec fn wf(&self) -> bool {
        &&& self.allowed_neighbors.wf()
        &&& self.weights.wf()
        &&& 0 < self.all_tiles@.len() <= 0x7fffffff
    }

    proof fn wf_implies(&self) {
    }

    fn allowed_neighbors(&self) -> &RuleTable {
        &self.allowed_neighbors
    }

    fn weights(&self) -> &WeightTable {
        &self.weights
    }

    fn all_tiles(&self) -> &Vec<TileType> {
        &self.all_tiles
    }
}

impl Default for BuildingRules {
    /// An unconstrained catalog over the basic outdoor tiles.
    fn default() -> (catalog: Self)
        ensures
            catalog.wf(),
            catalog.tiles_seq() =~= seq![TileType::Ground, TileType::Tree, TileType::Chest],
            forall|t: TileType, d: Direction| catalog.rule_table().entry(t, d) is None,
            forall|t: TileType| catalog.weight_table().weight_spec(t) == WEIGHT_ONE as int,
    {
        BuildingRules {
            allowed_neighbors: RuleTable::new(),
            all_tiles: vec![TileType::Ground, TileType::Tree, TileType::Chest],
            weights: WeightTable::new(),
        }
    }
}

/// The catalog for dungeons; its rule rows are not yet authored, so it
/// constrains nothing and seeds cells with the basic outdoor tiles.
pub struct DungeonRules {
    /// Per-tile per-direction allowed neighbors.
    pub allowed_neighbors: RuleTable,
    /// The seed candidate list of every new cell.
    pub all_tiles: Vec<TileType>,
    /// Per-tile spawn weights.
    pub weights: WeightTable,
}

impl Rules for DungeonRules {
    open spec fn rule_table(&self) -> RuleTable {
        self.allowed_neighbors
    }

    open spec fn weight_table(&self) -> WeightTable {
        self.weights
    }

    open spec fn tiles_seq(&self) -> Seq<TileType> {
        self.all_tiles@
    }

    open spec fn wf(&self) -> bool {
        &&& self.allowed_neighbors.wf()
        &&& self.weights.wf()
        &&& 0 < self.all_tiles@.len() <= 0x7fffffff
    }

    proof fn wf_implies(&self) {
    }

    fn allowed_neighbors(&self) -> &RuleTable {
        &self.allowed_neighbors
    }

    fn weights(&self) -> &WeightTable {
        &self.weights
    }

    fn all_tiles(&self) -> &Vec<TileType> {
        &self.all_tiles
    }
}

impl Default for DungeonRules {
    /// An unconstrained catalog over the basic outdoor tiles.
    fn default() -> (catalog: Self)
        ensures
            catalog.wf(),
            catalog.tiles_seq() =~= seq![TileType::Ground, TileType::Tree, TileType::Chest],
            forall|t: TileType, d: Direction| catalog.rule_table().entry(t, d) is None,
            forall|t: TileType| catalog.weight_table().weight_spec(t) == WEIGHT_ONE as int,
    {
        DungeonRules {
            allowed_neighbors: RuleTable::new(),
            all_tiles: vec![TileType::Ground, TileType::Tree, TileType::Chest],
            weights: WeightTable::new(),
        }
    }
}

} // verus!
