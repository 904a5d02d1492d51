use std::collections::HashMap;

use wfc_grid::catalogs::BuildingRules;
use wfc_grid::catalogs::DungeonRules;
use wfc_grid::catalogs::ODYRules;
use wfc_grid::catalogs::OpenSpaceRules;
use wfc_grid::cell::Cell;
use wfc_grid::engine::WfcEngine;
use wfc_grid::generation::tick;
use wfc_grid::get_opposite_direction;
use wfc_grid::rules::WEIGHT_ONE;
use wfc_grid::streaming::GenerationSettings;
use wfc_grid::streaming::WorldPosition;
use wfc_grid::tiles::Direction;
use wfc_grid::tiles::TileType;

#[test]
fn opposite_directions_negate_and_invert() {
    let all = [Direction::Front, Direction::Back, Direction::Right, Direction::Left];
    for d in all {
        let o = get_opposite_direction(d);
        assert_eq!(get_opposite_direction(o), d);
        let (dx, dz) = d.delta();
        let (ox, oz) = o.delta();
        assert_eq!(dx, -ox);
        assert_eq!(dz, -oz);
    }
    assert_eq!(get_opposite_direction(Direction::Front), Direction::Back);
    assert_eq!(get_opposite_direction(Direction::Right), Direction::Left);
}

#[test]
fn catalogs_carry_their_tiles_and_weights() {
    let open_space = OpenSpaceRules::default();
    assert_eq!(open_space.all_tiles.len(), 12);
    assert_eq!(open_space.weights.weight_of(TileType::Ground), 30000);
    assert_eq!(open_space.weights.weight_of(TileType::FountainCenter), 50000);
    let center_front = open_space
        .allowed_neighbors
        .get(TileType::FountainCenter, Direction::Front)
        .expect("the open-space catalog populates every row");
    assert_eq!(
        center_front,
        &vec![TileType::FountainEdge1, TileType::FountainCenter]
    );

    let outdoor = ODYRules::default();
    assert_eq!(outdoor.all_tiles.len(), 3);
    assert_eq!(outdoor.weights.weight_of(TileType::Ground), 80000);
    let chest_row = outdoor
        .allowed_neighbors
        .get(TileType::Chest, Direction::Left)
        .expect("chests constrain every side");
    assert_eq!(chest_row, &vec![TileType::Ground]);

    // the unauthored catalogs constrain nothing and weigh everything alike
    let building = BuildingRules::default();
    assert!(building.allowed_neighbors.get(TileType::Ground, Direction::Front).is_none());
    assert_eq!(building.weights.weight_of(TileType::Tree), WEIGHT_ONE);
    let dungeon = DungeonRules::default();
    assert_eq!(dungeon.all_tiles.len(), 3);
}

fn check_cell_invariants(cell: &Cell) {
    // entropy always counts the candidates while uncollapsed, and is
    // pinned to zero with a resolved tile once collapsed
    if cell.is_collapsed {
        assert!(cell.tile_type.is_some());
        assert_eq!(cell.entropy, 0);
    } else {
        assert!(cell.tile_type.is_none());
        assert_eq!(cell.entropy as usize, cell.valid_tiles.len());
    }
}

fn check_index_agreement(engine: &WfcEngine) {
    let mut live = 0;
    for (h, slot) in engine.cells.iter().enumerate() {
        if let Some(cell) = slot {
            live += 1;
            let found = engine
                .spatial_index
                .get_pos(cell.position)
                .expect("every live cell is indexed");
            assert_eq!(found, h);
        }
    }
    assert_eq!(engine.spatial_index.len(), live);
}

#[test]
fn ticks_keep_the_engine_invariants() {
    let rules = OpenSpaceRules::default();
    let settings = GenerationSettings {
        cell_edge_length: 9,
        total_cells_on_edge: 5,
        spawn_distance: 700,
    };
    let mut engine = WfcEngine::new();
    let mut resolved: HashMap<(i32, i32), TileType> = HashMap::new();
    for step in 1..=40u64 {
        // the observer drifts slowly east
        let observer = WorldPosition { x: (step as i64) * 900, y: 1500, z: 0 };
        tick(
            &mut engine,
            &rules,
            &settings,
            observer,
            step * 200,
            TileType::Ground,
        );
        let mut collapsed = 0;
        for slot in engine.cells.iter() {
            if let Some(cell) = slot {
                check_cell_invariants(cell);
                if let Some(tile) = cell.tile_type {
                    collapsed += 1;
                    // a collapsed cell never reverts nor changes its tile
                    let earlier = resolved.insert(cell.position, tile);
                    if let Some(previous) = earlier {
                        assert_eq!(previous, tile);
                    }
                }
            }
        }
        check_index_agreement(&engine);
        assert!(collapsed >= 1, "tick {step} collapsed nothing");
    }
}

#[test]
fn local_consistency_after_generation() {
    // after many ticks, every uncollapsed cell respects every collapsed
    // neighbor's rule row
    let rules = ODYRules::default();
    let settings = GenerationSettings {
        cell_edge_length: 9,
        total_cells_on_edge: 5,
        spawn_distance: 700,
    };
    let mut engine = WfcEngine::new();
    for step in 1..=30u64 {
        let observer = WorldPosition { x: 0, y: 0, z: 0 };
        tick(
            &mut engine,
            &rules,
            &settings,
            observer,
            step * 200,
            TileType::Ground,
        );
    }
    let directions = [Direction::Front, Direction::Back, Direction::Right, Direction::Left];
    for slot in engine.cells.iter() {
        let Some(cell) = slot else { continue };
        let Some(tile) = cell.tile_type else { continue };
        for d in directions {
            let (dx, dz) = d.delta();
            let npos = (cell.position.0 + dx, cell.position.1 + dz);
            let Some(neighbor) = engine.cell_at(npos) else { continue };
            if neighbor.is_collapsed {
                continue;
            }
            let Some(allowed) = engine_row(&rules, tile, d) else { continue };
            for candidate in neighbor.valid_tiles.iter() {
                assert!(
                    allowed.contains(candidate),
                    "{candidate:?} beside {tile:?} toward {d:?}"
                );
            }
        }
    }
}

fn engine_row(rules: &ODYRules, tile: TileType, d: Direction) -> Option<Vec<TileType>> {
    rules.allowed_neighbors.get(tile, d).cloned()
}
