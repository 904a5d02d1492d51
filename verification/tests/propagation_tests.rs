use wfc_grid::catalogs::ODYRules;
use wfc_grid::cell::Cell;
use wfc_grid::collapse::collapse_lowest_entropy_cell;
use wfc_grid::engine::WfcEngine;
use wfc_grid::propagate::initialize_new_cells;
use wfc_grid::propagate::propagate_constraints;
use wfc_grid::rules::RuleTable;
use wfc_grid::rules::WeightTable;
use wfc_grid::streaming::create_cells;
use wfc_grid::streaming::GenerationSettings;
use wfc_grid::streaming::WorldPosition;
use wfc_grid::tiles::Direction;
use wfc_grid::tiles::TileType;
use wfc_grid::catalogs::OpenSpaceRules;

fn origin() -> WorldPosition {
    WorldPosition { x: 0, y: 0, z: 0 }
}

fn row_engine(all_tiles: &[TileType]) -> (WfcEngine, Vec<usize>) {
    // a 1x3 row of cells at z = 0
    let mut engine = WfcEngine::new();
    let mut handles = Vec::new();
    for x in -1i32..=1i32 {
        let h = engine.cells.len();
        engine.cells.push(Some(Cell::new(all_tiles, (x, 0))));
        engine.spatial_index.insert_pos((x, 0), h);
        handles.push(h);
    }
    (engine, handles)
}

fn snapshot(engine: &WfcEngine) -> Vec<(bool, Option<TileType>, i32, Vec<TileType>, (i32, i32))> {
    let mut cells = Vec::new();
    for slot in engine.cells.iter() {
        match slot {
            Some(c) => cells.push((
                c.is_collapsed,
                c.tile_type,
                c.entropy,
                c.valid_tiles.clone(),
                c.position,
            )),
            None => panic!("row engines hold no destroyed cells"),
        }
    }
    cells
}

#[test]
fn single_cell_world_collapses_to_ground() {
    // a 1x1 world whose catalog offers only ground collapses to it at once
    let rules = OpenSpaceRules {
        allowed_neighbors: RuleTable::new(),
        all_tiles: vec![TileType::Ground],
        weights: WeightTable::new(),
    };
    let settings = GenerationSettings {
        cell_edge_length: 9,
        total_cells_on_edge: 1,
        spawn_distance: 700,
    };
    let mut engine = WfcEngine::new();
    let added = create_cells(&mut engine, origin(), 200, &rules, &settings);
    assert_eq!(added.len(), 1);
    initialize_new_cells(&mut engine, &added, &rules);
    propagate_constraints(&mut engine, &rules, TileType::Ground);
    collapse_lowest_entropy_cell(&mut engine, &rules);
    let cell = engine.cell_at((0, 0)).expect("the cell exists");
    assert!(cell.is_collapsed);
    assert_eq!(cell.tile_type, Some(TileType::Ground));
    assert_eq!(cell.entropy, 0);

    // with nothing left to collapse, another collapse call is a no-op
    collapse_lowest_entropy_cell(&mut engine, &rules);
    let cell = engine.cell_at((0, 0)).expect("the cell persists");
    assert_eq!(cell.tile_type, Some(TileType::Ground));
}

#[test]
fn propagation_narrows_the_middle_cell() {
    // left cell pre-collapsed to a tile that only allows trees to its right
    let mut table = RuleTable::new();
    table.set(TileType::Ground, Direction::Right, vec![TileType::Tree]);
    let rules = OpenSpaceRules {
        allowed_neighbors: table,
        all_tiles: vec![TileType::Ground, TileType::Tree, TileType::Chest],
        weights: WeightTable::new(),
    };
    let (mut engine, handles) = row_engine(&rules.all_tiles);
    engine.cells[handles[0]] = Some(Cell {
        is_collapsed: true,
        tile_type: Some(TileType::Ground),
        entropy: 0,
        valid_tiles: vec![TileType::Ground],
        position: (-1, 0),
    });
    engine.queue.push_back(handles[0]);
    propagate_constraints(&mut engine, &rules, TileType::Ground);

    let middle = engine.cell_at((0, 0)).expect("middle cell");
    assert_eq!(middle.valid_tiles, vec![TileType::Tree]);
    assert_eq!(middle.entropy, 1);
    assert!(!middle.is_collapsed);
    // the rule row constrains only the right side, so the right cell keeps
    // all its candidates
    let right = engine.cell_at((1, 0)).expect("right cell");
    assert_eq!(right.valid_tiles.len(), 3);
}

#[test]
fn repropagating_a_consistent_grid_changes_nothing() {
    let mut table = RuleTable::new();
    table.set(TileType::Ground, Direction::Right, vec![TileType::Tree]);
    let rules = OpenSpaceRules {
        allowed_neighbors: table,
        all_tiles: vec![TileType::Ground, TileType::Tree, TileType::Chest],
        weights: WeightTable::new(),
    };
    let (mut engine, handles) = row_engine(&rules.all_tiles);
    engine.cells[handles[0]] = Some(Cell {
        is_collapsed: true,
        tile_type: Some(TileType::Ground),
        entropy: 0,
        valid_tiles: vec![TileType::Ground],
        position: (-1, 0),
    });
    engine.queue.push_back(handles[0]);
    propagate_constraints(&mut engine, &rules, TileType::Ground);

    // re-running propagation on a queue of already-consistent cells is a
    // no-op
    let before = snapshot(&engine);
    for h in &handles {
        engine.queue.push_back(*h);
    }
    propagate_constraints(&mut engine, &rules, TileType::Ground);
    let after = snapshot(&engine);
    assert_eq!(before, after);
    assert_eq!(engine.queue.len(), 0);
}

#[test]
fn contradiction_is_forced_to_the_fallback_tile() {
    // manually emptying a cell's candidates makes propagation collapse it
    // to the designated fallback, and its neighbors re-narrow accordingly
    let rules = ODYRules::default();
    let settings = GenerationSettings {
        cell_edge_length: 9,
        total_cells_on_edge: 3,
        spawn_distance: 700,
    };
    let mut engine = WfcEngine::new();
    let added = create_cells(&mut engine, origin(), 200, &rules, &settings);
    assert_eq!(added.len(), 9);
    let center = engine
        .spatial_index
        .get_pos((0, 0))
        .expect("center cell indexed");
    engine.cells[center] = Some(Cell {
        is_collapsed: false,
        tile_type: None,
        entropy: 0,
        valid_tiles: vec![],
        position: (0, 0),
    });
    engine.queue.push_back(center);
    propagate_constraints(&mut engine, &rules, TileType::Chest);

    let cell = engine.cell_at((0, 0)).expect("center cell");
    assert!(cell.is_collapsed);
    assert_eq!(cell.tile_type, Some(TileType::Chest));
    assert_eq!(cell.entropy, 0);
    // chests only accept ground beside them in this catalog
    let east = engine.cell_at((1, 0)).expect("east neighbor");
    assert_eq!(east.valid_tiles, vec![TileType::Ground]);
    let north = engine.cell_at((0, 1)).expect("north neighbor");
    assert_eq!(north.valid_tiles, vec![TileType::Ground]);
    // a diagonal cell is no neighbor and keeps all candidates
    let diagonal = engine.cell_at((1, 1)).expect("diagonal cell");
    assert_eq!(diagonal.valid_tiles.len(), 3);
}

#[test]
fn initialization_enqueues_exactly_cells_with_collapsed_neighbors() {
    let rules = ODYRules::default();
    let (mut engine, handles) = row_engine(&rules.all_tiles);
    // the left cell is a pre-existing collapsed cell
    engine.cells[handles[0]] = Some(Cell {
        is_collapsed: true,
        tile_type: Some(TileType::Ground),
        entropy: 0,
        valid_tiles: vec![TileType::Ground],
        position: (-1, 0),
    });
    // the middle and right cells count as newly created: only the middle
    // one touches a collapsed cell, so exactly it is enqueued, once
    let added = vec![handles[1], handles[2]];
    initialize_new_cells(&mut engine, &added, &rules);
    assert_eq!(engine.queue.len(), 1);
    assert_eq!(engine.queue.pop_front(), Some(handles[1]));
}

#[test]
fn fountain_center_demands_its_ring() {
    // a collapsed fountain center narrows each side to the matching edge
    // piece or more center
    let rules = OpenSpaceRules::default();
    let settings = GenerationSettings {
        cell_edge_length: 9,
        total_cells_on_edge: 3,
        spawn_distance: 700,
    };
    let mut engine = WfcEngine::new();
    let added = create_cells(&mut engine, origin(), 200, &rules, &settings);
    assert_eq!(added.len(), 9);
    let center = engine
        .spatial_index
        .get_pos((0, 0))
        .expect("center cell indexed");
    engine.cells[center] = Some(Cell {
        is_collapsed: true,
        tile_type: Some(TileType::FountainCenter),
        entropy: 0,
        valid_tiles: vec![TileType::FountainCenter],
        position: (0, 0),
    });
    engine.queue.push_back(center);
    propagate_constraints(&mut engine, &rules, TileType::Ground);

    // candidate order follows the catalog's tile order
    let front = engine.cell_at((0, 1)).expect("front neighbor");
    assert_eq!(
        front.valid_tiles,
        vec![TileType::FountainCenter, TileType::FountainEdge1]
    );
    let back = engine.cell_at((0, -1)).expect("back neighbor");
    assert_eq!(
        back.valid_tiles,
        vec![TileType::FountainCenter, TileType::FountainEdge4]
    );
    let right = engine.cell_at((1, 0)).expect("right neighbor");
    assert_eq!(
        right.valid_tiles,
        vec![TileType::FountainCenter, TileType::FountainEdge2]
    );
    let left = engine.cell_at((-1, 0)).expect("left neighbor");
    assert_eq!(
        left.valid_tiles,
        vec![TileType::FountainCenter, TileType::FountainEdge3]
    );
}

#[test]
fn missing_neighbors_put_no_constraint() {
    // a collapsed cell at the fringe simply skips coordinates with no cell
    let rules = ODYRules::default();
    let (mut engine, handles) = row_engine(&rules.all_tiles);
    engine.cells[handles[2]] = Some(Cell {
        is_collapsed: true,
        tile_type: Some(TileType::Tree),
        entropy: 0,
        valid_tiles: vec![TileType::Tree],
        position: (1, 0),
    });
    engine.queue.push_back(handles[2]);
    propagate_constraints(&mut engine, &rules, TileType::Ground);
    // trees accept ground and trees beside them
    let middle = engine.cell_at((0, 0)).expect("middle cell");
    assert_eq!(middle.valid_tiles, vec![TileType::Ground, TileType::Tree]);
    assert_eq!(middle.entropy, 2);
}
