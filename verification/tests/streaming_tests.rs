use wfc_grid::catalogs::ODYRules;
use wfc_grid::engine::WfcEngine;
use wfc_grid::streaming::create_cells;
use wfc_grid::streaming::destroy_cells;
use wfc_grid::streaming::is_beyond_despawn;
use wfc_grid::streaming::world_to_grid;
use wfc_grid::streaming::GenerationSettings;
use wfc_grid::streaming::WorldPosition;

fn at(x_milli: i64, z_milli: i64) -> WorldPosition {
    WorldPosition { x: x_milli, y: 0, z: z_milli }
}

#[test]
fn world_coordinates_round_to_the_nearest_grid_line() {
    assert_eq!(world_to_grid(0, 9), 0);
    assert_eq!(world_to_grid(4499, 9), 0);
    assert_eq!(world_to_grid(4500, 9), 1);
    assert_eq!(world_to_grid(13500, 9), 2);
    assert_eq!(world_to_grid(-4499, 9), 0);
    assert_eq!(world_to_grid(-4500, 9), -1);
    assert_eq!(world_to_grid(-13500, 9), -2);
}

#[test]
fn despawn_comparison_is_strict() {
    let settings = GenerationSettings {
        cell_edge_length: 1,
        total_cells_on_edge: 10,
        spawn_distance: 1000,
    };
    // the despawn distance is exactly ten world units
    assert!(!is_beyond_despawn(at(0, 0), (10, 0), &settings));
    assert!(is_beyond_despawn(at(0, 0), (11, 0), &settings));
    // height counts toward the distance
    let high = WorldPosition { x: 0, y: 20000, z: 0 };
    assert!(is_beyond_despawn(high, (0, 0), &settings));
}

#[test]
fn creation_is_throttled() {
    let rules = ODYRules::default();
    let settings = GenerationSettings {
        cell_edge_length: 9,
        total_cells_on_edge: 3,
        spawn_distance: 700,
    };
    let mut engine = WfcEngine::new();
    let added = create_cells(&mut engine, at(0, 0), 100, &rules, &settings);
    assert_eq!(added.len(), 0);
    assert_eq!(engine.spatial_index.len(), 0);
    let added = create_cells(&mut engine, at(0, 0), 250, &rules, &settings);
    assert_eq!(added.len(), 9);
    // immediately afterwards the interval has not yet elapsed again
    let added = create_cells(&mut engine, at(0, 0), 300, &rules, &settings);
    assert_eq!(added.len(), 0);
}

#[test]
fn observer_movement_streams_the_grid() {
    // radius one around the origin: exactly a 3x3 block of cells
    let rules = ODYRules::default();
    let settings = GenerationSettings {
        cell_edge_length: 9,
        total_cells_on_edge: 3,
        spawn_distance: 500,
    };
    let mut engine = WfcEngine::new();
    let added = create_cells(&mut engine, at(0, 0), 1000, &rules, &settings);
    assert_eq!(added.len(), 9);
    assert_eq!(engine.spatial_index.len(), 9);
    for x in -1..=1 {
        for z in -1..=1 {
            assert!(engine.cell_at((x, z)).is_some(), "missing cell at {x},{z}");
        }
    }
    destroy_cells(&mut engine, at(0, 0), 1000, &settings);
    // nothing lies beyond the despawn distance of 13.5 units yet
    assert_eq!(engine.spatial_index.len(), 9);

    // moving one cell edge east adds the new fringe column and drops the
    // trailing one
    let moved = at(9000, 0);
    let added = create_cells(&mut engine, moved, 2000, &rules, &settings);
    assert_eq!(added.len(), 3);
    for z in -1..=1 {
        assert!(engine.cell_at((2, z)).is_some(), "missing fringe at 2,{z}");
    }
    destroy_cells(&mut engine, moved, 2000, &settings);
    for z in -1..=1 {
        assert!(engine.cell_at((-1, z)).is_none(), "trailing cell -1,{z} kept");
    }
    assert_eq!(engine.spatial_index.len(), 9);
}

#[test]
fn default_settings_are_balanced() {
    let settings = GenerationSettings::default();
    assert_eq!(settings.cell_edge_length, 9);
    assert_eq!(settings.total_cells_on_edge, 17);
    assert_eq!(settings.spawn_distance, 700);
}
