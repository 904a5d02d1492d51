use wfc_grid::cell::Cell;
use wfc_grid::engine::PropagationQueue;
use wfc_grid::engine::WfcEngine;
use wfc_grid::spatial::CellSpatialIndex;
use wfc_grid::spatial::pos_key;
use wfc_grid::tiles::all_directions;
use wfc_grid::tiles::clone_tiles;
use wfc_grid::tiles::Direction;
use wfc_grid::tiles::TileType;
use wfc_grid::tiles::NUM_DIRECTIONS;
use wfc_grid::tiles::NUM_TILE_TYPES;

#[test]
fn new_cells_start_with_every_candidate() {
    let tiles = [TileType::Ground, TileType::Tree, TileType::Chest];
    let cell = Cell::new(&tiles, (3, -4));
    assert!(!cell.is_collapsed);
    assert_eq!(cell.tile_type, None);
    assert_eq!(cell.entropy, 3);
    assert_eq!(cell.valid_tiles, tiles.to_vec());
    assert_eq!(cell.position, (3, -4));
}

#[test]
fn entropy_tracks_the_candidates() {
    let tiles = [TileType::Ground, TileType::Tree];
    let mut cell = Cell::new(&tiles, (0, 0));
    cell.valid_tiles.pop();
    cell.update_entropy();
    assert_eq!(cell.entropy, 1);
    assert!(!cell.is_contradicted());
    assert!(!cell.is_contradiction());
    cell.valid_tiles.pop();
    cell.update_entropy();
    assert_eq!(cell.entropy, 0);
    assert!(cell.is_contradicted());
    assert!(cell.is_contradiction());
    // a collapsed cell keeps its entropy of zero and is no contradiction
    cell.is_collapsed = true;
    cell.tile_type = Some(TileType::Ground);
    cell.update_entropy();
    assert_eq!(cell.entropy, 0);
    assert!(!cell.is_contradiction());
}

#[test]
fn tile_and_direction_indexes_are_distinct() {
    let tiles = [
        TileType::Ground,
        TileType::Tree,
        TileType::Chest,
        TileType::FountainCenter,
        TileType::FountainCorner1,
        TileType::FountainCorner2,
        TileType::FountainCorner3,
        TileType::FountainCorner4,
        TileType::FountainEdge1,
        TileType::FountainEdge2,
        TileType::FountainEdge3,
        TileType::FountainEdge4,
    ];
    assert_eq!(tiles.len(), NUM_TILE_TYPES);
    let mut seen = vec![false; NUM_TILE_TYPES];
    for t in tiles {
        let i = t.index();
        assert!(!seen[i], "duplicate tile index {i}");
        seen[i] = true;
    }
    let directions = all_directions();
    assert_eq!(directions.len(), NUM_DIRECTIONS);
    assert_eq!(directions[0], Direction::Front);
    assert_eq!(Direction::Front.delta(), (0, 1));
    assert_eq!(Direction::Back.delta(), (0, -1));
    assert_eq!(Direction::Right.delta(), (1, 0));
    assert_eq!(Direction::Left.delta(), (-1, 0));
}

#[test]
fn cloning_tiles_copies_the_list() {
    let tiles = vec![TileType::Chest, TileType::Tree];
    let copy = clone_tiles(&tiles);
    assert_eq!(copy, tiles);
}

#[test]
fn spatial_index_maps_coordinates_to_handles() {
    let mut index = CellSpatialIndex::new();
    assert_eq!(index.len(), 0);
    assert_eq!(index.get_pos((5, -7)), None);
    index.insert_pos((5, -7), 11);
    index.insert_pos((-5, 7), 12);
    assert_eq!(index.len(), 2);
    assert_eq!(index.get_pos((5, -7)), Some(11));
    assert_eq!(index.get_pos((-5, 7)), Some(12));
    assert!(index.contains_pos((5, -7)));
    // mirrored coordinates pack to different keys
    assert_ne!(pos_key((5, -7)), pos_key((-7, 5)));
    index.remove_pos((5, -7));
    assert_eq!(index.get_pos((5, -7)), None);
    assert_eq!(index.len(), 1);
}

#[test]
fn queue_is_first_in_first_out() {
    let mut queue = PropagationQueue::new();
    assert!(queue.is_empty());
    queue.push_back(4);
    queue.push_back(9);
    assert_eq!(queue.len(), 2);
    assert_eq!(queue.pop_front(), Some(4));
    assert_eq!(queue.pop_front(), Some(9));
    assert_eq!(queue.pop_front(), None);
}

#[test]
fn engine_exposes_cells_by_handle_and_coordinate() {
    let tiles = [TileType::Ground];
    let mut engine = WfcEngine::new();
    assert!(engine.propagation_queue_empty());
    assert_eq!(engine.cell_slot_count(), 0);
    assert!(engine.get_cell(0).is_none());
    let h = engine.cells.len();
    engine.cells.push(Some(Cell::new(&tiles, (2, 2))));
    engine.spatial_index.insert_pos((2, 2), h);
    assert_eq!(engine.cell_slot_count(), 1);
    let by_handle = engine.get_cell(h).expect("handle resolves");
    assert_eq!(by_handle.position, (2, 2));
    let by_coordinate = engine.cell_at((2, 2)).expect("coordinate resolves");
    assert_eq!(by_coordinate.position, (2, 2));
    assert!(engine.cell_at((2, 3)).is_none());
}
