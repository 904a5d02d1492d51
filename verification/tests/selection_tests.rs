use wfc_grid::catalogs::ODYRules;
use wfc_grid::catalogs::OpenSpaceRules;
use wfc_grid::collapse::get_random_tile;
use wfc_grid::collapse::pick_weighted;
use wfc_grid::collapse::total_weight_of;
use wfc_grid::rules::RuleTable;
use wfc_grid::rules::WeightTable;
use wfc_grid::rules::WEIGHT_ONE;
use wfc_grid::tiles::TileType;

fn two_tile_catalog() -> OpenSpaceRules {
    let mut weights = WeightTable::new();
    weights.set(TileType::Ground, 30000);
    weights.set(TileType::Tree, 10000);
    OpenSpaceRules {
        allowed_neighbors: RuleTable::new(),
        all_tiles: vec![TileType::Ground, TileType::Tree],
        weights,
    }
}

#[test]
fn total_weight_sums_the_catalog() {
    let rules = ODYRules::default();
    let total = total_weight_of(&rules.weights, &rules.all_tiles);
    assert_eq!(total, 80000 + 20000 + 1000);
}

#[test]
fn absent_tiles_weigh_one() {
    let weights = WeightTable::new();
    assert_eq!(weights.weight_of(TileType::Tree), WEIGHT_ONE);
}

#[test]
fn pick_weighted_resolves_brackets_exactly() {
    let catalog = two_tile_catalog();
    let tiles = vec![TileType::Ground, TileType::Tree];
    assert_eq!(pick_weighted(&catalog.weights, &tiles, 0), TileType::Ground);
    assert_eq!(pick_weighted(&catalog.weights, &tiles, 29999), TileType::Ground);
    assert_eq!(pick_weighted(&catalog.weights, &tiles, 30000), TileType::Tree);
    assert_eq!(pick_weighted(&catalog.weights, &tiles, 39999), TileType::Tree);
}

#[test]
fn draw_from_empty_list_falls_back_to_ground() {
    let catalog = two_tile_catalog();
    let tiles: Vec<TileType> = Vec::new();
    assert_eq!(get_random_tile(&catalog, &tiles), TileType::Ground);
}

#[test]
fn draw_from_singleton_is_deterministic() {
    let catalog = two_tile_catalog();
    let tiles = vec![TileType::Tree];
    for _ in 0..32 {
        assert_eq!(get_random_tile(&catalog, &tiles), TileType::Tree);
    }
}

#[test]
fn weighted_selection_bias_converges() {
    // two tiles with weights 3:1 should be drawn in roughly that ratio
    let catalog = two_tile_catalog();
    let tiles = vec![TileType::Ground, TileType::Tree];
    let draws = 4000;
    let mut ground = 0;
    for _ in 0..draws {
        if get_random_tile(&catalog, &tiles) == TileType::Ground {
            ground += 1;
        }
    }
    // the expectation is 3000; this window is over ten standard deviations
    assert!(ground > 2700, "too few ground draws: {ground}");
    assert!(ground < 3300, "too many ground draws: {ground}");
}
