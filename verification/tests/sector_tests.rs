use wfc::cell::WaveFunctionCell;
use wfc::error::WaveFunctionError;
use wfc::field::WaveFunctionField;
use wfc::sector::WaveFunctionSector;
use wfc::tile::WaveFunctionTileHandle;
use wfc::tileset::{Rule, TileData, TilesetData, WaveFunctionTileset, Weight};

fn tile(id: &str, edges: [&str; 4], can_rotate: bool) -> TileData {
    TileData {
        id: id.to_string(),
        texture_id: format!("{}.png", id),
        edge_ids: edges.iter().map(|e| e.to_string()).collect(),
        can_rotate,
    }
}

fn catalog(tiles: Vec<TileData>, rules: &[(&str, &str)], weights: &[(&str, u64)]) -> WaveFunctionTileset {
    let data = TilesetData {
        tiles,
        rules: rules.iter().map(|(a, b)| Rule(a.to_string(), b.to_string())).collect(),
        weights: weights.iter().map(|(id, w)| Weight(id.to_string(), *w)).collect(),
    };
    WaveFunctionTileset::new(data).unwrap()
}

fn grass_and_water() -> WaveFunctionTileset {
    catalog(
        vec![tile("grass", ["G", "G", "G", "G"], false), tile("water", ["W", "W", "W", "W"], false)],
        &[],
        &[("grass", 1), ("water", 1)],
    )
}

fn tiles_of(sector: &WaveFunctionSector) -> Vec<Option<usize>> {
    let mut tiles = Vec::new();
    for y in 0..sector.get_height() {
        for x in 0..sector.get_width() {
            tiles.push(sector.get_cell(x, y).unwrap().get_tile_data().map(|t| t.0));
        }
    }
    tiles
}

#[test]
fn a_new_sector_is_in_full_superposition() {
    let set = grass_and_water();
    let sector = WaveFunctionSector::new(&set, 3, 2);
    assert_eq!(sector.get_width(), 3);
    assert_eq!(sector.get_height(), 2);
    assert_eq!(sector.cell_count(), 6);
    for y in 0..2 {
        for x in 0..3 {
            assert_eq!(sector.get_cell(x, y).unwrap().get_entropy(), 2);
        }
    }
    assert!(sector.get_cell(3, 0).is_none());
    assert!(sector.get_cell(0, 2).is_none());
    assert!(sector.render_data(&set).is_empty());
}

#[test]
fn neighbors_follow_the_rows() {
    let set = grass_and_water();
    let sector = WaveFunctionSector::new(&set, 3, 2);
    // 0 1 2
    // 3 4 5
    assert_eq!(sector.neighbor_index(0, 0), None);
    assert_eq!(sector.neighbor_index(0, 1), Some(1));
    assert_eq!(sector.neighbor_index(0, 2), Some(3));
    assert_eq!(sector.neighbor_index(0, 3), None);
    assert_eq!(sector.neighbor_index(2, 1), None);
    assert_eq!(sector.neighbor_index(2, 3), Some(1));
    assert_eq!(sector.neighbor_index(3, 3), None);
    assert_eq!(sector.neighbor_index(4, 0), Some(1));
    assert_eq!(sector.neighbor_index(4, 1), Some(5));
    assert_eq!(sector.neighbor_index(4, 2), None);
    assert_eq!(sector.neighbor_index(4, 3), Some(3));
    assert_eq!(sector.neighbor_index(5, 1), None);
}

#[test]
fn without_rules_every_cell_is_decided() {
    let set = grass_and_water();
    for seed in 0..20u64 {
        macroquad::rand::srand(seed);
        let mut sector = WaveFunctionSector::new(&set, 16, 16);
        assert_eq!(sector.collapse(&set), Ok(()));
        for y in 0..16 {
            for x in 0..16 {
                assert_eq!(sector.get_cell(x, y).unwrap().get_entropy(), 1);
            }
        }
        assert_eq!(sector.render_data(&set).len(), 256);
    }
}

#[test]
fn without_rules_both_tiles_are_drawn() {
    let set = grass_and_water();
    macroquad::rand::srand(5);
    let mut sector = WaveFunctionSector::new(&set, 16, 16);
    assert_eq!(sector.collapse(&set), Ok(()));
    let tiles = tiles_of(&sector);
    assert!(tiles.contains(&Some(0)));
    assert!(tiles.contains(&Some(1)));
}

#[test]
fn a_solve_is_reproduced_by_its_seed() {
    let set = grass_and_water();
    macroquad::rand::srand(77);
    let mut first = WaveFunctionSector::new(&set, 8, 8);
    assert_eq!(first.collapse(&set), Ok(()));
    macroquad::rand::srand(77);
    let mut second = WaveFunctionSector::new(&set, 8, 8);
    assert_eq!(second.collapse(&set), Ok(()));
    assert_eq!(tiles_of(&first), tiles_of(&second));
}

#[test]
fn like_only_rules_fill_the_sector_with_one_tile() {
    let set = catalog(
        vec![tile("grass", ["G", "G", "G", "G"], false), tile("water", ["W", "W", "W", "W"], false)],
        &[("G", "G"), ("W", "W")],
        &[("grass", 1), ("water", 1)],
    );
    for seed in 0..10u64 {
        macroquad::rand::srand(seed);
        let mut sector = WaveFunctionSector::new(&set, 5, 4);
        assert_eq!(sector.collapse(&set), Ok(()));
        let tiles = tiles_of(&sector);
        let first = tiles[0];
        assert!(first == Some(0) || first == Some(1));
        assert!(tiles.iter().all(|t| *t == first));
    }
}

#[test]
fn unlike_only_rules_give_a_chequerboard() {
    let set = catalog(
        vec![tile("black", ["B", "B", "B", "B"], false), tile("white", ["W", "W", "W", "W"], false)],
        &[("B", "W")],
        &[("black", 1), ("white", 1)],
    );
    macroquad::rand::srand(3);
    let mut sector = WaveFunctionSector::new(&set, 4, 4);
    assert_eq!(sector.collapse(&set), Ok(()));
    let tiles = tiles_of(&sector);
    let corner = tiles[0].unwrap();
    for y in 0..4usize {
        for x in 0..4usize {
            let expected = if (x + y) % 2 == 0 { corner } else { 1 - corner };
            assert_eq!(tiles[y * 4 + x], Some(expected));
        }
    }
}

#[test]
fn solved_neighbors_obey_the_rules() {
    // a pipe that runs left to right, and ground; pipe ends meet pipe ends
    let set = catalog(
        vec![
            tile("ground", ["g", "g", "g", "g"], false),
            tile("pipe", ["g", "p", "g", "p"], true),
        ],
        &[("g", "g"), ("p", "p")],
        &[("ground", 2), ("pipe", 1)],
    );
    for seed in 0..10u64 {
        macroquad::rand::srand(seed);
        let mut sector = WaveFunctionSector::new(&set, 6, 6);
        if sector.collapse(&set).is_err() {
            continue;
        }
        for y in 0..6usize {
            for x in 0..6usize {
                let here = sector.get_cell(x, y).unwrap().get_tile_data().unwrap();
                let here = set.get_tile(&here).unwrap();
                if x + 1 < 6 {
                    let right = sector.get_cell(x + 1, y).unwrap().get_tile_data().unwrap();
                    let right = set.get_tile(&right).unwrap();
                    assert_eq!(here.edge_ids[1], right.edge_ids[3]);
                }
                if y + 1 < 6 {
                    let below = sector.get_cell(x, y + 1).unwrap().get_tile_data().unwrap();
                    let below = set.get_tile(&below).unwrap();
                    assert_eq!(here.edge_ids[2], below.edge_ids[0]);
                }
            }
        }
    }
}

#[test]
fn rules_that_cannot_be_met_are_a_contradiction() {
    // t may only touch u, and u is shown by one tile on its top alone
    let set = catalog(
        vec![tile("t", ["t", "t", "t", "t"], false), tile("u", ["u", "v", "v", "v"], false)],
        &[("t", "u")],
        &[("t", 1), ("u", 1)],
    );
    let mut sector = WaveFunctionSector::new(&set, 2, 2);
    assert_eq!(sector.collapse(&set), Err(WaveFunctionError::Contradiction));
    let mut empty = 0;
    for y in 0..2 {
        for x in 0..2 {
            let entropy = sector.get_cell(x, y).unwrap().get_entropy();
            assert!(entropy <= 2);
            if entropy == 0 {
                empty += 1;
            }
        }
    }
    assert!(empty >= 1);
}

#[test]
fn a_sector_without_weights_is_a_contradiction() {
    let set = catalog(
        vec![tile("grass", ["G", "G", "G", "G"], false), tile("water", ["W", "W", "W", "W"], false)],
        &[],
        &[],
    );
    let mut sector = WaveFunctionSector::new(&set, 2, 2);
    assert_eq!(sector.collapse(&set), Err(WaveFunctionError::Contradiction));
    assert_eq!(sector.get_cell(0, 0).unwrap().get_entropy(), 2);
}

#[test]
fn a_sector_without_cells_is_solved() {
    let set = grass_and_water();
    let mut sector = WaveFunctionSector::new(&set, 0, 5);
    assert_eq!(sector.cell_count(), 0);
    assert_eq!(sector.collapse(&set), Ok(()));
}

#[test]
fn the_lowest_entropy_cell_is_the_first_of_the_fewest() {
    let set = catalog(
        vec![tile("a", ["a", "a", "a", "a"], false), tile("b", ["b", "b", "b", "b"], false)],
        &[],
        &[("a", 1), ("b", 1)],
    );
    let sector = WaveFunctionSector::new(&set, 2, 2);
    assert_eq!(sector.lowest_entropy_cell(), Some(0));
    assert_eq!(sector.find_contradiction(), None);
}

#[test]
fn render_data_lists_decided_cells_row_after_row() {
    let set = catalog(
        vec![tile("only", ["e", "e", "e", "e"], false)],
        &[("e", "e")],
        &[("only", 1)],
    );
    let mut sector = WaveFunctionSector::new(&set, 3, 2);
    assert_eq!(sector.collapse(&set), Ok(()));
    let data = sector.render_data(&set);
    assert_eq!(data.len(), 6);
    for (i, record) in data.iter().enumerate() {
        assert_eq!(record.column, i % 3);
        assert_eq!(record.row, i / 3);
        assert_eq!(record.texture_id, "only.png");
        assert_eq!(record.rotation, 0);
    }
}

#[test]
fn a_field_makes_sectors_of_16_by_16() {
    let mut field = WaveFunctionField::new(grass_and_water());
    assert!(field.get_sector(0, 0).is_none());
    assert_eq!(field.add_sector(0, 0), Ok(()));
    assert_eq!(field.add_sector(-3, 7), Ok(()));
    let sector = field.get_sector(0, 0).unwrap();
    assert_eq!(sector.get_width(), 16);
    assert_eq!(sector.get_height(), 16);
    assert_eq!(sector.get_cell(15, 15).unwrap().get_entropy(), 2);
    assert!(field.get_sector(-3, 7).is_some());
    assert!(field.get_sector(7, -3).is_none());
    assert_eq!(field.get_tileset().tile_count(), 2);
}

#[test]
fn adding_a_sector_twice_is_refused() {
    let mut field = WaveFunctionField::new(grass_and_water());
    assert_eq!(field.add_sector(2, -2), Ok(()));
    macroquad::rand::srand(1);
    assert_eq!(field.collapse_sector(2, -2), Ok(()));
    assert_eq!(field.add_sector(2, -2), Err(WaveFunctionError::OccupiedSector));
    // the solved sector is still there
    assert_eq!(field.get_sector(2, -2).unwrap().get_cell(0, 0).unwrap().get_entropy(), 1);
}

#[test]
fn collapsing_a_missing_sector_does_nothing() {
    let mut field = WaveFunctionField::new(grass_and_water());
    assert_eq!(field.add_sector(0, 0), Ok(()));
    assert_eq!(field.collapse_sector(1, 0), Ok(()));
    assert!(field.get_sector(1, 0).is_none());
    assert_eq!(field.get_sector(0, 0).unwrap().get_cell(0, 0).unwrap().get_entropy(), 2);
    assert!(field.get_cell_render_data(1, 0).is_empty());
    assert!(field.get_cell_render_data(0, 0).is_empty());
}

#[test]
fn collapsing_one_sector_leaves_the_others() {
    let mut field = WaveFunctionField::new(grass_and_water());
    assert_eq!(field.add_sector(0, 0), Ok(()));
    assert_eq!(field.add_sector(-1, 0), Ok(()));
    macroquad::rand::srand(9);
    assert_eq!(field.collapse_sector(-1, 0), Ok(()));
    assert_eq!(field.get_cell_render_data(-1, 0).len(), 256);
    assert!(field.get_cell_render_data(0, 0).is_empty());
    let data = field.get_cell_render_data(-1, 0);
    assert_eq!(data[17].column, 1);
    assert_eq!(data[17].row, 1);
    assert!(data[17].texture_id == "grass.png" || data[17].texture_id == "water.png");
    let tile = field.get_sector(-1, 0).unwrap().get_cell(1, 1).unwrap().get_tile_data().unwrap();
    assert!(tile == WaveFunctionTileHandle(0) || tile == WaveFunctionTileHandle(1));
}

#[test]
fn a_reset_sector_can_be_solved_anew() {
    let mut field = WaveFunctionField::new(grass_and_water());
    assert!(!field.reset_sector(0, 0));
    assert!(field.get_sector(0, 0).is_none());
    assert_eq!(field.add_sector(0, 0), Ok(()));
    macroquad::rand::srand(4);
    assert_eq!(field.collapse_sector(0, 0), Ok(()));
    assert_eq!(field.get_sector(0, 0).unwrap().get_cell(3, 3).unwrap().get_entropy(), 1);
    assert!(field.reset_sector(0, 0));
    assert_eq!(field.get_sector(0, 0).unwrap().get_cell(3, 3).unwrap().get_entropy(), 2);
    assert_eq!(field.collapse_sector(0, 0), Ok(()));
    assert_eq!(field.get_cell_render_data(0, 0).len(), 256);
}

fn chequers() -> WaveFunctionTileset {
    catalog(
        vec![tile("black", ["B", "B", "B", "B"], false), tile("white", ["W", "W", "W", "W"], false)],
        &[("B", "W")],
        &[],
    )
}

#[test]
fn propagation_carries_a_decided_cell_through_the_grid() {
    let set = chequers();
    let mut sector = WaveFunctionSector::new(&set, 3, 3);
    assert_eq!(sector.propagate(&set), Ok(()));
    assert_eq!(sector.lowest_entropy_cell(), Some(0));
    assert!(sector.set_cell(1, 1, WaveFunctionCell::new_collapsed(WaveFunctionTileHandle(1))));
    assert!(!sector.set_cell(3, 0, WaveFunctionCell::new_collapsed(WaveFunctionTileHandle(1))));
    assert_eq!(sector.propagate(&set), Ok(()));
    assert_eq!(
        tiles_of(&sector),
        vec![Some(1), Some(0), Some(1), Some(0), Some(1), Some(0), Some(1), Some(0), Some(1)]
    );
    assert_eq!(sector.lowest_entropy_cell(), None);
}

#[test]
fn a_grid_that_propagation_decides_is_solved_without_a_draw() {
    // no tile has a weight: a draw would be a contradiction
    let set = chequers();
    let mut sector = WaveFunctionSector::new(&set, 4, 2);
    assert!(sector.set_cell(0, 0, WaveFunctionCell::new_collapsed(WaveFunctionTileHandle(0))));
    assert_eq!(sector.collapse(&set), Ok(()));
    assert_eq!(
        tiles_of(&sector),
        vec![Some(0), Some(1), Some(0), Some(1), Some(1), Some(0), Some(1), Some(0)]
    );
}

#[test]
fn propagation_finds_cells_that_cannot_stand_together() {
    let set = chequers();
    let mut sector = WaveFunctionSector::new(&set, 2, 1);
    assert!(sector.set_cell(0, 0, WaveFunctionCell::new_collapsed(WaveFunctionTileHandle(0))));
    assert!(sector.set_cell(1, 0, WaveFunctionCell::new_collapsed(WaveFunctionTileHandle(0))));
    assert_eq!(sector.propagate(&set), Err(WaveFunctionError::Contradiction));
    assert_eq!(sector.find_contradiction(), Some(1));
    let mut sector = WaveFunctionSector::new(&set, 2, 1);
    assert!(sector.set_cell(0, 0, WaveFunctionCell::new_collapsed(WaveFunctionTileHandle(0))));
    assert!(sector.set_cell(1, 0, WaveFunctionCell::new_collapsed(WaveFunctionTileHandle(0))));
    assert_eq!(sector.collapse(&set), Err(WaveFunctionError::Contradiction));
}

#[test]
fn propagation_drops_a_tile_that_names_no_variant() {
    let set = grass_and_water();
    let mut sector = WaveFunctionSector::new(&set, 2, 1);
    assert!(sector.set_cell(0, 0, WaveFunctionCell::new_collapsed(WaveFunctionTileHandle(9))));
    assert_eq!(sector.propagate(&set), Err(WaveFunctionError::Contradiction));
}

#[test]
fn propagation_leaves_a_settled_grid_as_it_is() {
    let set = grass_and_water();
    let mut sector = WaveFunctionSector::new(&set, 3, 3);
    assert!(sector.set_cell(2, 2, WaveFunctionCell::new_collapsed(WaveFunctionTileHandle(1))));
    assert_eq!(sector.propagate(&set), Ok(()));
    for y in 0..3 {
        for x in 0..3 {
            let expected = if x == 2 && y == 2 { 1 } else { 2 };
            assert_eq!(sector.get_cell(x, y).unwrap().get_entropy(), expected);
        }
    }
}
