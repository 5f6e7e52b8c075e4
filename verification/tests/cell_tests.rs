use wfc::cell::WaveFunctionCell;
use wfc::error::WaveFunctionError;
use wfc::tile::WaveFunctionTileHandle;
use wfc::tileset::{Rule, TileData, TilesetData, WaveFunctionTileset, Weight};

fn tile(id: &str, edges: [&str; 4], can_rotate: bool) -> TileData {
    TileData {
        id: id.to_string(),
        texture_id: format!("{}.png", id),
        edge_ids: edges.iter().map(|e| e.to_string()).collect(),
        can_rotate,
    }
}

fn weighted(weights: &[(&str, u64)]) -> WaveFunctionTileset {
    let data = TilesetData {
        tiles: vec![
            tile("light", ["a", "a", "a", "a"], false),
            tile("heavy", ["b", "b", "b", "b"], false),
            tile("void", ["c", "c", "c", "c"], false),
        ],
        rules: vec![Rule("a".to_string(), "b".to_string())],
        weights: weights.iter().map(|(id, w)| Weight(id.to_string(), *w)).collect(),
    };
    WaveFunctionTileset::new(data).unwrap()
}

fn h(i: usize) -> WaveFunctionTileHandle {
    WaveFunctionTileHandle(i)
}

#[test]
fn a_new_cell_holds_every_variant() {
    let set = weighted(&[("light", 1), ("heavy", 3)]);
    let cell = WaveFunctionCell::new_empty(&set);
    assert_eq!(cell.get_entropy(), 3);
    assert_eq!(cell.get_tile_data(), None);
    assert!(cell.has_candidate(&h(0)));
    assert!(cell.has_candidate(&h(1)));
    assert!(cell.has_candidate(&h(2)));
    assert!(!cell.has_candidate(&h(3)));
}

#[test]
fn a_collapsed_cell_holds_its_tile() {
    let cell = WaveFunctionCell::new_collapsed(h(7));
    assert_eq!(cell.get_entropy(), 1);
    assert_eq!(cell.get_tile_data(), Some(h(7)));
}

#[test]
fn total_weight_adds_the_class_weights() {
    let set = weighted(&[("light", 1), ("heavy", 3)]);
    assert_eq!(WaveFunctionCell::new_empty(&set).total_weight(&set), 4);
    assert_eq!(WaveFunctionCell::new_collapsed(h(1)).total_weight(&set), 3);
    assert_eq!(WaveFunctionCell::new_collapsed(h(2)).total_weight(&set), 0);
    assert_eq!(WaveFunctionCell::new_collapsed(h(50)).total_weight(&set), 0);
}

#[test]
fn a_draw_falls_on_the_candidate_whose_weight_covers_it() {
    let set = weighted(&[("light", 1), ("heavy", 3)]);
    let expected = [(0u64, 0usize), (1, 1), (2, 1), (3, 1), (4, 0), (5, 1), (7, 1), (8, 0)];
    for (draw, tile) in expected.iter() {
        let mut cell = WaveFunctionCell::new_empty(&set);
        assert_eq!(cell.collapse_with(&set, *draw), Ok(()));
        assert_eq!(cell.get_entropy(), 1);
        assert_eq!(cell.get_tile_data(), Some(h(*tile)));
    }
}

#[test]
fn a_candidate_without_weight_is_never_taken() {
    let set = weighted(&[("heavy", 2)]);
    for draw in 0..20u64 {
        let mut cell = WaveFunctionCell::new_empty(&set);
        assert_eq!(cell.collapse_with(&set, draw), Ok(()));
        assert_eq!(cell.get_tile_data(), Some(h(1)));
    }
    macroquad::rand::srand(11);
    for _ in 0..200 {
        let mut cell = WaveFunctionCell::new_empty(&set);
        assert_eq!(cell.collapse(&set), Ok(()));
        assert_eq!(cell.get_tile_data(), Some(h(1)));
    }
}

#[test]
fn collapse_without_weights_is_a_contradiction() {
    let set = weighted(&[]);
    let mut cell = WaveFunctionCell::new_empty(&set);
    assert_eq!(cell.collapse(&set), Err(WaveFunctionError::Contradiction));
    assert_eq!(cell.get_entropy(), 3);
    let mut cell = WaveFunctionCell::new_empty(&set);
    assert_eq!(cell.collapse_with(&set, 5), Err(WaveFunctionError::Contradiction));
    assert_eq!(cell.get_entropy(), 3);
}

#[test]
fn an_emptied_cell_reports_entropy_zero_and_a_contradiction() {
    let set = weighted(&[("light", 1), ("heavy", 3)]);
    let mut cell = WaveFunctionCell::new_empty(&set);
    assert!(cell.restrict(&vec![]));
    assert_eq!(cell.get_entropy(), 0);
    assert_eq!(cell.get_tile_data(), None);
    assert_eq!(cell.collapse(&set), Err(WaveFunctionError::Contradiction));
    assert_eq!(cell.get_entropy(), 0);
}

#[test]
fn collapse_follows_the_weights() {
    let set = weighted(&[("light", 1), ("heavy", 3)]);
    macroquad::rand::srand(20240229);
    let mut heavy = 0u32;
    for _ in 0..10_000 {
        let mut cell = WaveFunctionCell::new_empty(&set);
        assert_eq!(cell.collapse(&set), Ok(()));
        match cell.get_tile_data() {
            Some(tile) if tile == h(1) => heavy += 1,
            Some(tile) => assert_eq!(tile, h(0)),
            None => panic!("collapse left the cell undecided"),
        }
    }
    assert!(heavy > 7_200 && heavy < 7_800, "heavy was drawn {} times", heavy);
}

#[test]
fn restrict_keeps_the_allowed_candidates_in_order() {
    let set = weighted(&[("light", 1)]);
    let mut cell = WaveFunctionCell::new_empty(&set);
    assert!(cell.restrict(&vec![h(2), h(9), h(0)]));
    assert_eq!(cell.get_entropy(), 2);
    assert!(cell.has_candidate(&h(0)));
    assert!(!cell.has_candidate(&h(1)));
    assert!(cell.has_candidate(&h(2)));
    assert!(!cell.restrict(&vec![h(0), h(1), h(2)]));
    assert_eq!(cell.get_entropy(), 2);
    assert!(cell.restrict(&vec![h(2), h(2)]));
    assert_eq!(cell.get_tile_data(), Some(h(2)));
}

#[test]
fn restrict_never_raises_the_entropy() {
    let set = weighted(&[("light", 1)]);
    let lists: Vec<Vec<WaveFunctionTileHandle>> = vec![
        vec![h(0), h(1), h(2), h(3)],
        vec![h(1), h(2)],
        vec![h(0), h(1), h(2)],
        vec![h(2)],
        vec![h(0)],
        vec![],
    ];
    let mut cell = WaveFunctionCell::new_empty(&set);
    let mut entropy = cell.get_entropy();
    for list in lists.iter() {
        let changed = cell.restrict(list);
        assert!(cell.get_entropy() <= entropy);
        assert_eq!(changed, cell.get_entropy() != entropy);
        entropy = cell.get_entropy();
    }
    assert_eq!(entropy, 0);
}

#[test]
fn allowed_neighbors_follow_the_rules() {
    // the rule pairs a with b; no rule speaks of c
    let set = weighted(&[]);
    for direction in 0..4 {
        let light = WaveFunctionCell::new_collapsed(h(0));
        assert_eq!(light.allowed_neighbors(&set, direction), vec![h(1)]);
        let heavy = WaveFunctionCell::new_collapsed(h(1));
        assert_eq!(heavy.allowed_neighbors(&set, direction), vec![h(0)]);
        let void = WaveFunctionCell::new_collapsed(h(2));
        assert_eq!(void.allowed_neighbors(&set, direction), vec![h(2)]);
        let all = WaveFunctionCell::new_empty(&set);
        assert_eq!(all.allowed_neighbors(&set, direction), vec![h(0), h(1), h(2)]);
        let mut none = WaveFunctionCell::new_empty(&set);
        none.restrict(&vec![]);
        assert_eq!(none.allowed_neighbors(&set, direction), vec![]);
        let stranger = WaveFunctionCell::new_collapsed(h(12));
        assert_eq!(stranger.allowed_neighbors(&set, direction), vec![]);
    }
}
