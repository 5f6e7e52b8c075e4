use wfc::error::WaveFunctionError;
use wfc::tile::{
    WaveFunctionEdgeHandle, WaveFunctionTileClassHandle, WaveFunctionTileHandle, DIRECTION_DOWN,
    DIRECTION_LEFT, DIRECTION_RIGHT, DIRECTION_UP,
};
use wfc::tileset::{Rule, TileData, TilesetData, WaveFunctionTileset, Weight};

fn tile(id: &str, texture: &str, edges: [&str; 4], can_rotate: bool) -> TileData {
    TileData {
        id: id.to_string(),
        texture_id: texture.to_string(),
        edge_ids: edges.iter().map(|e| e.to_string()).collect(),
        can_rotate,
    }
}

fn rule(a: &str, b: &str) -> Rule {
    Rule(a.to_string(), b.to_string())
}

fn weight(id: &str, w: u64) -> Weight {
    Weight(id.to_string(), w)
}

fn road_set() -> WaveFunctionTileset {
    let data = TilesetData {
        tiles: vec![
            tile("carpet", "carpet.png", ["c", "c", "c", "c"], false),
            tile("corner", "corner.png", ["u", "r", "d", "l"], true),
        ],
        rules: vec![rule("c", "c"), rule("u", "d"), rule("c", "nowhere")],
        weights: vec![weight("corner", 3), weight("carpet", 1), weight("corner", 9), weight("ghost", 5)],
    };
    WaveFunctionTileset::new(data).unwrap()
}

fn handles(list: &Vec<WaveFunctionTileHandle>) -> Vec<usize> {
    list.iter().map(|h| h.0).collect()
}

#[test]
fn names_are_interned_in_order_of_first_occurrence() {
    let set = road_set();
    assert_eq!(set.get_tile_class_handle(&"carpet".to_string()), Some(WaveFunctionTileClassHandle(0)));
    assert_eq!(set.get_tile_class_handle(&"corner".to_string()), Some(WaveFunctionTileClassHandle(1)));
    assert_eq!(set.get_tile_class_handle(&"ghost".to_string()), None);
    assert_eq!(set.get_edge_handle(&"c".to_string()), Some(WaveFunctionEdgeHandle(0)));
    assert_eq!(set.get_edge_handle(&"u".to_string()), Some(WaveFunctionEdgeHandle(1)));
    assert_eq!(set.get_edge_handle(&"r".to_string()), Some(WaveFunctionEdgeHandle(2)));
    assert_eq!(set.get_edge_handle(&"d".to_string()), Some(WaveFunctionEdgeHandle(3)));
    assert_eq!(set.get_edge_handle(&"l".to_string()), Some(WaveFunctionEdgeHandle(4)));
    assert_eq!(set.get_edge_handle(&"nowhere".to_string()), None);
}

#[test]
fn repeated_names_keep_their_first_handle() {
    let data = TilesetData {
        tiles: vec![
            tile("a", "one.png", ["x", "y", "x", "y"], false),
            tile("b", "one.png", ["y", "z", "x", "z"], false),
            tile("a", "two.png", ["z", "z", "z", "z"], false),
        ],
        rules: vec![],
        weights: vec![],
    };
    let set = WaveFunctionTileset::new(data).unwrap();
    assert_eq!(set.tile_count(), 3);
    let first = set.get_tile(&WaveFunctionTileHandle(0)).unwrap();
    let second = set.get_tile(&WaveFunctionTileHandle(1)).unwrap();
    let third = set.get_tile(&WaveFunctionTileHandle(2)).unwrap();
    assert_eq!(first.edge_ids.map(|e| e.0), [0, 1, 0, 1]);
    assert_eq!(second.edge_ids.map(|e| e.0), [1, 2, 0, 2]);
    assert_eq!(third.edge_ids.map(|e| e.0), [2, 2, 2, 2]);
    assert_eq!(first.class_id.0, 0);
    assert_eq!(second.class_id.0, 1);
    assert_eq!(third.class_id.0, 0);
    assert_eq!(first.texture_id.0, 0);
    assert_eq!(second.texture_id.0, 0);
    assert_eq!(third.texture_id.0, 1);
}

#[test]
fn rotation_expands_to_four_variants_of_one_class() {
    let set = road_set();
    assert_eq!(set.tile_count(), 5);
    // u = 1, r = 2, d = 3, l = 4
    let expected: [(usize, u32, [usize; 4]); 4] = [
        (1, 1, [4, 1, 2, 3]),
        (2, 2, [3, 4, 1, 2]),
        (3, 3, [2, 3, 4, 1]),
        (4, 0, [1, 2, 3, 4]),
    ];
    for (handle, rotation, edges) in expected.iter() {
        let variant = set.get_tile(&WaveFunctionTileHandle(*handle)).unwrap();
        assert_eq!(variant.rotation, *rotation);
        assert_eq!(variant.edge_ids.map(|e| e.0), *edges);
        assert_eq!(variant.class_id, WaveFunctionTileClassHandle(1));
    }
}

#[test]
fn a_tile_that_may_not_rotate_gives_one_variant() {
    let set = road_set();
    let carpet = set.get_tile(&WaveFunctionTileHandle(0)).unwrap();
    assert_eq!(carpet.rotation, 0);
    assert_eq!(carpet.edge_ids.map(|e| e.0), [0, 0, 0, 0]);
    assert_eq!(set.get_class_from_tile(&WaveFunctionTileHandle(0)), Some(WaveFunctionTileClassHandle(0)));
    assert_eq!(set.get_class_from_tile(&WaveFunctionTileHandle(5)), None);
    assert!(set.get_tile(&WaveFunctionTileHandle(5)).is_none());
}

#[test]
fn all_handles_are_listed_in_order() {
    let set = road_set();
    assert_eq!(handles(&set.get_high_entropy_cache_clone()), vec![0, 1, 2, 3, 4]);
}

#[test]
fn weight_is_the_first_given_and_zero_without_one() {
    let set = road_set();
    assert_eq!(set.get_weight(&WaveFunctionTileClassHandle(0)), 1);
    assert_eq!(set.get_weight(&WaveFunctionTileClassHandle(1)), 3);
    assert_eq!(set.get_weight(&WaveFunctionTileClassHandle(7)), 0);
    assert_eq!(set.get_tile_weight(&WaveFunctionTileHandle(0)), 1);
    assert_eq!(set.get_tile_weight(&WaveFunctionTileHandle(3)), 3);
    assert_eq!(set.get_tile_weight(&WaveFunctionTileHandle(9)), 0);
}

#[test]
fn a_class_without_weight_weighs_nothing() {
    let data = TilesetData {
        tiles: vec![tile("a", "a.png", ["x", "x", "x", "x"], false)],
        rules: vec![],
        weights: vec![],
    };
    let set = WaveFunctionTileset::new(data).unwrap();
    assert_eq!(set.get_weight(&WaveFunctionTileClassHandle(0)), 0);
}

#[test]
fn a_tile_without_four_edges_is_a_load_error() {
    let mut short = tile("a", "a.png", ["x", "x", "x", "x"], false);
    short.edge_ids.pop();
    let data = TilesetData { tiles: vec![short], rules: vec![], weights: vec![] };
    assert!(matches!(WaveFunctionTileset::new(data), Err(WaveFunctionError::LoadError)));

    let mut long = tile("a", "a.png", ["x", "x", "x", "x"], false);
    long.edge_ids.push("x".to_string());
    let data = TilesetData { tiles: vec![long], rules: vec![], weights: vec![] };
    assert!(matches!(WaveFunctionTileset::new(data), Err(WaveFunctionError::LoadError)));
}

#[test]
fn weights_beyond_64_bits_are_a_load_error() {
    let data = TilesetData {
        tiles: vec![tile("a", "a.png", ["x", "x", "x", "x"], true)],
        rules: vec![],
        weights: vec![weight("a", u64::MAX / 2)],
    };
    assert!(matches!(WaveFunctionTileset::new(data), Err(WaveFunctionError::LoadError)));

    let data = TilesetData {
        tiles: vec![tile("a", "a.png", ["x", "x", "x", "x"], true)],
        rules: vec![],
        weights: vec![weight("a", u64::MAX / 4)],
    };
    assert!(WaveFunctionTileset::new(data).is_ok());
}

#[test]
fn an_empty_definition_gives_an_empty_catalog() {
    let data = TilesetData { tiles: vec![], rules: vec![rule("a", "b")], weights: vec![weight("a", 1)] };
    let set = WaveFunctionTileset::new(data).unwrap();
    assert_eq!(set.tile_count(), 0);
    assert!(set.get_high_entropy_cache_clone().is_empty());
    assert!(set.get_valid_tiles(DIRECTION_UP, &WaveFunctionEdgeHandle(0)).is_none());
}

#[test]
fn adjacency_lists_hold_the_variants_with_a_compatible_facing_edge() {
    let set = road_set();
    // rules: (c, c) and (u, d); edges c = 0, u = 1, r = 2, d = 3, l = 4
    let c = WaveFunctionEdgeHandle(0);
    let u = WaveFunctionEdgeHandle(1);
    let d = WaveFunctionEdgeHandle(3);
    // next to c only a c may lie: the carpet on every side
    for direction in [DIRECTION_UP, DIRECTION_RIGHT, DIRECTION_DOWN, DIRECTION_LEFT] {
        assert_eq!(handles(set.get_valid_tiles(direction, &c).unwrap()), vec![0]);
    }
    // above an edge u lie the variants whose bottom edge is d:
    // bottom edges of the variants 1..4 are r, u, l, d
    assert_eq!(handles(set.get_valid_tiles(DIRECTION_UP, &u).unwrap()), vec![4]);
    // below an edge d lie the variants whose top edge is u: only the variant 4
    assert_eq!(handles(set.get_valid_tiles(DIRECTION_DOWN, &d).unwrap()), vec![4]);
    // right of an edge u lie the variants whose left edge is d: the variant 1
    assert_eq!(handles(set.get_valid_tiles(DIRECTION_RIGHT, &u).unwrap()), vec![1]);
    // left of an edge u lie the variants whose right edge is d: the variant 3
    assert_eq!(handles(set.get_valid_tiles(DIRECTION_LEFT, &u).unwrap()), vec![3]);
    // below an edge u lie the variants whose top edge is d: the variant 2
    assert_eq!(handles(set.get_valid_tiles(DIRECTION_DOWN, &u).unwrap()), vec![2]);
}

#[test]
fn an_edge_without_rule_has_no_adjacency_list() {
    let set = road_set();
    let r = WaveFunctionEdgeHandle(2);
    let l = WaveFunctionEdgeHandle(4);
    for direction in 0..4 {
        assert!(set.get_valid_tiles(direction, &r).is_none());
        assert!(set.get_valid_tiles(direction, &l).is_none());
        assert!(set.get_valid_tiles(direction, &WaveFunctionEdgeHandle(99)).is_none());
    }
    assert!(set.get_valid_tiles(4, &WaveFunctionEdgeHandle(0)).is_none());
}

#[test]
fn rules_pair_edges_in_both_orders() {
    let data = TilesetData {
        tiles: vec![
            tile("a", "a.png", ["p", "p", "p", "p"], false),
            tile("b", "b.png", ["q", "q", "q", "q"], false),
        ],
        rules: vec![rule("p", "q")],
        weights: vec![],
    };
    let set = WaveFunctionTileset::new(data).unwrap();
    let p = WaveFunctionEdgeHandle(0);
    let q = WaveFunctionEdgeHandle(1);
    for direction in 0..4 {
        assert_eq!(handles(set.get_valid_tiles(direction, &p).unwrap()), vec![1]);
        assert_eq!(handles(set.get_valid_tiles(direction, &q).unwrap()), vec![0]);
    }
}

#[test]
fn render_data_names_texture_and_quarter_turns() {
    let set = road_set();
    let (texture, rotation) = set.get_render_data(&WaveFunctionTileHandle(0)).unwrap();
    assert_eq!(texture, "carpet.png");
    assert_eq!(rotation, 0);
    let (texture, rotation) = set.get_render_data(&WaveFunctionTileHandle(2)).unwrap();
    assert_eq!(texture, "corner.png");
    assert_eq!(rotation, 2);
    assert!(set.get_render_data(&WaveFunctionTileHandle(5)).is_none());
}

#[test]
fn unknown_names_in_rules_and_weights_are_reported() {
    let set = road_set();
    let tiles = || {
        vec![
            tile("carpet", "carpet.png", ["c", "c", "c", "c"], false),
            tile("corner", "corner.png", ["u", "r", "d", "l"], true),
        ]
    };
    let known = TilesetData {
        tiles: tiles(),
        rules: vec![rule("c", "c"), rule("u", "d")],
        weights: vec![weight("corner", 3), weight("carpet", 1)],
    };
    assert_eq!(set.check_references(&known), Ok(()));
    let unknown_edge = TilesetData { tiles: tiles(), rules: vec![rule("c", "nowhere")], weights: vec![] };
    assert_eq!(set.check_references(&unknown_edge), Err(WaveFunctionError::UnresolvedReference));
    let unknown_tile = TilesetData { tiles: tiles(), rules: vec![], weights: vec![weight("ghost", 5)] };
    assert_eq!(set.check_references(&unknown_tile), Err(WaveFunctionError::UnresolvedReference));
}

#[test]
fn unknown_names_do_not_stop_the_catalog() {
    // the rule (c, nowhere) and the weight of ghost are left out
    let set = road_set();
    assert!(set.get_valid_tiles(DIRECTION_UP, &WaveFunctionEdgeHandle(0)).is_some());
    assert_eq!(set.get_edge_handle(&"nowhere".to_string()), None);
    assert_eq!(set.get_tile_class_handle(&"ghost".to_string()), None);
    assert_eq!(set.tile_count(), 5);
}
