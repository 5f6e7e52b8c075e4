use wfc::adjacency::AdjacencyIndex;
use wfc::tile::{
    WaveFunctionEdgeHandle, WaveFunctionRule, WaveFunctionTextureHandle, WaveFunctionTile,
    WaveFunctionTileClassHandle, WaveFunctionTileHandle, DIRECTION_DOWN, DIRECTION_LEFT,
    DIRECTION_RIGHT, DIRECTION_UP,
};

fn e(i: usize) -> WaveFunctionEdgeHandle {
    WaveFunctionEdgeHandle(i)
}

// edges clockwise from the top
fn make(edges: [usize; 4]) -> WaveFunctionTile {
    WaveFunctionTile {
        edge_ids: [e(edges[0]), e(edges[1]), e(edges[2]), e(edges[3])],
        texture_id: WaveFunctionTextureHandle(0),
        rotation: 0,
        class_id: WaveFunctionTileClassHandle(0),
    }
}

fn handles(list: &Vec<WaveFunctionTileHandle>) -> Vec<usize> {
    list.iter().map(|h| h.0).collect()
}

#[test]
fn an_index_can_be_built_from_tiles_and_rules() {
    let tiles = vec![make([0, 1, 2, 1]), make([2, 1, 0, 1]), make([1, 1, 1, 1])];
    let rules = vec![WaveFunctionRule(e(0), e(2))];
    let index = AdjacencyIndex::build(&tiles, &rules, 3);
    // above an edge 0 lie the variants whose bottom edge is 2
    assert_eq!(handles(index.get(DIRECTION_UP, e(0)).unwrap()), vec![0]);
    // below an edge 0 lie the variants whose top edge is 2
    assert_eq!(handles(index.get(DIRECTION_DOWN, e(0)).unwrap()), vec![1]);
    assert_eq!(handles(index.get(DIRECTION_UP, e(2)).unwrap()), vec![1]);
    assert_eq!(handles(index.get(DIRECTION_DOWN, e(2)).unwrap()), vec![0]);
    assert_eq!(handles(index.get(DIRECTION_LEFT, e(0)).unwrap()), Vec::<usize>::new());
    assert_eq!(handles(index.get(DIRECTION_RIGHT, e(2)).unwrap()), Vec::<usize>::new());
    assert!(index.get(DIRECTION_UP, e(1)).is_none());
    assert!(index.get(DIRECTION_UP, e(3)).is_none());
    assert!(index.get(4, e(0)).is_none());
}

#[test]
fn a_rule_of_an_edge_with_itself_lists_the_tiles_that_show_it() {
    let tiles = vec![make([0, 0, 1, 1]), make([1, 1, 0, 0])];
    let rules = vec![WaveFunctionRule(e(0), e(0)), WaveFunctionRule(e(0), e(0))];
    let index = AdjacencyIndex::build(&tiles, &rules, 2);
    // to the right lie the variants whose left edge is 0
    assert_eq!(handles(index.get(DIRECTION_RIGHT, e(0)).unwrap()), vec![1]);
    // to the left lie the variants whose right edge is 0
    assert_eq!(handles(index.get(DIRECTION_LEFT, e(0)).unwrap()), vec![0]);
    assert_eq!(handles(index.get(DIRECTION_UP, e(0)).unwrap()), vec![1]);
    assert_eq!(handles(index.get(DIRECTION_DOWN, e(0)).unwrap()), vec![0]);
    assert!(index.get(DIRECTION_DOWN, e(1)).is_none());
}
