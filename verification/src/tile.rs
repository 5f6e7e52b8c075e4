use vstd::prelude::*;

verus! {

/// The four directions, clockwise from the top: they number the edges of a
/// tile and the sides on which a cell has neighbours.
pub const DIRECTION_UP: usize = 0;

pub const DIRECTION_RIGHT: usize = 1;

pub const DIRECTION_DOWN: usize = 2;

pub const DIRECTION_LEFT: usize = 3;

/// The direction that faces `direction`.
pub open spec fn opposite(direction: int) -> int {
    (direction + 2) % 4
}

/// The place of a tile's name in the table of tile names: the class that the
/// variants of one tile share, and that carries their weight.
#[derive(Debug, Clone, Copy, PartialEq, Eq, Hash, Structural)]
pub struct WaveFunctionTileClassHandle(pub usize);

/// The place of a variant in the list of all variants.
#[derive(Debug, Clone, Copy, PartialEq, Eq, Hash, Structural)]
pub struct WaveFunctionTileHandle(pub usize);

/// The place of an edge name in the table of edge names.
#[derive(Debug, Clone, Copy, PartialEq, Eq, Hash, Structural)]
pub struct WaveFunctionEdgeHandle(pub usize);

/// The place of a texture name in the table of texture names.
#[derive(Debug, Clone, Copy, PartialEq, Eq, Hash, Structural)]
pub struct WaveFunctionTextureHandle(pub usize);

/// Two edges that may touch.
#[derive(Debug, Clone, Copy)]
pub struct WaveFunctionRule(pub WaveFunctionEdgeHandle, pub WaveFunctionEdgeHandle);

/// The selection weight of a tile class.
#[derive(Debug, Clone, Copy)]
pub struct WaveFunctionWeight(pub WaveFunctionTileClassHandle, pub u64);

/// A placeable tile: its edges clockwise from the top, its texture, by how
/// many quarter turns clockwise it is turned, and its class.
#[derive(Debug, Clone, Copy)]
pub struct WaveFunctionTile {
    pub edge_ids: [WaveFunctionEdgeHandle; 4],
    pub texture_id: WaveFunctionTextureHandle,
    pub rotation: u32,
    pub class_id: WaveFunctionTileClassHandle,
}

/// A tile as the contracts see it.
pub struct TileView {
    pub edge_ids: Seq<WaveFunctionEdgeHandle>,
    pub texture_id: WaveFunctionTextureHandle,
    pub rotation: u32,
    pub class_id: WaveFunctionTileClassHandle,
}

impl View for WaveFunctionTile {
    type V = TileView;

    open spec fn view(&self) -> TileView {
        TileView {
            edge_ids: self.edge_ids@,
            texture_id: self.texture_id,
            rotation: self.rotation,
            class_id: self.class_id,
        }
    }
}

/// Whether the handles stand in strictly ascending order, so that none occurs twice.
pub open spec fn ascending(handles: Seq<WaveFunctionTileHandle>) -> bool {
    forall|i: int, j: int| 0 <= i < j < handles.len() ==> handles[i].0 < handles[j].0
}

/// Whether `rule` lets the edges `a` and `b` touch, in either order.
pub open spec fn pairs(rule: WaveFunctionRule, a: WaveFunctionEdgeHandle, b: WaveFunctionEdgeHandle) -> bool {
    (rule.0 == a && rule.1 == b) || (rule.0 == b && rule.1 == a)
}

/// Whether some rule lets the edges `a` and `b` touch.
pub open spec fn compatible(
    rules: Seq<WaveFunctionRule>,
    a: WaveFunctionEdgeHandle,
    b: WaveFunctionEdgeHandle,
) -> bool {
    exists|i: int| 0 <= i < rules.len() && pairs(#[trigger] rules[i], a, b)
}

/// Whether `rule` speaks of the edge.
pub open spec fn names_edge(rule: WaveFunctionRule, edge: WaveFunctionEdgeHandle) -> bool {
    rule.0 == edge || rule.1 == edge
}

/// Whether some rule speaks of the edge.
pub open spec fn constrained(rules: Seq<WaveFunctionRule>, edge: WaveFunctionEdgeHandle) -> bool {
    exists|i: int| 0 <= i < rules.len() && names_edge(#[trigger] rules[i], edge)
}

/// Whether the variant `tile` is a legal neighbour, in `direction`, of a cell
/// whose edge on that side is `edge`: the variant's edge on the facing side is
/// compatible with it.
pub open spec fn legal_neighbor(
    tiles: Seq<TileView>,
    rules: Seq<WaveFunctionRule>,
    direction: int,
    edge: WaveFunctionEdgeHandle,
    tile: int,
) -> bool {
    &&& 0 <= tile < tiles.len()
    &&& compatible(rules, edge, tiles[tile].edge_ids[opposite(direction)])
}

/// Edges that a rule pairs are edges of which a rule speaks.
pub proof fn lemma_compatible_constrained(
    rules: Seq<WaveFunctionRule>,
    a: WaveFunctionEdgeHandle,
    b: WaveFunctionEdgeHandle,
)
    requires
        compatible(rules, a, b),
    ensures
        constrained(rules, a),
        constrained(rules, b),
        compatible(rules, b, a),
{
    let i = choose|i: int| 0 <= i < rules.len() && pairs(#[trigger] rules[i], a, b);
    assert(names_edge(rules[i], a));
    assert(names_edge(rules[i], b));
    assert(pairs(rules[i], b, a));
}

/// `tile` turned clockwise by `rotation` quarter turns: the edges move right by
/// `rotation` places, round the end.
pub open spec fn rotated(tile: TileView, rotation: int) -> TileView {
    TileView {
        edge_ids: Seq::new(4, |k: int| tile.edge_ids[(k + 4 - rotation) % 4]),
        texture_id: tile.texture_id,
        rotation: rotation as u32,
        class_id: tile.class_id,
    }
}

/// The views of a list of tiles.
pub open spec fn tile_views(tiles: Seq<WaveFunctionTile>) -> Seq<TileView> {
    tiles.map_values(|t: WaveFunctionTile| t@)
}

} // verus!
