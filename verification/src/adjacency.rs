use crate::tile::{
    ascending, compatible, constrained, legal_neighbor, names_edge, opposite, pairs, tile_views,
    TileView, WaveFunctionEdgeHandle, WaveFunctionRule, WaveFunctionTile, WaveFunctionTileHandle,
};
use std::collections::HashSet;
use vstd::prelude::*;

verus! {

/// For each direction and each edge that a rule speaks of, the variants that
/// may stand next to a cell showing that edge in that direction.
pub struct AdjacencyIndex {
    entries: Vec<Vec<Option<Vec<WaveFunctionTileHandle>>>>,
}

/// Whether `list` holds exactly the legal neighbours for `edge` in `direction`,
/// in ascending order.
pub open spec fn lists_legal_neighbors(
    list: Seq<WaveFunctionTileHandle>,
    tiles: Seq<TileView>,
    rules: Seq<WaveFunctionRule>,
    direction: int,
    edge: WaveFunctionEdgeHandle,
) -> bool {
    &&& ascending(list)
    &&& forall|v: usize|
        list.contains(WaveFunctionTileHandle(v)) <==> legal_neighbor(
            tiles,
            rules,
            direction,
            edge,
            v as int,
        )
}

impl AdjacencyIndex {
    /// The list kept for `edge` in `direction`, if there is one.
    pub closed spec fn entry(&self, direction: int, edge: WaveFunctionEdgeHandle) -> Option<
        Seq<WaveFunctionTileHandle>,
    > {
        if 0 <= direction < self.entries@.len() && edge.0 < self.entries@[direction]@.len() {
            match self.entries@[direction]@[edge.0 as int] {
                Some(list) => Some(list@),
                None => None,
            }
        } else {
            None
        }
    }

    /// Whether this is the index of the given tiles and rules: an edge has a
    /// list in each direction exactly if a rule speaks of it, and the list holds
    /// exactly the variants whose facing edge is compatible with it.
    pub open spec fn describes(&self, tiles: Seq<TileView>, rules: Seq<WaveFunctionRule>) -> bool {
        forall|direction: int, edge: WaveFunctionEdgeHandle|
            0 <= direction < 4 ==> match #[trigger] self.entry(direction, edge) {
                Some(list) => constrained(rules, edge) && lists_legal_neighbors(
                    list,
                    tiles,
                    rules,
                    direction,
                    edge,
                ),
                None => !constrained(rules, edge),
            }
    }

    /// The variants that may stand in `direction` next to a cell showing
    /// `edge` there; `None` if no rule speaks of the edge, or for a direction
    /// that does not exist.
    pub fn get(&self, direction: usize, edge: WaveFunctionEdgeHandle) -> (found: Option<
        &Vec<WaveFunctionTileHandle>,
    >)
        ensures
            match found {
                Some(list) => self.entry(direction as int, edge) == Some(list@),
                None => self.entry(direction as int, edge) is None,
            },
    {
        if direction < self.entries.len() && edge.0 < self.entries[direction].len() {
            self.entries[direction][edge.0].as_ref()
        } else {
            None
        }
    }

    /// Builds the index: first the graph of compatible edges, then, for each
    /// direction and each edge of the graph, the variants whose facing edge is
    /// a partner of it.
    pub fn build(
        tiles: &Vec<WaveFunctionTile>,
        rules: &Vec<WaveFunctionRule>,
        edge_count: usize,
    ) -> (index: AdjacencyIndex)
        requires
            forall|i: int|
                0 <= i < rules@.len() ==> (#[trigger] rules@[i]).0.0 < edge_count && rules@[i].1.0
                    < edge_count,
        ensures
            index.describes(tile_views(tiles@), rules@),
    {
        let (graph, named) = compatibility_graph(rules, edge_count);
        let mut entries: Vec<Vec<Option<Vec<WaveFunctionTileHandle>>>> = Vec::new();
        let mut direction: usize = 0;
        while direction < 4
            invariant
                direction <= 4,
                entries@.len() == direction,
                graph@.len() == edge_count,
                named@.len() == edge_count,
                forall|a: int, b: usize|
                    0 <= a < edge_count ==> (#[trigger] graph@[a]@.contains(b) <==> compatible(
                        rules@,
                        WaveFunctionEdgeHandle(a as usize),
                        WaveFunctionEdgeHandle(b),
                    )),
                forall|a: int|
                    0 <= a < edge_count ==> (#[trigger] named@[a] <==> constrained(
                        rules@,
                        WaveFunctionEdgeHandle(a as usize),
                    )),
                forall|d: int|
                    0 <= d < direction ==> row_describes(
                        #[trigger] entries@[d]@,
                        tile_views(tiles@),
                        rules@,
                        d,
                        edge_count as int,
                    ),
            decreases 4 - direction,
        {
            let facing = (direction + 2) % 4;
            let mut row: Vec<Option<Vec<WaveFunctionTileHandle>>> = Vec::new();
            let mut edge: usize = 0;
            while edge < edge_count
                invariant
                    edge <= edge_count,
                    direction < 4,
                    facing == opposite(direction as int),
                    row@.len() == edge,
                    graph@.len() == edge_count,
                    named@.len() == edge_count,
                    forall|a: int, b: usize|
                        0 <= a < edge_count ==> (#[trigger] graph@[a]@.contains(b) <==> compatible(
                            rules@,
                            WaveFunctionEdgeHandle(a as usize),
                            WaveFunctionEdgeHandle(b),
                        )),
                    forall|a: int|
                        0 <= a < edge_count ==> (#[trigger] named@[a] <==> constrained(
                            rules@,
                            WaveFunctionEdgeHandle(a as usize),
                        )),
                    row_describes(row@, tile_views(tiles@), rules@, direction as int, edge as int),
                decreases edge_count - edge,
            {
                if named[edge] {
                    let list = partners_facing(tiles, &graph[edge], facing);
                    proof {
                        let handle = WaveFunctionEdgeHandle(edge);
                        assert forall|v: usize|
                            list@.contains(WaveFunctionTileHandle(v)) <==> legal_neighbor(
                                tile_views(tiles@),
                                rules@,
                                direction as int,
                                handle,
                                v as int,
                            ) by {
                            if v < tiles@.len() {
                                assert(tile_views(tiles@)[v as int].edge_ids[facing as int]
                                    == tiles@[v as int].edge_ids@[facing as int]);
                                let partner = tiles@[v as int].edge_ids@[facing as int];
                                assert(graph@[edge as int]@.contains(partner.0) <==> compatible(
                                    rules@,
                                    handle,
                                    WaveFunctionEdgeHandle(partner.0),
                                ));
                            }
                        }
                    }
                    row.push(Some(list));
                } else {
                    row.push(None);
                }
                edge += 1;
            }
            entries.push(row);
            direction += 1;
        }
        let index = AdjacencyIndex { entries };
        proof {
            assert forall|direction: int, edge: WaveFunctionEdgeHandle|
                0 <= direction < 4 implies match #[trigger] index.entry(direction, edge) {
                Some(list) => constrained(rules@, edge) && lists_legal_neighbors(
                    list,
                    tile_views(tiles@),
                    rules@,
                    direction,
                    edge,
                ),
                None => !constrained(rules@, edge),
            } by {
                let row = index.entries@[direction]@;
                assert(row_describes(row, tile_views(tiles@), rules@, direction, edge_count as int));
                if edge.0 < edge_count {
                    assert(row_entry_describes(
                        row[edge.0 as int],
                        tile_views(tiles@),
                        rules@,
                        direction,
                        edge.0 as int,
                    ));
                    assert(WaveFunctionEdgeHandle(edge.0) == edge);
                } else {
                    if constrained(rules@, edge) {
                        let i = choose|i: int|
                            0 <= i < rules@.len() && names_edge(#[trigger] rules@[i], edge);
                        assert(rules@[i].0.0 < edge_count);
                    }
                }
            }
        }
        index
    }
}

/// Whether `entry` is what the index keeps for the edge numbered `edge`.
spec fn row_entry_describes(
    entry: Option<Vec<WaveFunctionTileHandle>>,
    tiles: Seq<TileView>,
    rules: Seq<WaveFunctionRule>,
    direction: int,
    edge: int,
) -> bool {
    match entry {
        Some(list) => constrained(rules, WaveFunctionEdgeHandle(edge as usize))
            && lists_legal_neighbors(
            list@,
            tiles,
            rules,
            direction,
            WaveFunctionEdgeHandle(edge as usize),
        ),
        None => !constrained(rules, WaveFunctionEdgeHandle(edge as usize)),
    }
}

/// Whether `row` is what the index keeps in `direction` for the first `count` edges.
spec fn row_describes(
    row: Seq<Option<Vec<WaveFunctionTileHandle>>>,
    tiles: Seq<TileView>,
    rules: Seq<WaveFunctionRule>,
    direction: int,
    count: int,
) -> bool {
    &&& row.len() == count
    &&& forall|e: int|
        0 <= e < count ==> row_entry_describes(#[trigger] row[e], tiles, rules, direction, e)
}

/// Adding a rule to a list adds the pairs and the edges that it speaks of.
proof fn lemma_rule_added(rules: Seq<WaveFunctionRule>, n: int)
    requires
        0 <= n < rules.len(),
    ensures
        forall|a: WaveFunctionEdgeHandle, b: WaveFunctionEdgeHandle|
            #![trigger compatible(rules.take(n + 1), a, b)]
            compatible(rules.take(n + 1), a, b) <==> compatible(rules.take(n), a, b) || pairs(
                rules[n],
                a,
                b,
            ),
        forall|a: WaveFunctionEdgeHandle|
            #![trigger constrained(rules.take(n + 1), a)]
            constrained(rules.take(n + 1), a) <==> constrained(rules.take(n), a) || names_edge(
                rules[n],
                a,
            ),
{
    let longer = rules.take(n + 1);
    let shorter = rules.take(n);
    assert forall|a: WaveFunctionEdgeHandle, b: WaveFunctionEdgeHandle|
        #![trigger compatible(longer, a, b)]
        compatible(longer, a, b) <==> compatible(shorter, a, b) || pairs(rules[n], a, b) by {
        if compatible(longer, a, b) {
            let i = choose|i: int| 0 <= i < longer.len() && pairs(#[trigger] longer[i], a, b);
            if i < n {
                assert(pairs(shorter[i], a, b));
            }
        }
        if compatible(shorter, a, b) {
            let i = choose|i: int| 0 <= i < shorter.len() && pairs(#[trigger] shorter[i], a, b);
            assert(pairs(longer[i], a, b));
        }
        if pairs(rules[n], a, b) {
            assert(pairs(longer[n], a, b));
        }
    }
    assert forall|a: WaveFunctionEdgeHandle|
        #![trigger constrained(longer, a)]
        constrained(longer, a) <==> constrained(shorter, a) || names_edge(rules[n], a) by {
        if constrained(longer, a) {
            let i = choose|i: int| 0 <= i < longer.len() && names_edge(#[trigger] longer[i], a);
            if i < n {
                assert(names_edge(shorter[i], a));
            }
        }
        if constrained(shorter, a) {
            let i = choose|i: int| 0 <= i < shorter.len() && names_edge(#[trigger] shorter[i], a);
            assert(names_edge(longer[i], a));
        }
        if names_edge(rules[n], a) {
            assert(names_edge(longer[n], a));
        }
    }
}

/// The undirected graph of the rules: for each edge the set of its partners,
/// and whether a rule speaks of it.
fn compatibility_graph(rules: &Vec<WaveFunctionRule>, edge_count: usize) -> (graph: (
    Vec<HashSet<usize>>,
    Vec<bool>,
))
    requires
        forall|i: int|
            0 <= i < rules@.len() ==> (#[trigger] rules@[i]).0.0 < edge_count && rules@[i].1.0
                < edge_count,
    ensures
        graph.0@.len() == edge_count,
        graph.1@.len() == edge_count,
        forall|a: int, b: usize|
            0 <= a < edge_count ==> (#[trigger] graph.0@[a]@.contains(b) <==> compatible(
                rules@,
                WaveFunctionEdgeHandle(a as usize),
                WaveFunctionEdgeHandle(b),
            )),
        forall|a: int|
            0 <= a < edge_count ==> (#[trigger] graph.1@[a] <==> constrained(
                rules@,
                WaveFunctionEdgeHandle(a as usize),
            )),
{
    let mut partners: Vec<HashSet<usize>> = Vec::new();
    let mut named: Vec<bool> = Vec::new();
    let mut edge: usize = 0;
    while edge < edge_count
        invariant
            edge <= edge_count,
            partners@.len() == edge,
            named@.len() == edge,
            forall|a: int| 0 <= a < edge ==> (#[trigger] partners@[a])@ == Set::<usize>::empty(),
            forall|a: int| 0 <= a < edge ==> !#[trigger] named@[a],
        decreases edge_count - edge,
    {
        partners.push(HashSet::new());
        named.push(false);
        edge += 1;
    }
    let mut n: usize = 0;
    assert(rules@.take(0) =~= Seq::empty());
    while n < rules.len()
        invariant
            n <= rules.len(),
            partners@.len() == edge_count,
            named@.len() == edge_count,
            forall|i: int|
                0 <= i < rules@.len() ==> (#[trigger] rules@[i]).0.0 < edge_count && rules@[i].1.0
                    < edge_count,
            forall|a: int, b: usize|
                0 <= a < edge_count ==> (#[trigger] partners@[a]@.contains(b) <==> compatible(
                    rules@.take(n as int),
                    WaveFunctionEdgeHandle(a as usize),
                    WaveFunctionEdgeHandle(b),
                )),
            forall|a: int|
                0 <= a < edge_count ==> (#[trigger] named@[a] <==> constrained(
                    rules@.take(n as int),
                    WaveFunctionEdgeHandle(a as usize),
                )),
        decreases rules.len() - n,
    {
        let rule = rules[n];
        proof {
            lemma_rule_added(rules@, n as int);
        }
        partners[rule.0.0].insert(rule.1.0);
        partners[rule.1.0].insert(rule.0.0);
        named[rule.0.0] = true;
        named[rule.1.0] = true;
        n += 1;
    }
    assert(rules@.take(n as int) =~= rules@);
    (partners, named)
}

/// The variants whose edge on the side `facing` is one of `partners`, in
/// ascending order.
fn partners_facing(tiles: &Vec<WaveFunctionTile>, partners: &HashSet<usize>, facing: usize) -> (list:
    Vec<WaveFunctionTileHandle>)
    requires
        facing < 4,
    ensures
        ascending(list@),
        forall|v: usize|
            list@.contains(WaveFunctionTileHandle(v)) <==> v < tiles@.len() && partners@.contains(
                tiles@[v as int].edge_ids@[facing as int].0,
            ),
{
    let mut list: Vec<WaveFunctionTileHandle> = Vec::new();
    let mut handle: usize = 0;
    while handle < tiles.len()
        invariant
            handle <= tiles.len(),
            facing < 4,
            ascending(list@),
            forall|i: int| 0 <= i < list@.len() ==> (#[trigger] list@[i]).0 < handle,
            forall|v: usize|
                list@.contains(WaveFunctionTileHandle(v)) <==> v < handle && partners@.contains(
                    tiles@[v as int].edge_ids@[facing as int].0,
                ),
        decreases tiles.len() - handle,
    {
        let ghost before = list@;
        if partners.contains(&tiles[handle].edge_ids[facing].0) {
            list.push(WaveFunctionTileHandle(handle));
            proof {
                assert(list@[before.len() as int] == WaveFunctionTileHandle(handle));
                assert forall|v: usize|
                    list@.contains(WaveFunctionTileHandle(v)) <==> v < handle + 1
                        && partners@.contains(tiles@[v as int].edge_ids@[facing as int].0) by {
                    if before.contains(WaveFunctionTileHandle(v)) {
                        let i = before.index_of(WaveFunctionTileHandle(v));
                        assert(list@[i] == WaveFunctionTileHandle(v));
                    }
                    if list@.contains(WaveFunctionTileHandle(v)) {
                        let i = list@.index_of(WaveFunctionTileHandle(v));
                        if i < before.len() {
                            assert(before[i] == WaveFunctionTileHandle(v));
                        }
                    }
                }
            }
        }
        handle += 1;
    }
    list
}

} // verus!
