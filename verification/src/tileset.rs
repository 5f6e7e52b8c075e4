use crate::adjacency::{lists_legal_neighbors, AdjacencyIndex};
use crate::error::WaveFunctionError;
use crate::names::{
    find_name, handle_of, intern, intern_into, interned, lemma_handle_of, lemma_handle_stable,
    lemma_intern_into_concat, lemma_intern_step, names_of,
};
use crate::tile::{
    compatible, constrained, legal_neighbor, names_edge, opposite, rotated, tile_views, TileView,
    WaveFunctionEdgeHandle, WaveFunctionRule, WaveFunctionTextureHandle, WaveFunctionTile,
    WaveFunctionTileClassHandle, WaveFunctionTileHandle, WaveFunctionWeight, DIRECTION_DOWN,
    DIRECTION_UP,
};
use vstd::prelude::*;

verus! {

/// One authored tile: its names and whether it is also placed rotated.
pub struct TileData {
    pub id: String,
    pub texture_id: String,
    pub edge_ids: Vec<String>,
    pub can_rotate: bool,
}

/// Two edge names that may touch.
pub struct Rule(pub String, pub String);

/// A tile name and the weight of its class.
pub struct Weight(pub String, pub u64);

/// A tile definition as authored.
pub struct TilesetData {
    pub tiles: Vec<TileData>,
    pub rules: Vec<Rule>,
    pub weights: Vec<Weight>,
}

/// The names of the tiles, tile after tile.
pub open spec fn tile_names(tiles: Seq<TileData>) -> Seq<Seq<char>> {
    tiles.map_values(|t: TileData| t.id@)
}

/// The texture names of the tiles, tile after tile.
pub open spec fn texture_names(tiles: Seq<TileData>) -> Seq<Seq<char>> {
    tiles.map_values(|t: TileData| t.texture_id@)
}

/// The edge names of the tiles, tile after tile, each from the top clockwise.
pub open spec fn edge_names(tiles: Seq<TileData>) -> Seq<Seq<char>>
    decreases tiles.len(),
{
    if tiles.len() == 0 {
        Seq::empty()
    } else {
        edge_names(tiles.drop_last()) + names_of(tiles.last().edge_ids@)
    }
}

/// Whether every tile names four edges.
pub open spec fn well_shaped(tiles: Seq<TileData>) -> bool {
    forall|i: int| 0 <= i < tiles.len() ==> (#[trigger] tiles[i]).edge_ids@.len() == 4
}

/// The three name tables of a catalog.
pub struct NameTables {
    pub tile_ids: Seq<Seq<char>>,
    pub edge_ids: Seq<Seq<char>>,
    pub texture_ids: Seq<Seq<char>>,
}

impl NameTables {
    /// Whether every name of `def` is in the tables.
    pub open spec fn knows(self, def: TileData) -> bool {
        &&& self.tile_ids.contains(def.id@)
        &&& self.texture_ids.contains(def.texture_id@)
        &&& forall|k: int|
            0 <= k < def.edge_ids@.len() ==> self.edge_ids.contains(#[trigger] def.edge_ids@[k]@)
    }

    /// Whether no table holds a name twice, and handles fit the machine.
    pub open spec fn distinct(self) -> bool {
        &&& self.tile_ids.no_duplicates()
        &&& self.edge_ids.no_duplicates()
        &&& self.texture_ids.no_duplicates()
        &&& self.tile_ids.len() <= usize::MAX
        &&& self.edge_ids.len() <= usize::MAX
        &&& self.texture_ids.len() <= usize::MAX
    }

    /// Whether `later` holds every name of `self` at the same place.
    pub open spec fn extended_by(self, later: NameTables) -> bool {
        &&& self.tile_ids.len() <= later.tile_ids.len()
        &&& self.edge_ids.len() <= later.edge_ids.len()
        &&& self.texture_ids.len() <= later.texture_ids.len()
        &&& forall|i: int| 0 <= i < self.tile_ids.len() ==> later.tile_ids[i] == self.tile_ids[i]
        &&& forall|i: int| 0 <= i < self.edge_ids.len() ==> later.edge_ids[i] == self.edge_ids[i]
        &&& forall|i: int|
            0 <= i < self.texture_ids.len() ==> later.texture_ids[i] == self.texture_ids[i]
    }
}

/// The tile that `def` describes, not rotated.
pub open spec fn base_tile(def: TileData, tables: NameTables) -> TileView {
    TileView {
        edge_ids: Seq::new(
            4,
            |k: int| WaveFunctionEdgeHandle(handle_of(tables.edge_ids, def.edge_ids@[k]@)),
        ),
        texture_id: WaveFunctionTextureHandle(handle_of(tables.texture_ids, def.texture_id@)),
        rotation: 0,
        class_id: WaveFunctionTileClassHandle(handle_of(tables.tile_ids, def.id@)),
    }
}

/// The variants of one tile: the three turned ones first where it may rotate,
/// then the tile as authored.
pub open spec fn variants_of(def: TileData, tables: NameTables) -> Seq<TileView> {
    let base = base_tile(def, tables);
    if def.can_rotate {
        seq![rotated(base, 1), rotated(base, 2), rotated(base, 3), base]
    } else {
        seq![base]
    }
}

/// The variants of all tiles, tile after tile.
pub open spec fn expand(defs: Seq<TileData>, tables: NameTables) -> Seq<TileView>
    decreases defs.len(),
{
    if defs.len() == 0 {
        Seq::empty()
    } else {
        expand(defs.drop_last(), tables) + variants_of(defs.last(), tables)
    }
}

/// The variants of a tile do not change when tables that know its names grow.
proof fn lemma_variants_stable(def: TileData, earlier: NameTables, later: NameTables)
    requires
        def.edge_ids@.len() == 4,
        earlier.knows(def),
        later.distinct(),
        earlier.extended_by(later),
    ensures
        variants_of(def, later) == variants_of(def, earlier),
{
    lemma_handle_stable(earlier.tile_ids, later.tile_ids, def.id@);
    lemma_handle_stable(earlier.texture_ids, later.texture_ids, def.texture_id@);
    assert forall|k: int| 0 <= k < 4 implies handle_of(later.edge_ids, def.edge_ids@[k]@)
        == handle_of(earlier.edge_ids, def.edge_ids@[k]@) by {
        lemma_handle_stable(earlier.edge_ids, later.edge_ids, def.edge_ids@[k]@);
    }
    assert(base_tile(def, later).edge_ids =~= base_tile(def, earlier).edge_ids);
}

/// The variants of tiles do not change when tables that know their names grow.
proof fn lemma_expand_stable(defs: Seq<TileData>, earlier: NameTables, later: NameTables)
    requires
        well_shaped(defs),
        forall|i: int| 0 <= i < defs.len() ==> earlier.knows(#[trigger] defs[i]),
        later.distinct(),
        earlier.extended_by(later),
    ensures
        expand(defs, later) == expand(defs, earlier),
    decreases defs.len(),
{
    if defs.len() > 0 {
        lemma_expand_stable(defs.drop_last(), earlier, later);
        lemma_variants_stable(defs.last(), earlier, later);
    }
}

/// Looks the four edge names of a tile up, adding the new ones to the table.
fn intern_edges(table: &mut Vec<String>, names: &Vec<String>) -> (edges: [WaveFunctionEdgeHandle; 4])
    requires
        names.len() == 4,
        names_of(old(table)@).no_duplicates(),
    ensures
        names_of(final(table)@) == intern_into(names_of(old(table)@), names_of(names@)),
        names_of(final(table)@).no_duplicates(),
        old(table).len() <= final(table).len(),
        forall|i: int|
            0 <= i < old(table).len() ==> names_of(final(table)@)[i] == names_of(old(table)@)[i],
        forall|name: Seq<char>|
            names_of(old(table)@).contains(name) ==> names_of(final(table)@).contains(name),
        forall|k: int|
            0 <= k < 4 ==> (#[trigger] edges[k]).0 < final(table).len() && final(table)[edges[k].0 as int]@
                == names[k]@,
{
    let mut edges: [WaveFunctionEdgeHandle; 4] = [WaveFunctionEdgeHandle(0); 4];
    let mut index: usize = 0;
    while index < 4
        invariant
            index <= 4,
            names.len() == 4,
            names_of(table@).no_duplicates(),
            names_of(table@) == intern_into(
                names_of(old(table)@),
                names_of(names@).take(index as int),
            ),
            old(table).len() <= table.len(),
            forall|i: int|
                0 <= i < old(table).len() ==> names_of(table@)[i] == names_of(old(table)@)[i],
            forall|name: Seq<char>|
                names_of(old(table)@).contains(name) ==> names_of(table@).contains(name),
            forall|k: int|
                0 <= k < index ==> (#[trigger] edges[k]).0 < table.len() && table[edges[k].0 as int]@
                    == names[k]@,
        decreases 4 - index,
    {
        let ghost before = names_of(table@);
        let edge_index = intern(table, &names[index]);
        proof {
            lemma_intern_step(before, names[index as int]@);
            let taken = names_of(names@).take(index as int + 1);
            assert(taken.drop_last() =~= names_of(names@).take(index as int));
            assert(taken.last() == names[index as int]@);
        }
        edges[index] = WaveFunctionEdgeHandle(edge_index);
        index += 1;
    }
    assert(names_of(names@).take(4) =~= names_of(names@));
    edges
}

/// `tile` turned clockwise by `rotation` quarter turns.
fn rotate_tile(tile: &WaveFunctionTile, rotation: u32) -> (turned: WaveFunctionTile)
    requires
        rotation < 4,
    ensures
        turned@ == rotated(tile@, rotation as int),
{
    let shift: usize = (4 - rotation) as usize;
    let edges = [
        tile.edge_ids[shift % 4],
        tile.edge_ids[(shift + 1) % 4],
        tile.edge_ids[(shift + 2) % 4],
        tile.edge_ids[(shift + 3) % 4],
    ];
    let turned = WaveFunctionTile {
        edge_ids: edges,
        texture_id: tile.texture_id,
        rotation,
        class_id: tile.class_id,
    };
    assert(turned@.edge_ids =~= rotated(tile@, rotation as int).edge_ids);
    turned
}

/// Adds the variants of one tile to the list: the turned ones first, then the
/// tile itself.
fn push_variants(tiles: &mut Vec<WaveFunctionTile>, base: WaveFunctionTile, can_rotate: bool)
    ensures
        tile_views(final(tiles)@) == tile_views(old(tiles)@) + (if can_rotate {
            seq![rotated(base@, 1), rotated(base@, 2), rotated(base@, 3), base@]
        } else {
            seq![base@]
        }),
{
    if can_rotate {
        let mut rotation: u32 = 1;
        while rotation < 4
            invariant
                1 <= rotation <= 4,
                tiles@.len() == old(tiles)@.len() + rotation - 1,
                forall|i: int| 0 <= i < old(tiles)@.len() ==> tiles@[i] == old(tiles)@[i],
                forall|i: int|
                    old(tiles)@.len() <= i < tiles@.len() ==> (#[trigger] tiles@[i])@ == rotated(
                        base@,
                        i - old(tiles)@.len() + 1,
                    ),
            decreases 4 - rotation,
        {
            let tile = rotate_tile(&base, rotation);
            tiles.push(tile);
            rotation += 1;
        }
    }
    tiles.push(base);
    assert(tile_views(tiles@) =~= tile_views(old(tiles)@) + (if can_rotate {
        seq![rotated(base@, 1), rotated(base@, 2), rotated(base@, 3), base@]
    } else {
        seq![base@]
    }));
}

/// The name tables that three lists of strings stand for.
pub open spec fn tables_of(
    tile_ids: Seq<String>,
    edge_ids: Seq<String>,
    texture_ids: Seq<String>,
) -> NameTables {
    NameTables {
        tile_ids: names_of(tile_ids),
        edge_ids: names_of(edge_ids),
        texture_ids: names_of(texture_ids),
    }
}

/// Whether every handle of `tile` points into the tables.
pub open spec fn tile_in_range(tile: TileView, tables: NameTables) -> bool {
    &&& tile.edge_ids.len() == 4
    &&& forall|k: int| 0 <= k < 4 ==> (#[trigger] tile.edge_ids[k]).0 < tables.edge_ids.len()
    &&& tile.texture_id.0 < tables.texture_ids.len()
    &&& tile.class_id.0 < tables.tile_ids.len()
    &&& tile.rotation < 4
}

/// The tiles of a definition with their name tables, or `None` if a tile does
/// not name four edges.
fn load_tiles(defs: &Vec<TileData>) -> (loaded: Option<
    (Vec<String>, Vec<String>, Vec<String>, Vec<WaveFunctionTile>),
>)
    ensures
        match loaded {
            Some((tile_ids, edge_ids, texture_ids, tiles)) => {
                let tables = tables_of(tile_ids@, edge_ids@, texture_ids@);
                &&& well_shaped(defs@)
                &&& tables.tile_ids == interned(tile_names(defs@))
                &&& tables.edge_ids == interned(edge_names(defs@))
                &&& tables.texture_ids == interned(texture_names(defs@))
                &&& tables.distinct()
                &&& tile_views(tiles@) == expand(defs@, tables)
                &&& forall|v: int|
                    0 <= v < tiles@.len() ==> tile_in_range((#[trigger] tiles@[v])@, tables)
            },
            None => !well_shaped(defs@),
        },
{
    let mut tile_ids: Vec<String> = Vec::new();
    let mut edge_ids: Vec<String> = Vec::new();
    let mut texture_ids: Vec<String> = Vec::new();
    let mut tiles: Vec<WaveFunctionTile> = Vec::new();
    let mut i: usize = 0;
    assert(tile_names(defs@.take(0)) =~= Seq::empty());
    assert(texture_names(defs@.take(0)) =~= Seq::empty());
    assert(names_of(tile_ids@) =~= Seq::empty());
    assert(names_of(edge_ids@) =~= Seq::empty());
    assert(names_of(texture_ids@) =~= Seq::empty());
    assert(tile_views(tiles@) =~= Seq::empty());
    while i < defs.len()
        invariant
            i <= defs.len(),
            well_shaped(defs@.take(i as int)),
            names_of(tile_ids@) == interned(tile_names(defs@.take(i as int))),
            names_of(edge_ids@) == interned(edge_names(defs@.take(i as int))),
            names_of(texture_ids@) == interned(texture_names(defs@.take(i as int))),
            tables_of(tile_ids@, edge_ids@, texture_ids@).distinct(),
            forall|k: int|
                0 <= k < i ==> tables_of(tile_ids@, edge_ids@, texture_ids@).knows(
                    #[trigger] defs@[k],
                ),
            tile_views(tiles@) == expand(
                defs@.take(i as int),
                tables_of(tile_ids@, edge_ids@, texture_ids@),
            ),
            forall|v: int|
                0 <= v < tiles@.len() ==> tile_in_range(
                    (#[trigger] tiles@[v])@,
                    tables_of(tile_ids@, edge_ids@, texture_ids@),
                ),
        decreases defs.len() - i,
    {
        let def = &defs[i];
        if def.edge_ids.len() != 4 {
            return None;
        }
        let ghost earlier = tables_of(tile_ids@, edge_ids@, texture_ids@);
        let ghost done = defs@.take(i as int);
        let ghost next = defs@.take(i as int + 1);
        let ghost built = tile_views(tiles@);
        let ghost tiles_before = tiles@;

        let tile_id = intern(&mut tile_ids, &def.id);
        let texture_id = intern(&mut texture_ids, &def.texture_id);
        let edges = intern_edges(&mut edge_ids, &def.edge_ids);

        let ghost later = tables_of(tile_ids@, edge_ids@, texture_ids@);
        proof {
            lemma_intern_step(earlier.tile_ids, def.id@);
            lemma_intern_step(earlier.texture_ids, def.texture_id@);
            assert(next.drop_last() =~= done);
            assert(next.last() == defs@[i as int]);
            assert(tile_names(next).drop_last() =~= tile_names(done));
            assert(texture_names(next).drop_last() =~= texture_names(done));
            lemma_intern_into_concat(Seq::empty(), edge_names(done), names_of(def.edge_ids@));
            assert(earlier.extended_by(later));
            assert(later.distinct());
            assert forall|k: int| 0 <= k < i + 1 implies later.knows(#[trigger] defs@[k]) by {
                if k < i {
                    assert(earlier.knows(defs@[k]));
                } else {
                    assert forall|j: int| 0 <= j < 4 implies later.edge_ids.contains(
                        #[trigger] def.edge_ids@[j]@,
                    ) by {
                        assert(later.edge_ids[edges[j].0 as int] == def.edge_ids@[j]@);
                    }
                }
            }
            assert forall|k: int| 0 <= k < done.len() implies earlier.knows(#[trigger] done[k]) by {
                assert(done[k] == defs@[k]);
            }
            lemma_expand_stable(done, earlier, later);
        }
        let base = WaveFunctionTile {
            edge_ids: edges,
            texture_id: WaveFunctionTextureHandle(texture_id),
            rotation: 0,
            class_id: WaveFunctionTileClassHandle(tile_id),
        };
        proof {
            lemma_handle_of(later.tile_ids, def.id@, tile_id as int);
            lemma_handle_of(later.texture_ids, def.texture_id@, texture_id as int);
            assert forall|k: int| 0 <= k < 4 implies (#[trigger] edges[k]).0 == handle_of(
                later.edge_ids,
                def.edge_ids@[k]@,
            ) by {
                lemma_handle_of(later.edge_ids, def.edge_ids@[k]@, edges[k].0 as int);
            }
            assert(base@.edge_ids =~= base_tile(*def, later).edge_ids);
            assert(base@ == base_tile(*def, later));
        }
        push_variants(&mut tiles, base, def.can_rotate);
        proof {
            assert(tile_views(tiles@) == expand(next, later));
            assert forall|v: int| 0 <= v < tiles@.len() implies tile_in_range(
                (#[trigger] tiles@[v])@,
                later,
            ) by {
                if v < tiles_before.len() {
                    assert(tile_views(tiles@)[v] == built[v]);
                    assert(tiles@[v]@ == tiles_before[v]@);
                    assert(tile_in_range(tiles_before[v]@, earlier));
                } else {
                    let w = v - tiles_before.len();
                    assert(tile_views(tiles@)[v] == variants_of(*def, later)[w]);
                    assert(tile_in_range(base@, later));
                }
            }
        }
        i += 1;
    }
    assert(defs@.take(i as int) =~= defs@);
    Some((tile_ids, edge_ids, texture_ids, tiles))
}

/// Whether both edge names of `rule` are in the table.
pub open spec fn rule_resolves(table: Seq<Seq<char>>, rule: Rule) -> bool {
    table.contains(rule.0@) && table.contains(rule.1@)
}

/// The rule over handles that `rule` stands for.
pub open spec fn resolved_rule(table: Seq<Seq<char>>, rule: Rule) -> WaveFunctionRule {
    WaveFunctionRule(
        WaveFunctionEdgeHandle(handle_of(table, rule.0@)),
        WaveFunctionEdgeHandle(handle_of(table, rule.1@)),
    )
}

/// The rules whose edge names are both known, in their order, over handles.
pub open spec fn resolved_rules(rules: Seq<Rule>, table: Seq<Seq<char>>) -> Seq<WaveFunctionRule> {
    rules.filter(|rule: Rule| rule_resolves(table, rule)).map_values(
        |rule: Rule| resolved_rule(table, rule),
    )
}

/// Whether the tile name of `weight` is in the table.
pub open spec fn weight_resolves(table: Seq<Seq<char>>, weight: Weight) -> bool {
    table.contains(weight.0@)
}

/// The weight over a class handle that `weight` stands for.
pub open spec fn resolved_weight(table: Seq<Seq<char>>, weight: Weight) -> WaveFunctionWeight {
    WaveFunctionWeight(WaveFunctionTileClassHandle(handle_of(table, weight.0@)), weight.1)
}

/// The weights whose tile name is known, in their order, over class handles.
pub open spec fn resolved_weights(weights: Seq<Weight>, table: Seq<Seq<char>>) -> Seq<
    WaveFunctionWeight,
> {
    weights.filter(|weight: Weight| weight_resolves(table, weight)).map_values(
        |weight: Weight| resolved_weight(table, weight),
    )
}

/// What one more item adds to a list that is filtered and then mapped.
proof fn lemma_filter_map_step<A, B>(
    items: Seq<A>,
    keep: spec_fn(A) -> bool,
    convert: spec_fn(A) -> B,
    n: int,
)
    requires
        0 <= n < items.len(),
    ensures
        items.take(n + 1).filter(keep).map_values(convert) == if keep(items[n]) {
            items.take(n).filter(keep).map_values(convert).push(convert(items[n]))
        } else {
            items.take(n).filter(keep).map_values(convert)
        },
{
    reveal(Seq::filter);
    assert(items.take(n + 1).drop_last() =~= items.take(n));
    assert(items.take(n + 1).last() == items[n]);
    if keep(items[n]) {
        assert(items.take(n + 1).filter(keep).map_values(convert) =~= items.take(n).filter(
            keep,
        ).map_values(convert).push(convert(items[n])));
    }
}

/// The rules of a definition over the handles of its edges; a rule that names
/// an unknown edge is left out.
fn resolve_rules(table: &Vec<String>, rules: &Vec<Rule>) -> (resolved: Vec<WaveFunctionRule>)
    requires
        names_of(table@).no_duplicates(),
    ensures
        resolved@ == resolved_rules(rules@, names_of(table@)),
        forall|i: int|
            0 <= i < resolved@.len() ==> (#[trigger] resolved@[i]).0.0 < table.len()
                && resolved@[i].1.0 < table.len(),
{
    let mut resolved: Vec<WaveFunctionRule> = Vec::new();
    let mut n: usize = 0;
    let ghost names = names_of(table@);
    broadcast use Seq::lemma_filter_len;

    assert(rules@.take(0) =~= Seq::empty());
    assert(resolved_rules(rules@.take(0), names) =~= Seq::empty());
    while n < rules.len()
        invariant
            n <= rules.len(),
            names == names_of(table@),
            names.no_duplicates(),
            resolved@ == resolved_rules(rules@.take(n as int), names),
            forall|i: int|
                0 <= i < resolved@.len() ==> (#[trigger] resolved@[i]).0.0 < table.len()
                    && resolved@[i].1.0 < table.len(),
        decreases rules.len() - n,
    {
        let rule = &rules[n];
        proof {
            lemma_filter_map_step(
                rules@,
                |rule: Rule| rule_resolves(names, rule),
                |rule: Rule| resolved_rule(names, rule),
                n as int,
            );
        }
        if let Some(leading_edge) = find_name(table, &rule.0) {
            if let Some(trailing_edge) = find_name(table, &rule.1) {
                proof {
                    lemma_handle_of(names, rule.0@, leading_edge as int);
                    lemma_handle_of(names, rule.1@, trailing_edge as int);
                }
                resolved.push(
                    WaveFunctionRule(
                        WaveFunctionEdgeHandle(leading_edge),
                        WaveFunctionEdgeHandle(trailing_edge),
                    ),
                );
            }
        }
        n += 1;
    }
    assert(rules@.take(n as int) =~= rules@);
    resolved
}

/// The weights of a definition over the handles of its tile classes; a weight
/// that names an unknown tile is left out.
fn resolve_weights(table: &Vec<String>, weights: &Vec<Weight>) -> (resolved: Vec<
    WaveFunctionWeight,
>)
    requires
        names_of(table@).no_duplicates(),
    ensures
        resolved@ == resolved_weights(weights@, names_of(table@)),
        forall|i: int| 0 <= i < resolved@.len() ==> (#[trigger] resolved@[i]).0.0 < table.len(),
{
    let mut resolved: Vec<WaveFunctionWeight> = Vec::new();
    let mut n: usize = 0;
    let ghost names = names_of(table@);
    broadcast use Seq::lemma_filter_len;

    assert(weights@.take(0) =~= Seq::empty());
    assert(resolved_weights(weights@.take(0), names) =~= Seq::empty());
    while n < weights.len()
        invariant
            n <= weights.len(),
            names == names_of(table@),
            names.no_duplicates(),
            resolved@ == resolved_weights(weights@.take(n as int), names),
            forall|i: int|
                0 <= i < resolved@.len() ==> (#[trigger] resolved@[i]).0.0 < table.len(),
        decreases weights.len() - n,
    {
        let weight = &weights[n];
        proof {
            lemma_filter_map_step(
                weights@,
                |weight: Weight| weight_resolves(names, weight),
                |weight: Weight| resolved_weight(names, weight),
                n as int,
            );
        }
        if let Some(class_handle) = find_name(table, &weight.0) {
            proof {
                lemma_handle_of(names, weight.0@, class_handle as int);
            }
            resolved.push(WaveFunctionWeight(WaveFunctionTileClassHandle(class_handle), weight.1));
        }
        n += 1;
    }
    assert(weights@.take(n as int) =~= weights@);
    resolved
}

/// The weight of a class: that of the first entry for it, 0 without one.
pub open spec fn class_weight(weights: Seq<WaveFunctionWeight>, class: WaveFunctionTileClassHandle) -> u64
    decreases weights.len(),
{
    if weights.len() == 0 {
        0
    } else if weights.first().0 == class {
        weights.first().1
    } else {
        class_weight(weights.drop_first(), class)
    }
}

/// The weight of the first entry for `class`, 0 without one.
fn lookup_weight(weights: &Vec<WaveFunctionWeight>, class: WaveFunctionTileClassHandle) -> (weight: u64)
    ensures
        weight == class_weight(weights@, class),
{
    let mut i: usize = 0;
    assert(weights@.skip(0) =~= weights@);
    while i < weights.len()
        invariant
            i <= weights.len(),
            class_weight(weights@, class) == class_weight(weights@.skip(i as int), class),
        decreases weights.len() - i,
    {
        if weights[i].0 == class {
            return weights[i].1;
        }
        assert(weights@.skip(i as int).drop_first() =~= weights@.skip(i as int + 1));
        i += 1;
    }
    0
}

/// The weight of the variant with the handle `tile`: that of its class; 0 for
/// a handle that names no variant.
pub open spec fn variant_weight(
    tiles: Seq<TileView>,
    weights: Seq<WaveFunctionWeight>,
    tile: int,
) -> nat {
    if 0 <= tile < tiles.len() {
        class_weight(weights, tiles[tile].class_id) as nat
    } else {
        0
    }
}

/// The weights of the variants with a handle below `n`, added up.
pub open spec fn weight_sum(tiles: Seq<TileView>, weights: Seq<WaveFunctionWeight>, n: int) -> nat
    decreases n,
{
    if n <= 0 {
        0
    } else {
        weight_sum(tiles, weights, n - 1) + variant_weight(tiles, weights, n - 1)
    }
}

/// Adding the weights of more variants never gives less.
pub proof fn lemma_weight_sum_grows(
    tiles: Seq<TileView>,
    weights: Seq<WaveFunctionWeight>,
    fewer: int,
    more: int,
)
    requires
        fewer <= more,
    ensures
        weight_sum(tiles, weights, fewer) <= weight_sum(tiles, weights, more),
    decreases more - fewer,
{
    if fewer < more {
        lemma_weight_sum_grows(tiles, weights, fewer, more - 1);
    }
}

/// A catalog as the contracts see it.
pub struct TilesetView {
    pub names: NameTables,
    pub tiles: Seq<TileView>,
    pub rules: Seq<WaveFunctionRule>,
    pub weights: Seq<WaveFunctionWeight>,
}

impl TilesetView {
    /// The weight of the variant with the handle `tile`.
    pub open spec fn tile_weight(self, tile: int) -> nat {
        variant_weight(self.tiles, self.weights, tile)
    }

    /// The weights of the variants with a handle below `n`, added up.
    pub open spec fn weight_below(self, n: int) -> nat {
        weight_sum(self.tiles, self.weights, n)
    }

    /// The weights of all variants, added up.
    pub open spec fn total_weight(self) -> nat {
        weight_sum(self.tiles, self.weights, self.tiles.len() as int)
    }

    /// Whether the edges `a` and `b` may touch: a rule pairs them, or no rule
    /// speaks of either.
    pub open spec fn may_touch(self, a: WaveFunctionEdgeHandle, b: WaveFunctionEdgeHandle) -> bool {
        compatible(self.rules, a, b) || (!constrained(self.rules, a) && !constrained(self.rules, b))
    }

    /// Whether the variant `other` may stand in `direction` next to the
    /// variant `tile`: the two edges that then meet may touch.
    pub open spec fn may_stand_beside(self, tile: int, other: int, direction: int) -> bool {
        &&& 0 <= tile < self.tiles.len()
        &&& 0 <= other < self.tiles.len()
        &&& self.may_touch(
            self.tiles[tile].edge_ids[direction],
            self.tiles[other].edge_ids[opposite(direction)],
        )
    }

    /// Whether every handle points to something, no name stands twice in a
    /// table, and the weights of all variants add up within 64 bits.
    pub open spec fn valid(self) -> bool {
        &&& self.names.distinct()
        &&& self.tiles.len() <= usize::MAX
        &&& forall|v: int|
            0 <= v < self.tiles.len() ==> tile_in_range(#[trigger] self.tiles[v], self.names)
        &&& forall|i: int|
            0 <= i < self.rules.len() ==> (#[trigger] self.rules[i]).0.0 < self.names.edge_ids.len()
                && self.rules[i].1.0 < self.names.edge_ids.len()
        &&& forall|i: int|
            0 <= i < self.weights.len() ==> (#[trigger] self.weights[i]).0.0
                < self.names.tile_ids.len()
        &&& self.total_weight() <= u64::MAX
    }
}

/// The catalog that a definition describes.
pub open spec fn catalog_view(data: TilesetData) -> TilesetView {
    let names = NameTables {
        tile_ids: interned(tile_names(data.tiles@)),
        edge_ids: interned(edge_names(data.tiles@)),
        texture_ids: interned(texture_names(data.tiles@)),
    };
    TilesetView {
        names,
        tiles: expand(data.tiles@, names),
        rules: resolved_rules(data.rules@, names.edge_ids),
        weights: resolved_weights(data.weights@, names.tile_ids),
    }
}

/// Whether a definition can be made a catalog: every tile names four edges,
/// and the weights of all variants add up within 64 bits.
pub open spec fn loadable(data: TilesetData) -> bool {
    well_shaped(data.tiles@) && catalog_view(data).total_weight() <= u64::MAX
}

/// Whether the tables know every name that the rules and the weights of the
/// definition use.
pub open spec fn fully_resolved(data: TilesetData, names: NameTables) -> bool {
    &&& forall|i: int|
        0 <= i < data.rules@.len() ==> rule_resolves(names.edge_ids, #[trigger] data.rules@[i])
    &&& forall|i: int|
        0 <= i < data.weights@.len() ==> weight_resolves(
            names.tile_ids,
            #[trigger] data.weights@[i],
        )
}

/// The handles of `count` variants, in ascending order.
pub open spec fn all_handles(count: nat) -> Seq<WaveFunctionTileHandle> {
    Seq::new(count, |i: int| WaveFunctionTileHandle(i as usize))
}

/// The weights of all variants added up, or `None` if the sum exceeds 64 bits.
fn catalog_weight(tiles: &Vec<WaveFunctionTile>, weights: &Vec<WaveFunctionWeight>) -> (total: Option<
    u64,
>)
    ensures
        match total {
            Some(sum) => sum == weight_sum(tile_views(tiles@), weights@, tiles@.len() as int),
            None => weight_sum(tile_views(tiles@), weights@, tiles@.len() as int) > u64::MAX,
        },
{
    let mut sum: u64 = 0;
    let mut v: usize = 0;
    while v < tiles.len()
        invariant
            v <= tiles.len(),
            sum == weight_sum(tile_views(tiles@), weights@, v as int),
        decreases tiles.len() - v,
    {
        let weight = lookup_weight(weights, tiles[v].class_id);
        assert(variant_weight(tile_views(tiles@), weights@, v as int) == weight);
        assert(weight_sum(tile_views(tiles@), weights@, v as int + 1) == sum + weight);
        match sum.checked_add(weight) {
            Some(next) => {
                sum = next;
            },
            None => {
                proof {
                    lemma_weight_sum_grows(
                        tile_views(tiles@),
                        weights@,
                        v as int + 1,
                        tiles@.len() as int,
                    );
                }
                return None;
            },
        }
        v += 1;
    }
    Some(sum)
}

/// The tile catalog: the interned names, the tile variants, the rules and the
/// weights of a definition, with what is derived from them once.
pub struct WaveFunctionTileset {
    tile_id_map: Vec<String>,
    edge_id_map: Vec<String>,
    texture_id_map: Vec<String>,
    tiles: Vec<WaveFunctionTile>,
    rules: Vec<WaveFunctionRule>,
    weights: Vec<WaveFunctionWeight>,
    high_entropy_cache: Vec<WaveFunctionTileHandle>,
    validity_cache: AdjacencyIndex,
}

impl WaveFunctionTileset {
    pub closed spec fn view(&self) -> TilesetView {
        TilesetView {
            names: tables_of(self.tile_id_map@, self.edge_id_map@, self.texture_id_map@),
            tiles: tile_views(self.tiles@),
            rules: self.rules@,
            weights: self.weights@,
        }
    }

    /// Whether what the catalog keeps beside its view is derived from it: the
    /// list of all handles, and the adjacency index.
    pub closed spec fn derived(&self) -> bool {
        &&& self.high_entropy_cache@ == all_handles(self.tiles@.len())
        &&& self.validity_cache.describes(tile_views(self.tiles@), self.rules@)
    }

    /// Whether the catalog is in order.
    pub open spec fn wf(&self) -> bool {
        self@.valid() && self.derived()
    }

    /// Builds the catalog of a definition. Names are interned in the order of
    /// their first occurrence, each tile gives one variant or four, rules and
    /// weights that name something unknown are left out.
    pub fn new(tileset_data: TilesetData) -> (built: Result<WaveFunctionTileset, WaveFunctionError>)
        ensures
            match built {
                Ok(tileset) => {
                    &&& loadable(tileset_data)
                    &&& tileset@ == catalog_view(tileset_data)
                    &&& tileset.wf()
                },
                Err(error) => error == WaveFunctionError::LoadError && !loadable(tileset_data),
            },
    {
        let (tile_id_map, edge_id_map, texture_id_map, tiles) = match load_tiles(
            &tileset_data.tiles,
        ) {
            Some(loaded) => loaded,
            None => {
                return Err(WaveFunctionError::LoadError);
            },
        };
        let rules = resolve_rules(&edge_id_map, &tileset_data.rules);
        let weights = resolve_weights(&tile_id_map, &tileset_data.weights);
        let ghost view = TilesetView {
            names: tables_of(tile_id_map@, edge_id_map@, texture_id_map@),
            tiles: tile_views(tiles@),
            rules: rules@,
            weights: weights@,
        };
        assert(view == catalog_view(tileset_data));
        if catalog_weight(&tiles, &weights).is_none() {
            return Err(WaveFunctionError::LoadError);
        }
        let mut high_entropy_cache: Vec<WaveFunctionTileHandle> = Vec::new();
        let mut handle: usize = 0;
        while handle < tiles.len()
            invariant
                handle <= tiles.len(),
                high_entropy_cache@ == all_handles(handle as nat),
            decreases tiles.len() - handle,
        {
            high_entropy_cache.push(WaveFunctionTileHandle(handle));
            assert(high_entropy_cache@ =~= all_handles((handle + 1) as nat));
            handle += 1;
        }
        let validity_cache = AdjacencyIndex::build(&tiles, &rules, edge_id_map.len());
        let tileset = WaveFunctionTileset {
            tile_id_map,
            edge_id_map,
            texture_id_map,
            tiles,
            rules,
            weights,
            high_entropy_cache,
            validity_cache,
        };
        assert(tileset@ == view);
        Ok(tileset)
    }

    /// Tells whether the catalog knows every edge that the rules of the
    /// definition name and every tile that its weights name. Those it does
    /// not know were left out when a catalog was built of the definition.
    pub fn check_references(&self, data: &TilesetData) -> (result: Result<(), WaveFunctionError>)
        ensures
            match result {
                Ok(()) => fully_resolved(*data, self@.names),
                Err(error) => error == WaveFunctionError::UnresolvedReference && !fully_resolved(
                    *data,
                    self@.names,
                ),
            },
    {
        let mut i: usize = 0;
        while i < data.rules.len()
            invariant
                i <= data.rules.len(),
                forall|k: int|
                    0 <= k < i ==> rule_resolves(self@.names.edge_ids, #[trigger] data.rules@[k]),
            decreases data.rules.len() - i,
        {
            let rule = &data.rules[i];
            match find_name(&self.edge_id_map, &rule.0) {
                Some(found) => {
                    assert(self@.names.edge_ids[found as int] == rule.0@);
                },
                None => {
                    return Err(WaveFunctionError::UnresolvedReference);
                },
            }
            match find_name(&self.edge_id_map, &rule.1) {
                Some(found) => {
                    assert(self@.names.edge_ids[found as int] == rule.1@);
                },
                None => {
                    return Err(WaveFunctionError::UnresolvedReference);
                },
            }
            i += 1;
        }
        let mut j: usize = 0;
        while j < data.weights.len()
            invariant
                j <= data.weights.len(),
                forall|k: int|
                    0 <= k < data.rules@.len() ==> rule_resolves(
                        self@.names.edge_ids,
                        #[trigger] data.rules@[k],
                    ),
                forall|k: int|
                    0 <= k < j ==> weight_resolves(
                        self@.names.tile_ids,
                        #[trigger] data.weights@[k],
                    ),
            decreases data.weights.len() - j,
        {
            let weight = &data.weights[j];
            match find_name(&self.tile_id_map, &weight.0) {
                Some(found) => {
                    assert(self@.names.tile_ids[found as int] == weight.0@);
                },
                None => {
                    return Err(WaveFunctionError::UnresolvedReference);
                },
            }
            j += 1;
        }
        Ok(())
    }

    /// The handle of an edge name, if the catalog knows the name.
    pub fn get_edge_handle(&self, edge: &String) -> (found: Option<WaveFunctionEdgeHandle>)
        requires
            self.wf(),
        ensures
            found == if self@.names.edge_ids.contains(edge@) {
                Some(WaveFunctionEdgeHandle(handle_of(self@.names.edge_ids, edge@)))
            } else {
                None
            },
            found matches Some(handle) ==> handle.0 < self@.names.edge_ids.len()
                && self@.names.edge_ids[handle.0 as int] == edge@,
    {
        if let Some(found) = find_name(&self.edge_id_map, edge) {
            proof {
                lemma_handle_of(self@.names.edge_ids, edge@, found as int);
            }
            Some(WaveFunctionEdgeHandle(found))
        } else {
            None
        }
    }

    /// The handle of a tile class, if the catalog knows the tile's name.
    pub fn get_tile_class_handle(&self, tile_id: &String) -> (found: Option<
        WaveFunctionTileClassHandle,
    >)
        requires
            self.wf(),
        ensures
            found == if self@.names.tile_ids.contains(tile_id@) {
                Some(WaveFunctionTileClassHandle(handle_of(self@.names.tile_ids, tile_id@)))
            } else {
                None
            },
            found matches Some(handle) ==> handle.0 < self@.names.tile_ids.len()
                && self@.names.tile_ids[handle.0 as int] == tile_id@,
    {
        if let Some(found) = find_name(&self.tile_id_map, tile_id) {
            proof {
                lemma_handle_of(self@.names.tile_ids, tile_id@, found as int);
            }
            Some(WaveFunctionTileClassHandle(found))
        } else {
            None
        }
    }

    /// The handles of all variants, in ascending order: the candidates of a
    /// cell of which nothing is known yet.
    pub fn get_high_entropy_cache_clone(&self) -> (all: Vec<WaveFunctionTileHandle>)
        requires
            self.wf(),
        ensures
            all@ == all_handles(self@.tiles.len()),
    {
        let all = self.high_entropy_cache.clone();
        assert(all@ =~= self.high_entropy_cache@);
        all
    }

    /// The number of variants.
    pub fn tile_count(&self) -> (count: usize)
        ensures
            count == self@.tiles.len(),
    {
        self.tiles.len()
    }

    /// The weight of a class: that of the first weight given for it, 0 if
    /// none was given.
    pub fn get_weight(&self, class_handle: &WaveFunctionTileClassHandle) -> (weight: u64)
        ensures
            weight == class_weight(self@.weights, *class_handle),
    {
        lookup_weight(&self.weights, *class_handle)
    }

    /// The class of a variant, if the handle names one.
    pub fn get_class_from_tile(&self, handle: &WaveFunctionTileHandle) -> (class: Option<
        WaveFunctionTileClassHandle,
    >)
        ensures
            class == if handle.0 < self@.tiles.len() {
                Some(self@.tiles[handle.0 as int].class_id)
            } else {
                None
            },
    {
        if handle.0 < self.tiles.len() {
            Some(self.tiles[handle.0].class_id)
        } else {
            None
        }
    }

    /// The weight with which a variant is chosen: that of its class, 0 for a
    /// handle that names no variant.
    pub fn get_tile_weight(&self, handle: &WaveFunctionTileHandle) -> (weight: u64)
        ensures
            weight == self@.tile_weight(handle.0 as int),
    {
        match self.get_class_from_tile(handle) {
            Some(class) => self.get_weight(&class),
            None => 0,
        }
    }

    /// A variant, if the handle names one.
    pub fn get_tile(&self, handle: &WaveFunctionTileHandle) -> (tile: Option<WaveFunctionTile>)
        ensures
            match tile {
                Some(tile) => handle.0 < self@.tiles.len() && tile@ == self@.tiles[handle.0 as int],
                None => handle.0 >= self@.tiles.len(),
            },
    {
        if handle.0 < self.tiles.len() {
            Some(self.tiles[handle.0])
        } else {
            None
        }
    }

    /// What a renderer needs of a variant: the name of its texture, and by how
    /// many quarter turns clockwise it is turned.
    pub fn get_render_data(&self, handle: &WaveFunctionTileHandle) -> (data: Option<(&String, u32)>)
        requires
            self.wf(),
        ensures
            match data {
                Some((texture, rotation)) => {
                    &&& handle.0 < self@.tiles.len()
                    &&& texture@ == self@.names.texture_ids[self@.tiles[handle.0 as int].texture_id.0 as int]
                    &&& rotation == self@.tiles[handle.0 as int].rotation
                },
                None => handle.0 >= self@.tiles.len(),
            },
    {
        if handle.0 < self.tiles.len() {
            let tile = &self.tiles[handle.0];
            assert(tile_in_range(self@.tiles[handle.0 as int], self@.names));
            Some((&self.texture_id_map[tile.texture_id.0], tile.rotation))
        } else {
            None
        }
    }

    /// The list that the adjacency index keeps for `edge` in `direction`, if
    /// it keeps one.
    pub closed spec fn valid_tiles(&self, direction: int, edge: WaveFunctionEdgeHandle) -> Option<
        Seq<WaveFunctionTileHandle>,
    > {
        if 0 <= direction < 4 {
            self.validity_cache.entry(direction, edge)
        } else {
            None
        }
    }

    /// The variants that may stand in `direction` next to a cell that shows
    /// `edge` on that side, in ascending order; `None` if no rule speaks of the
    /// edge, or if there is no such direction.
    pub fn get_valid_tiles(&self, direction: usize, edge: &WaveFunctionEdgeHandle) -> (found: Option<
        &Vec<WaveFunctionTileHandle>,
    >)
        requires
            self.wf(),
        ensures
            match found {
                Some(list) => {
                    &&& direction < 4
                    &&& self.valid_tiles(direction as int, *edge) == Some(list@)
                    &&& constrained(self@.rules, *edge)
                    &&& lists_legal_neighbors(
                        list@,
                        self@.tiles,
                        self@.rules,
                        direction as int,
                        *edge,
                    )
                },
                None => {
                    &&& self.valid_tiles(direction as int, *edge) is None
                    &&& direction < 4 ==> !constrained(self@.rules, *edge)
                },
            },
    {
        if direction < 4 {
            let found = self.validity_cache.get(direction, *edge);
            assert(self.validity_cache.describes(self@.tiles, self@.rules));
            found
        } else {
            None
        }
    }

    /// The adjacency index holds, for each edge that a rule speaks of and each
    /// direction, exactly the variants whose facing edge is compatible with
    /// it; for an edge of which no rule speaks it holds nothing.
    pub proof fn lemma_valid_tiles(&self, direction: int, edge: WaveFunctionEdgeHandle)
        requires
            self.wf(),
            0 <= direction < 4,
        ensures
            match self.valid_tiles(direction, edge) {
                Some(list) => constrained(self@.rules, edge) && lists_legal_neighbors(
                    list,
                    self@.tiles,
                    self@.rules,
                    direction,
                    edge,
                ),
                None => !constrained(self@.rules, edge),
            },
    {
    }

    /// For every rule `(a, b)`, the list for `a` upwards holds exactly the
    /// variants whose bottom edge is compatible with `a`, and the list for `b`
    /// downwards exactly those whose top edge is compatible with `b`.
    pub proof fn lemma_adjacency_symmetry(&self, rule: int)
        requires
            self.wf(),
            0 <= rule < self@.rules.len(),
        ensures
            ({
                let a = self@.rules[rule].0;
                let b = self@.rules[rule].1;
                &&& self.valid_tiles(DIRECTION_UP as int, a) matches Some(above)
                &&& self.valid_tiles(DIRECTION_DOWN as int, b) matches Some(below)
                &&& forall|v: usize|
                    above.contains(WaveFunctionTileHandle(v)) <==> v < self@.tiles.len() && compatible(
                        self@.rules,
                        a,
                        self@.tiles[v as int].edge_ids[DIRECTION_DOWN as int],
                    )
                &&& forall|v: usize|
                    below.contains(WaveFunctionTileHandle(v)) <==> v < self@.tiles.len() && compatible(
                        self@.rules,
                        b,
                        self@.tiles[v as int].edge_ids[DIRECTION_UP as int],
                    )
            }),
    {
        let a = self@.rules[rule].0;
        let b = self@.rules[rule].1;
        assert(names_edge(self@.rules[rule], a));
        assert(names_edge(self@.rules[rule], b));
        self.lemma_valid_tiles(DIRECTION_UP as int, a);
        self.lemma_valid_tiles(DIRECTION_DOWN as int, b);
        assert(opposite(DIRECTION_UP as int) == DIRECTION_DOWN);
        assert(opposite(DIRECTION_DOWN as int) == DIRECTION_UP);
        let above = self.valid_tiles(DIRECTION_UP as int, a)->0;
        let below = self.valid_tiles(DIRECTION_DOWN as int, b)->0;
        assert forall|v: usize|
            above.contains(WaveFunctionTileHandle(v)) <==> v < self@.tiles.len() && compatible(
                self@.rules,
                a,
                self@.tiles[v as int].edge_ids[DIRECTION_DOWN as int],
            ) by {
            assert(above.contains(WaveFunctionTileHandle(v)) <==> legal_neighbor(
                self@.tiles,
                self@.rules,
                DIRECTION_UP as int,
                a,
                v as int,
            ));
        }
        assert forall|v: usize|
            below.contains(WaveFunctionTileHandle(v)) <==> v < self@.tiles.len() && compatible(
                self@.rules,
                b,
                self@.tiles[v as int].edge_ids[DIRECTION_UP as int],
            ) by {
            assert(below.contains(WaveFunctionTileHandle(v)) <==> legal_neighbor(
                self@.tiles,
                self@.rules,
                DIRECTION_DOWN as int,
                b,
                v as int,
            ));
        }
    }
}

/// The number of variants that the tiles give: four for one that may rotate,
/// else one.
pub open spec fn variant_count(defs: Seq<TileData>) -> nat
    decreases defs.len(),
{
    if defs.len() == 0 {
        0
    } else {
        variant_count(defs.drop_last()) + if defs.last().can_rotate {
            4nat
        } else {
            1nat
        }
    }
}

/// The variants of the tiles are as many as counted.
proof fn lemma_expand_len(defs: Seq<TileData>, tables: NameTables)
    ensures
        expand(defs, tables).len() == variant_count(defs),
    decreases defs.len(),
{
    if defs.len() > 0 {
        lemma_expand_len(defs.drop_last(), tables);
        assert(expand(defs, tables) == expand(defs.drop_last(), tables) + variants_of(
            defs.last(),
            tables,
        ));
        assert(variants_of(defs.last(), tables).len() == if defs.last().can_rotate {
            4nat
        } else {
            1nat
        });
    }
}

/// The variants of the tile `i` follow those of the tiles before it.
proof fn lemma_expand_at(defs: Seq<TileData>, tables: NameTables, i: int)
    requires
        0 <= i < defs.len(),
    ensures
        variant_count(defs.take(i + 1)) == variant_count(defs.take(i)) + variants_of(
            defs[i],
            tables,
        ).len(),
        variant_count(defs.take(i + 1)) <= variant_count(defs),
        expand(defs, tables).len() == variant_count(defs),
        expand(defs, tables).subrange(
            variant_count(defs.take(i)) as int,
            variant_count(defs.take(i + 1)) as int,
        ) == variants_of(defs[i], tables),
    decreases defs.len(),
{
    let front = defs.drop_last();
    let whole = expand(defs, tables);
    let last = variants_of(defs.last(), tables);
    lemma_expand_len(defs, tables);
    lemma_expand_len(front, tables);
    assert(whole == expand(front, tables) + last);
    assert(last.len() == if defs.last().can_rotate {
        4nat
    } else {
        1nat
    });
    assert(defs.take(i + 1).drop_last() =~= defs.take(i));
    assert(defs.take(i + 1).last() == defs[i]);
    assert(variants_of(defs[i], tables).len() == if defs[i].can_rotate {
        4nat
    } else {
        1nat
    });
    if i == defs.len() - 1 {
        assert(defs.take(i + 1) =~= defs);
        assert(defs.take(i) =~= front);
        assert(whole.subrange(variant_count(front) as int, variant_count(defs) as int) =~= last);
    } else {
        lemma_expand_at(front, tables, i);
        assert(front.take(i + 1) =~= defs.take(i + 1));
        assert(front.take(i) =~= defs.take(i));
        assert(front[i] == defs[i]);
        let from = variant_count(defs.take(i)) as int;
        let to = variant_count(defs.take(i + 1)) as int;
        assert(to <= expand(front, tables).len());
        assert(whole.subrange(from, to) =~= expand(front, tables).subrange(from, to));
    }
}

/// A tile that may rotate, with the edges `[U, R, D, L]`, gives four variants of
/// one class: turned once `[L, U, R, D]`, twice `[D, L, U, R]`, three times
/// `[R, D, L, U]`, and last the tile as it is, `[U, R, D, L]`.
pub proof fn lemma_rotation_expansion(data: TilesetData, i: int)
    requires
        0 <= i < data.tiles@.len(),
        data.tiles@[i].can_rotate,
    ensures
        ({
            let view = catalog_view(data);
            let first = variant_count(data.tiles@.take(i)) as int;
            let base = base_tile(data.tiles@[i], view.names);
            let (u, r, d, l) = (
                base.edge_ids[0],
                base.edge_ids[1],
                base.edge_ids[2],
                base.edge_ids[3],
            );
            &&& first + 4 <= view.tiles.len()
            &&& view.tiles[first].rotation == 1
            &&& view.tiles[first].edge_ids == seq![l, u, r, d]
            &&& view.tiles[first + 1].rotation == 2
            &&& view.tiles[first + 1].edge_ids == seq![d, l, u, r]
            &&& view.tiles[first + 2].rotation == 3
            &&& view.tiles[first + 2].edge_ids == seq![r, d, l, u]
            &&& view.tiles[first + 3].rotation == 0
            &&& view.tiles[first + 3].edge_ids == seq![u, r, d, l]
            &&& forall|k: int|
                first <= k < first + 4 ==> (#[trigger] view.tiles[k]).class_id == base.class_id
                    && view.tiles[k].texture_id == base.texture_id
        }),
{
    let view = catalog_view(data);
    let defs = data.tiles@;
    let first = variant_count(defs.take(i)) as int;
    let base = base_tile(defs[i], view.names);
    lemma_expand_at(defs, view.names, i);
    let part = view.tiles.subrange(first, first + 4);
    assert(part == variants_of(defs[i], view.names));
    assert(view.tiles[first] == part[0]);
    assert(view.tiles[first + 1] == part[1]);
    assert(view.tiles[first + 2] == part[2]);
    assert(view.tiles[first + 3] == part[3]);
    assert(rotated(base, 1).edge_ids =~= seq![
        base.edge_ids[3],
        base.edge_ids[0],
        base.edge_ids[1],
        base.edge_ids[2],
    ]);
    assert(rotated(base, 2).edge_ids =~= seq![
        base.edge_ids[2],
        base.edge_ids[3],
        base.edge_ids[0],
        base.edge_ids[1],
    ]);
    assert(rotated(base, 3).edge_ids =~= seq![
        base.edge_ids[1],
        base.edge_ids[2],
        base.edge_ids[3],
        base.edge_ids[0],
    ]);
    assert(base.edge_ids =~= seq![
        base.edge_ids[0],
        base.edge_ids[1],
        base.edge_ids[2],
        base.edge_ids[3],
    ]);
}

} // verus!
