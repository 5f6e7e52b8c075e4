use crate::error::WaveFunctionError;
use crate::tile::{
    ascending, compatible, constrained, legal_neighbor, lemma_compatible_constrained, opposite,
    WaveFunctionTileHandle,
};
use crate::tileset::{all_handles, TilesetView, WaveFunctionTileset};
use vstd::prelude::*;

verus! {

/// The weights of the first `n` candidates, added up.
pub open spec fn weight_before(
    tileset: TilesetView,
    candidates: Seq<WaveFunctionTileHandle>,
    n: int,
) -> nat
    decreases n,
{
    if n <= 0 {
        0
    } else {
        weight_before(tileset, candidates, n - 1) + tileset.tile_weight(candidates[n - 1].0 as int)
    }
}

/// The weights of all candidates, added up.
pub open spec fn cell_weight(tileset: TilesetView, candidates: Seq<WaveFunctionTileHandle>) -> nat {
    weight_before(tileset, candidates, candidates.len() as int)
}

/// Whether the draw falls on the candidate at `index`: the weights before it
/// add up to no more than the draw, and with its own to more.
pub open spec fn draw_selects(
    tileset: TilesetView,
    candidates: Seq<WaveFunctionTileHandle>,
    draw: int,
    index: int,
) -> bool {
    &&& 0 <= index < candidates.len()
    &&& weight_before(tileset, candidates, index) <= draw < weight_before(
        tileset,
        candidates,
        index + 1,
    )
}

/// The weights of more candidates never add up to less.
pub proof fn lemma_weight_before_grows(
    tileset: TilesetView,
    candidates: Seq<WaveFunctionTileHandle>,
    fewer: int,
    more: int,
)
    requires
        fewer <= more,
    ensures
        weight_before(tileset, candidates, fewer) <= weight_before(tileset, candidates, more),
    decreases more - fewer,
{
    if fewer < more {
        lemma_weight_before_grows(tileset, candidates, fewer, more - 1);
    }
}

/// A draw falls on one candidate at most.
pub proof fn lemma_draw_selects_one(
    tileset: TilesetView,
    candidates: Seq<WaveFunctionTileHandle>,
    draw: int,
    one: int,
    other: int,
)
    requires
        draw_selects(tileset, candidates, draw, one),
        draw_selects(tileset, candidates, draw, other),
    ensures
        one == other,
{
    if one < other {
        lemma_weight_before_grows(tileset, candidates, one + 1, other);
    }
    if other < one {
        lemma_weight_before_grows(tileset, candidates, other + 1, one);
    }
}

/// Handles that name no variant add nothing to the sum of the weights.
proof fn lemma_weight_below_beyond(tileset: TilesetView, n: int)
    requires
        n >= tileset.tiles.len(),
    ensures
        tileset.weight_below(n) == tileset.total_weight(),
    decreases n,
{
    if n > tileset.tiles.len() {
        lemma_weight_below_beyond(tileset, n - 1);
    }
}

/// The weights of candidates in ascending order add up to no more than those
/// of all variants up to the last of them.
proof fn lemma_weight_before_bounded(
    tileset: TilesetView,
    candidates: Seq<WaveFunctionTileHandle>,
    n: int,
)
    requires
        ascending(candidates),
        0 <= n <= candidates.len(),
    ensures
        weight_before(tileset, candidates, n) <= tileset.weight_below(
            if n == 0 {
                0
            } else {
                candidates[n - 1].0 + 1
            },
        ),
        weight_before(tileset, candidates, n) <= tileset.total_weight(),
    decreases n,
{
    if n > 0 {
        lemma_weight_before_bounded(tileset, candidates, n - 1);
        let last = candidates[n - 1].0 as int;
        let before = if n == 1 {
            0
        } else {
            candidates[n - 2].0 + 1
        };
        crate::tileset::lemma_weight_sum_grows(tileset.tiles, tileset.weights, before, last);
        assert(tileset.weight_below(last + 1) == tileset.weight_below(last) + tileset.tile_weight(
            last,
        ));
        if last + 1 >= tileset.tiles.len() {
            lemma_weight_below_beyond(tileset, last + 1);
        } else {
            crate::tileset::lemma_weight_sum_grows(
                tileset.tiles,
                tileset.weights,
                last + 1,
                tileset.tiles.len() as int,
            );
        }
    }
}

/// What is left of the candidates when the cell is decided by `draw`: the one
/// on which the draw, reduced below the sum of the weights, falls.
pub open spec fn decided_by(
    tileset: TilesetView,
    candidates: Seq<WaveFunctionTileHandle>,
    draw: int,
) -> Seq<WaveFunctionTileHandle> {
    let target = draw % (cell_weight(tileset, candidates) as int);
    seq![candidates[choose|index: int| draw_selects(tileset, candidates, target, index)]]
}

/// Whether the variant `other` may stand in `direction` next to a cell with
/// the candidates `source`: next to one of them it may stand.
pub open spec fn allowed_beside(
    tileset: TilesetView,
    source: Seq<WaveFunctionTileHandle>,
    direction: int,
    other: WaveFunctionTileHandle,
) -> bool {
    exists|i: int|
        0 <= i < source.len() && tileset.may_stand_beside(
            (#[trigger] source[i]).0 as int,
            other.0 as int,
            direction,
        )
}

/// A variant that may stand next to a cell may stand next to any cell that
/// has the candidates of that one.
pub proof fn lemma_allowed_beside_grows(
    tileset: TilesetView,
    fewer: Seq<WaveFunctionTileHandle>,
    more: Seq<WaveFunctionTileHandle>,
    direction: int,
    other: WaveFunctionTileHandle,
)
    requires
        forall|i: int| 0 <= i < fewer.len() ==> more.contains(#[trigger] fewer[i]),
        allowed_beside(tileset, fewer, direction, other),
    ensures
        allowed_beside(tileset, more, direction, other),
{
    let i = choose|i: int|
        0 <= i < fewer.len() && tileset.may_stand_beside(
            (#[trigger] fewer[i]).0 as int,
            other.0 as int,
            direction,
        );
    let j = more.index_of(fewer[i]);
    assert(tileset.may_stand_beside(more[j].0 as int, other.0 as int, direction));
}

/// Whether a rule pairs the edge that one of the first `n` candidates shows in
/// `direction` with the edge that `other` shows on the facing side.
spec fn paired_beside(
    tileset: TilesetView,
    source: Seq<WaveFunctionTileHandle>,
    n: int,
    direction: int,
    other: int,
) -> bool {
    exists|i: int|
        0 <= i < n && (#[trigger] source[i]).0 < tileset.tiles.len() && compatible(
            tileset.rules,
            tileset.tiles[source[i].0 as int].edge_ids[direction],
            tileset.tiles[other].edge_ids[opposite(direction)],
        )
}

/// Whether one of the first `n` candidates shows in `direction` an edge of
/// which no rule speaks.
spec fn loose_beside(
    tileset: TilesetView,
    source: Seq<WaveFunctionTileHandle>,
    n: int,
    direction: int,
) -> bool {
    exists|i: int|
        0 <= i < n && (#[trigger] source[i]).0 < tileset.tiles.len() && !constrained(
            tileset.rules,
            tileset.tiles[source[i].0 as int].edge_ids[direction],
        )
}

/// A variant may stand next to a cell if a rule pairs its facing edge with
/// that of a candidate, or if no rule speaks of its facing edge nor of that of
/// some candidate.
proof fn lemma_allowed_beside(
    tileset: TilesetView,
    source: Seq<WaveFunctionTileHandle>,
    direction: int,
    other: int,
)
    requires
        0 <= other < tileset.tiles.len(),
        other <= usize::MAX,
    ensures
        allowed_beside(tileset, source, direction, WaveFunctionTileHandle(other as usize)) <==> (
        paired_beside(tileset, source, source.len() as int, direction, other) || (loose_beside(
            tileset,
            source,
            source.len() as int,
            direction,
        ) && !constrained(tileset.rules, tileset.tiles[other].edge_ids[opposite(direction)]))),
{
    let handle = WaveFunctionTileHandle(other as usize);
    let facing = tileset.tiles[other].edge_ids[opposite(direction)];
    if allowed_beside(tileset, source, direction, handle) {
        let i = choose|i: int|
            0 <= i < source.len() && tileset.may_stand_beside(
                (#[trigger] source[i]).0 as int,
                other,
                direction,
            );
        let shown = tileset.tiles[source[i].0 as int].edge_ids[direction];
        if !compatible(tileset.rules, shown, facing) {
            assert(!constrained(tileset.rules, shown));
        }
    }
    if paired_beside(tileset, source, source.len() as int, direction, other) {
        let i = choose|i: int|
            0 <= i < source.len() && (#[trigger] source[i]).0 < tileset.tiles.len() && compatible(
                tileset.rules,
                tileset.tiles[source[i].0 as int].edge_ids[direction],
                facing,
            );
        assert(tileset.may_stand_beside(source[i].0 as int, other, direction));
    }
    if loose_beside(tileset, source, source.len() as int, direction) && !constrained(
        tileset.rules,
        facing,
    ) {
        let i = choose|i: int|
            0 <= i < source.len() && (#[trigger] source[i]).0 < tileset.tiles.len() && !constrained(
                tileset.rules,
                tileset.tiles[source[i].0 as int].edge_ids[direction],
            );
        assert(tileset.may_stand_beside(source[i].0 as int, other, direction));
    }
}

/// A cell of the grid: the variants that may still stand there. A cell with
/// one candidate is decided, a cell with none is a contradiction.
pub struct WaveFunctionCell {
    states: Vec<WaveFunctionTileHandle>,
}

impl WaveFunctionCell {
    /// The candidates, in the order in which they are walked.
    pub closed spec fn view(&self) -> Seq<WaveFunctionTileHandle> {
        self.states@
    }

    /// Whether the candidates stand in ascending order, each once.
    pub open spec fn wf(&self) -> bool {
        ascending(self@)
    }

    /// A cell of which nothing is known: every variant of the catalog is a candidate.
    pub fn new_empty(tileset: &WaveFunctionTileset) -> (cell: Self)
        requires
            tileset.wf(),
        ensures
            cell@ == all_handles(tileset@.tiles.len()),
            cell.wf(),
    {
        WaveFunctionCell { states: tileset.get_high_entropy_cache_clone() }
    }

    /// A decided cell.
    pub fn new_collapsed(state: WaveFunctionTileHandle) -> (cell: Self)
        ensures
            cell@ == seq![state],
            cell.wf(),
    {
        let mut states = Vec::new();
        states.push(state);
        let cell = WaveFunctionCell { states };
        assert(cell@ =~= seq![state]);
        cell
    }

    /// The number of candidates.
    #[inline]
    pub fn get_entropy(&self) -> (entropy: usize)
        ensures
            entropy == self@.len(),
    {
        self.states.len()
    }

    /// The tile of a decided cell; `None` for a cell with no candidate or with
    /// more than one.
    pub fn get_tile_data(&self) -> (tile: Option<WaveFunctionTileHandle>)
        ensures
            tile == if self@.len() == 1 {
                Some(self@[0])
            } else {
                None
            },
    {
        if self.get_entropy() == 1 {
            Some(self.states[0])
        } else {
            None
        }
    }

    /// Whether `handle` is a candidate.
    pub fn has_candidate(&self, handle: &WaveFunctionTileHandle) -> (found: bool)
        ensures
            found == self@.contains(*handle),
    {
        contains_handle(&self.states, handle)
    }

    /// The weights of the candidates, added up.
    pub fn total_weight(&self, tileset: &WaveFunctionTileset) -> (total: u64)
        requires
            self.wf(),
            tileset.wf(),
        ensures
            total == cell_weight(tileset@, self@),
    {
        let mut total: u64 = 0;
        let mut i: usize = 0;
        while i < self.states.len()
            invariant
                i <= self.states.len(),
                self.wf(),
                tileset.wf(),
                total == weight_before(tileset@, self@, i as int),
            decreases self.states.len() - i,
        {
            let weight = tileset.get_tile_weight(&self.states[i]);
            proof {
                lemma_weight_before_bounded(tileset@, self@, i as int + 1);
            }
            total = total + weight;
            i += 1;
        }
        total
    }

    /// Decides the cell by a draw: walks the candidates in order, and takes the
    /// one on whose weight the draw, reduced below the sum of all weights,
    /// falls. A cell whose candidates have no weight is left as it is and
    /// reported as a contradiction.
    pub fn collapse_with(&mut self, tileset: &WaveFunctionTileset, draw: u64) -> (result: Result<
        (),
        WaveFunctionError,
    >)
        requires
            old(self).wf(),
            tileset.wf(),
        ensures
            final(self).wf(),
            match result {
                Ok(()) => {
                    let total = cell_weight(tileset@, old(self)@);
                    &&& total > 0
                    &&& final(self)@.len() == 1
                    &&& exists|index: int|
                        draw_selects(tileset@, old(self)@, (draw as int) % (total as int), index)
                            && final(self)@[0] == #[trigger] old(self)@[index]
                    &&& final(self)@ == decided_by(tileset@, old(self)@, draw as int)
                },
                Err(error) => {
                    &&& error == WaveFunctionError::Contradiction
                    &&& cell_weight(tileset@, old(self)@) == 0
                    &&& final(self)@ == old(self)@
                },
            },
    {
        let total = self.total_weight(tileset);
        if total == 0 {
            return Err(WaveFunctionError::Contradiction);
        }
        let target = draw % total;
        let mut passed: u64 = 0;
        let mut i: usize = 0;
        while i < self.states.len()
            invariant
                i <= self.states.len(),
                self.wf(),
                tileset.wf(),
                self@ == old(self)@,
                total == cell_weight(tileset@, self@),
                target == draw % total,
                target < total,
                passed == weight_before(tileset@, self@, i as int),
                passed <= target,
            decreases self.states.len() - i,
        {
            let weight = tileset.get_tile_weight(&self.states[i]);
            proof {
                lemma_weight_before_bounded(tileset@, self@, i as int + 1);
            }
            if target - passed < weight {
                let selected = self.states[i];
                let mut states = Vec::new();
                states.push(selected);
                self.states = states;
                proof {
                    assert(draw_selects(tileset@, old(self)@, target as int, i as int));
                    let chosen = choose|index: int|
                        draw_selects(tileset@, old(self)@, target as int, index);
                    lemma_draw_selects_one(tileset@, old(self)@, target as int, chosen, i as int);
                    assert(self@ =~= decided_by(tileset@, old(self)@, draw as int));
                }
                return Ok(());
            }
            passed = passed + weight;
            i += 1;
        }
        proof {
            assert(false);
        }
        Err(WaveFunctionError::Contradiction)
    }

    /// Decides the cell by a random draw among its candidates, each with the
    /// weight of its class; a candidate without weight is never taken. A cell
    /// whose candidates have no weight, and so a cell without candidates, is
    /// left as it is and reported as a contradiction.
    pub fn collapse(&mut self, tileset: &WaveFunctionTileset) -> (result: Result<
        (),
        WaveFunctionError,
    >)
        requires
            old(self).wf(),
            tileset.wf(),
        ensures
            final(self).wf(),
            match result {
                Ok(()) => {
                    &&& cell_weight(tileset@, old(self)@) > 0
                    &&& final(self)@.len() == 1
                    &&& exists|index: int|
                        0 <= index < old(self)@.len() && tileset@.tile_weight(
                            (#[trigger] old(self)@[index]).0 as int,
                        ) > 0 && final(self)@[0] == old(self)@[index]
                    &&& exists|draw: u64|
                        final(self)@ == #[trigger] decided_by(tileset@, old(self)@, draw as int)
                },
                Err(error) => {
                    &&& error == WaveFunctionError::Contradiction
                    &&& cell_weight(tileset@, old(self)@) == 0
                    &&& final(self)@ == old(self)@
                },
            },
            old(self)@.len() == 0 ==> result is Err,
    {
        let total = self.total_weight(tileset);
        if total == 0 {
            return Err(WaveFunctionError::Contradiction);
        }
        let draw = uniform_draw(total);
        let result = self.collapse_with(tileset, draw);
        proof {
            let target = (draw as int) % (total as int);
            let index = choose|index: int|
                draw_selects(tileset@, old(self)@, target, index) && self@[0]
                    == #[trigger] old(self)@[index];
            assert(tileset@.tile_weight(old(self)@[index].0 as int) > 0);
        }
        result
    }

    /// For each variant, whether a rule pairs its facing edge with the edge
    /// that some candidate shows in `direction`; and whether some candidate
    /// shows there an edge of which no rule speaks.
    fn paired_neighbors(&self, tileset: &WaveFunctionTileset, direction: usize) -> (found: (
        Vec<bool>,
        bool,
    ))
        requires
            tileset.wf(),
            direction < 4,
        ensures
            found.0@.len() == tileset@.tiles.len(),
            forall|u: int|
                0 <= u < tileset@.tiles.len() ==> (#[trigger] found.0@[u] <==> paired_beside(
                    tileset@,
                    self@,
                    self@.len() as int,
                    direction as int,
                    u,
                )),
            found.1 <==> loose_beside(tileset@, self@, self@.len() as int, direction as int),
    {
        let count = tileset.tile_count();
        let mut mask: Vec<bool> = Vec::new();
        let mut fill: usize = 0;
        while fill < count
            invariant
                fill <= count,
                mask@.len() == fill,
                forall|u: int| 0 <= u < fill ==> !#[trigger] mask@[u],
            decreases count - fill,
        {
            mask.push(false);
            fill += 1;
        }
        let mut loose = false;
        let mut i: usize = 0;
        while i < self.states.len()
            invariant
                i <= self.states.len(),
                tileset.wf(),
                direction < 4,
                count == tileset@.tiles.len(),
                mask@.len() == count,
                forall|u: int|
                    0 <= u < count ==> (#[trigger] mask@[u] <==> paired_beside(
                        tileset@,
                        self@,
                        i as int,
                        direction as int,
                        u,
                    )),
                loose <==> loose_beside(tileset@, self@, i as int, direction as int),
            decreases self.states.len() - i,
        {
            let ghost before = mask@;
            proof {
                lemma_loose_step(tileset@, self@, i as int, direction as int);
                assert forall|u: int| 0 <= u < count implies (paired_beside(
                    tileset@,
                    self@,
                    i as int + 1,
                    direction as int,
                    u,
                ) <==> before[u] || (self@[i as int].0 < count && compatible(
                    tileset@.rules,
                    tileset@.tiles[self@[i as int].0 as int].edge_ids[direction as int],
                    tileset@.tiles[u].edge_ids[opposite(direction as int)],
                ))) by {
                    lemma_paired_step(tileset@, self@, i as int, direction as int, u);
                }
            }
            if let Some(tile) = tileset.get_tile(&self.states[i]) {
                let edge = tile.edge_ids[direction];
                assert(edge == tileset@.tiles[self@[i as int].0 as int].edge_ids[direction as int]);
                match tileset.get_valid_tiles(direction, &edge) {
                    Some(list) => {
                        assert forall|p: int| 0 <= p < list@.len() implies (#[trigger] list@[p]).0
                            < count by {
                            assert(list@.contains(WaveFunctionTileHandle(list@[p].0)));
                            assert(legal_neighbor(
                                tileset@.tiles,
                                tileset@.rules,
                                direction as int,
                                edge,
                                list@[p].0 as int,
                            ));
                        }
                        mark_listed(&mut mask, list);
                        proof {
                            assert forall|u: int| 0 <= u < count implies (#[trigger] mask@[u]
                                <==> before[u] || compatible(
                                tileset@.rules,
                                edge,
                                tileset@.tiles[u].edge_ids[opposite(direction as int)],
                            )) by {
                                assert(list@.contains(WaveFunctionTileHandle(u as usize))
                                    <==> legal_neighbor(
                                    tileset@.tiles,
                                    tileset@.rules,
                                    direction as int,
                                    edge,
                                    u,
                                ));
                            }
                        }
                    },
                    None => {
                        proof {
                            assert forall|u: int| 0 <= u < count implies !compatible(
                                tileset@.rules,
                                edge,
                                tileset@.tiles[u].edge_ids[opposite(direction as int)],
                            ) by {
                                if compatible(
                                    tileset@.rules,
                                    edge,
                                    tileset@.tiles[u].edge_ids[opposite(direction as int)],
                                ) {
                                    lemma_compatible_constrained(
                                        tileset@.rules,
                                        edge,
                                        tileset@.tiles[u].edge_ids[opposite(direction as int)],
                                    );
                                }
                            }
                        }
                        loose = true;
                    },
                }
            }
            i += 1;
        }
        (mask, loose)
    }

    /// The variants that may stand in `direction` next to this cell, in
    /// ascending order: those whose facing edge may touch the edge that one of
    /// the candidates shows on that side. Only the adjacency index is asked.
    pub fn allowed_neighbors(&self, tileset: &WaveFunctionTileset, direction: usize) -> (allowed: Vec<
        WaveFunctionTileHandle,
    >)
        requires
            tileset.wf(),
            direction < 4,
        ensures
            ascending(allowed@),
            forall|other: WaveFunctionTileHandle|
                allowed@.contains(other) <==> allowed_beside(
                    tileset@,
                    self@,
                    direction as int,
                    other,
                ),
    {
        let count = tileset.tile_count();
        let facing = (direction + 2) % 4;
        let (mask, loose) = self.paired_neighbors(tileset, direction);
        let mut allowed: Vec<WaveFunctionTileHandle> = Vec::new();
        let mut other: usize = 0;
        while other < count
            invariant
                other <= count,
                tileset.wf(),
                direction < 4,
                facing == opposite(direction as int),
                count == tileset@.tiles.len(),
                mask@.len() == count,
                forall|u: int|
                    0 <= u < count ==> (#[trigger] mask@[u] <==> paired_beside(
                        tileset@,
                        self@,
                        self@.len() as int,
                        direction as int,
                        u,
                    )),
                loose <==> loose_beside(tileset@, self@, self@.len() as int, direction as int),
                ascending(allowed@),
                forall|k: int| 0 <= k < allowed@.len() ==> (#[trigger] allowed@[k]).0 < other,
                forall|u: usize|
                    allowed@.contains(WaveFunctionTileHandle(u)) <==> u < other && allowed_beside(
                        tileset@,
                        self@,
                        direction as int,
                        WaveFunctionTileHandle(u),
                    ),
            decreases count - other,
        {
            let ghost before = allowed@;
            let mut take = mask[other];
            if !take && loose {
                if let Some(tile) = tileset.get_tile(&WaveFunctionTileHandle(other)) {
                    let edge = tile.edge_ids[facing];
                    take = tileset.get_valid_tiles(facing, &edge).is_none();
                }
            }
            proof {
                lemma_allowed_beside(tileset@, self@, direction as int, other as int);
            }
            if take {
                allowed.push(WaveFunctionTileHandle(other));
            }
            proof {
                lemma_pushed_in_order(before, allowed@, other, take);
            }
            other += 1;
        }
        proof {
            assert forall|other: WaveFunctionTileHandle|
                allowed@.contains(other) <==> allowed_beside(
                    tileset@,
                    self@,
                    direction as int,
                    other,
                ) by {
                assert(WaveFunctionTileHandle(other.0) == other);
            }
        }
        allowed
    }

    /// Keeps the candidates that are among `allowed_variants`, and says
    /// whether any was dropped.
    pub fn restrict(&mut self, allowed_variants: &Vec<WaveFunctionTileHandle>) -> (changed: bool)
        requires
            old(self).wf(),
        ensures
            final(self).wf(),
            final(self)@ == old(self)@.filter(
                |handle: WaveFunctionTileHandle| allowed_variants@.contains(handle),
            ),
            final(self)@.len() <= old(self)@.len(),
            changed == (final(self)@.len() != old(self)@.len()),
            changed == (final(self)@ != old(self)@),
            forall|k: int|
                0 <= k < final(self)@.len() ==> old(self)@.contains(#[trigger] final(self)@[k])
                    && allowed_variants@.contains(final(self)@[k]),
            forall|k: int|
                0 <= k < old(self)@.len() && allowed_variants@.contains(old(self)@[k])
                    ==> final(self)@.contains(#[trigger] old(self)@[k]),
            (forall|k: int|
                0 <= k < old(self)@.len() ==> allowed_variants@.contains(#[trigger] old(self)@[k]))
                ==> final(self)@ == old(self)@,
    {
        let ghost keep = |handle: WaveFunctionTileHandle| allowed_variants@.contains(handle);
        let mut kept: Vec<WaveFunctionTileHandle> = Vec::new();
        let mut i: usize = 0;
        proof {
            reveal(Seq::filter);
            assert(self@.take(0) =~= Seq::empty());
        }
        while i < self.states.len()
            invariant
                i <= self.states.len(),
                self.wf(),
                self@ == old(self)@,
                keep == |handle: WaveFunctionTileHandle| allowed_variants@.contains(handle),
                kept@ == self@.take(i as int).filter(keep),
                kept@.len() <= i,
                ascending(kept@),
                forall|k: int|
                    0 <= k < kept@.len() ==> exists|j: int|
                        0 <= j < i && self@[j] == #[trigger] kept@[k],
                forall|k: int|
                    0 <= k < kept@.len() ==> allowed_variants@.contains(#[trigger] kept@[k]),
                forall|k: int|
                    0 <= k < i && allowed_variants@.contains(self@[k]) ==> kept@.contains(
                        #[trigger] self@[k],
                    ),
                kept@.len() == i ==> kept@ == self@.take(i as int),
                (forall|k: int| 0 <= k < i ==> allowed_variants@.contains(#[trigger] self@[k]))
                    ==> kept@.len() == i,
            decreases self.states.len() - i,
        {
            let handle = self.states[i];
            proof {
                reveal(Seq::filter);
                assert(self@.take(i as int + 1).drop_last() =~= self@.take(i as int));
                assert(self@.take(i as int + 1).last() == handle);
            }
            let ghost kept_before = kept@;
            if contains_handle(allowed_variants, &handle) {
                kept.push(handle);
                proof {
                    assert(kept@[kept_before.len() as int] == handle);
                    assert forall|k: int|
                        0 <= k < i + 1 && allowed_variants@.contains(self@[k]) implies kept@.contains(
                        #[trigger] self@[k],
                    ) by {
                        if k < i {
                            let p = kept_before.index_of(self@[k]);
                            assert(kept@[p] == self@[k]);
                        }
                    }
                    assert(kept@.len() == i + 1 ==> kept@ =~= self@.take(i as int + 1));
                    assert forall|k: int| 0 <= k < kept@.len() implies exists|j: int|
                        0 <= j < i + 1 && self@[j] == #[trigger] kept@[k] by {
                        if k == kept@.len() - 1 {
                            assert(self@[i as int] == kept@[k]);
                        } else {
                            let j = choose|j: int| 0 <= j < i && self@[j] == kept@.drop_last()[k];
                            assert(self@[j] == kept@[k]);
                        }
                    }
                }
            }
            i += 1;
        }
        proof {
            assert(self@.take(i as int) =~= self@);
        }
        let changed = kept.len() != self.states.len();
        self.states = kept;
        changed
    }
}

/// A list of handles below `next`, to which `next` is added or not, holds
/// what it held and, if added, `next`.
proof fn lemma_pushed_in_order(
    before: Seq<WaveFunctionTileHandle>,
    after: Seq<WaveFunctionTileHandle>,
    next: usize,
    pushed: bool,
)
    requires
        ascending(before),
        forall|k: int| 0 <= k < before.len() ==> (#[trigger] before[k]).0 < next,
        after == if pushed {
            before.push(WaveFunctionTileHandle(next))
        } else {
            before
        },
    ensures
        ascending(after),
        forall|k: int| 0 <= k < after.len() ==> (#[trigger] after[k]).0 < next + 1,
        forall|u: usize|
            after.contains(WaveFunctionTileHandle(u)) <==> before.contains(WaveFunctionTileHandle(u))
                || (pushed && u == next),
{
    assert forall|u: usize|
        after.contains(WaveFunctionTileHandle(u)) <==> before.contains(WaveFunctionTileHandle(u))
            || (pushed && u == next) by {
        if before.contains(WaveFunctionTileHandle(u)) {
            let k = before.index_of(WaveFunctionTileHandle(u));
            assert(after[k] == WaveFunctionTileHandle(u));
        }
        if pushed && u == next {
            assert(after[before.len() as int] == WaveFunctionTileHandle(u));
        }
        if after.contains(WaveFunctionTileHandle(u)) {
            let k = after.index_of(WaveFunctionTileHandle(u));
            if k < before.len() {
                assert(before[k] == WaveFunctionTileHandle(u));
            }
        }
    }
}

/// Marks in `mask` the variants that stand in `list`.
fn mark_listed(mask: &mut Vec<bool>, list: &Vec<WaveFunctionTileHandle>)
    requires
        forall|p: int| 0 <= p < list@.len() ==> (#[trigger] list@[p]).0 < old(mask)@.len(),
    ensures
        final(mask)@.len() == old(mask)@.len(),
        forall|u: int|
            0 <= u < old(mask)@.len() ==> (#[trigger] final(mask)@[u] <==> old(mask)@[u]
                || list@.contains(WaveFunctionTileHandle(u as usize))),
{
    let mut j: usize = 0;
    while j < list.len()
        invariant
            j <= list.len(),
            mask@.len() == old(mask)@.len(),
            forall|p: int| 0 <= p < list@.len() ==> (#[trigger] list@[p]).0 < mask@.len(),
            forall|u: int|
                0 <= u < mask@.len() ==> (#[trigger] mask@[u] <==> old(mask)@[u] || exists|p: int|
                    0 <= p < j && (#[trigger] list@[p]).0 == u),
        decreases list.len() - j,
    {
        mask[list[j].0] = true;
        j += 1;
    }
    let count = mask.len();
    proof {
        assert forall|u: int| 0 <= u < count implies (#[trigger] mask@[u] <==> old(mask)@[u]
            || list@.contains(WaveFunctionTileHandle(u as usize))) by {
            if mask@[u] && !old(mask)@[u] {
                let p = choose|p: int| 0 <= p < list@.len() && (#[trigger] list@[p]).0 == u;
                assert(list@[p] == WaveFunctionTileHandle(u as usize));
            }
            if list@.contains(WaveFunctionTileHandle(u as usize)) {
                let p = list@.index_of(WaveFunctionTileHandle(u as usize));
                assert(list@[p].0 == u);
            }
        }
    }
}

/// What one more candidate adds to the edges that a rule pairs with that of `other`.
proof fn lemma_paired_step(
    tileset: TilesetView,
    source: Seq<WaveFunctionTileHandle>,
    n: int,
    direction: int,
    other: int,
)
    requires
        0 <= n < source.len(),
    ensures
        paired_beside(tileset, source, n + 1, direction, other) <==> paired_beside(
            tileset,
            source,
            n,
            direction,
            other,
        ) || (source[n].0 < tileset.tiles.len() && compatible(
            tileset.rules,
            tileset.tiles[source[n].0 as int].edge_ids[direction],
            tileset.tiles[other].edge_ids[opposite(direction)],
        )),
{
    if paired_beside(tileset, source, n, direction, other) {
        let i = choose|i: int|
            0 <= i < n && (#[trigger] source[i]).0 < tileset.tiles.len() && compatible(
                tileset.rules,
                tileset.tiles[source[i].0 as int].edge_ids[direction],
                tileset.tiles[other].edge_ids[opposite(direction)],
            );
        assert(source[i].0 < tileset.tiles.len());
    }
    if source[n].0 < tileset.tiles.len() && compatible(
        tileset.rules,
        tileset.tiles[source[n].0 as int].edge_ids[direction],
        tileset.tiles[other].edge_ids[opposite(direction)],
    ) {
        assert(source[n].0 < tileset.tiles.len());
    }
}

/// What one more candidate adds to the edges of which no rule speaks.
proof fn lemma_loose_step(
    tileset: TilesetView,
    source: Seq<WaveFunctionTileHandle>,
    n: int,
    direction: int,
)
    requires
        0 <= n < source.len(),
    ensures
        loose_beside(tileset, source, n + 1, direction) <==> loose_beside(
            tileset,
            source,
            n,
            direction,
        ) || (source[n].0 < tileset.tiles.len() && !constrained(
            tileset.rules,
            tileset.tiles[source[n].0 as int].edge_ids[direction],
        )),
{
    if loose_beside(tileset, source, n, direction) {
        let i = choose|i: int|
            0 <= i < n && (#[trigger] source[i]).0 < tileset.tiles.len() && !constrained(
                tileset.rules,
                tileset.tiles[source[i].0 as int].edge_ids[direction],
            );
        assert(source[i].0 < tileset.tiles.len());
    }
    if source[n].0 < tileset.tiles.len() && !constrained(
        tileset.rules,
        tileset.tiles[source[n].0 as int].edge_ids[direction],
    ) {
        assert(source[n].0 < tileset.tiles.len());
    }
}

/// Calls `gen_range` of quad-rand, as `macroquad::rand` hands it on, with the
/// bounds 0 and `bound`. It draws from a generator that the whole process
/// shares, so nothing is claimed of the number that comes back: the caller
/// reduces it below the bound itself.
#[verifier::external_body]
fn uniform_draw(bound: u64) -> (draw: u64) {
    macroquad::rand::gen_range(0u64, bound)
}

/// Whether `handle` stands in the list.
fn contains_handle(list: &Vec<WaveFunctionTileHandle>, handle: &WaveFunctionTileHandle) -> (found: bool)
    ensures
        found == list@.contains(*handle),
{
    let mut i: usize = 0;
    while i < list.len()
        invariant
            i <= list.len(),
            forall|j: int| 0 <= j < i ==> list@[j] != *handle,
        decreases list.len() - i,
    {
        if list[i] == *handle {
            return true;
        }
        i += 1;
    }
    false
}

} // verus!
