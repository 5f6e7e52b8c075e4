use crate::cell::{
    allowed_beside, cell_weight, decided_by, lemma_allowed_beside_grows, weight_before,
};
use crate::error::WaveFunctionError;
use crate::tile::{
    ascending, compatible, lemma_compatible_constrained, opposite, WaveFunctionTileHandle,
};
use crate::tileset::{all_handles, TilesetView};
use vstd::prelude::*;

verus! {

/// A grid of cells as the contracts see it: the candidates of each cell, row
/// after row.
pub struct SectorView {
    pub width: nat,
    pub height: nat,
    pub cells: Seq<Seq<WaveFunctionTileHandle>>,
}

/// How a solve ends.
pub enum Outcome {
    /// Every cell is decided: the grid as it then stands.
    Solved(SectorView),
    /// A cell is left without a tile that could be placed.
    Contradiction,
    /// The draws ran out before every cell was decided.
    Undecided,
}

/// The cell next to the cell `index` in `direction`, in a grid of `count`
/// cells in rows of `width`; `None` at the border.
pub open spec fn neighbor(width: int, count: int, index: int, direction: int) -> Option<int> {
    if direction == 0 {
        if index >= width {
            Some(index - width)
        } else {
            None
        }
    } else if direction == 1 {
        if index + 1 < count && (index + 1) % width != 0 {
            Some(index + 1)
        } else {
            None
        }
    } else if direction == 2 {
        if index + width < count {
            Some(index + width)
        } else {
            None
        }
    } else {
        if index % width != 0 {
            Some(index - 1)
        } else {
            None
        }
    }
}

/// A neighbour is another cell of the grid, and the cell is its neighbour in
/// the opposite direction.
pub proof fn lemma_neighbor(width: int, count: int, index: int, direction: int)
    requires
        0 < width,
        0 <= index < count,
        0 <= direction < 4,
    ensures
        match neighbor(width, count, index, direction) {
            Some(other) => {
                &&& 0 <= other < count
                &&& other != index
                &&& neighbor(width, count, other, opposite(direction)) == Some(index)
            },
            None => true,
        },
{
    assert(0int % width == 0) by (nonlinear_arith)
        requires
            0 < width,
    ;
    assert(opposite(0) == 2 && opposite(1) == 3 && opposite(2) == 0 && opposite(3) == 1);
}

/// Seen by rows and columns, the neighbours of the cell at `(x, y)`, which is
/// the cell `y * width + x`, are the cell above it, the one to its right, the
/// one below it and the one to its left, as far as the grid reaches.
pub proof fn lemma_neighbor_by_coordinates(width: int, height: int, x: int, y: int)
    requires
        0 <= x < width,
        0 <= y < height,
    ensures
        0 <= y * width + x < width * height,
        neighbor(width, width * height, y * width + x, 0) == if y > 0 {
            Some((y - 1) * width + x)
        } else {
            None
        },
        neighbor(width, width * height, y * width + x, 1) == if x + 1 < width {
            Some(y * width + (x + 1))
        } else {
            None
        },
        neighbor(width, width * height, y * width + x, 2) == if y + 1 < height {
            Some((y + 1) * width + x)
        } else {
            None
        },
        neighbor(width, width * height, y * width + x, 3) == if x > 0 {
            Some(y * width + (x - 1))
        } else {
            None
        },
{
    let index = y * width + x;
    assert(0 <= index < width * height && (y > 0 <==> index >= width) && (y + 1 < height <==> index
        + width < width * height) && (y - 1) * width + x == index - width && (y + 1) * width + x
        == index + width) by (nonlinear_arith)
        requires
            0 <= x < width,
            0 <= y < height,
            index == y * width + x,
    ;
    vstd::arithmetic::div_mod::lemma_fundamental_div_mod_converse(index, width, y, x);
    assert(index % width == x);
    if x + 1 < width {
        assert(index + 1 == y * width + (x + 1));
        assert(index + 1 < (y + 1) * width) by (nonlinear_arith)
            requires
                index == y * width + x,
                x + 1 < width,
        ;
        assert((y + 1) * width <= width * height) by (nonlinear_arith)
            requires
                y + 1 <= height,
                0 <= width,
        ;
        vstd::arithmetic::div_mod::lemma_fundamental_div_mod_converse(index + 1, width, y, x + 1);
        assert((index + 1) % width == x + 1);
    } else {
        assert(index + 1 == (y + 1) * width + 0) by (nonlinear_arith)
            requires
                index == y * width + x,
                x + 1 == width,
        ;
        vstd::arithmetic::div_mod::lemma_fundamental_div_mod_converse(index + 1, width, y + 1, 0);
        assert((index + 1) % width == 0);
    }
}

/// A grid with a cell has rows that are not empty.
pub proof fn lemma_rows_not_empty(grid: SectorView)
    requires
        grid.valid(),
        grid.cells.len() > 0,
    ensures
        grid.width > 0,
        grid.height > 0,
{
    assert(grid.width > 0 && grid.height > 0) by (nonlinear_arith)
        requires
            grid.cells.len() == grid.width * grid.height,
            grid.cells.len() > 0,
    ;
}

/// The cells of a grid, added up by their number of candidates.
pub open spec fn total_entropy(cells: Seq<Seq<WaveFunctionTileHandle>>) -> nat
    decreases cells.len(),
{
    if cells.len() == 0 {
        0
    } else {
        total_entropy(cells.drop_last()) + cells.last().len()
    }
}

/// Replacing a cell changes the sum by the difference of the two.
pub proof fn lemma_total_entropy_update(
    cells: Seq<Seq<WaveFunctionTileHandle>>,
    index: int,
    cell: Seq<WaveFunctionTileHandle>,
)
    requires
        0 <= index < cells.len(),
    ensures
        total_entropy(cells.update(index, cell)) + cells[index].len() == total_entropy(cells)
            + cell.len(),
    decreases cells.len(),
{
    let updated = cells.update(index, cell);
    if index == cells.len() - 1 {
        assert(updated.drop_last() =~= cells.drop_last());
    } else {
        lemma_total_entropy_update(cells.drop_last(), index, cell);
        assert(updated.drop_last() =~= cells.drop_last().update(index, cell));
    }
}

impl SectorView {
    /// Whether the grid has as many cells as its sides say, each with its
    /// candidates in ascending order.
    pub open spec fn valid(self) -> bool {
        &&& self.cells.len() == self.width * self.height
        &&& forall|i: int| 0 <= i < self.cells.len() ==> ascending(#[trigger] self.cells[i])
    }

    /// Whether every candidate of every cell is a variant of the catalog.
    pub open spec fn fits(self, tileset: TilesetView) -> bool {
        forall|i: int, k: int|
            0 <= i < self.cells.len() && 0 <= k < self.cells[i].len() ==> (
            #[trigger] self.cells[i][k]).0 < tileset.tiles.len()
    }

    /// Whether `candidate`, standing in the cell `index`, has a candidate of
    /// the neighbour in `direction` next to which it may stand; at the border
    /// nothing is asked.
    pub open spec fn neighbor_allows(
        self,
        tileset: TilesetView,
        index: int,
        direction: int,
        candidate: WaveFunctionTileHandle,
    ) -> bool {
        match neighbor(self.width as int, self.cells.len() as int, index, direction) {
            Some(other) => allowed_beside(
                tileset,
                self.cells[other],
                opposite(direction),
                candidate,
            ),
            None => true,
        }
    }

    /// Whether each candidate of the cell `index` may stand next to some
    /// candidate of each of the cell's neighbours.
    pub open spec fn supported(self, tileset: TilesetView, index: int) -> bool {
        forall|direction: int, k: int|
            0 <= direction < 4 && 0 <= k < self.cells[index].len() ==> #[trigger] self.neighbor_allows(
                tileset,
                index,
                direction,
                self.cells[index][k],
            )
    }

    /// Whether the cell `index` is handed to a renderer: it is decided, and
    /// its tile is a variant of the catalog.
    pub open spec fn renders(self, tileset: TilesetView, index: int) -> bool {
        &&& 0 <= index < self.cells.len()
        &&& self.cells[index].len() == 1
        &&& self.cells[index][0].0 < tileset.tiles.len()
    }

    /// What a renderer is handed for the cell `index`.
    pub open spec fn render_record(self, tileset: TilesetView, index: int) -> RenderView {
        let tile = tileset.tiles[self.cells[index][0].0 as int];
        RenderView {
            column: index % (self.width as int),
            row: index / (self.width as int),
            texture_id: tileset.names.texture_ids[tile.texture_id.0 as int],
            rotation: tile.rotation,
        }
    }

    /// What a renderer is handed for the first `n` cells: a record for each
    /// decided one, row after row.
    pub open spec fn render_records(self, tileset: TilesetView, n: int) -> Seq<RenderView>
        decreases n,
    {
        if n <= 0 {
            Seq::empty()
        } else if self.renders(tileset, n - 1) {
            self.render_records(tileset, n - 1).push(self.render_record(tileset, n - 1))
        } else {
            self.render_records(tileset, n - 1)
        }
    }

    /// Whether the grid has the shape of `other` and each of its cells holds
    /// only candidates of the same cell of `other`.
    pub open spec fn inside(self, other: SectorView) -> bool {
        &&& self.width == other.width
        &&& self.height == other.height
        &&& self.cells.len() == other.cells.len()
        &&& forall|i: int, k: int|
            0 <= i < self.cells.len() && 0 <= k < self.cells[i].len() ==> other.cells[i].contains(
                #[trigger] self.cells[i][k],
            )
    }

    /// Whether each candidate of each cell has a candidate of every neighbour
    /// to stand beside.
    pub open spec fn all_supported(self, tileset: TilesetView) -> bool {
        forall|cell: int| 0 <= cell < self.cells.len() ==> self.supported(tileset, cell)
    }

    /// Whether carrying through the grid what its cells rule out decides it:
    /// among the grids inside this one in which every candidate has support,
    /// the one that holds all the others has one candidate in each cell.
    pub open spec fn forced(self, tileset: TilesetView) -> bool {
        exists|most: SectorView|
            {
                &&& #[trigger] most.inside(self)
                &&& most.all_supported(tileset)
                &&& most.decided()
                &&& forall|other: SectorView|
                    #[trigger] other.inside(self) && other.all_supported(tileset) ==> other.inside(
                        most,
                    )
            }
    }

    /// Whether `candidate` stays in the cell `cell` when what the cells rule out
    /// is carried through the grid: some grid inside this one, in which every
    /// candidate has support, holds it there.
    pub open spec fn keeps(self, tileset: TilesetView, cell: int, candidate: WaveFunctionTileHandle) -> bool {
        exists|other: SectorView|
            #[trigger] other.inside(self) && other.all_supported(tileset)
                && other.cells[cell].contains(candidate)
    }

    /// The grid after what its cells rule out was carried through it: each
    /// cell with the candidates that stay.
    pub open spec fn carried(self, tileset: TilesetView) -> SectorView {
        SectorView {
            width: self.width,
            height: self.height,
            cells: Seq::new(
                self.cells.len(),
                |i: int|
                    self.cells[i].filter(
                        |candidate: WaveFunctionTileHandle| self.keeps(tileset, i, candidate),
                    ),
            ),
        }
    }

    /// Whether a cell is without a candidate.
    pub open spec fn has_empty_cell(self) -> bool {
        exists|cell: int| 0 <= cell < self.cells.len() && (#[trigger] self.cells[cell]).len() == 0
    }

    /// Whether the cell `index` is the next to decide: it is undecided, no
    /// undecided cell has fewer candidates, and none before it as few.
    pub open spec fn first_to_decide(self, index: int) -> bool {
        &&& 0 <= index < self.cells.len()
        &&& self.cells[index].len() > 1
        &&& forall|i: int|
            0 <= i < self.cells.len() && (#[trigger] self.cells[i]).len() > 1
                ==> self.cells[index].len() <= self.cells[i].len()
        &&& forall|i: int|
            0 <= i < index ==> (#[trigger] self.cells[i]).len() != self.cells[index].len()
    }

    /// The cell that is the next to decide.
    pub open spec fn next_to_decide(self) -> int {
        choose|index: int| self.first_to_decide(index)
    }

    /// The grid with `cell` in the place of the cell `index`.
    pub open spec fn with_cell(self, index: int, cell: Seq<WaveFunctionTileHandle>) -> SectorView {
        SectorView { width: self.width, height: self.height, cells: self.cells.update(index, cell) }
    }

    /// How a solve ends that takes its draws from `draws`, in order. What the
    /// cells rule out is carried through the grid; a cell without a candidate
    /// ends the solve with a contradiction, a grid of decided cells ends it
    /// well. Else the next cell to decide is decided by the next draw, and
    /// the solve goes on from there; it ends with a contradiction if that
    /// cell has no candidate with a weight.
    pub open spec fn outcome(self, tileset: TilesetView, draws: Seq<u64>) -> Outcome
        decreases draws.len(),
    {
        let carried = self.carried(tileset);
        if carried.has_empty_cell() {
            Outcome::Contradiction
        } else if carried.decided() {
            Outcome::Solved(carried)
        } else if cell_weight(tileset, carried.cells[carried.next_to_decide()]) == 0 {
            Outcome::Contradiction
        } else if draws.len() == 0 {
            Outcome::Undecided
        } else {
            let index = carried.next_to_decide();
            carried.with_cell(
                index,
                decided_by(tileset, carried.cells[index], draws[0] as int),
            ).outcome(tileset, draws.drop_first())
        }
    }

    /// Whether a solve that went from this grid to `last` with `result` ended
    /// as a solve with the draws `draws` ends.
    pub open spec fn ends_as(
        self,
        tileset: TilesetView,
        draws: Seq<u64>,
        result: Result<(), WaveFunctionError>,
        last: SectorView,
    ) -> bool {
        match self.outcome(tileset, draws) {
            Outcome::Solved(grid) => result is Ok && last == grid,
            Outcome::Contradiction => result is Err,
            Outcome::Undecided => false,
        }
    }

    /// Whether nothing is left to carry through the grid: every cell has a
    /// candidate, and each candidate one of every neighbour to stand beside.
    pub open spec fn settled(self, tileset: TilesetView) -> bool {
        &&& forall|cell: int| 0 <= cell < self.cells.len() ==> self.supported(tileset, cell)
        &&& forall|cell: int| 0 <= cell < self.cells.len() ==> (#[trigger] self.cells[cell]).len() > 0
    }

    /// Whether nothing can hinder a solve: there is no rule, every candidate
    /// is a variant of the catalog, and no cell stops the solve as it is.
    pub open spec fn unhindered(self, tileset: TilesetView) -> bool {
        &&& tileset.rules.len() == 0
        &&& self.fits(tileset)
        &&& forall|cell: int| 0 <= cell < self.cells.len() ==> !self.stuck(tileset, cell)
    }

    /// Whether every cell is decided.
    pub open spec fn decided(self) -> bool {
        forall|i: int| 0 <= i < self.cells.len() ==> (#[trigger] self.cells[i]).len() == 1
    }

    /// Whether the tiles of any two decided cells that lie next to each other
    /// may stand so.
    pub open spec fn consistent(self, tileset: TilesetView) -> bool {
        forall|i: int, direction: int|
            0 <= i < self.cells.len() && 0 <= direction < 4 ==> (match #[trigger] neighbor(
                self.width as int,
                self.cells.len() as int,
                i,
                direction,
            ) {
                Some(other) => tileset.may_stand_beside(
                    self.cells[i][0].0 as int,
                    self.cells[other][0].0 as int,
                    direction,
                ),
                None => true,
            })
    }

    /// Whether each cell holds only candidates that it held in `earlier`.
    pub open spec fn within(self, earlier: SectorView) -> bool {
        &&& self.width == earlier.width
        &&& self.height == earlier.height
        &&& self.cells.len() == earlier.cells.len()
        &&& forall|i: int, k: int|
            0 <= i < self.cells.len() && 0 <= k < self.cells[i].len() ==> earlier.cells[i].contains(
                #[trigger] self.cells[i][k],
            )
        &&& forall|i: int|
            0 <= i < self.cells.len() ==> (#[trigger] self.cells[i]).len() <= earlier.cells[i].len()
    }

    /// Whether the cell `index` stops a solve: it has no candidate, or more
    /// than one and none with a weight.
    pub open spec fn stuck(self, tileset: TilesetView, index: int) -> bool {
        &&& 0 <= index < self.cells.len()
        &&& (self.cells[index].len() == 0 || (self.cells[index].len() > 1 && cell_weight(
            tileset,
            self.cells[index],
        ) == 0))
    }
}

/// A render record as the contracts see it.
pub struct RenderView {
    pub column: int,
    pub row: int,
    pub texture_id: Seq<char>,
    pub rotation: u32,
}

/// The sector of the given sides of which nothing is known: every variant is
/// a candidate of every cell.
pub open spec fn blank_sector(width: nat, height: nat, tileset: TilesetView) -> SectorView {
    SectorView {
        width,
        height,
        cells: Seq::new(width * height, |i: int| all_handles(tileset.tiles.len())),
    }
}


/// Candidates that were held at a middle time and all along before were held
/// at the start.
pub proof fn lemma_within_trans(last: SectorView, middle: SectorView, first: SectorView)
    requires
        last.within(middle),
        middle.within(first),
    ensures
        last.within(first),
{
    assert forall|i: int, k: int|
        0 <= i < last.cells.len() && 0 <= k < last.cells[i].len() implies first.cells[i].contains(
        #[trigger] last.cells[i][k],
    ) by {
        assert(middle.cells[i].contains(last.cells[i][k]));
        let j = middle.cells[i].index_of(last.cells[i][k]);
        assert(first.cells[i].contains(middle.cells[i][j]));
    }
}

/// A grid in which every candidate has support, and which lies inside a grid
/// before one cell of that is revised, lies inside it afterwards too.
pub proof fn lemma_revise_keeps(
    before: SectorView,
    after: SectorView,
    other: SectorView,
    tileset: TilesetView,
    index: int,
)
    requires
        before.valid(),
        0 <= index < before.cells.len(),
        after.within(before),
        forall|i: int|
            0 <= i < before.cells.len() && i != index ==> #[trigger] after.cells[i]
                == before.cells[i],
        forall|k: int|
            0 <= k < before.cells[index].len() && (forall|direction: int|
                0 <= direction < 4 ==> before.neighbor_allows(
                    tileset,
                    index,
                    direction,
                    before.cells[index][k],
                )) ==> after.cells[index].contains(#[trigger] before.cells[index][k]),
        other.inside(before),
        other.all_supported(tileset),
    ensures
        other.inside(after),
{
    lemma_rows_not_empty(before);
    assert forall|i: int, k: int|
        0 <= i < other.cells.len() && 0 <= k < other.cells[i].len() implies after.cells[i].contains(
        #[trigger] other.cells[i][k],
    ) by {
        let candidate = other.cells[i][k];
        assert(before.cells[i].contains(candidate));
        if i == index {
            let at = before.cells[index].index_of(candidate);
            assert(other.supported(tileset, index));
            assert forall|direction: int| 0 <= direction < 4 implies before.neighbor_allows(
                tileset,
                index,
                direction,
                before.cells[index][at],
            ) by {
                assert(other.neighbor_allows(tileset, index, direction, other.cells[index][k]));
                lemma_neighbor(before.width as int, before.cells.len() as int, index, direction);
                match neighbor(before.width as int, before.cells.len() as int, index, direction) {
                    Some(beside) => {
                        assert forall|j: int|
                            0 <= j < other.cells[beside].len() implies before.cells[beside].contains(
                            #[trigger] other.cells[beside][j],
                        ) by {}
                        lemma_allowed_beside_grows(
                            tileset,
                            other.cells[beside],
                            before.cells[beside],
                            opposite(direction),
                            candidate,
                        );
                    },
                    None => {},
                }
            }
            assert(after.cells[index].contains(before.cells[index][at]));
        } else {
            assert(after.cells[i] == before.cells[i]);
        }
    }
}

/// Where carrying decides a grid, the grid with one candidate in each cell
/// lies inside what carrying leaves.
pub proof fn lemma_forced_inside(first: SectorView, after: SectorView, tileset: TilesetView)
    requires
        first.forced(tileset),
        forall|other: SectorView|
            #[trigger] other.inside(first) && other.all_supported(tileset) ==> other.inside(after),
    ensures
        forall|cell: int| 0 <= cell < after.cells.len() ==> (#[trigger] after.cells[cell]).len() > 0,
{
    let most = choose|most: SectorView|
        {
            &&& #[trigger] most.inside(first)
            &&& most.all_supported(tileset)
            &&& most.decided()
            &&& forall|other: SectorView|
                #[trigger] other.inside(first) && other.all_supported(tileset) ==> other.inside(most)
        };
    assert(most.inside(after));
    assert forall|cell: int| 0 <= cell < after.cells.len() implies (#[trigger] after.cells[cell]).len()
        > 0 by {
        assert(most.cells[cell].len() == 1);
        assert(after.cells[cell].contains(most.cells[cell][0]));
    }
}

/// Where carrying decides a grid, what carrying leaves has one candidate in
/// each cell.
pub proof fn lemma_forced_decides(first: SectorView, after: SectorView, tileset: TilesetView)
    requires
        first.forced(tileset),
        after.valid(),
        after.within(first),
        after.all_supported(tileset),
        forall|other: SectorView|
            #[trigger] other.inside(first) && other.all_supported(tileset) ==> other.inside(after),
    ensures
        after.decided(),
{
    let most = choose|most: SectorView|
        {
            &&& #[trigger] most.inside(first)
            &&& most.all_supported(tileset)
            &&& most.decided()
            &&& forall|other: SectorView|
                #[trigger] other.inside(first) && other.all_supported(tileset) ==> other.inside(most)
        };
    lemma_forced_inside(first, after, tileset);
    assert(after.inside(first));
    assert(after.inside(most));
    assert forall|cell: int| 0 <= cell < after.cells.len() implies (#[trigger] after.cells[cell]).len()
        == 1 by {
        let held = after.cells[cell];
        assert(most.cells[cell].len() == 1);
        assert(ascending(held));
        if held.len() > 1 {
            assert(most.cells[cell].contains(held[0]));
            assert(most.cells[cell].contains(held[1]));
            assert(held[0].0 < held[1].0);
        }
    }
}

/// Handles in ascending order stay so when some are left out, and those that
/// stay are those that are kept.
pub proof fn lemma_filter_ascending(
    handles: Seq<WaveFunctionTileHandle>,
    keep: spec_fn(WaveFunctionTileHandle) -> bool,
)
    requires
        ascending(handles),
    ensures
        ascending(handles.filter(keep)),
        forall|c: WaveFunctionTileHandle|
            handles.filter(keep).contains(c) <==> handles.contains(c) && keep(c),
    decreases handles.len(),
{
    reveal(Seq::filter);
    if handles.len() > 0 {
        let front = handles.drop_last();
        let last = handles.last();
        lemma_filter_ascending(front, keep);
        let kept = front.filter(keep);
        let all = handles.filter(keep);
        assert forall|c: WaveFunctionTileHandle| #[trigger] front.contains(c) implies c.0 < last.0
            && handles.contains(c) by {
            let i = front.index_of(c);
            assert(handles[i] == c);
        }
        assert forall|i: int| 0 <= i < kept.len() implies (#[trigger] kept[i]).0 < last.0 by {
            assert(kept.contains(kept[i]));
            assert(front.contains(kept[i]));
        }
        assert(all == if keep(last) {
            kept.push(last)
        } else {
            kept
        });
        assert forall|c: WaveFunctionTileHandle| all.contains(c) <==> handles.contains(c) && keep(
            c,
        ) by {
            if all.contains(c) {
                let i = all.index_of(c);
                if i < kept.len() {
                    assert(kept[i] == c);
                    assert(kept.contains(c));
                    assert(front.contains(c));
                } else {
                    assert(keep(last));
                    assert(c == last);
                    assert(handles[handles.len() - 1] == c);
                }
            }
            if handles.contains(c) && keep(c) {
                let i = handles.index_of(c);
                if i < front.len() {
                    assert(front[i] == c);
                    assert(front.contains(c));
                    assert(kept.contains(c));
                    let j = kept.index_of(c);
                    assert(all[j] == c);
                } else {
                    assert(c == last);
                    assert(all[kept.len() as int] == c);
                }
            }
        }
    }
}

/// Two lists of handles in ascending order that hold the same handles are one list.
pub proof fn lemma_ascending_equal(one: Seq<WaveFunctionTileHandle>, other: Seq<WaveFunctionTileHandle>)
    requires
        ascending(one),
        ascending(other),
        forall|c: WaveFunctionTileHandle| one.contains(c) <==> other.contains(c),
    ensures
        one == other,
    decreases one.len(),
{
    if one.len() == 0 {
        if other.len() > 0 {
            assert(other.contains(other[0]));
        }
        assert(one =~= other);
    } else {
        assert(one.contains(one.last()));
        let at = other.index_of(one.last());
        assert(other.contains(other.last()));
        let back = one.index_of(other.last());
        assert(one.last() == other.last());
        assert forall|c: WaveFunctionTileHandle| one.drop_last().contains(c)
            <==> other.drop_last().contains(c) by {
            if one.drop_last().contains(c) {
                let i = one.drop_last().index_of(c);
                assert(one[i] == c);
                assert(one.contains(c));
                let j = other.index_of(c);
                assert(other.drop_last()[j] == c);
            }
            if other.drop_last().contains(c) {
                let i = other.drop_last().index_of(c);
                assert(other[i] == c);
                assert(other.contains(c));
                let j = one.index_of(c);
                assert(one.drop_last()[j] == c);
            }
        }
        lemma_ascending_equal(one.drop_last(), other.drop_last());
        assert(one =~= one.drop_last().push(one.last()));
        assert(other =~= other.drop_last().push(other.last()));
    }
}

/// What carrying leaves of a grid, when it leaves every cell with support, is
/// the grid carried.
pub proof fn lemma_carried_is(first: SectorView, after: SectorView, tileset: TilesetView)
    requires
        first.valid(),
        after.valid(),
        after.within(first),
        after.all_supported(tileset),
        forall|other: SectorView|
            #[trigger] other.inside(first) && other.all_supported(tileset) ==> other.inside(after),
    ensures
        after == first.carried(tileset),
{
    let carried = first.carried(tileset);
    assert(after.inside(first));
    assert forall|i: int| 0 <= i < after.cells.len() implies #[trigger] after.cells[i]
        == carried.cells[i] by {
        let keep = |candidate: WaveFunctionTileHandle| first.keeps(tileset, i, candidate);
        lemma_filter_ascending(first.cells[i], keep);
        assert forall|c: WaveFunctionTileHandle| after.cells[i].contains(c)
            <==> carried.cells[i].contains(c) by {
            if after.cells[i].contains(c) {
                let k = after.cells[i].index_of(c);
                assert(first.cells[i].contains(after.cells[i][k]));
                assert(first.keeps(tileset, i, c));
            }
            if carried.cells[i].contains(c) {
                assert(first.keeps(tileset, i, c));
                let other = choose|other: SectorView|
                    #[trigger] other.inside(first) && other.all_supported(tileset)
                        && other.cells[i].contains(c);
                assert(other.inside(after));
                let k = other.cells[i].index_of(c);
                assert(after.cells[i].contains(other.cells[i][k]));
            }
        }
        lemma_ascending_equal(after.cells[i], carried.cells[i]);
    }
    assert(after.cells =~= carried.cells);
}

/// A cell that carrying leaves without a candidate is without one in the
/// grid carried.
pub proof fn lemma_carried_empty(first: SectorView, after: SectorView, tileset: TilesetView, cell: int)
    requires
        first.valid(),
        after.cells.len() == first.cells.len(),
        0 <= cell < after.cells.len(),
        after.cells[cell].len() == 0,
        forall|other: SectorView|
            #[trigger] other.inside(first) && other.all_supported(tileset) ==> other.inside(after),
    ensures
        first.carried(tileset).has_empty_cell(),
{
    let carried = first.carried(tileset);
    let keep = |candidate: WaveFunctionTileHandle| first.keeps(tileset, cell, candidate);
    lemma_filter_ascending(first.cells[cell], keep);
    if carried.cells[cell].len() > 0 {
        let c = carried.cells[cell][0];
        assert(carried.cells[cell].contains(c));
        assert(first.keeps(tileset, cell, c));
        let other = choose|other: SectorView|
            #[trigger] other.inside(first) && other.all_supported(tileset)
                && other.cells[cell].contains(c);
        assert(other.inside(after));
        let k = other.cells[cell].index_of(c);
        assert(after.cells[cell].contains(other.cells[cell][k]));
    }
    assert(carried.cells[cell].len() == 0);
}

/// A grid in which every candidate has support is what carrying leaves of it.
pub proof fn lemma_settled_carried(grid: SectorView, tileset: TilesetView)
    requires
        grid.valid(),
        grid.all_supported(tileset),
    ensures
        grid.carried(tileset) == grid,
{
    assert(grid.within(grid)) by {
        assert forall|i: int, k: int|
            0 <= i < grid.cells.len() && 0 <= k < grid.cells[i].len() implies grid.cells[i].contains(
            #[trigger] grid.cells[i][k],
        ) by {}
    }
    lemma_carried_is(grid, grid, tileset);
}

/// A solve ends for a grid as it ends for the grid carried.
pub proof fn lemma_outcome_after_carry(
    grid: SectorView,
    carried: SectorView,
    tileset: TilesetView,
    draws: Seq<u64>,
)
    requires
        carried == grid.carried(tileset),
        carried.carried(tileset) == carried,
    ensures
        grid.outcome(tileset, draws) == carried.outcome(tileset, draws),
{
}

/// One cell only is the next to decide.
pub proof fn lemma_next_to_decide(grid: SectorView, index: int)
    requires
        grid.first_to_decide(index),
    ensures
        grid.next_to_decide() == index,
{
    let chosen = grid.next_to_decide();
    assert(grid.first_to_decide(chosen));
    if chosen < index {
        assert(grid.cells[chosen].len() != grid.cells[index].len());
    }
    if index < chosen {
        assert(grid.cells[index].len() != grid.cells[chosen].len());
    }
}

/// A grid that nothing hinders stays so when one of its cells is decided.
pub proof fn lemma_unhindered_kept(
    before: SectorView,
    after: SectorView,
    tileset: TilesetView,
    index: int,
)
    requires
        before.unhindered(tileset),
        after.within(before),
        0 <= index < before.cells.len(),
        after.cells[index].len() == 1,
        forall|i: int|
            0 <= i < before.cells.len() && i != index ==> #[trigger] after.cells[i]
                == before.cells[i],
    ensures
        after.unhindered(tileset),
{
    assert forall|i: int, k: int|
        0 <= i < after.cells.len() && 0 <= k < after.cells[i].len() implies (
    #[trigger] after.cells[i][k]).0 < tileset.tiles.len() by {
        let j = before.cells[i].index_of(after.cells[i][k]);
        assert(before.cells[i][j].0 < tileset.tiles.len());
    }
    assert forall|cell: int| 0 <= cell < after.cells.len() implies !after.stuck(tileset, cell) by {
        if cell != index {
            assert(after.cells[cell] == before.cells[cell]);
            assert(!before.stuck(tileset, cell));
        }
    }
}

/// Without rules, a grid whose candidates are variants of the catalog and in
/// which no cell stops a solve has nothing to carry through it.
pub proof fn lemma_unhindered_settled(grid: SectorView, tileset: TilesetView)
    requires
        grid.valid(),
        grid.unhindered(tileset),
    ensures
        grid.settled(tileset),
{
    assert forall|cell: int| 0 <= cell < grid.cells.len() implies (#[trigger] grid.cells[cell]).len()
        > 0 by {
        assert(!grid.stuck(tileset, cell));
    }
    assert forall|cell: int| 0 <= cell < grid.cells.len() implies grid.supported(tileset, cell) by {
        assert forall|direction: int, k: int|
            0 <= direction < 4 && 0 <= k < grid.cells[cell].len() implies #[trigger] grid.neighbor_allows(
            tileset,
            cell,
            direction,
            grid.cells[cell][k],
        ) by {
            lemma_rows_not_empty(grid);
            lemma_neighbor(grid.width as int, grid.cells.len() as int, cell, direction);
            match neighbor(grid.width as int, grid.cells.len() as int, cell, direction) {
                Some(other) => {
                    assert(grid.cells[other].len() > 0);
                    assert(grid.cells[other][0].0 < tileset.tiles.len());
                    assert(grid.cells[cell][k].0 < tileset.tiles.len());
                    assert(tileset.may_stand_beside(
                        grid.cells[other][0].0 as int,
                        grid.cells[cell][k].0 as int,
                        opposite(direction),
                    ));
                },
                None => {},
            }
        }
    }
}

/// The weights of the first `n` of all handles add up to those of the first
/// `n` variants.
pub proof fn lemma_weight_of_all(tileset: TilesetView, n: int)
    requires
        0 <= n <= tileset.tiles.len() <= usize::MAX,
    ensures
        weight_before(tileset, all_handles(tileset.tiles.len()), n) == tileset.weight_below(n),
    decreases n,
{
    if n > 0 {
        lemma_weight_of_all(tileset, n - 1);
    }
}

/// Where a catalog has no rules, and one variant only or a weight on one of
/// its variants, nothing hinders the solve of a sector of which nothing is
/// known: it is bound to end with every cell decided.
pub proof fn lemma_blank_sector_unhindered(tileset: TilesetView, width: nat, height: nat)
    requires
        tileset.rules.len() == 0,
        1 <= tileset.tiles.len() <= usize::MAX,
        tileset.tiles.len() == 1 || tileset.total_weight() > 0,
    ensures
        blank_sector(width, height, tileset).unhindered(tileset),
{
    let grid = blank_sector(width, height, tileset);
    lemma_weight_of_all(tileset, tileset.tiles.len() as int);
    assert forall|cell: int| 0 <= cell < grid.cells.len() implies !grid.stuck(tileset, cell) by {
        assert(grid.cells[cell] == all_handles(tileset.tiles.len()));
    }
}

/// Cells that hold no more candidates than before add up to no more.
pub proof fn lemma_total_entropy_within(
    later: Seq<Seq<WaveFunctionTileHandle>>,
    earlier: Seq<Seq<WaveFunctionTileHandle>>,
)
    requires
        later.len() == earlier.len(),
        forall|i: int| 0 <= i < later.len() ==> (#[trigger] later[i]).len() <= earlier[i].len(),
    ensures
        total_entropy(later) <= total_entropy(earlier),
    decreases later.len(),
{
    if later.len() > 0 {
        assert(later.last().len() <= earlier[later.len() - 1].len());
        assert forall|i: int| 0 <= i < later.drop_last().len() implies (
        #[trigger] later.drop_last()[i]).len() <= earlier.drop_last()[i].len() by {
            assert(later[i].len() <= earlier[i].len());
        }
        lemma_total_entropy_within(later.drop_last(), earlier.drop_last());
    }
}

/// Two variants that may stand side by side may do so seen from either.
pub proof fn lemma_beside_symmetric(tileset: TilesetView, tile: int, other: int, direction: int)
    requires
        0 <= direction < 4,
        tileset.may_stand_beside(tile, other, direction),
    ensures
        tileset.may_stand_beside(other, tile, opposite(direction)),
{
    let shown = tileset.tiles[tile].edge_ids[direction];
    let facing = tileset.tiles[other].edge_ids[opposite(direction)];
    assert(opposite(opposite(direction)) == direction);
    if compatible(tileset.rules, shown, facing) {
        lemma_compatible_constrained(tileset.rules, shown, facing);
    }
}

/// In a grid of decided cells, each with a neighbour's candidate to stand
/// beside, any two tiles that lie side by side may stand so.
pub proof fn lemma_decided_consistent(grid: SectorView, tileset: TilesetView)
    requires
        grid.valid(),
        grid.decided(),
        forall|cell: int| 0 <= cell < grid.cells.len() ==> grid.supported(tileset, cell),
    ensures
        grid.consistent(tileset),
{
    assert forall|i: int, direction: int|
        0 <= i < grid.cells.len() && 0 <= direction < 4 implies (match #[trigger] neighbor(
        grid.width as int,
        grid.cells.len() as int,
        i,
        direction,
    ) {
        Some(other) => tileset.may_stand_beside(
            grid.cells[i][0].0 as int,
            grid.cells[other][0].0 as int,
            direction,
        ),
        None => true,
    }) by {
        match neighbor(grid.width as int, grid.cells.len() as int, i, direction) {
            Some(other) => {
                lemma_rows_not_empty(grid);
                lemma_neighbor(grid.width as int, grid.cells.len() as int, i, direction);
                assert(grid.supported(tileset, i));
                assert(grid.cells[i].len() == 1);
                assert(grid.cells[other].len() == 1);
                assert(grid.neighbor_allows(tileset, i, direction, grid.cells[i][0]));
                let k = choose|k: int|
                    0 <= k < grid.cells[other].len() && tileset.may_stand_beside(
                        (#[trigger] grid.cells[other][k]).0 as int,
                        grid.cells[i][0].0 as int,
                        opposite(direction),
                    );
                assert(opposite(opposite(direction)) == direction);
                lemma_beside_symmetric(
                    tileset,
                    grid.cells[other][0].0 as int,
                    grid.cells[i][0].0 as int,
                    opposite(direction),
                );
            },
            None => {},
        }
    }
}

/// When one cell of a grid in which every cell had support loses candidates,
/// only its neighbours can be left without support.
pub proof fn lemma_support_after_change(
    before: SectorView,
    after: SectorView,
    tileset: TilesetView,
    index: int,
    worklist: Seq<usize>,
)
    requires
        before.valid(),
        after.valid(),
        after.within(before),
        0 <= index < before.cells.len(),
        forall|i: int| 0 <= i < before.cells.len() && i != index ==> after.cells[i] == before.cells[i],
        forall|cell: int| 0 <= cell < before.cells.len() ==> before.supported(tileset, cell),
        forall|direction: int, cell: usize|
            0 <= direction < 4 && neighbor(
                before.width as int,
                before.cells.len() as int,
                index,
                direction,
            ) == Some(cell as int) ==> worklist.contains(cell),
    ensures
        forall|cell: usize|
            cell < after.cells.len() ==> worklist.contains(cell) || after.supported(
                tileset,
                cell as int,
            ),
{
    lemma_rows_not_empty(before);
    assert forall|cell: usize| cell < after.cells.len() implies worklist.contains(cell)
        || after.supported(tileset, cell as int) by {
        if !worklist.contains(cell) {
            assert(before.supported(tileset, cell as int));
            assert forall|direction: int, k: int|
                0 <= direction < 4 && 0 <= k < after.cells[cell as int].len() implies #[trigger] after.neighbor_allows(
                tileset,
                cell as int,
                direction,
                after.cells[cell as int][k],
            ) by {
                let candidate = after.cells[cell as int][k];
                assert(before.cells[cell as int].contains(candidate));
                let j = before.cells[cell as int].index_of(candidate);
                assert(before.neighbor_allows(
                    tileset,
                    cell as int,
                    direction,
                    before.cells[cell as int][j],
                ));
                lemma_neighbor(
                    before.width as int,
                    before.cells.len() as int,
                    cell as int,
                    direction,
                );
                match neighbor(
                    before.width as int,
                    before.cells.len() as int,
                    cell as int,
                    direction,
                ) {
                    Some(other) => {
                        if other == index {
                            assert(cell != index);
                            assert(worklist.contains(cell));
                        }
                    },
                    None => {},
                }
            }
        }
    }
}

} // verus!
