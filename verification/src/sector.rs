use crate::cell::{cell_weight, decided_by, WaveFunctionCell};
use crate::error::WaveFunctionError;
use crate::grid::{
    blank_sector, lemma_carried_empty, lemma_carried_is, lemma_decided_consistent,
    lemma_forced_decides, lemma_forced_inside, lemma_neighbor, lemma_next_to_decide,
    lemma_outcome_after_carry, lemma_revise_keeps, lemma_rows_not_empty, lemma_settled_carried,
    lemma_support_after_change, lemma_total_entropy_update, lemma_total_entropy_within,
    lemma_unhindered_kept, lemma_unhindered_settled, lemma_within_trans, neighbor, total_entropy,
    Outcome, RenderView, SectorView,
};
use crate::tile::{ascending, WaveFunctionTileHandle};
use crate::tileset::{all_handles, WaveFunctionTileset};
use vstd::prelude::*;

verus! {

/// What a renderer is handed for a decided cell.
pub struct CellRenderData {
    /// The place of the cell in its row.
    pub column: usize,
    /// The row of the cell.
    pub row: usize,
    /// The name of the texture of the cell's tile.
    pub texture_id: String,
    /// By how many quarter turns clockwise the texture is turned.
    pub rotation: u32,
}

impl View for CellRenderData {
    type V = RenderView;

    open spec fn view(&self) -> RenderView {
        RenderView {
            column: self.column as int,
            row: self.row as int,
            texture_id: self.texture_id@,
            rotation: self.rotation,
        }
    }
}

/// The views of a list of render records.
pub open spec fn render_views(data: Seq<CellRenderData>) -> Seq<RenderView> {
    data.map_values(|record: CellRenderData| record@)
}

/// The candidates of each of a list of cells.
pub open spec fn cell_views(cells: Seq<WaveFunctionCell>) -> Seq<Seq<WaveFunctionTileHandle>> {
    cells.map_values(|cell: WaveFunctionCell| cell@)
}

/// A block of cells, `width` by `height`, kept row after row: the cell at
/// `(x, y)` is the cell `y * width + x`.
pub struct WaveFunctionSector {
    width: usize,
    height: usize,
    cells: Vec<WaveFunctionCell>,
}

impl WaveFunctionSector {
    pub closed spec fn view(&self) -> SectorView {
        SectorView {
            width: self.width as nat,
            height: self.height as nat,
            cells: cell_views(self.cells@),
        }
    }

    /// Whether the sector is in order.
    pub open spec fn wf(&self) -> bool {
        self@.valid()
    }

    /// A sector of which nothing is known: every variant is a candidate of
    /// every cell.
    pub fn new(tileset: &WaveFunctionTileset, width: usize, height: usize) -> (sector: Self)
        requires
            tileset.wf(),
            width * height <= usize::MAX,
        ensures
            sector.wf(),
            sector@.fits(tileset@),
            sector@ == blank_sector(width as nat, height as nat, tileset@),
    {
        let cell_count = width * height;
        let mut cells: Vec<WaveFunctionCell> = Vec::new();
        let mut i: usize = 0;
        while i < cell_count
            invariant
                i <= cell_count,
                tileset.wf(),
                cells@.len() == i,
                forall|k: int|
                    0 <= k < i ==> (#[trigger] cells@[k])@ == all_handles(tileset@.tiles.len())
                        && cells@[k].wf(),
            decreases cell_count - i,
        {
            cells.push(WaveFunctionCell::new_empty(tileset));
            i += 1;
        }
        let sector = WaveFunctionSector { width, height, cells };
        assert forall|i: int| 0 <= i < sector@.cells.len() implies ascending(
            #[trigger] sector@.cells[i],
        ) by {
            assert(sector.cells@[i].wf());
        }
        assert(sector@.cells =~= blank_sector(width as nat, height as nat, tileset@).cells);
        sector
    }

    /// The number of cells in a row.
    pub fn get_width(&self) -> (width: usize)
        ensures
            width == self@.width,
    {
        self.width
    }

    /// The number of rows.
    pub fn get_height(&self) -> (height: usize)
        ensures
            height == self@.height,
    {
        self.height
    }

    /// The number of cells.
    pub fn cell_count(&self) -> (count: usize)
        ensures
            count == self@.cells.len(),
    {
        self.cells.len()
    }

    /// The cell at `(x, y)`, if the sector has one there.
    pub fn get_cell(&self, x: usize, y: usize) -> (cell: Option<&WaveFunctionCell>)
        requires
            self.wf(),
        ensures
            match cell {
                Some(cell) => x < self@.width && y < self@.height && cell@ == self@.cells[y
                    * self@.width + x],
                None => x >= self@.width || y >= self@.height,
            },
    {
        if x < self.width && y < self.height {
            assert(0 <= y * self.width && y * self.width + x < self.width * self.height)
                by (nonlinear_arith)
                requires
                    x < self.width,
                    y < self.height,
            ;
            let count = self.cells.len();
            assert(count == self.width * self.height) by {
                assert(self@.cells.len() == self.cells@.len());
                assert(self@.valid());
            }
            let cell = &self.cells[y * self.width + x];
            Some(cell)
        } else {
            None
        }
    }

    /// Puts `cell` in the place of the cell at `(x, y)`, and says whether the
    /// sector has a cell there.
    pub fn set_cell(&mut self, x: usize, y: usize, cell: WaveFunctionCell) -> (found: bool)
        requires
            old(self).wf(),
            cell.wf(),
        ensures
            final(self).wf(),
            final(self)@.width == old(self)@.width,
            final(self)@.height == old(self)@.height,
            found == (x < old(self)@.width && y < old(self)@.height),
            final(self)@.cells == if found {
                old(self)@.cells.update(y * old(self)@.width + x, cell@)
            } else {
                old(self)@.cells
            },
    {
        if x < self.width && y < self.height {
            assert(0 <= y * self.width && y * self.width + x < self.width * self.height)
                by (nonlinear_arith)
                requires
                    x < self.width,
                    y < self.height,
            ;
            let count = self.cells.len();
            assert(count == self.width * self.height) by {
                assert(self@.cells.len() == self.cells@.len());
                assert(self@.valid());
            }
            let index = y * self.width + x;
            self.cells[index] = cell;
            proof {
                assert(self@.cells =~= old(self)@.cells.update(index as int, cell@));
                assert forall|i: int| 0 <= i < self@.cells.len() implies ascending(
                    #[trigger] self@.cells[i],
                ) by {
                    if i != index {
                        assert(self@.cells[i] == old(self)@.cells[i]);
                    }
                }
            }
            true
        } else {
            false
        }
    }

    /// What a renderer needs of the sector: for each decided cell, row after
    /// row, where it lies, the name of its texture and how that is turned. A
    /// cell that is undecided or without a candidate gives nothing.
    pub fn render_data(&self, tileset: &WaveFunctionTileset) -> (data: Vec<CellRenderData>)
        requires
            self.wf(),
            tileset.wf(),
        ensures
            render_views(data@) == self@.render_records(tileset@, self@.cells.len() as int),
    {
        let mut data: Vec<CellRenderData> = Vec::new();
        let mut index: usize = 0;
        assert(render_views(data@) =~= Seq::empty());
        while index < self.cells.len()
            invariant
                index <= self.cells.len(),
                self.wf(),
                tileset.wf(),
                render_views(data@) == self@.render_records(tileset@, index as int),
            decreases self.cells.len() - index,
        {
            let ghost before = render_views(data@);
            if let Some(tile) = self.cells[index].get_tile_data() {
                if let Some((texture, rotation)) = tileset.get_render_data(&tile) {
                    assert(self.width > 0) by (nonlinear_arith)
                        requires
                            self.cells@.len() == self.width * self.height,
                            self.cells@.len() > 0,
                    ;
                    let record = CellRenderData {
                        column: index % self.width,
                        row: index / self.width,
                        texture_id: texture.clone(),
                        rotation,
                    };
                    assert(record@ == self@.render_record(tileset@, index as int));
                    data.push(record);
                    assert(render_views(data@) =~= before.push(record@));
                }
            }
            index += 1;
        }
        data
    }

    /// The cell next to the cell `index` in `direction`; `None` at the border,
    /// and for a cell or a direction that does not exist.
    pub fn neighbor_index(&self, index: usize, direction: usize) -> (found: Option<usize>)
        requires
            self.wf(),
        ensures
            match found {
                Some(other) => {
                    &&& index < self@.cells.len()
                    &&& direction < 4
                    &&& neighbor(
                        self@.width as int,
                        self@.cells.len() as int,
                        index as int,
                        direction as int,
                    ) == Some(other as int)
                    &&& other < self@.cells.len()
                    &&& other != index
                },
                None => index < self@.cells.len() && direction < 4 ==> neighbor(
                    self@.width as int,
                    self@.cells.len() as int,
                    index as int,
                    direction as int,
                ) is None,
            },
    {
        let count = self.cells.len();
        if index >= count || direction >= 4 {
            return None;
        }
        assert(count == self.width * self.height) by {
            assert(self@.cells.len() == self.cells@.len());
            assert(self@.valid());
        }
        assert(self.width > 0) by (nonlinear_arith)
            requires
                count == self.width * self.height,
                count > 0,
        ;
        proof {
            lemma_neighbor(self.width as int, count as int, index as int, direction as int);
        }
        if direction == 0 {
            if index >= self.width {
                Some(index - self.width)
            } else {
                None
            }
        } else if direction == 1 {
            if index + 1 < count && (index + 1) % self.width != 0 {
                Some(index + 1)
            } else {
                None
            }
        } else if direction == 2 {
            if self.width < count - index {
                Some(index + self.width)
            } else {
                None
            }
        } else {
            if index % self.width != 0 {
                Some(index - 1)
            } else {
                None
            }
        }
    }

    /// Drops from the cell `index` every candidate that may stand next to no
    /// candidate of one of its neighbours, and says whether any was dropped.
    fn revise(&mut self, tileset: &WaveFunctionTileset, index: usize) -> (changed: bool)
        requires
            old(self).wf(),
            tileset.wf(),
            index < old(self)@.cells.len(),
        ensures
            final(self).wf(),
            final(self)@.within(old(self)@),
            forall|i: int|
                0 <= i < old(self)@.cells.len() && i != index ==> #[trigger] final(self)@.cells[i]
                    == old(self)@.cells[i],
            final(self)@.supported(tileset@, index as int),
            changed == (final(self)@.cells[index as int] != old(self)@.cells[index as int]),
            changed == (final(self)@.cells[index as int].len() < old(self)@.cells[index as int].len()),
            old(self)@.supported(tileset@, index as int) ==> final(self)@ == old(self)@,
            forall|k: int|
                0 <= k < old(self)@.cells[index as int].len() && (forall|direction: int|
                    0 <= direction < 4 ==> old(self)@.neighbor_allows(
                        tileset@,
                        index as int,
                        direction,
                        old(self)@.cells[index as int][k],
                    )) ==> final(self)@.cells[index as int].contains(
                    #[trigger] old(self)@.cells[index as int][k],
                ),
    {
        let mut changed = false;
        let mut direction: usize = 0;
        while direction < 4
            invariant
                direction <= 4,
                self.wf(),
                tileset.wf(),
                index < self@.cells.len(),
                self@.within(old(self)@),
                forall|i: int|
                    0 <= i < old(self)@.cells.len() && i != index ==> #[trigger] self@.cells[i]
                        == old(self)@.cells[i],
                forall|d: int, k: int|
                    0 <= d < direction && 0 <= k < self@.cells[index as int].len()
                        ==> #[trigger] self@.neighbor_allows(
                        tileset@,
                        index as int,
                        d,
                        self@.cells[index as int][k],
                    ),
                changed == (self@.cells[index as int] != old(self)@.cells[index as int]),
                changed == (self@.cells[index as int].len() < old(self)@.cells[index as int].len()),
                old(self)@.supported(tileset@, index as int) ==> self@ == old(self)@,
                forall|k: int|
                    0 <= k < old(self)@.cells[index as int].len() && (forall|d: int|
                        0 <= d < direction ==> old(self)@.neighbor_allows(
                            tileset@,
                            index as int,
                            d,
                            old(self)@.cells[index as int][k],
                        )) ==> self@.cells[index as int].contains(
                        #[trigger] old(self)@.cells[index as int][k],
                    ),
            decreases 4 - direction,
        {
            let ghost before = self@;
            if let Some(other) = self.neighbor_index(index, direction) {
                let facing = (direction + 2) % 4;
                let allowed = self.cells[other].allowed_neighbors(tileset, facing);
                let ghost cells_before = self.cells@;
                proof {
                    if old(self)@.supported(tileset@, index as int) {
                        assert forall|k: int|
                            0 <= k < before.cells[index as int].len() implies allowed@.contains(
                            #[trigger] before.cells[index as int][k],
                        ) by {
                            assert(old(self)@.neighbor_allows(
                                tileset@,
                                index as int,
                                direction as int,
                                old(self)@.cells[index as int][k],
                            ));
                        }
                    }
                }
                let dropped = self.cells[index].restrict(&allowed);
                proof {
                    if old(self)@.supported(tileset@, index as int) {
                        assert(self@.cells =~= before.cells);
                    }
                    assert(self.cells@ == cells_before.update(index as int, self.cells@[index as int]));
                    assert(self@.cells =~= before.cells.update(
                        index as int,
                        self.cells@[index as int]@,
                    ));
                    let now = self@.cells[index as int];
                    let was = before.cells[index as int];
                    assert(before.cells[other as int] == self@.cells[other as int]);
                    assert forall|i: int| 0 <= i < self@.cells.len() implies ascending(
                        #[trigger] self@.cells[i],
                    ) by {
                        if i != index {
                            assert(self@.cells[i] == before.cells[i]);
                        }
                    }
                    assert forall|i: int, k: int|
                        0 <= i < self@.cells.len() && 0 <= k < self@.cells[i].len() implies old(
                        self,
                    )@.cells[i].contains(#[trigger] self@.cells[i][k]) by {
                        if i == index {
                            assert(was.contains(now[k]));
                            let j = was.index_of(now[k]);
                            assert(old(self)@.cells[i].contains(was[j]));
                        } else {
                            assert(self@.cells[i] == before.cells[i]);
                            assert(old(self)@.cells[i].contains(before.cells[i][k]));
                        }
                    }
                    assert forall|d: int, k: int|
                        0 <= d < direction + 1 && 0 <= k < now.len() implies #[trigger] self@.neighbor_allows(
                        tileset@,
                        index as int,
                        d,
                        now[k],
                    ) by {
                        assert(was.contains(now[k]));
                        let j = was.index_of(now[k]);
                        if d < direction {
                            assert(before.neighbor_allows(tileset@, index as int, d, was[j]));
                            lemma_rows_not_empty(self@);
                            lemma_neighbor(
                                self.width as int,
                                self@.cells.len() as int,
                                index as int,
                                d,
                            );
                        } else {
                            assert(allowed@.contains(now[k]));
                        }
                    }
                    assert forall|k: int|
                        0 <= k < old(self)@.cells[index as int].len() && (forall|d: int|
                            0 <= d < direction + 1 ==> old(self)@.neighbor_allows(
                                tileset@,
                                index as int,
                                d,
                                old(self)@.cells[index as int][k],
                            )) implies now.contains(
                        #[trigger] old(self)@.cells[index as int][k],
                    ) by {
                        let candidate = old(self)@.cells[index as int][k];
                        assert(was.contains(candidate));
                        let j = was.index_of(candidate);
                        assert(old(self)@.neighbor_allows(
                            tileset@,
                            index as int,
                            direction as int,
                            candidate,
                        ));
                        assert(old(self)@.cells[other as int] == before.cells[other as int]);
                        assert(allowed@.contains(was[j]));
                    }
                }
                changed = changed || dropped;
            }
            direction += 1;
        }
        changed
    }

    /// Adds the neighbours of the cell `index` to the worklist.
    fn push_neighbors(&self, worklist: &mut Vec<usize>, index: usize)
        requires
            self.wf(),
            index < self@.cells.len(),
            forall|k: int| 0 <= k < old(worklist)@.len() ==> old(worklist)@[k] < self@.cells.len(),
        ensures
            forall|k: int| 0 <= k < final(worklist)@.len() ==> final(worklist)@[k] < self@.cells.len(),
            forall|cell: usize| old(worklist)@.contains(cell) ==> final(worklist)@.contains(cell),
            forall|direction: int, cell: usize|
                0 <= direction < 4 && neighbor(
                    self@.width as int,
                    self@.cells.len() as int,
                    index as int,
                    direction,
                ) == Some(cell as int) ==> final(worklist)@.contains(cell),
    {
        let mut direction: usize = 0;
        while direction < 4
            invariant
                direction <= 4,
                self.wf(),
                index < self@.cells.len(),
                forall|k: int| 0 <= k < worklist@.len() ==> worklist@[k] < self@.cells.len(),
                forall|cell: usize| old(worklist)@.contains(cell) ==> worklist@.contains(cell),
                forall|d: int, cell: usize|
                    0 <= d < direction && neighbor(
                        self@.width as int,
                        self@.cells.len() as int,
                        index as int,
                        d,
                    ) == Some(cell as int) ==> worklist@.contains(cell),
            decreases 4 - direction,
        {
            let ghost before = worklist@;
            if let Some(other) = self.neighbor_index(index, direction) {
                worklist.push(other);
                proof {
                    assert(worklist@[before.len() as int] == other);
                    assert forall|cell: usize| before.contains(cell) implies worklist@.contains(
                        cell,
                    ) by {
                        let k = before.index_of(cell);
                        assert(worklist@[k] == cell);
                    }
                }
            }
            proof {
                assert forall|d: int, cell: usize|
                    0 <= d < direction + 1 && neighbor(
                        self@.width as int,
                        self@.cells.len() as int,
                        index as int,
                        d,
                    ) == Some(cell as int) implies worklist@.contains(cell) by {
                    if d < direction {
                        assert(before.contains(cell));
                    } else {
                        assert(worklist@[before.len() as int] == cell);
                    }
                }
            }
            direction += 1;
        }
    }

    /// Carries what the cells of the worklist have lost to their neighbours,
    /// and on from there, until nothing changes any more or a cell is left
    /// without a candidate.
    fn propagate_from(&mut self, tileset: &WaveFunctionTileset, worklist: Vec<usize>) -> (result: Result<
        (),
        WaveFunctionError,
    >)
        requires
            old(self).wf(),
            tileset.wf(),
            forall|k: int| 0 <= k < worklist@.len() ==> worklist@[k] < old(self)@.cells.len(),
            forall|cell: usize|
                cell < old(self)@.cells.len() ==> worklist@.contains(cell) || old(self)@.supported(
                    tileset@,
                    cell as int,
                ),
        ensures
            final(self).wf(),
            final(self)@.within(old(self)@),
            match result {
                Ok(()) => {
                    &&& forall|cell: int|
                        0 <= cell < final(self)@.cells.len() ==> final(self)@.supported(
                            tileset@,
                            cell,
                        )
                    &&& forall|cell: int|
                        0 <= cell < final(self)@.cells.len() && old(self)@.cells[cell].len() > 0
                            ==> (#[trigger] final(self)@.cells[cell]).len() > 0
                },
                Err(error) => error == WaveFunctionError::Contradiction && exists|cell: int|
                    0 <= cell < final(self)@.cells.len() && (#[trigger] final(self)@.cells[cell]).len()
                        == 0,
            },
            old(self)@.settled(tileset@) ==> result is Ok && final(self)@ == old(self)@,
            forall|other: SectorView|
                #[trigger] other.inside(old(self)@) && other.all_supported(tileset@)
                    ==> other.inside(final(self)@),
            match result {
                Ok(()) => final(self)@ == old(self)@.carried(tileset@),
                Err(_) => old(self)@.carried(tileset@).has_empty_cell(),
            },
    {
        let mut worklist = worklist;
        while worklist.len() > 0
            invariant
                self.wf(),
                tileset.wf(),
                self@.within(old(self)@),
                forall|k: int| 0 <= k < worklist@.len() ==> worklist@[k] < self@.cells.len(),
                forall|cell: usize|
                    cell < self@.cells.len() ==> worklist@.contains(cell) || self@.supported(
                        tileset@,
                        cell as int,
                    ),
                forall|cell: int|
                    0 <= cell < self@.cells.len() && old(self)@.cells[cell].len() > 0 ==> (
                    #[trigger] self@.cells[cell]).len() > 0,
                old(self)@.settled(tileset@) ==> self@ == old(self)@,
                old(self)@.valid(),
                forall|other: SectorView|
                    #[trigger] other.inside(old(self)@) && other.all_supported(tileset@)
                        ==> other.inside(self@),
            decreases total_entropy(self@.cells), worklist@.len(),
        {
            let ghost before = self@;
            let ghost pending = worklist@;
            let index = worklist.pop().unwrap();
            let ghost rest = worklist@;
            let changed = self.revise(tileset, index);
            proof {
                assert(self@.cells =~= before.cells.update(index as int, self@.cells[index as int]));
                lemma_total_entropy_update(before.cells, index as int, self@.cells[index as int]);
                lemma_within_trans(self@, before, old(self)@);
                assert forall|other: SectorView|
                    #[trigger] other.inside(old(self)@) && other.all_supported(
                        tileset@,
                    ) implies other.inside(self@) by {
                    assert(other.inside(before));
                    lemma_revise_keeps(before, self@, other, tileset@, index as int);
                }
            }
            if self.cells[index].get_entropy() == 0 {
                assert(self@.cells[index as int].len() == 0);
                proof {
                    lemma_carried_empty(old(self)@, self@, tileset@, index as int);
                }
                return Err(WaveFunctionError::Contradiction);
            }
            assert forall|cell: int|
                0 <= cell < self@.cells.len() && old(self)@.cells[cell].len() > 0 implies (
            #[trigger] self@.cells[cell]).len() > 0 by {
                if cell != index {
                    assert(self@.cells[cell] == before.cells[cell]);
                }
            }
            if changed {
                self.push_neighbors(&mut worklist, index);
            } else {
                assert(self@.cells =~= before.cells);
            }
            proof {
                assert forall|cell: usize| cell < self@.cells.len() implies worklist@.contains(cell)
                    || self@.supported(tileset@, cell as int) by {
                    if cell != index && !worklist@.contains(cell) {
                        if pending.contains(cell) {
                            let k = pending.index_of(cell);
                            assert(rest[k] == cell);
                            assert(rest.contains(cell));
                        }
                        assert(before.supported(tileset@, cell as int));
                        assert(self@.cells[cell as int] == before.cells[cell as int]);
                        assert forall|direction: int, k: int|
                            0 <= direction < 4 && 0 <= k < self@.cells[cell as int].len() implies #[trigger] self@.neighbor_allows(
                            tileset@,
                            cell as int,
                            direction,
                            self@.cells[cell as int][k],
                        ) by {
                            assert(before.neighbor_allows(
                                tileset@,
                                cell as int,
                                direction,
                                before.cells[cell as int][k],
                            ));
                            lemma_rows_not_empty(self@);
                            lemma_neighbor(
                                self@.width as int,
                                self@.cells.len() as int,
                                cell as int,
                                direction,
                            );
                            match neighbor(
                                self@.width as int,
                                self@.cells.len() as int,
                                cell as int,
                                direction,
                            ) {
                                Some(other) => {
                                    if other == index && changed {
                                        assert(worklist@.contains(cell));
                                    }
                                },
                                None => {},
                            }
                        }
                    }
                }
            }
        }
        let count = self.cells.len();
        proof {
            assert(self@.cells.len() == count);
            assert forall|cell: int| 0 <= cell < self@.cells.len() implies self@.supported(
                tileset@,
                cell,
            ) by {
                let at = cell as usize;
                assert(!worklist@.contains(at));
                assert(self@.supported(tileset@, at as int));
            }
            lemma_carried_is(old(self)@, self@, tileset@);
        }
        Ok(())
    }

    /// Carries through the grid what the cells rule out for their neighbours:
    /// drops every candidate that has no candidate of some neighbour to stand
    /// beside, until none is left to drop. What stays is the most that can:
    /// every grid inside the old one in which each candidate has support lies
    /// inside the new one. The call fails when that leaves a cell without a
    /// candidate.
    pub fn propagate(&mut self, tileset: &WaveFunctionTileset) -> (result: Result<
        (),
        WaveFunctionError,
    >)
        requires
            old(self).wf(),
            tileset.wf(),
        ensures
            final(self).wf(),
            final(self)@.within(old(self)@),
            forall|other: SectorView|
                #[trigger] other.inside(old(self)@) && other.all_supported(tileset@)
                    ==> other.inside(final(self)@),
            match result {
                Ok(()) => final(self)@.settled(tileset@) && final(self)@ == old(self)@.carried(
                    tileset@,
                ),
                Err(error) => {
                    &&& error == WaveFunctionError::Contradiction
                    &&& final(self)@.has_empty_cell()
                    &&& old(self)@.carried(tileset@).has_empty_cell()
                },
            },
            old(self)@.settled(tileset@) ==> result is Ok && final(self)@ == old(self)@,
    {
        if let Some(empty) = self.find_contradiction() {
            assert(self@.cells[empty as int].len() == 0);
            proof {
                lemma_carried_empty(old(self)@, self@, tileset@, empty as int);
            }
            assert(self@.within(old(self)@)) by {
                assert forall|i: int, k: int|
                    0 <= i < self@.cells.len() && 0 <= k < self@.cells[i].len() implies self@.cells[i].contains(
                    #[trigger] self@.cells[i][k],
                ) by {}
            }
            return Err(WaveFunctionError::Contradiction);
        }
        let count = self.cells.len();
        let mut worklist: Vec<usize> = Vec::new();
        let mut fill: usize = 0;
        while fill < count
            invariant
                fill <= count,
                count == self@.cells.len(),
                worklist@.len() == fill,
                forall|k: int| 0 <= k < fill ==> worklist@[k] == k,
            decreases count - fill,
        {
            worklist.push(fill);
            fill += 1;
        }
        assert forall|cell: usize| cell < self@.cells.len() implies worklist@.contains(cell) by {
            assert(worklist@[cell as int] == cell);
        }
        self.propagate_from(tileset, worklist)
    }

    /// The first cell without a candidate, if there is one.
    pub fn find_contradiction(&self) -> (found: Option<usize>)
        ensures
            match found {
                Some(index) => {
                    &&& index < self@.cells.len()
                    &&& self@.cells[index as int].len() == 0
                    &&& forall|i: int| 0 <= i < index ==> (#[trigger] self@.cells[i]).len() > 0
                },
                None => forall|i: int|
                    0 <= i < self@.cells.len() ==> (#[trigger] self@.cells[i]).len() > 0,
            },
    {
        let mut i: usize = 0;
        while i < self.cells.len()
            invariant
                i <= self.cells.len(),
                forall|k: int| 0 <= k < i ==> (#[trigger] self@.cells[k]).len() > 0,
            decreases self.cells.len() - i,
        {
            if self.cells[i].get_entropy() == 0 {
                return Some(i);
            }
            i += 1;
        }
        None
    }

    /// The undecided cell with the fewest candidates, the first of them where
    /// several have as few; `None` if no cell has more than one candidate.
    pub fn lowest_entropy_cell(&self) -> (found: Option<usize>)
        ensures
            match found {
                Some(index) => {
                    &&& index < self@.cells.len()
                    &&& self@.cells[index as int].len() > 1
                    &&& forall|i: int|
                        0 <= i < self@.cells.len() && (#[trigger] self@.cells[i]).len() > 1
                            ==> self@.cells[index as int].len() <= self@.cells[i].len()
                    &&& forall|i: int|
                        0 <= i < index ==> (#[trigger] self@.cells[i]).len()
                            != self@.cells[index as int].len()
                },
                None => forall|i: int|
                    0 <= i < self@.cells.len() ==> (#[trigger] self@.cells[i]).len() <= 1,
            },
    {
        let mut found: Option<usize> = None;
        let mut lowest: usize = 0;
        let mut i: usize = 0;
        while i < self.cells.len()
            invariant
                i <= self.cells.len(),
                match found {
                    Some(index) => {
                        &&& index < i
                        &&& lowest == self@.cells[index as int].len()
                        &&& lowest > 1
                        &&& forall|k: int|
                            0 <= k < i && (#[trigger] self@.cells[k]).len() > 1 ==> lowest
                                <= self@.cells[k].len()
                        &&& forall|k: int|
                            0 <= k < index ==> (#[trigger] self@.cells[k]).len() != lowest
                    },
                    None => forall|k: int| 0 <= k < i ==> (#[trigger] self@.cells[k]).len() <= 1,
                },
            decreases self.cells.len() - i,
        {
            let entropy = self.cells[i].get_entropy();
            if entropy > 1 && (found.is_none() || entropy < lowest) {
                found = Some(i);
                lowest = entropy;
            }
            i += 1;
        }
        found
    }

    /// Decides the cell `index` by a weighted draw among its candidates. A
    /// cell whose candidates have no weight is left as it is.
    fn decide(&mut self, tileset: &WaveFunctionTileset, index: usize) -> (result: Result<
        (),
        WaveFunctionError,
    >)
        requires
            old(self).wf(),
            tileset.wf(),
            index < old(self)@.cells.len(),
        ensures
            final(self).wf(),
            final(self)@.within(old(self)@),
            forall|i: int|
                0 <= i < old(self)@.cells.len() && i != index ==> #[trigger] final(self)@.cells[i]
                    == old(self)@.cells[i],
            match result {
                Ok(()) => {
                    &&& final(self)@.cells[index as int].len() == 1
                    &&& cell_weight(tileset@, old(self)@.cells[index as int]) > 0
                    &&& exists|draw: u64|
                        final(self)@ == #[trigger] old(self)@.with_cell(
                            index as int,
                            decided_by(tileset@, old(self)@.cells[index as int], draw as int),
                        )
                },
                Err(error) => {
                    &&& error == WaveFunctionError::Contradiction
                    &&& cell_weight(tileset@, old(self)@.cells[index as int]) == 0
                    &&& final(self)@ == old(self)@
                },
            },
    {
        assert(ascending(self@.cells[index as int]));
        let result = self.cells[index].collapse(tileset);
        proof {
            let cell = self@.cells[index as int];
            assert(self@.cells =~= old(self)@.cells.update(index as int, cell));
            assert(self.cells@[index as int].wf());
            assert forall|i: int| 0 <= i < self@.cells.len() implies ascending(
                #[trigger] self@.cells[i],
            ) by {
                if i != index {
                    assert(self@.cells[i] == old(self)@.cells[i]);
                }
            }
            assert forall|i: int, k: int|
                0 <= i < self@.cells.len() && 0 <= k < self@.cells[i].len() implies old(
                self,
            )@.cells[i].contains(#[trigger] self@.cells[i][k]) by {
                if i != index {
                    assert(self@.cells[i] == old(self)@.cells[i]);
                }
            }
            if result is Err {
                assert(self@.cells =~= old(self)@.cells);
            } else {
                let draw = choose|draw: u64|
                    cell == #[trigger] decided_by(
                        tileset@,
                        old(self)@.cells[index as int],
                        draw as int,
                    );
                assert(self@ == old(self)@.with_cell(
                    index as int,
                    decided_by(tileset@, old(self)@.cells[index as int], draw as int),
                ));
            }
        }
        result
    }

    /// Solves the sector. What the cells rule out for their neighbours is
    /// first carried through the grid. Then, as long as a cell is undecided,
    /// the undecided cell with the fewest candidates (the first of them) is
    /// decided by a weighted draw, and what that rules out is carried on. The
    /// solve ends well when every cell is decided; it ends with a
    /// contradiction as soon as a cell is left without a candidate, or the
    /// cell to decide has no candidate with a weight.
    pub fn collapse(&mut self, tileset: &WaveFunctionTileset) -> (result: Result<
        (),
        WaveFunctionError,
    >)
        requires
            old(self).wf(),
            tileset.wf(),
        ensures
            final(self).wf(),
            final(self)@.within(old(self)@),
            match result {
                Ok(()) => final(self)@.decided() && final(self)@.consistent(tileset@),
                Err(error) => error == WaveFunctionError::Contradiction && exists|cell: int|
                    final(self)@.stuck(tileset@, cell),
            },
            old(self)@.unhindered(tileset@) ==> result is Ok,
            old(self)@.forced(tileset@) ==> result is Ok,
            exists|draws: Seq<u64>|
                #[trigger] old(self)@.ends_as(tileset@, draws, result, final(self)@),
    {
        proof {
            if old(self)@.unhindered(tileset@) {
                lemma_unhindered_settled(self@, tileset@);
            }
        }
        if self.propagate(tileset).is_err() {
            let ghost empty = choose|cell: int|
                0 <= cell < self@.cells.len() && (#[trigger] self@.cells[cell]).len() == 0;
            assert(self@.stuck(tileset@, empty));
            proof {
                if old(self)@.forced(tileset@) {
                    lemma_forced_inside(old(self)@, self@, tileset@);
                }
                assert(old(self)@.ends_as(
                    tileset@,
                    Seq::<u64>::empty(),
                    Err(WaveFunctionError::Contradiction),
                    self@,
                ));
            }
            return Err(WaveFunctionError::Contradiction);
        }
        let ghost mut taken: Seq<u64> = Seq::empty();
        proof {
            if old(self)@.forced(tileset@) {
                lemma_forced_decides(old(self)@, self@, tileset@);
            }
            lemma_settled_carried(self@, tileset@);
            assert forall|rest: Seq<u64>|
                old(self)@.outcome(tileset@, taken + rest) == #[trigger] self@.outcome(
                    tileset@,
                    rest,
                ) by {
                assert(taken + rest =~= rest);
                lemma_outcome_after_carry(old(self)@, self@, tileset@, rest);
            }
        }
        let mut outcome: Result<(), WaveFunctionError> = Ok(());
        loop
            invariant_except_break
                self.wf(),
                self@.within(old(self)@),
                forall|cell: int| 0 <= cell < self@.cells.len() ==> self@.supported(tileset@, cell),
                forall|cell: int|
                    0 <= cell < self@.cells.len() ==> (#[trigger] self@.cells[cell]).len() > 0,
                old(self)@.unhindered(tileset@) ==> self@.unhindered(tileset@),
                old(self)@.forced(tileset@) ==> self@.decided(),
                self@.carried(tileset@) == self@,
                forall|rest: Seq<u64>|
                    old(self)@.outcome(tileset@, taken + rest) == #[trigger] self@.outcome(
                        tileset@,
                        rest,
                    ),
            invariant
                tileset.wf(),
            ensures
                self.wf(),
                self@.within(old(self)@),
                old(self)@.unhindered(tileset@) ==> outcome is Ok,
                old(self)@.forced(tileset@) ==> outcome is Ok,
                old(self)@.ends_as(tileset@, taken, outcome, self@),
                match outcome {
                    Ok(()) => self@.decided() && self@.consistent(tileset@),
                    Err(error) => error == WaveFunctionError::Contradiction && exists|cell: int|
                        self@.stuck(tileset@, cell),
                },
            decreases total_entropy(self@.cells),
        {
            let ghost before = self@;
            let index = match self.lowest_entropy_cell() {
                Some(index) => index,
                None => {
                    proof {
                        lemma_decided_consistent(self@, tileset@);
                        assert(taken + Seq::<u64>::empty() =~= taken);
                        assert(!self@.has_empty_cell());
                        assert(self@.outcome(tileset@, Seq::<u64>::empty()) == Outcome::Solved(
                            self@,
                        ));
                    }
                    outcome = Ok(());
                    break;
                },
            };
            proof {
                assert(!old(self)@.forced(tileset@)) by {
                    assert(self@.cells[index as int].len() > 1);
                }
                assert(self@.first_to_decide(index as int));
                lemma_next_to_decide(self@, index as int);
                assert(!self@.has_empty_cell());
                assert(!self@.decided());
            }
            if self.decide(tileset, index).is_err() {
                proof {
                    assert(self@.stuck(tileset@, index as int));
                    assert(taken + Seq::<u64>::empty() =~= taken);
                    assert(self@.outcome(tileset@, Seq::<u64>::empty()) == Outcome::Contradiction);
                }
                outcome = Err(WaveFunctionError::Contradiction);
                break;
            }
            let ghost draw = choose|draw: u64|
                self@ == #[trigger] before.with_cell(
                    index as int,
                    decided_by(tileset@, before.cells[index as int], draw as int),
                );
            let ghost earlier = taken;
            proof {
                taken = earlier.push(draw);
                assert forall|rest: Seq<u64>|
                    old(self)@.outcome(tileset@, taken + rest) == #[trigger] self@.outcome(
                        tileset@,
                        rest,
                    ) by {
                    let longer = seq![draw] + rest;
                    assert(taken + rest =~= earlier + longer);
                    assert(old(self)@.outcome(tileset@, earlier + longer) == before.outcome(
                        tileset@,
                        longer,
                    ));
                    assert(longer.drop_first() =~= rest);
                    assert(longer[0] == draw);
                }
            }
            let mut worklist: Vec<usize> = Vec::new();
            self.push_neighbors(&mut worklist, index);
            proof {
                assert(self@.cells =~= before.cells.update(index as int, self@.cells[index as int]));
                lemma_total_entropy_update(before.cells, index as int, self@.cells[index as int]);
                lemma_within_trans(self@, before, old(self)@);
                lemma_support_after_change(before, self@, tileset@, index as int, worklist@);
                if old(self)@.unhindered(tileset@) {
                    lemma_unhindered_kept(before, self@, tileset@, index as int);
                    lemma_unhindered_settled(self@, tileset@);
                }
            }
            let ghost collapsed = self@;
            if self.propagate_from(tileset, worklist).is_err() {
                proof {
                    let empty = choose|cell: int|
                        0 <= cell < self@.cells.len() && (#[trigger] self@.cells[cell]).len() == 0;
                    assert(self@.stuck(tileset@, empty));
                    lemma_within_trans(self@, collapsed, old(self)@);
                    assert(taken + Seq::<u64>::empty() =~= taken);
                    assert(collapsed.outcome(tileset@, Seq::<u64>::empty())
                        == Outcome::Contradiction);
                }
                outcome = Err(WaveFunctionError::Contradiction);
                break;
            }
            proof {
                lemma_within_trans(self@, collapsed, old(self)@);
                lemma_total_entropy_within(self@.cells, collapsed.cells);
                lemma_settled_carried(self@, tileset@);
                assert forall|rest: Seq<u64>|
                    old(self)@.outcome(tileset@, taken + rest) == #[trigger] self@.outcome(
                        tileset@,
                        rest,
                    ) by {
                    assert(old(self)@.outcome(tileset@, taken + rest) == collapsed.outcome(
                        tileset@,
                        rest,
                    ));
                    lemma_outcome_after_carry(collapsed, self@, tileset@, rest);
                }
            }
        }
        outcome
    }
}

} // verus!
