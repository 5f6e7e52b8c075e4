use crate::error::WaveFunctionError;
use crate::infinite_grid::InfiniteGrid;
use crate::grid::{blank_sector, RenderView, SectorView};
use crate::sector::{render_views, CellRenderData, WaveFunctionSector};
use crate::tileset::{TilesetView, WaveFunctionTileset};
use vstd::prelude::*;

verus! {

/// A world of sectors, made where they are asked for, over one catalog.
pub struct WaveFunctionField {
    sectors: InfiniteGrid<WaveFunctionSector>,
    sector_width: usize,
    sector_height: usize,
    tileset: WaveFunctionTileset,
}

impl WaveFunctionField {
    /// The catalog of the field.
    pub closed spec fn tileset(&self) -> TilesetView {
        self.tileset@
    }

    /// The sectors of the field, by their coordinates.
    pub closed spec fn sectors(&self) -> Map<(int, int), SectorView> {
        self.sectors@.map_values(|sector: WaveFunctionSector| sector@)
    }

    /// The sides of every sector of the field.
    pub closed spec fn sector_size(&self) -> (nat, nat) {
        (self.sector_width as nat, self.sector_height as nat)
    }

    /// Whether the field is in order: its catalog is, and every sector is and
    /// has the sides of the field.
    pub closed spec fn wf(&self) -> bool {
        &&& self.tileset.wf()
        &&& self.sector_width * self.sector_height <= usize::MAX
        &&& forall|p: (int, int)| #[trigger]
            self.sectors@.contains_key(p) ==> {
                &&& self.sectors@[p].wf()
                &&& self.sectors@[p]@.width == self.sector_width
                &&& self.sectors@[p]@.height == self.sector_height
            }
    }

    /// A field without sectors, whose sectors will be 16 by 16 cells.
    pub fn new(tileset: WaveFunctionTileset) -> (field: Self)
        requires
            tileset.wf(),
        ensures
            field.wf(),
            field.tileset() == tileset@,
            field.sectors() == Map::<(int, int), SectorView>::empty(),
            field.sector_size() == (16nat, 16nat),
    {
        let field = WaveFunctionField {
            sectors: InfiniteGrid::new(),
            sector_width: 16,
            sector_height: 16,
            tileset,
        };
        assert(field.sectors() =~= Map::<(int, int), SectorView>::empty());
        field
    }

    /// The catalog of the field.
    pub fn get_tileset(&self) -> (tileset: &WaveFunctionTileset)
        requires
            self.wf(),
        ensures
            tileset.wf(),
            tileset@ == self.tileset(),
    {
        &self.tileset
    }

    /// The sector at `(x, y)`, if there is one.
    pub fn get_sector(&self, x: i32, y: i32) -> (found: Option<&WaveFunctionSector>)
        requires
            self.wf(),
        ensures
            match found {
                Some(sector) => self.sectors().contains_key((x as int, y as int)) && sector@
                    == self.sectors()[(x as int, y as int)] && sector.wf(),
                None => !self.sectors().contains_key((x as int, y as int)),
            },
    {
        self.sectors.get(x, y)
    }

    /// What a renderer needs of the sector at `(x, y)`: a record for each of
    /// its decided cells, row after row; nothing where there is no sector.
    pub fn get_cell_render_data(&self, x: i32, y: i32) -> (data: Vec<CellRenderData>)
        requires
            self.wf(),
        ensures
            render_views(data@) == if self.sectors().contains_key((x as int, y as int)) {
                let sector = self.sectors()[(x as int, y as int)];
                sector.render_records(self.tileset(), sector.cells.len() as int)
            } else {
                Seq::<RenderView>::empty()
            },
    {
        match self.sectors.get(x, y) {
            Some(sector) => sector.render_data(&self.tileset),
            None => {
                let data: Vec<CellRenderData> = Vec::new();
                assert(render_views(data@) =~= Seq::<RenderView>::empty());
                data
            },
        }
    }

    /// Puts a sector of which nothing is known at `(x, y)`. Where a sector
    /// stands already, it stays, and the call fails.
    pub fn add_sector(&mut self, x: i32, y: i32) -> (result: Result<(), WaveFunctionError>)
        requires
            old(self).wf(),
        ensures
            final(self).wf(),
            final(self).tileset() == old(self).tileset(),
            final(self).sector_size() == old(self).sector_size(),
            match result {
                Ok(()) => {
                    &&& !old(self).sectors().contains_key((x as int, y as int))
                    &&& final(self).sectors() == old(self).sectors().insert(
                        (x as int, y as int),
                        blank_sector(
                            old(self).sector_size().0,
                            old(self).sector_size().1,
                            old(self).tileset(),
                        ),
                    )
                },
                Err(error) => {
                    &&& error == WaveFunctionError::OccupiedSector
                    &&& old(self).sectors().contains_key((x as int, y as int))
                    &&& final(self).sectors() == old(self).sectors()
                },
            },
    {
        if let None = self.sectors.get(x, y) {
            let sector = WaveFunctionSector::new(
                &self.tileset,
                self.sector_width,
                self.sector_height,
            );
            self.sectors.set(x, y, sector);
            assert(self.sectors() =~= old(self).sectors().insert(
                (x as int, y as int),
                blank_sector(
                    old(self).sector_size().0,
                    old(self).sector_size().1,
                    old(self).tileset(),
                ),
            ));
            Ok(())
        } else {
            Err(WaveFunctionError::OccupiedSector)
        }
    }

    /// Makes the sector at `(x, y)` one of which nothing is known again, so
    /// that it can be solved anew, and says whether there was a sector.
    pub fn reset_sector(&mut self, x: i32, y: i32) -> (found: bool)
        requires
            old(self).wf(),
        ensures
            final(self).wf(),
            final(self).tileset() == old(self).tileset(),
            final(self).sector_size() == old(self).sector_size(),
            found == old(self).sectors().contains_key((x as int, y as int)),
            final(self).sectors() == if found {
                old(self).sectors().insert(
                    (x as int, y as int),
                    blank_sector(
                        old(self).sector_size().0,
                        old(self).sector_size().1,
                        old(self).tileset(),
                    ),
                )
            } else {
                old(self).sectors()
            },
    {
        if let Some(_) = self.sectors.get(x, y) {
            let sector = WaveFunctionSector::new(
                &self.tileset,
                self.sector_width,
                self.sector_height,
            );
            self.sectors.set(x, y, sector);
            assert(self.sectors() =~= old(self).sectors().insert(
                (x as int, y as int),
                blank_sector(
                    old(self).sector_size().0,
                    old(self).sector_size().1,
                    old(self).tileset(),
                ),
            ));
            true
        } else {
            false
        }
    }

    /// Solves the sector at `(x, y)`; where there is none, nothing happens.
    /// The other sectors stay as they are.
    pub fn collapse_sector(&mut self, x: i32, y: i32) -> (result: Result<(), WaveFunctionError>)
        requires
            old(self).wf(),
        ensures
            final(self).wf(),
            final(self).tileset() == old(self).tileset(),
            final(self).sector_size() == old(self).sector_size(),
            final(self).sectors().dom() == old(self).sectors().dom(),
            forall|p: (int, int)|
                old(self).sectors().contains_key(p) && p != (x as int, y as int) ==> final(self).sectors()[p]
                    == #[trigger] old(self).sectors()[p],
            !old(self).sectors().contains_key((x as int, y as int)) ==> result is Ok,
            old(self).sectors().contains_key((x as int, y as int)) ==> {
                let solved = final(self).sectors()[(x as int, y as int)];
                &&& solved.within(old(self).sectors()[(x as int, y as int)])
                &&& match result {
                    Ok(()) => solved.decided() && solved.consistent(old(self).tileset()),
                    Err(error) => error == WaveFunctionError::Contradiction && exists|cell: int|
                        solved.stuck(old(self).tileset(), cell),
                }
                &&& old(self).sectors()[(x as int, y as int)].unhindered(old(self).tileset())
                    ==> result is Ok
                &&& exists|draws: Seq<u64>|
                    #[trigger] old(self).sectors()[(x as int, y as int)].ends_as(
                        old(self).tileset(),
                        draws,
                        result,
                        solved,
                    )
            },
    {
        let result = match self.sectors.get_mut(x, y) {
            Some(sector) => sector.collapse(&self.tileset),
            None => Ok(()),
        };
        proof {
            let at = (x as int, y as int);
            if old(self).sectors().contains_key(at) {
                assert(old(self).sectors@.contains_key(at));
                assert(self.sectors@.contains_key(at));
                let solved = self.sectors@[at]@;
                assert(self.sectors()[at] == solved);
                assert(old(self).sectors()[at] == old(self).sectors@[at]@);
                assert(solved.within(old(self).sectors@[at]@));
                if result is Err {
                    let cell = choose|cell: int| solved.stuck(self.tileset@, cell);
                    assert(self.sectors()[at].stuck(old(self).tileset(), cell));
                }
                let draws = choose|draws: Seq<u64>|
                    #[trigger] old(self).sectors@[at]@.ends_as(
                        self.tileset@,
                        draws,
                        result,
                        solved,
                    );
                assert(old(self).sectors()[at].ends_as(
                    old(self).tileset(),
                    draws,
                    result,
                    self.sectors()[at],
                ));
            }
        }
        result
    }
}

} // verus!
