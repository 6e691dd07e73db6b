//! A dense, row-major pixel buffer.

use crate::layout::{
    advance, band_len, border_lead, chunk_size, cut_len, grid_coords, grid_parts, head_len,
    inner_parts, inner_walk, interior_coords, interior_len, interior_parts, is_inner_col,
    lemma_advance_closed_form, lemma_advance_push, lemma_chunks_cover_grid, lemma_cut_len,
    lemma_head_len, lemma_inner_chunks_cover_interior, lemma_inner_walk_push,
    lemma_inner_walk_split, lemma_interior_len, lemma_offset_in_grid, lemma_shares, offset,
    parts, run_count, step, walk,
};
use vstd::prelude::*;

verus! {

/// A grid of `width × height` cells stored row by row.
///
/// The cell type is left open: the buffer moves cells around and never
/// computes with them.
pub struct Image<T> {
    dimensions: (usize, usize),
    field: Vec<T>,
}

impl<T> Image<T> {
    /// The cells in storage order: row 0 left to right, then row 1, and so on.
    pub closed spec fn view(&self) -> Seq<T> {
        self.field@
    }

    /// Number of cells in a row.
    pub closed spec fn width(&self) -> nat {
        self.dimensions.0 as nat
    }

    /// Number of rows.
    pub closed spec fn height(&self) -> nat {
        self.dimensions.1 as nat
    }

    /// The buffer holds one cell per coordinate. `new` establishes this and
    /// every operation keeps it; while the buffer is lent out as runs, its
    /// cells are those of the runs.
    pub open spec fn is_grid(&self) -> bool {
        self@.len() == self.width() * self.height()
    }

    /// The cell at column `x` of row `y`.
    pub open spec fn at(&self, x: int, y: int) -> T {
        self@[offset(self.width() as int, x, y)]
    }

    /// The width and height the buffer was made with.
    pub fn dimensions(&self) -> (d: (usize, usize))
        ensures
            d.0 == self.width(),
            d.1 == self.height(),
    {
        self.dimensions
    }

    /// Whether `coord` lies inside the grid.
    pub fn contains(&self, coord: (usize, usize)) -> (inside: bool)
        ensures
            inside == (coord.0 < self.width() && coord.1 < self.height()),
    {
        let (nx, ny) = self.dimensions;
        coord.0 < nx && coord.1 < ny
    }

    /// The cell at `coord`, found at offset `x + width * y` of the storage.
    ///
    /// The offset alone has to fall inside the storage: a column past the
    /// right edge reads on into the following row.
    pub fn index(&self, coord: (usize, usize)) -> (cell: &T)
        requires
            coord.0 + self.width() * coord.1 < self@.len(),
        ensures
            *cell == self.at(coord.0 as int, coord.1 as int),
    {
        let (nx, _) = self.dimensions;
        assert(0 <= nx * coord.1) by (nonlinear_arith)
            requires
                0 <= nx,
                0 <= coord.1,
        ;
        assert(self.field.len() == self.field@.len());
        let index: usize = coord.0 + nx * coord.1;
        &self.field[index]
    }

    /// Mutable access to the cell at `coord`; every other cell keeps its value.
    pub fn index_mut(&mut self, coord: (usize, usize)) -> (cell: &mut T)
        requires
            coord.0 + old(self).width() * coord.1 < old(self)@.len(),
        ensures
            *cell == old(self).at(coord.0 as int, coord.1 as int),
            final(self)@ == old(self)@.update(coord.0 + old(self).width() * coord.1, *final(cell)),
            final(self).width() == old(self).width(),
            final(self).height() == old(self).height(),
    {
        let (nx, _) = self.dimensions;
        assert(0 <= nx * coord.1) by (nonlinear_arith)
            requires
                0 <= nx,
                0 <= coord.1,
        ;
        assert(self.field.len() == self.field@.len());
        let index: usize = coord.0 + nx * coord.1;
        &mut self.field[index]
    }

    /// Writes `value` at `coord` if the coordinate lies inside the grid, and
    /// does nothing otherwise.
    pub fn set(&mut self, coord: (usize, usize), value: T)
        requires
            old(self).is_grid(),
        ensures
            final(self).width() == old(self).width(),
            final(self).height() == old(self).height(),
            final(self).is_grid(),
            coord.0 < old(self).width() && coord.1 < old(self).height() ==> final(self)@
                == old(self)@.update(coord.0 + old(self).width() * coord.1, value),
            !(coord.0 < old(self).width() && coord.1 < old(self).height()) ==> final(self)@ == old(
                self,
            )@,
    {
        if self.contains(coord) {
            let (nx, ny) = self.dimensions;
            proof {
                lemma_offset_in_grid(nx as int, ny as int, coord.0 as int, coord.1 as int);
            }
            assert(self.field.len() == self.field@.len());
            let index: usize = coord.0 + nx * coord.1;
            self.field[index] = value;
        }
    }

    /// One run over the whole buffer, starting at the top-left cell. What is
    /// written through the run is what the buffer holds afterwards.
    pub fn iter_mut(&mut self) -> (run: IterMut<'_, T>)
        requires
            old(self).is_grid(),
        ensures
            run.cells@ == old(self)@,
            run.nx == old(self).width(),
            run.x == 0,
            run.y == 0,
            run.wf(),
            run.coords() == grid_coords(old(self).width(), old(self).height()),
            final(self)@ == final(run.cells)@,
            final(self).width() == old(self).width(),
            final(self).height() == old(self).height(),
    {
        assert(self.field.len() == self.field@.len());
        assert(self.dimensions.0 == 0 ==> self.dimensions.0 * self.dimensions.1 == 0)
            by (nonlinear_arith);
        let nx = self.dimensions.0;
        IterMut { cells: self.field.as_mut_slice(), nx, x: 0, y: 0 }
    }

    /// Cuts the buffer into consecutive runs for handing one run to each of
    /// `count` workers: `count` runs, none of them empty. A run holds the
    /// cells divided by the workers, rounded up, or fewer where that is
    /// needed to leave a cell for each run after it. A buffer with fewer
    /// cells than workers gives one run for each cell, and an empty buffer
    /// none. With `count` 0 the whole buffer is one run.
    pub fn chunks_mut(&mut self, count: usize) -> (chunks: ChunksMut<'_, T>)
        requires
            old(self).is_grid(),
        ensures
            chunks.rest@ == old(self)@,
            chunks.chunk_size == chunk_size(old(self)@.len(), count as nat),
            chunks.runs == run_count(old(self)@.len(), count as nat),
            chunks.nx == old(self).width(),
            chunks.x == 0,
            chunks.y == 0,
            chunks.wf(),
            chunks.regions() == grid_parts(old(self).width(), old(self).height(), count as nat),
            chunks.regions().len() == run_count(old(self)@.len(), count as nat),
            1 <= count <= old(self)@.len() ==> chunks.regions().len() == count,
            forall|k: int|
                0 <= k < chunks.regions().len() ==> 0 < (#[trigger] chunks.regions()[k]).len()
                    <= chunks.chunk_size,
            chunks.regions().flatten() == grid_coords(old(self).width(), old(self).height()),
            final(self)@ == final(chunks.rest)@,
            final(self).width() == old(self).width(),
            final(self).height() == old(self).height(),
    {
        assert(self.field.len() == self.field@.len());
        assert(self.dimensions.0 == 0 ==> self.dimensions.0 * self.dimensions.1 == 0)
            by (nonlinear_arith);
        let len = self.field.len();
        let (chunk_size, runs) = shares_of(len, count);
        let nx = self.dimensions.0;
        proof {
            lemma_chunks_cover_grid(self.width(), self.height(), count as nat);
            if len > 0 {
                lemma_shares(len as nat, count as nat);
            }
        }
        ChunksMut { rest: self.field.as_mut_slice(), chunk_size, runs, nx, x: 0, y: 0 }
    }

    /// Storage place of the first cell of the second row, where the band of
    /// rows between the first and the last begins; 0 if there is no such band.
    pub open spec fn band_start(&self) -> int {
        if self.height() >= 2 {
            self.width() as int
        } else {
            0
        }
    }

    /// Storage place of the first cell of the last row, where that band ends.
    pub open spec fn band_end(&self) -> int {
        if self.height() >= 2 {
            self@.len() - self.width()
        } else {
            0
        }
    }

    /// The rows between the first and the last, as one slice. The first and
    /// the last row stay as they are.
    fn band_mut(&mut self) -> (band: &mut [T])
        requires
            old(self).is_grid(),
        ensures
            0 <= old(self).band_start() <= old(self).band_end() <= old(self)@.len(),
            band@ == old(self)@.subrange(old(self).band_start(), old(self).band_end()),
            band@.len() == band_len(old(self).width(), old(self).height()),
            band@.len() > 0 ==> old(self).width() > 0 && old(self).width() + band@.len()
                <= usize::MAX,
            final(self)@ == old(self)@.take(old(self).band_start()) + final(band)@ + old(
                self,
            )@.skip(old(self).band_end()),
            final(self).width() == old(self).width(),
            final(self).height() == old(self).height(),
    {
        let (nx, ny) = self.dimensions;
        assert(self.field.len() == self.field@.len());
        let len = self.field.len();
        let ghost before = self.field@;
        let cells = self.field.as_mut_slice();
        if ny < 2 {
            let (band, rest) = cells.split_at_mut(0);
            assert(before =~= before.take(0) + band@ + before.skip(0));
            band
        } else {
            assert(nx * ny == nx * (ny - 2) + nx + nx) by (nonlinear_arith);
            assert(0 <= nx * (ny - 2)) by (nonlinear_arith)
                requires
                    nx >= 0,
                    ny >= 2,
            ;
            assert(nx == 0 ==> nx * (ny - 2) == 0) by (nonlinear_arith);
            let (top, below) = cells.split_at_mut(nx);
            let (band, bottom) = below.split_at_mut(len - nx - nx);
            assert(top@ =~= before.take(nx as int));
            assert(bottom@ =~= before.skip(len - nx));
            assert(band@ =~= before.subrange(nx as int, len - nx));
            band
        }
    }

    /// One run over the interior of the buffer: every cell that lies neither
    /// in the first or last row nor in the first or last column, row by row.
    /// The cells of the outermost ring stay as they are.
    pub fn iter_inner_mut(&mut self) -> (run: IterInnerMut<'_, T>)
        requires
            old(self).is_grid(),
        ensures
            0 <= old(self).band_start() <= old(self).band_end() <= old(self)@.len(),
            run.run.cells@ == old(self)@.subrange(old(self).band_start(), old(self).band_end()),
            run.run.nx == old(self).width(),
            run.run.x == 0,
            run.run.y == 1,
            run.run.wf(),
            run.coords() == interior_coords(old(self).width(), old(self).height()),
            final(self)@ == old(self)@.take(old(self).band_start()) + final(run.run.cells)@ + old(
                self,
            )@.skip(old(self).band_end()),
            final(self).width() == old(self).width(),
            final(self).height() == old(self).height(),
    {
        let nx = self.dimensions.0;
        let band = self.band_mut();
        assert(nx * 1 == nx) by (nonlinear_arith);
        IterInnerMut { run: IterMut { cells: band, nx, x: 0, y: 1 } }
    }

    /// Cuts the interior of the buffer into consecutive runs for handing one
    /// run to each of `count` workers: `count` runs, none of them without an
    /// interior cell. A run holds the interior cells divided by the workers,
    /// rounded up, or fewer where that is needed to leave a cell for each
    /// run after it. An interior with fewer cells than workers gives one run
    /// for each cell, and an empty interior none. The cells of the outermost
    /// ring stay as they are.
    pub fn chunks_inner_mut(&mut self, count: usize) -> (chunks: ChunksInnerMut<'_, T>)
        requires
            old(self).is_grid(),
        ensures
            0 <= old(self).band_start() <= old(self).band_end() <= old(self)@.len(),
            chunks.rest@ == old(self)@.subrange(old(self).band_start(), old(self).band_end()),
            chunks.chunk_size == chunk_size(
                interior_len(old(self).width(), old(self).height()),
                count as nat,
            ),
            chunks.runs == run_count(
                interior_len(old(self).width(), old(self).height()),
                count as nat,
            ),
            chunks.inner == interior_len(old(self).width(), old(self).height()),
            chunks.nx == old(self).width(),
            chunks.x == 0,
            chunks.y == 1,
            chunks.wf(),
            chunks.regions() == interior_parts(
                old(self).width(),
                old(self).height(),
                count as nat,
            ),
            chunks.regions().len() == run_count(
                interior_len(old(self).width(), old(self).height()),
                count as nat,
            ),
            1 <= count <= interior_len(old(self).width(), old(self).height())
                ==> chunks.regions().len() == count,
            forall|k: int|
                0 <= k < chunks.regions().len() ==> 0 < (#[trigger] chunks.regions()[k]).len()
                    <= chunks.chunk_size,
            chunks.regions().flatten() == interior_coords(old(self).width(), old(self).height()),
            final(self)@ == old(self)@.take(old(self).band_start()) + final(chunks.rest)@ + old(
                self,
            )@.skip(old(self).band_end()),
            final(self).width() == old(self).width(),
            final(self).height() == old(self).height(),
    {
        let (nx, ny) = self.dimensions;
        proof {
            lemma_inner_chunks_cover_interior(self.width(), self.height(), count as nat);
            lemma_interior_len(self.width(), self.height());
        }
        let band = self.band_mut();
        assert(nx * 1 == nx) by (nonlinear_arith);
        let inner: usize = if nx >= 3 && ny >= 3 {
            assert(0 < (nx - 2) * (ny - 2)) by (nonlinear_arith)
                requires
                    nx >= 3,
                    ny >= 3,
            ;
            (nx - 2) * (ny - 2)
        } else {
            0
        };
        let (chunk_size, runs) = shares_of(inner, count);
        ChunksInnerMut { rest: band, chunk_size, runs, inner, nx, x: 0, y: 1 }
    }
}

impl<T: Copy> Image<T> {
    /// A buffer of the given width and height with every cell set to `fill`.
    pub fn new(dimensions: (usize, usize), fill: T) -> (image: Image<T>)
        requires
            dimensions.0 * dimensions.1 <= usize::MAX,
        ensures
            image.width() == dimensions.0,
            image.height() == dimensions.1,
            image.is_grid(),
            forall|i: int| 0 <= i < image@.len() ==> image@[i] == fill,
    {
        let count: usize = dimensions.0 * dimensions.1;
        let mut field: Vec<T> = Vec::with_capacity(count);
        let mut i: usize = 0;
        while i < count
            invariant
                i <= count,
                field@.len() == i,
                forall|k: int| 0 <= k < i ==> field@[k] == fill,
            decreases count - i,
        {
            field.push(fill);
            i += 1;
        }
        Image { dimensions, field }
    }
}

/// Shares `len` cells out among `count` workers: the length of a full run
/// and the number of runs. See [`chunk_size`] and [`run_count`].
pub fn shares_of(len: usize, count: usize) -> (shares: (usize, usize))
    ensures
        shares.0 == chunk_size(len as nat, count as nat),
        shares.1 == run_count(len as nat, count as nat),
{
    if len == 0 {
        (0, 0)
    } else {
        let runs: usize = if count == 0 {
            1
        } else if count <= len {
            count
        } else {
            len
        };
        proof {
            lemma_shares(len as nat, count as nat);
        }
        if len % runs == 0 {
            (len / runs, runs)
        } else {
            (len / runs + 1, runs)
        }
    }
}

/// Length of the next run when `left` cells are left for `runs` runs of up
/// to `chunk` cells. See [`head_len`].
pub fn run_len(left: usize, chunk: usize, runs: usize) -> (len: usize)
    ensures
        len == head_len(left as nat, chunk as nat, runs as nat),
{
    let reserve: usize = if runs > 0 {
        runs - 1
    } else {
        0
    };
    let spare: usize = if left > reserve {
        left - reserve
    } else if left > 0 {
        1
    } else {
        0
    };
    if chunk <= spare {
        chunk
    } else {
        spare
    }
}

/// A contiguous run of cells together with the grid coordinate of its first
/// cell. `next` hands the cells out one by one, each with its coordinate.
///
/// The fields are public so that contracts can speak of the cells a run
/// still holds and of what will have been written to them.
pub struct IterMut<'field, T> {
    /// The cells not handed out yet.
    pub cells: &'field mut [T],
    /// Width of the grid the run was cut from.
    pub nx: usize,
    /// Column of the first remaining cell.
    pub x: usize,
    /// Row of the first remaining cell.
    pub y: usize,
}

impl<'field, T> IterMut<'field, T> {
    /// The coordinates of the remaining cells, in order.
    pub open spec fn coords(&self) -> Seq<(int, int)> {
        walk(self.nx as int, self.x as int, self.y as int, self.cells@.len())
    }

    /// The run starts inside a row, and the storage offset of every
    /// remaining cell fits the machine word.
    pub open spec fn wf(&self) -> bool {
        self.cells@.len() > 0 ==> self.x < self.nx && self.x + self.nx * self.y
            + self.cells@.len() <= usize::MAX
    }

    /// What `next` needs of the machine: the coordinate after the first
    /// remaining cell can be stored.
    pub open spec fn can_step(&self) -> bool {
        self.cells@.len() > 0 ==> self.x < usize::MAX && self.y < usize::MAX
    }

    /// A well-formed run can always hand out its next cell.
    pub proof fn lemma_wf_can_step(&self)
        requires
            self.wf(),
        ensures
            self.can_step(),
    {
        if self.cells@.len() > 0 {
            assert(self.y <= self.nx * self.y) by (nonlinear_arith)
                requires
                    self.nx >= 1,
                    self.y >= 0,
            ;
        }
    }

    /// Hands out the first remaining cell with its coordinate and moves on
    /// to the next coordinate in row-major order; `None` once the run is
    /// used up.
    pub fn next(&mut self) -> (item: Option<((usize, usize), &'field mut T)>)
        requires
            old(self).can_step(),
        ensures
            final(self).nx == old(self).nx,
            old(self).wf() ==> final(self).wf(),
            old(self).cells@.len() == 0 ==> {
                &&& item is None
                &&& final(self).cells@ == old(self).cells@
                &&& final(self).x == old(self).x
                &&& final(self).y == old(self).y
                &&& final(old(self).cells)@ == old(self).cells@
            },
            old(self).cells@.len() > 0 ==> {
                &&& item is Some
                &&& item.unwrap().0 == (old(self).x, old(self).y)
                &&& *item.unwrap().1 == old(self).cells@[0]
                &&& final(self).cells@ == old(self).cells@.skip(1)
                &&& final(self).coords() == old(self).coords().skip(1)
                &&& (final(self).x as int, final(self).y as int) == step(
                    old(self).nx as int,
                    old(self).x as int,
                    old(self).y as int,
                )
                &&& final(old(self).cells)@ == seq![*final(item.unwrap().1)]
                    + final(final(self).cells)@
            },
    {
        let mut cells: &'field mut [T] = &mut [];
        core::mem::swap(&mut self.cells, &mut cells);
        if cells.len() == 0 {
            None
        } else {
            let (head, tail) = cells.split_at_mut(1);
            self.cells = tail;
            let coord = (self.x, self.y);
            proof {
                lemma_wf_after_step(
                    old(self).nx as int,
                    old(self).x as int,
                    old(self).y as int,
                    old(self).cells@.len() as int,
                );
            }
            assert(old(self).coords().skip(1) =~= walk(
                old(self).nx as int,
                step(old(self).nx as int, old(self).x as int, old(self).y as int).0,
                step(old(self).nx as int, old(self).x as int, old(self).y as int).1,
                (old(self).cells@.len() - 1) as nat,
            ));
            self.x += 1;
            if self.x >= self.nx {
                self.x = 0;
                self.y += 1;
            }
            match head.first_mut() {
                Some(cell) => Some((coord, cell)),
                None => None,
            }
        }
    }
}

/// Taking one cell off a run that fits the machine word leaves a run that
/// fits it too.
proof fn lemma_wf_after_step(nx: int, x: int, y: int, len: int)
    requires
        0 <= x,
        0 <= y,
        0 <= nx,
        len > 0,
    ensures
        x < nx && x + nx * y + len <= usize::MAX ==> {
            let next = step(nx, x, y);
            &&& (len - 1 > 0 ==> next.0 < nx)
            &&& next.0 + nx * next.1 + (len - 1) <= usize::MAX
        },
{
    if x < nx && x + nx * y + len <= usize::MAX {
        assert(nx * (y + 1) == nx * y + nx) by (nonlinear_arith);
    }
}

/// What is left of a buffer that is being cut into runs, together with the
/// grid coordinate of the first cell left. A run holds `chunk_size` cells,
/// or fewer where that is needed to leave a cell for each of the `runs` runs
/// still to come.
///
/// The fields are public for the same reason as those of [`IterMut`].
pub struct ChunksMut<'field, T> {
    /// The cells not cut off yet.
    pub rest: &'field mut [T],
    /// Length of a full run.
    pub chunk_size: usize,
    /// Number of runs still to come.
    pub runs: usize,
    /// Width of the grid.
    pub nx: usize,
    /// Column of the first remaining cell.
    pub x: usize,
    /// Row of the first remaining cell.
    pub y: usize,
}

impl<'field, T> ChunksMut<'field, T> {
    /// Length of the run that `next` cuts off.
    pub open spec fn head_len(&self) -> nat {
        head_len(self.rest@.len(), self.chunk_size as nat, self.runs as nat)
    }

    /// The coordinates of the runs still to come, run by run.
    pub open spec fn regions(&self) -> Seq<Seq<(int, int)>> {
        parts(
            self.nx as int,
            self.x as int,
            self.y as int,
            self.rest@.len(),
            self.chunk_size as nat,
            self.runs as nat,
        )
    }

    /// While cells are left, runs are not empty, the first cell lies inside
    /// a row, and the storage offset of every cell fits the machine word.
    pub open spec fn wf(&self) -> bool {
        self.rest@.len() > 0 ==> self.chunk_size > 0 && self.x < self.nx && self.x + self.nx
            * self.y + self.rest@.len() <= usize::MAX
    }

    /// What `next` needs of the machine: a run has a length, rows have a
    /// width to divide by, and the coordinate after the run can be stored.
    pub open spec fn can_advance(&self) -> bool {
        self.rest@.len() > 0 ==> self.chunk_size > 0 && self.nx > 0 && self.x + self.head_len()
            <= usize::MAX && self.y + (self.x + self.head_len()) / (self.nx as int) <= usize::MAX
    }

    /// A well-formed cursor can always advance.
    pub proof fn lemma_wf_can_advance(&self)
        requires
            self.wf(),
        ensures
            self.can_advance(),
    {
        if self.rest@.len() > 0 {
            lemma_head_len(self.rest@.len(), self.chunk_size as nat, self.runs as nat);
            lemma_run_end_fits(
                self.nx as int,
                self.x as int,
                self.y as int,
                self.head_len() as int,
                self.rest@.len() as int,
            );
        }
    }

    /// Cuts the next run off the front of what is left and hands it out with
    /// the coordinate of its first cell; `None` once nothing is left.
    pub fn next(&mut self) -> (item: Option<IterMut<'field, T>>)
        requires
            old(self).can_advance(),
        ensures
            final(self).nx == old(self).nx,
            final(self).chunk_size == old(self).chunk_size,
            old(self).wf() ==> final(self).wf(),
            old(self).rest@.len() == 0 ==> {
                &&& item is None
                &&& final(self).rest@ == old(self).rest@
                &&& final(self).runs == old(self).runs
                &&& final(self).x == old(self).x
                &&& final(self).y == old(self).y
                &&& final(old(self).rest)@ == old(self).rest@
            },
            old(self).rest@.len() > 0 ==> {
                &&& item is Some
                &&& 0 < old(self).head_len() <= old(self).rest@.len()
                &&& item.unwrap().cells@ == old(self).rest@.take(old(self).head_len() as int)
                &&& item.unwrap().nx == old(self).nx
                &&& item.unwrap().x == old(self).x
                &&& item.unwrap().y == old(self).y
                &&& final(self).rest@ == old(self).rest@.skip(old(self).head_len() as int)
                &&& final(self).runs == (if old(self).runs > 0 {
                    old(self).runs - 1
                } else {
                    0
                })
                &&& final(self).x == (old(self).x + old(self).head_len()) % (old(self).nx as int)
                &&& final(self).y == old(self).y + (old(self).x + old(self).head_len()) / (old(
                    self,
                ).nx as int)
                &&& final(old(self).rest)@ == final(item.unwrap().cells)@ + final(final(self).rest)@
                &&& old(self).wf() ==> {
                    &&& item.unwrap().wf()
                    &&& (final(self).x as int, final(self).y as int) == advance(
                        old(self).nx as int,
                        old(self).x as int,
                        old(self).y as int,
                        old(self).head_len(),
                    )
                    &&& old(self).regions() == seq![item.unwrap().coords()]
                        + final(self).regions()
                }
            },
    {
        let mut rest: &'field mut [T] = &mut [];
        core::mem::swap(&mut self.rest, &mut rest);
        let len = rest.len();
        if len == 0 {
            None
        } else {
            let n = run_len(len, self.chunk_size, self.runs);
            proof {
                lemma_head_len(len as nat, self.chunk_size as nat, self.runs as nat);
            }
            let (head, tail) = rest.split_at_mut(n);
            let run = IterMut { cells: head, nx: self.nx, x: self.x, y: self.y };
            proof {
                if old(self).wf() {
                    lemma_run_end_fits(
                        old(self).nx as int,
                        old(self).x as int,
                        old(self).y as int,
                        n as int,
                        len as int,
                    );
                    lemma_advance_closed_form(
                        old(self).nx as int,
                        old(self).x as int,
                        old(self).y as int,
                        n as nat,
                    );
                }
            }
            self.rest = tail;
            if self.runs > 0 {
                self.runs -= 1;
            }
            self.x += n;
            self.y += self.x / self.nx;
            self.x = self.x % self.nx;
            Some(run)
        }
    }
}

/// A run of `n` cells from the front of `len` well-placed cells ends at a
/// coordinate that can be stored, and what follows it is well placed too.
proof fn lemma_run_end_fits(nx: int, x: int, y: int, n: int, len: int)
    requires
        0 <= x < nx,
        0 <= y,
        0 < n <= len,
        x + nx * y + len <= usize::MAX,
    ensures
        x + n <= usize::MAX,
        0 <= (x + n) / nx,
        y + (x + n) / nx <= usize::MAX,
        0 <= (x + n) % nx < nx,
        (x + n) % nx + nx * (y + (x + n) / nx) + (len - n) == x + nx * y + len,
{
    let q = (x + n) / nx;
    let r = (x + n) % nx;
    vstd::arithmetic::div_mod::lemma_fundamental_div_mod(x + n, nx);
    vstd::arithmetic::div_mod::lemma_mod_bound(x + n, nx);
    vstd::arithmetic::div_mod::lemma_div_pos_is_pos(x + n, nx);
    assert(nx * (y + q) == nx * y + nx * q) by (nonlinear_arith);
    assert(0 <= nx * y) by (nonlinear_arith)
        requires
            0 <= y,
            0 < nx,
    ;
    assert(y + q <= nx * (y + q)) by (nonlinear_arith)
        requires
            0 <= y + q,
            1 <= nx,
    ;
}

/// A run of cells like [`IterMut`] whose `next` hands out only the cells
/// that lie neither in the first nor in the last column, and leaves the
/// others as they are.
pub struct IterInnerMut<'field, T> {
    /// The run that is being filtered.
    pub run: IterMut<'field, T>,
}

impl<'field, T> IterInnerMut<'field, T> {
    /// The coordinates of the cells still to be handed out, in order.
    pub open spec fn coords(&self) -> Seq<(int, int)> {
        inner_walk(self.run.nx as int, self.run.x as int, self.run.y as int, self.run.cells@.len())
    }

    /// Place, among the remaining cells, of the one that `next` hands out.
    pub open spec fn lead(&self) -> nat {
        border_lead(self.run.nx as int, self.run.x as int, self.run.cells@.len())
    }

    /// Hands out the first remaining cell of an inner column with its
    /// coordinate, passing over the cells before it; `None` if no such cell
    /// is left, and then the run is used up.
    pub fn next(&mut self) -> (item: Option<((usize, usize), &'field mut T)>)
        requires
            old(self).run.wf(),
        ensures
            final(self).run.nx == old(self).run.nx,
            final(self).run.wf(),
            old(self).lead() <= old(self).run.cells@.len(),
            old(self).lead() == old(self).run.cells@.len() ==> {
                &&& item is None
                &&& final(self).run.cells@.len() == 0
                &&& final(old(self).run.cells)@ == old(self).run.cells@
                &&& old(self).coords().len() == 0
            },
            old(self).lead() < old(self).run.cells@.len() ==> {
                &&& item is Some
                &&& (item.unwrap().0.0 as int, item.unwrap().0.1 as int) == advance(
                    old(self).run.nx as int,
                    old(self).run.x as int,
                    old(self).run.y as int,
                    old(self).lead(),
                )
                &&& is_inner_col(old(self).run.nx as int, item.unwrap().0.0 as int)
                &&& *item.unwrap().1 == old(self).run.cells@[old(self).lead() as int]
                &&& final(self).run.cells@ == old(self).run.cells@.skip(old(self).lead() as int + 1)
                &&& (final(self).run.x as int, final(self).run.y as int) == step(
                    old(self).run.nx as int,
                    item.unwrap().0.0 as int,
                    item.unwrap().0.1 as int,
                )
                &&& final(old(self).run.cells)@ == old(self).run.cells@.take(old(self).lead() as int)
                    + seq![*final(item.unwrap().1)] + final(final(self).run.cells)@
                &&& old(self).coords() == seq![
                    (item.unwrap().0.0 as int, item.unwrap().0.1 as int),
                ] + final(self).coords()
            },
    {
        let ghost nx = self.run.nx as int;
        let ghost before = self.run.cells@;
        let ghost passed: nat = 0;
        loop
            invariant
                self.run.nx == old(self).run.nx,
                nx == old(self).run.nx,
                before == old(self).run.cells@,
                self.run.wf(),
                passed <= before.len(),
                self.run.cells@ == before.skip(passed as int),
                (self.run.x as int, self.run.y as int) == advance(
                    nx,
                    old(self).run.x as int,
                    old(self).run.y as int,
                    passed,
                ),
                old(self).lead() == passed + self.lead(),
                old(self).coords() == self.coords(),
                final(old(self).run.cells)@ == before.take(passed as int) + final(self.run.cells)@,
            decreases self.run.cells@.len(),
        {
            let ghost x0 = self.run.x as int;
            let ghost y0 = self.run.y as int;
            let ghost len0 = self.run.cells@.len();
            let inner = self.run.x >= 1 && self.run.x < self.run.nx && self.run.nx - self.run.x > 1;
            proof {
                lemma_advance_push(
                    nx,
                    old(self).run.x as int,
                    old(self).run.y as int,
                    passed,
                );
                self.run.lemma_wf_can_step();
            }
            match self.run.next() {
                None => {
                    return None;
                },
                Some((coord, cell)) => {
                    if inner {
                        return Some((coord, cell));
                    }
                    proof {
                        assert(before.take(passed as int + 1) =~= before.take(passed as int)
                            + seq![*cell]);
                        assert(before.skip(passed as int).skip(1) =~= before.skip(passed as int + 1));
                        passed = passed + 1;
                    }
                },
            }
        }
    }
}

/// What is left of a band of rows that is being cut into filtered runs,
/// together with the grid coordinate of the first cell left. A run holds
/// `chunk_size` inner-column cells, or fewer where that is needed to leave
/// one for each of the `runs` runs still to come.
///
/// The fields are public for the same reason as those of [`IterMut`].
pub struct ChunksInnerMut<'field, T> {
    /// The cells not cut off yet.
    pub rest: &'field mut [T],
    /// Number of inner-column cells of a full run.
    pub chunk_size: usize,
    /// Number of runs still to come.
    pub runs: usize,
    /// Number of inner-column cells among the cells not cut off yet.
    pub inner: usize,
    /// Width of the grid.
    pub nx: usize,
    /// Column of the first remaining cell.
    pub x: usize,
    /// Row of the first remaining cell.
    pub y: usize,
}

impl<'field, T> ChunksInnerMut<'field, T> {
    /// Number of inner-column cells that the next run holds.
    pub open spec fn want(&self) -> nat {
        head_len(self.inner as nat, self.chunk_size as nat, self.runs as nat)
    }

    /// Number of cells that `next` cuts off: up to and with the last
    /// inner-column cell of the next run.
    pub open spec fn cut(&self) -> nat {
        cut_len(self.nx as int, self.x as int, self.rest@.len(), self.want())
    }

    /// The coordinates that the next run hands out.
    pub open spec fn head(&self) -> Seq<(int, int)> {
        inner_walk(self.nx as int, self.x as int, self.y as int, self.cut())
    }

    /// The coordinates that the runs still to come hand out, run by run.
    pub open spec fn regions(&self) -> Seq<Seq<(int, int)>> {
        inner_parts(
            self.nx as int,
            self.x as int,
            self.y as int,
            self.rest@.len(),
            self.chunk_size as nat,
            self.runs as nat,
        )
    }

    /// The count of inner-column cells is right, and while cells are left,
    /// the first of them lies inside a row and the storage offset of every
    /// cell fits the machine word.
    pub open spec fn wf(&self) -> bool {
        &&& self.inner == inner_walk(
            self.nx as int,
            self.x as int,
            self.y as int,
            self.rest@.len(),
        ).len()
        &&& self.rest@.len() > 0 ==> self.x < self.nx && self.x + self.nx * self.y
            + self.rest@.len() <= usize::MAX
    }

    /// Cuts the next run off the front of what is left and hands it out as
    /// a filtered run; `None`, with nothing changed, once no inner-column
    /// cell is left or runs have no length.
    pub fn next(&mut self) -> (item: Option<IterInnerMut<'field, T>>)
        requires
            old(self).wf(),
        ensures
            final(self).nx == old(self).nx,
            final(self).chunk_size == old(self).chunk_size,
            final(self).wf(),
            old(self).cut() <= old(self).rest@.len(),
            old(self).head().len() == old(self).want(),
            old(self).want() == 0 ==> {
                &&& item is None
                &&& final(self).rest@ == old(self).rest@
                &&& final(self).runs == old(self).runs
                &&& final(self).inner == old(self).inner
                &&& final(self).x == old(self).x
                &&& final(self).y == old(self).y
                &&& final(old(self).rest)@ == final(final(self).rest)@
                &&& old(self).regions().len() == 0
            },
            old(self).want() > 0 ==> {
                &&& item is Some
                &&& item.unwrap().run.cells@ == old(self).rest@.take(old(self).cut() as int)
                &&& item.unwrap().run.nx == old(self).nx
                &&& item.unwrap().run.x == old(self).x
                &&& item.unwrap().run.y == old(self).y
                &&& item.unwrap().run.wf()
                &&& item.unwrap().coords() == old(self).head()
                &&& final(self).rest@ == old(self).rest@.skip(old(self).cut() as int)
                &&& final(self).runs == (if old(self).runs > 0 {
                    old(self).runs - 1
                } else {
                    0
                })
                &&& final(self).inner == old(self).inner - old(self).want()
                &&& (final(self).x as int, final(self).y as int) == advance(
                    old(self).nx as int,
                    old(self).x as int,
                    old(self).y as int,
                    old(self).cut(),
                )
                &&& final(old(self).rest)@ == final(item.unwrap().run.cells)@
                    + final(final(self).rest)@
                &&& old(self).regions() == seq![item.unwrap().coords()] + final(self).regions()
            },
    {
        let len = self.rest.len();
        let want = run_len(self.inner, self.chunk_size, self.runs);
        let nx = self.nx;
        let mut passed: usize = 0;
        let mut found: usize = 0;
        let mut x = self.x;
        let mut y = self.y;
        proof {
            lemma_head_len(self.inner as nat, self.chunk_size as nat, self.runs as nat);
            assert(inner_walk(nx as int, x as int, y as int, 0).len() == 0);
        }
        while passed < len && found < want
            invariant
                nx == old(self).nx,
                len == old(self).rest@.len(),
                want == old(self).want(),
                passed <= len,
                found <= want,
                old(self).cut() == passed + cut_len(
                    nx as int,
                    x as int,
                    (len - passed) as nat,
                    (want - found) as nat,
                ),
                (x as int, y as int) == advance(
                    nx as int,
                    old(self).x as int,
                    old(self).y as int,
                    passed as nat,
                ),
                inner_walk(
                    nx as int,
                    old(self).x as int,
                    old(self).y as int,
                    passed as nat,
                ).len() == found,
                passed < len ==> x < nx && x + nx * y + (len - passed) <= usize::MAX,
            decreases len - passed,
        {
            proof {
                lemma_inner_walk_push(
                    nx as int,
                    old(self).x as int,
                    old(self).y as int,
                    passed as nat,
                );
                lemma_advance_push(
                    nx as int,
                    old(self).x as int,
                    old(self).y as int,
                    passed as nat,
                );
                lemma_wf_after_step(nx as int, x as int, y as int, len - passed);
                assert(y <= nx * y) by (nonlinear_arith)
                    requires
                        nx >= 1,
                        y >= 0,
                ;
                assert(step(nx as int, x as int, y as int).0 == step(nx as int, x as int, 0).0);
            }
            if x >= 1 && nx - x > 1 {
                found += 1;
            }
            x += 1;
            if x >= nx {
                x = 0;
                y += 1;
            }
            passed += 1;
        }
        proof {
            lemma_cut_len(
                nx as int,
                old(self).x as int,
                old(self).y as int,
                len as nat,
                want as nat,
            );
            assert(cut_len(nx as int, x as int, (len - passed) as nat, (want - found) as nat) == 0);
            lemma_inner_walk_split(
                nx as int,
                old(self).x as int,
                old(self).y as int,
                passed as nat,
                (len - passed) as nat,
            );
        }
        if found == 0 {
            None
        } else {
            let mut rest: &'field mut [T] = &mut [];
            core::mem::swap(&mut self.rest, &mut rest);
            let (head, tail) = rest.split_at_mut(passed);
            let run = IterInnerMut { run: IterMut { cells: head, nx, x: self.x, y: self.y } };
            self.rest = tail;
            if self.runs > 0 {
                self.runs -= 1;
            }
            self.inner -= found;
            self.x = x;
            self.y = y;
            Some(run)
        }
    }
}

} // verus!
