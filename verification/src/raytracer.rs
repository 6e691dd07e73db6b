//! The bookkeeping of progressive rendering: the scene's entity list, the
//! frame counter that weights each pass, and the walk over the pixel buffer
//! that applies a shading function to every cell.

use crate::image::{ChunksMut, Image, IterMut};
use crate::layout::{
    advance, chunk_size, grid_coords, grid_parts, in_grid, lemma_advance_add, lemma_grid_coords,
    lemma_walk_index, lemma_walk_len, offset, run_count, walk,
};
use vstd::prelude::*;

verus! {

/// How a pass is blended into the running mean of the passes before it: the
/// old pixel value counts `old_frames / total_frames`, the new sample
/// `1 / total_frames`.
#[derive(Clone, Copy, Debug, PartialEq, Eq, Structural)]
pub struct BlendWeights {
    /// Number of passes that the buffer already averages.
    pub old_frames: u64,
    /// That number plus the pass being rendered.
    pub total_frames: u64,
}

impl BlendWeights {
    /// What blending gives in exact arithmetic: the old value weighted
    /// `old_frames / total_frames` plus the sample weighted
    /// `1 / total_frames`.
    pub open spec fn blend(self, old: real, sample: real) -> real {
        old * (self.old_frames as real / self.total_frames as real) + sample * (1 as real
            / self.total_frames as real)
    }
}

/// The weights of the pass that follows `frames` passes.
pub open spec fn weights_after(frames: nat) -> BlendWeights {
    BlendWeights { old_frames: frames as u64, total_frames: (frames + 1) as u64 }
}

/// The value of a pixel, in exact arithmetic, after the passes that drew
/// `samples` for it have been blended in one after the other, starting from
/// a buffer that held `start` and averaged nothing.
pub open spec fn accumulate(start: real, samples: Seq<real>) -> real
    decreases samples.len(),
{
    if samples.len() == 0 {
        start
    } else {
        weights_after((samples.len() - 1) as nat).blend(
            accumulate(start, samples.drop_last()),
            samples.last(),
        )
    }
}

/// The sum of `samples`.
pub open spec fn total(samples: Seq<real>) -> real
    decreases samples.len(),
{
    if samples.len() == 0 {
        0 as real
    } else {
        total(samples.drop_last()) + samples.last()
    }
}

/// The number of logical cores as `num_cpus::get` reports it. Nothing is
/// proved of this call; its documentation promises a result of at least 1,
/// and that is all the contract says. The result depends on the machine and
/// its load limits, so two calls may differ.
#[verifier::external_body]
fn logical_cores() -> (cores: usize)
    ensures
        cores >= 1,
{
    num_cpus::get()
}

/// The number of pool threads for a machine with `cores` logical cores: one
/// per core, within what a thread count can hold, and never none.
pub fn threads_for(cores: usize) -> (threads: u32)
    ensures
        threads >= 1,
        1 <= cores <= u32::MAX ==> threads == cores,
        cores == 0 ==> threads == 1,
        cores > u32::MAX ==> threads == u32::MAX,
{
    if cores == 0 {
        1
    } else if cores > 0xFFFF_FFFF {
        0xFFFF_FFFF
    } else {
        cores as u32
    }
}

/// One pass, ready to be carried out: the buffer cut into one run per
/// worker, the scene to shade against, and the weights of the pass.
///
/// The runs borrow the buffer; what is written through them is the buffer's
/// content when the pass is over.
pub struct RenderPass<'a, E, T> {
    /// The buffer, cut into runs.
    pub chunks: ChunksMut<'a, T>,
    /// The entities in insertion order.
    pub entities: &'a Vec<E>,
    /// The weights with which the pass is blended in.
    pub weights: BlendWeights,
}

/// The engine's state between passes: the pixel buffer, the entities of the
/// scene in the order in which they are tested, the number of workers a pass
/// is shared among, and the number of passes the buffer averages.
///
/// Neither the entity type `E` nor the pixel type `T` is looked into.
pub struct RayTracer<E, T> {
    image: Image<T>,
    entities: Vec<E>,
    thread_count: u32,
    frames_rendered: u64,
}

impl<E, T> RayTracer<E, T> {
    /// The pixel buffer.
    pub closed spec fn pixels(&self) -> Image<T> {
        self.image
    }

    /// The entity list as the shading function receives it.
    pub closed spec fn scene(&self) -> Vec<E> {
        self.entities
    }

    /// The entities in insertion order.
    pub open spec fn entities(&self) -> Seq<E> {
        self.scene()@
    }

    /// Number of workers a pass is shared among.
    pub closed spec fn workers(&self) -> u32 {
        self.thread_count
    }

    /// Number of passes blended into the buffer since it was last declared
    /// invalid.
    pub closed spec fn frames(&self) -> u64 {
        self.frames_rendered
    }

    /// The buffer holds one pixel per coordinate and there is a worker to
    /// render it.
    pub open spec fn wf(&self) -> bool {
        self.pixels().is_grid() && self.workers() >= 1
    }

    /// The weights with which the next pass is blended in.
    pub open spec fn next_weights(&self) -> BlendWeights {
        BlendWeights {
            old_frames: self.frames(),
            total_frames: (self.frames() + 1) as u64,
        }
    }

    /// Read access to the pixel buffer.
    pub fn image(&self) -> (image: &Image<T>)
        ensures
            *image == self.pixels(),
    {
        &self.image
    }

    /// Number of workers a pass is shared among.
    pub fn thread_count(&self) -> (count: u32)
        ensures
            count == self.workers(),
    {
        self.thread_count
    }

    /// Number of passes blended into the buffer since it was last declared
    /// invalid.
    pub fn frames_rendered(&self) -> (frames: u64)
        ensures
            frames == self.frames(),
    {
        self.frames_rendered
    }

    /// Number of entities in the scene.
    pub fn entity_count(&self) -> (count: usize)
        ensures
            count == self.entities().len(),
    {
        self.entities.len()
    }

    /// Appends `entity` to the scene; it is tested after all entities added
    /// before it.
    pub fn add_entity(&mut self, entity: E)
        ensures
            final(self).entities() == old(self).entities().push(entity),
            final(self).pixels() == old(self).pixels(),
            final(self).workers() == old(self).workers(),
            final(self).frames() == old(self).frames(),
    {
        self.entities.push(entity);
    }

    /// Mutable access to the entity added as the `index`-th, counting from 0;
    /// nothing else changes.
    pub fn entity_mut(&mut self, index: usize) -> (entity: &mut E)
        requires
            index < old(self).entities().len(),
        ensures
            *entity == old(self).entities()[index as int],
            final(self).entities() == old(self).entities().update(index as int, *final(entity)),
            final(self).pixels() == old(self).pixels(),
            final(self).workers() == old(self).workers(),
            final(self).frames() == old(self).frames(),
    {
        &mut self.entities[index]
    }

    /// Declares the buffer's content invalid: the next pass is blended in
    /// with full weight. The pixels themselves stay as they are until then.
    pub fn clear_image(&mut self)
        ensures
            final(self).frames() == 0,
            final(self).next_weights() == (BlendWeights { old_frames: 0, total_frames: 1 }),
            final(self).pixels() == old(self).pixels(),
            final(self).scene() == old(self).scene(),
            final(self).workers() == old(self).workers(),
    {
        self.frames_rendered = 0;
    }

    /// Starts a pass: counts it, fixes its weights, and cuts the buffer into
    /// one run for each worker.
    pub fn begin_render(&mut self) -> (pass: RenderPass<'_, E, T>)
        requires
            old(self).wf(),
            old(self).frames() < u64::MAX,
        ensures
            pass.weights == old(self).next_weights(),
            *pass.entities == old(self).scene(),
            pass.chunks.rest@ == old(self).pixels()@,
            pass.chunks.chunk_size == chunk_size(
                old(self).pixels()@.len(),
                old(self).workers() as nat,
            ),
            pass.chunks.runs == run_count(
                old(self).pixels()@.len(),
                old(self).workers() as nat,
            ),
            pass.chunks.regions() == grid_parts(
                old(self).pixels().width(),
                old(self).pixels().height(),
                old(self).workers() as nat,
            ),
            old(self).workers() <= old(self).pixels()@.len() ==> pass.chunks.regions().len()
                == old(self).workers(),
            forall|k: int|
                0 <= k < pass.chunks.regions().len() ==> 0 < (#[trigger] pass.chunks.regions()[
                    k
                ]).len() <= pass.chunks.chunk_size,
            pass.chunks.regions().flatten() == grid_coords(
                old(self).pixels().width(),
                old(self).pixels().height(),
            ),
            pass.chunks.nx == old(self).pixels().width(),
            pass.chunks.x == 0,
            pass.chunks.y == 0,
            pass.chunks.wf(),
            final(self).pixels()@ == final(pass.chunks.rest)@,
            final(self).pixels().width() == old(self).pixels().width(),
            final(self).pixels().height() == old(self).pixels().height(),
            final(self).frames() == old(self).frames() + 1,
            final(self).scene() == old(self).scene(),
            final(self).workers() == old(self).workers(),
    {
        let weights = BlendWeights {
            old_frames: self.frames_rendered,
            total_frames: self.frames_rendered + 1,
        };
        self.frames_rendered = self.frames_rendered + 1;
        let count = self.thread_count as usize;
        RenderPass { chunks: self.image.chunks_mut(count), entities: &self.entities, weights }
    }
}

impl<E, T: Copy> RayTracer<E, T> {
    /// An engine with an empty scene, a buffer of the given width and height
    /// filled with `fill`, no pass rendered, and `thread_count` workers.
    pub fn with_threads(dimensions: (usize, usize), fill: T, thread_count: u32) -> (tracer: Self)
        requires
            dimensions.0 * dimensions.1 <= usize::MAX,
            thread_count >= 1,
        ensures
            tracer.wf(),
            tracer.pixels().width() == dimensions.0,
            tracer.pixels().height() == dimensions.1,
            forall|i: int| 0 <= i < tracer.pixels()@.len() ==> tracer.pixels()@[i] == fill,
            tracer.entities() == Seq::<E>::empty(),
            tracer.workers() == thread_count,
            tracer.frames() == 0,
    {
        RayTracer {
            image: Image::new(dimensions, fill),
            entities: Vec::new(),
            thread_count,
            frames_rendered: 0,
        }
    }

    /// Renders one pass on the calling thread: counts the pass, then replaces
    /// every pixel, run by run and in storage order, by what `shade` returns
    /// for the scene, the pixel's coordinate, its value so far and the
    /// weights of the pass.
    pub fn render<F>(&mut self, shade: &F) where
        F: Fn(&Vec<E>, (usize, usize), T, BlendWeights) -> T,

        requires
            old(self).wf(),
            old(self).frames() < u64::MAX,
            forall|x: usize, y: usize|
                x < old(self).pixels().width() && y < old(self).pixels().height()
                    ==> #[trigger] shade.requires(
                    (
                        &old(self).scene(),
                        (x, y),
                        old(self).pixels().at(x as int, y as int),
                        old(self).next_weights(),
                    ),
                ),
        ensures
            final(self).wf(),
            final(self).frames() == old(self).frames() + 1,
            final(self).scene() == old(self).scene(),
            final(self).workers() == old(self).workers(),
            final(self).pixels().width() == old(self).pixels().width(),
            final(self).pixels().height() == old(self).pixels().height(),
            final(self).pixels()@.len() == old(self).pixels()@.len(),
            forall|k: int|
                0 <= k < old(self).pixels()@.len() ==> shade.ensures(
                    (
                        &old(self).scene(),
                        coord_at(
                            grid_coords(old(self).pixels().width(), old(self).pixels().height()),
                            k,
                        ),
                        old(self).pixels()@[k],
                        old(self).next_weights(),
                    ),
                    #[trigger] final(self).pixels()@[k],
                ),
            forall|x: usize, y: usize|
                x < old(self).pixels().width() && y < old(self).pixels().height()
                    ==> shade.ensures(
                    (
                        &old(self).scene(),
                        (x, y),
                        old(self).pixels().at(x as int, y as int),
                        old(self).next_weights(),
                    ),
                    #[trigger] final(self).pixels().at(x as int, y as int),
                ),
    {
        let ghost before = self.image@;
        let ghost nx = self.image.width() as int;
        let ghost grid = grid_coords(self.image.width(), self.image.height());
        let ghost weights = self.next_weights();
        let ghost scene = self.scene();
        let pass = self.begin_render();
        let entities = pass.entities;
        let weights = pass.weights;
        let mut chunks = pass.chunks;
        let ghost done: nat = 0;
        proof {
            lemma_grid_coords(old(self).pixels().width(), old(self).pixels().height());
            assert forall|k: int| 0 <= k < before.len() implies #[trigger] shade.requires(
                (entities, coord_at(grid, k), before[k], weights),
            ) by {
                let c = grid[k];
                assert(in_grid(nx, old(self).pixels().height() as int, c));
                vstd::arithmetic::div_mod::lemma_fundamental_div_mod(k, nx);
                assert(offset(nx, c.0, c.1) == k);
                assert(old(self).pixels().at(c.0, c.1) == before[k]);
                assert(coord_at(grid, k) == (c.0 as usize, c.1 as usize));
            }
            lemma_walk_len(nx, 0, 0, before.len());
            assert(final(pass.chunks.rest)@.skip(0) =~= final(pass.chunks.rest)@);
        }
        loop
            invariant
                chunks.wf(),
                chunks.nx == nx,
                *entities == scene,
                weights == old(self).next_weights(),
                scene == old(self).scene(),
                before == old(self).pixels()@,
                grid == grid_coords(old(self).pixels().width(), old(self).pixels().height()),
                grid == walk(nx, 0, 0, before.len()),
                grid.len() == before.len(),
                done <= before.len(),
                chunks.rest@ == before.skip(done as int),
                (chunks.x as int, chunks.y as int) == advance(nx, 0, 0, done),
                final(pass.chunks.rest)@.len() == done + final(chunks.rest)@.len(),
                final(pass.chunks.rest)@.skip(done as int) == final(chunks.rest)@,
                forall|k: int|
                    0 <= k < before.len() ==> #[trigger] shade.requires(
                        (entities, coord_at(grid, k), before[k], weights),
                    ),
                forall|k: int|
                    0 <= k < done ==> shade.ensures(
                        (entities, coord_at(grid, k), before[k], weights),
                        #[trigger] final(pass.chunks.rest)@[k],
                    ),
            ensures
                done == before.len(),
                final(chunks.rest)@.len() == 0,
            decreases chunks.rest@.len(),
        {
            proof {
                chunks.lemma_wf_can_advance();
            }
            let ghost n = chunks.head_len();
            match chunks.next() {
                None => {
                    break ;
                },
                Some(run) => {
                    let ghost cells = run.cells@;
                    let ghost coords = run.coords();
                    proof {
                        lemma_walk_len(nx, run.x as int, run.y as int, n);
                        assert forall|k: int| 0 <= k < n implies coords[k] == grid[done + k] by {
                            lemma_walk_index(nx, run.x as int, run.y as int, n, k);
                            lemma_advance_add(nx, 0, 0, done, k as nat);
                            lemma_walk_index(nx, 0, 0, before.len(), done + k);
                        }
                        assert forall|k: int| 0 <= k < n implies #[trigger] shade.requires(
                            (entities, coord_at(coords, k), cells[k], weights),
                        ) by {
                            assert(cells[k] == before[done + k]);
                            assert(coord_at(coords, k) == coord_at(grid, done + k));
                        }
                    }
                    render_region(run, entities, weights, shade);
                    proof {
                        let whole = final(pass.chunks.rest)@;
                        let after = final(run.cells)@;
                        lemma_advance_add(nx, 0, 0, done, n);
                        assert(before.skip(done as int).skip(n as int) =~= before.skip(
                            (done + n) as int,
                        ));
                        assert(whole.skip(done as int) == after + final(chunks.rest)@);
                        assert(whole.skip((done + n) as int) =~= final(chunks.rest)@) by {
                            assert(whole.skip(done as int).skip(n as int) =~= whole.skip(
                                (done + n) as int,
                            ));
                            assert((after + final(chunks.rest)@).skip(n as int) =~= final(
                                chunks.rest
                            )@);
                        }
                        assert forall|k: int| 0 <= k < done + n implies shade.ensures(
                            (entities, coord_at(grid, k), before[k], weights),
                            #[trigger] whole[k],
                        ) by {
                            if k >= done {
                                assert(whole.skip(done as int)[k - done] == whole[k]);
                                assert(after[k - done] == whole[k]);
                                assert(cells[k - done] == before[k]);
                                assert(coord_at(coords, k - done) == coord_at(grid, k));
                            }
                        }
                        done = done + n;
                    }
                },
            }
        }
        proof {
            let w = old(self).pixels().width();
            let h = old(self).pixels().height();
            lemma_grid_coords(w, h);
            assert forall|x: usize, y: usize| x < w && y < h implies shade.ensures(
                (
                    &old(self).scene(),
                    (x, y),
                    old(self).pixels().at(x as int, y as int),
                    old(self).next_weights(),
                ),
                #[trigger] self.pixels().at(x as int, y as int),
            ) by {
                let k = offset(w as int, x as int, y as int);
                assert(in_grid(w as int, h as int, (x as int, y as int)));
                assert(grid[k] == (x as int, y as int));
                assert(coord_at(grid, k) == (x, y));
                assert(self.pixels()@[k] == self.pixels().at(x as int, y as int));
            }
        }
    }

    /// Like [`RayTracer::with_threads`], with one worker for each logical
    /// core of the machine. How many that is, is not known beforehand.
    pub fn new(dimensions: (usize, usize), fill: T) -> (tracer: Self)
        requires
            dimensions.0 * dimensions.1 <= usize::MAX,
        ensures
            tracer.wf(),
            tracer.pixels().width() == dimensions.0,
            tracer.pixels().height() == dimensions.1,
            forall|i: int| 0 <= i < tracer.pixels()@.len() ==> tracer.pixels()@[i] == fill,
            tracer.entities() == Seq::<E>::empty(),
            tracer.frames() == 0,
    {
        let cores = logical_cores();
        Self::with_threads(dimensions, fill, threads_for(cores))
    }
}

/// Number of bounce directions to draw at recursion depth `depth`: the
/// `samples` configured for that depth while the depth is below `max_depth`,
/// and none once it is reached.
pub fn bounce_count(depth: usize, max_depth: usize, samples: usize) -> (count: usize)
    ensures
        count == (if depth < max_depth {
            samples
        } else {
            0
        }),
{
    if depth < max_depth {
        samples
    } else {
        0
    }
}

/// Tests `entities` front to back with `probe` and reports the first one
/// that gives a hit, with its place in the list and what the probe returned
/// for it. Entities after it are not probed: the first hit wins whatever lies
/// behind it. `None` if every probe misses.
pub fn first_hit<'a, E, H, F>(entities: &'a [E], probe: F) -> (hit: Option<(usize, H)>) where
    F: Fn(&'a E) -> Option<H>,

    requires
        forall|i: int| 0 <= i < entities@.len() ==> probe.requires((&#[trigger] entities@[i],)),
    ensures
        hit is Some ==> {
            &&& hit.unwrap().0 < entities@.len()
            &&& probe.ensures((&entities@[hit.unwrap().0 as int],), Some(hit.unwrap().1))
            &&& forall|i: int|
                0 <= i < hit.unwrap().0 ==> probe.ensures((&#[trigger] entities@[i],), None)
        },
        hit is None ==> forall|i: int|
            0 <= i < entities@.len() ==> probe.ensures((&#[trigger] entities@[i],), None),
{
    let mut index: usize = 0;
    while index < entities.len()
        invariant
            index <= entities@.len(),
            forall|i: int| 0 <= i < entities@.len() ==> probe.requires((&#[trigger] entities@[i],)),
            forall|i: int| 0 <= i < index ==> probe.ensures((&#[trigger] entities@[i],), None),
        decreases entities@.len() - index,
    {
        match probe(&entities[index]) {
            Some(found) => {
                return Some((index, found));
            },
            None => {},
        }
        index += 1;
    }
    None
}

/// The `k`-th coordinate of `coords` as machine words.
pub open spec fn coord_at(coords: Seq<(int, int)>, k: int) -> (usize, usize) {
    (coords[k].0 as usize, coords[k].1 as usize)
}

/// Replaces every cell of `run`, in order, by what `shade` returns for the
/// scene, the cell's coordinate, the cell's value so far and the weights of
/// the pass.
pub fn render_region<E, T: Copy, F>(
    run: IterMut<'_, T>,
    entities: &Vec<E>,
    weights: BlendWeights,
    shade: &F,
) where F: Fn(&Vec<E>, (usize, usize), T, BlendWeights) -> T
    requires
        run.wf(),
        forall|k: int|
            0 <= k < run.cells@.len() ==> #[trigger] shade.requires(
                (entities, coord_at(run.coords(), k), run.cells@[k], weights),
            ),
    ensures
        final(run.cells)@.len() == old(run.cells)@.len(),
        forall|k: int|
            0 <= k < old(run.cells)@.len() ==> shade.ensures(
                (entities, coord_at(run.coords(), k), old(run.cells)@[k], weights),
                #[trigger] final(run.cells)@[k],
            ),
{
    let ghost before = run.cells@;
    let ghost coords = run.coords();
    let ghost written: Seq<T> = Seq::empty();
    let mut rest = run;
    proof {
        crate::layout::lemma_walk_len(rest.nx as int, rest.x as int, rest.y as int, before.len());
    }
    loop
        invariant
            rest.wf(),
            before == old(run.cells)@,
            coords == run.coords(),
            coords.len() == before.len(),
            written.len() <= before.len(),
            rest.cells@ == before.skip(written.len() as int),
            rest.coords() == coords.skip(written.len() as int),
            final(run.cells)@ == written + final(rest.cells)@,
            forall|k: int|
                0 <= k < before.len() ==> #[trigger] shade.requires(
                    (entities, coord_at(coords, k), before[k], weights),
                ),
            forall|k: int|
                0 <= k < written.len() ==> shade.ensures(
                    (entities, coord_at(coords, k), before[k], weights),
                    #[trigger] written[k],
                ),
        decreases rest.cells@.len(),
    {
        let ghost head = (rest.x as int, rest.y as int);
        proof {
            rest.lemma_wf_can_step();
            if rest.cells@.len() > 0 {
                assert(rest.coords()[0] == head);
            }
        }
        match rest.next() {
            None => {
                assert(written + Seq::<T>::empty() =~= written);
                return ;
            },
            Some((coord, cell)) => {
                proof {
                    let done = written.len() as int;
                    assert(coords.skip(done)[0] == coords[done]);
                    assert(before.skip(done)[0] == before[done]);
                    assert(coord_at(coords, done) == coord);
                }
                let value = shade(entities, coord, *cell, weights);
                *cell = value;
                proof {
                    let done = written.len() as int;
                    assert(coords[done] == (coord.0 as int, coord.1 as int));
                    assert(before.skip(done).skip(1) =~= before.skip(done + 1));
                    assert(coords.skip(done).skip(1) =~= coords.skip(done + 1));
                    written = written.push(value);
                }
            },
        }
    }
}

/// The pass that follows `clear_image` is not blended with anything: an
/// engine that has counted no pass gives the old pixel value the weight
/// `0 / 1` and the new sample the weight `1 / 1`.
pub proof fn lemma_first_pass_unblended<E, T>(tracer: RayTracer<E, T>)
    requires
        tracer.frames() == 0,
    ensures
        tracer.next_weights() == weights_after(0),
        tracer.next_weights().old_frames == 0,
        tracer.next_weights().total_frames == 1,
{
}

/// The weights that `render` and `begin_render` hand out are those of the
/// pass that follows the passes counted so far: the old pixel value is
/// weighted by their number, and the new sample counts as one pass more.
pub proof fn lemma_next_weights<E, T>(tracer: RayTracer<E, T>)
    requires
        tracer.frames() < u64::MAX,
    ensures
        tracer.next_weights() == weights_after(tracer.frames() as nat),
        tracer.next_weights().old_frames + 1 == tracer.next_weights().total_frames,
{
}

/// In exact arithmetic, the first pass after `clear_image` overwrites: the
/// blended value is the sample itself, whatever the pixel held.
pub proof fn lemma_first_pass_overwrites(old: real, sample: real)
    ensures
        weights_after(0).blend(old, sample) == sample,
{
    let w = weights_after(0);
    assert(w.old_frames as real == 0 as real);
    assert(w.total_frames as real == 1 as real);
    assert(old * (0 as real / 1 as real) + sample * (1 as real / 1 as real) == sample)
        by (nonlinear_arith);
}

/// In exact arithmetic, blending keeps the running mean: after as many
/// passes as there are `samples`, fewer than the frame counter can count,
/// the pixel holds their sum divided by their number, whatever it held
/// before the first of them.
pub proof fn lemma_running_mean(start: real, samples: Seq<real>)
    requires
        0 < samples.len() < u64::MAX,
    ensures
        accumulate(start, samples) * (samples.len() as real) == total(samples),
    decreases samples.len(),
{
    let before = samples.drop_last();
    let k = before.len();
    let w = weights_after(k);
    let m = accumulate(start, before);
    let s = samples.last();
    let kr = k as real;
    let tr = (k + 1) as real;
    assert(w.old_frames as real == kr);
    assert(w.total_frames as real == tr);
    assert(tr == kr + (1 as real));
    assert((m * (kr / tr) + s * ((1 as real) / tr)) * tr == m * kr + s) by (nonlinear_arith)
        requires
            tr > 0 as real,
    ;
    if k > 0 {
        lemma_running_mean(start, before);
    } else {
        assert(total(before) == 0 as real);
        assert(m * kr == 0 as real) by (nonlinear_arith)
            requires
                kr == 0 as real,
        ;
    }
}

} // verus!
