//! Row-major order on grid coordinates: which coordinate follows which, and
//! what a contiguous run of cells visits.

use vstd::prelude::*;

verus! {

/// Where the cell at column `x` of row `y` lies in the storage of a grid
/// `nx` wide.
pub open spec fn offset(nx: int, x: int, y: int) -> int {
    x + nx * y
}

/// Whether `(x, y)` names a cell of a grid `nx` wide and `ny` high.
pub open spec fn in_grid(nx: int, ny: int, c: (int, int)) -> bool {
    0 <= c.0 < nx && 0 <= c.1 < ny
}

/// Every coordinate of a grid `nx` wide and `ny` high, in storage order.
pub open spec fn grid_coords(nx: nat, ny: nat) -> Seq<(int, int)> {
    walk(nx as int, 0, 0, nx * ny)
}

/// Whether `(x, y)` names a cell of the grid that does not lie on its
/// outermost ring: not in the first or last column, not in the first or last
/// row.
pub open spec fn in_interior(nx: int, ny: int, c: (int, int)) -> bool {
    1 <= c.0 && c.0 + 1 < nx && 1 <= c.1 && c.1 + 1 < ny
}

/// Number of cells in the rows between the first and the last.
pub open spec fn band_len(nx: nat, ny: nat) -> nat {
    if ny >= 2 {
        (nx * (ny - 2)) as nat
    } else {
        0
    }
}

/// The coordinates of the interior of a grid, row by row: those of the rows
/// between the first and the last, without the first and the last column.
pub open spec fn interior_coords(nx: nat, ny: nat) -> Seq<(int, int)> {
    inner_walk(nx as int, 0, 1, band_len(nx, ny))
}

/// The coordinate after `(x, y)` in rows `nx` wide: one column to the right,
/// or the first column of the next row once the row is used up.
pub open spec fn step(nx: int, x: int, y: int) -> (int, int) {
    if x + 1 >= nx {
        (0, y + 1)
    } else {
        (x + 1, y)
    }
}

/// The coordinates of a run of `len` cells that starts at `(x, y)`, in the
/// order in which the run stores them.
pub open spec fn walk(nx: int, x: int, y: int, len: nat) -> Seq<(int, int)>
    decreases len,
{
    if len == 0 {
        Seq::empty()
    } else {
        let next = step(nx, x, y);
        seq![(x, y)] + walk(nx, next.0, next.1, (len - 1) as nat)
    }
}

/// The coordinate reached from `(x, y)` after `len` steps.
pub open spec fn advance(nx: int, x: int, y: int, len: nat) -> (int, int)
    decreases len,
{
    if len == 0 {
        (x, y)
    } else {
        let next = step(nx, x, y);
        advance(nx, next.0, next.1, (len - 1) as nat)
    }
}

/// Number of runs that `len` cells are cut into for `count` workers: one for
/// each worker, unless there are fewer cells than workers, and then one for
/// each cell. With no worker named, everything goes into one run.
pub open spec fn run_count(len: nat, count: nat) -> nat {
    if len == 0 {
        0
    } else if count == 0 {
        1
    } else if count <= len {
        count
    } else {
        len
    }
}

/// Length of a full run when `len` cells are shared out among `count`
/// workers: the cells divided by the number of runs, rounded up.
pub open spec fn chunk_size(len: nat, count: nat) -> nat {
    if len == 0 {
        0
    } else if len % run_count(len, count) == 0 {
        len / run_count(len, count)
    } else {
        len / run_count(len, count) + 1
    }
}

/// Length of the next run when `left` cells are left for `runs` runs of up
/// to `chunk` cells: a full run, or as many cells as can be taken while one
/// is left for each run still to come after this one. While cells are left,
/// a run is never empty.
pub open spec fn head_len(left: nat, chunk: nat, runs: nat) -> nat {
    let reserve = if runs > 0 {
        (runs - 1) as nat
    } else {
        0
    };
    let spare = if left > reserve {
        (left - reserve) as nat
    } else if left > 0 {
        1
    } else {
        0
    };
    if chunk <= spare {
        chunk
    } else {
        spare
    }
}

/// The coordinates of `len` cells that start at `(x, y)`, cut into `runs`
/// runs of up to `chunk` cells as [`head_len`] measures them out.
pub open spec fn parts(nx: int, x: int, y: int, len: nat, chunk: nat, runs: nat) -> Seq<
    Seq<(int, int)>,
>
    decreases len,
{
    let n = head_len(len, chunk, runs);
    if n == 0 {
        Seq::empty()
    } else {
        let next = advance(nx, x, y, n);
        let runs_left = if runs > 0 {
            (runs - 1) as nat
        } else {
            0
        };
        seq![walk(nx, x, y, n)] + parts(nx, next.0, next.1, (len - n) as nat, chunk, runs_left)
    }
}

/// The runs that a grid is cut into for `count` workers, each as the
/// coordinates of its cells.
pub open spec fn grid_parts(nx: nat, ny: nat, count: nat) -> Seq<Seq<(int, int)>> {
    parts(nx as int, 0, 0, nx * ny, chunk_size(nx * ny, count), run_count(nx * ny, count))
}

/// Whether column `x` is neither the first nor the last of a row `nx` wide.
pub open spec fn is_inner_col(nx: int, x: int) -> bool {
    1 <= x && x + 1 < nx
}

/// The coordinates of a run of `len` cells that starts at `(x, y)`, without
/// those in the first and in the last column.
pub open spec fn inner_walk(nx: int, x: int, y: int, len: nat) -> Seq<(int, int)>
    decreases len,
{
    if len == 0 {
        Seq::empty()
    } else {
        let next = step(nx, x, y);
        let rest = inner_walk(nx, next.0, next.1, (len - 1) as nat);
        if is_inner_col(nx, x) {
            seq![(x, y)] + rest
        } else {
            rest
        }
    }
}

/// How many cells at the front of a run of `len` cells that starts in
/// column `x` lie in the first or the last column: the place in the run of
/// its first inner cell, or `len` if it has none.
pub open spec fn border_lead(nx: int, x: int, len: nat) -> nat
    decreases len,
{
    if len == 0 || is_inner_col(nx, x) {
        0
    } else {
        1 + border_lead(nx, step(nx, x, 0).0, (len - 1) as nat)
    }
}

/// Number of interior cells of a grid: those off its outermost ring.
pub open spec fn interior_len(nx: nat, ny: nat) -> nat {
    if nx >= 3 && ny >= 3 {
        ((nx - 2) * (ny - 2)) as nat
    } else {
        0
    }
}

/// Length of the shortest front part of a run of `len` cells, starting in
/// column `x`, that holds `n` cells of inner columns; the whole run if it
/// holds fewer.
pub open spec fn cut_len(nx: int, x: int, len: nat, n: nat) -> nat
    decreases len,
{
    if n == 0 || len == 0 {
        0
    } else {
        let left = if is_inner_col(nx, x) {
            (n - 1) as nat
        } else {
            n
        };
        1 + cut_len(nx, step(nx, x, 0).0, (len - 1) as nat, left)
    }
}

/// The inner-column coordinates of `len` cells that start at `(x, y)`, cut
/// into `runs` runs of up to `chunk` of them, as [`head_len`] measures them
/// out. Every run ends with its last inner-column cell; cells of the first
/// and last column after the last run belong to no run.
pub open spec fn inner_parts(nx: int, x: int, y: int, len: nat, chunk: nat, runs: nat) -> Seq<
    Seq<(int, int)>,
>
    decreases len,
{
    let want = head_len(inner_walk(nx, x, y, len).len(), chunk, runs);
    let cut = cut_len(nx, x, len, want);
    let head = inner_walk(nx, x, y, cut);
    if head.len() == 0 || cut == 0 || cut > len {
        Seq::empty()
    } else {
        let next = advance(nx, x, y, cut);
        let runs_left = if runs > 0 {
            (runs - 1) as nat
        } else {
            0
        };
        seq![head] + inner_parts(nx, next.0, next.1, (len - cut) as nat, chunk, runs_left)
    }
}

/// The runs that the interior of a grid is cut into for `count` workers,
/// each as the coordinates of its cells.
pub open spec fn interior_parts(nx: nat, ny: nat, count: nat) -> Seq<Seq<(int, int)>> {
    inner_parts(
        nx as int,
        0,
        1,
        band_len(nx, ny),
        chunk_size(interior_len(nx, ny), count),
        run_count(interior_len(nx, ny), count),
    )
}

/// Inside a grid `nx` wide and `ny` high, the storage place of a coordinate
/// falls inside the storage.
pub proof fn lemma_offset_in_grid(nx: int, ny: int, x: int, y: int)
    requires
        0 <= x < nx,
        0 <= y < ny,
    ensures
        0 <= nx * y,
        0 <= offset(nx, x, y) < nx * ny,
{
    assert(nx * y <= nx * (ny - 1)) by (nonlinear_arith)
        requires
            0 <= y <= ny - 1,
            0 < nx,
    ;
    assert(0 <= nx * y) by (nonlinear_arith)
        requires
            0 <= y,
            0 < nx,
    ;
    assert(nx * (ny - 1) == nx * ny - nx) by (nonlinear_arith);
}

/// A run of `len` cells visits `len` coordinates.
pub proof fn lemma_walk_len(nx: int, x: int, y: int, len: nat)
    ensures
        walk(nx, x, y, len).len() == len,
    decreases len,
{
    if len > 0 {
        let next = step(nx, x, y);
        lemma_walk_len(nx, next.0, next.1, (len - 1) as nat);
    }
}

/// Quotient and remainder are determined by `a == q * d + r` with `0 <= r < d`.
pub proof fn lemma_div_mod_unique(a: int, d: int, q: int, r: int)
    requires
        0 < d,
        0 <= r < d,
        a == q * d + r,
    ensures
        a / d == q,
        a % d == r,
{
    vstd::arithmetic::div_mod::lemma_fundamental_div_mod_converse_div(a, d, q, r);
    vstd::arithmetic::div_mod::lemma_fundamental_div_mod_converse_mod(a, d, q, r);
}

/// Adding one full row width to an offset moves it one row down and leaves
/// its column alone.
pub proof fn lemma_add_row(a: int, d: int)
    requires
        0 < d,
    ensures
        (d + a) % d == a % d,
        (d + a) / d == 1 + a / d,
        0 <= a % d < d,
{
    let q = a / d;
    let r = a % d;
    vstd::arithmetic::div_mod::lemma_fundamental_div_mod(a, d);
    vstd::arithmetic::div_mod::lemma_mod_bound(a, d);
    assert((q + 1) * d == d * q + d) by (nonlinear_arith);
    lemma_div_mod_unique(d + a, d, q + 1, r);
}

/// From a column inside the row, `len` steps lead to the coordinate whose
/// offset in the row is `x + len` reduced by the row width.
pub proof fn lemma_advance_closed_form(nx: int, x: int, y: int, len: nat)
    requires
        0 <= x < nx,
    ensures
        advance(nx, x, y, len) == ((x + len) % nx, y + (x + len) / nx),
        0 <= advance(nx, x, y, len).0 < nx,
    decreases len,
{
    if len == 0 {
        lemma_div_mod_unique(x, nx, 0, x);
    } else {
        let next = step(nx, x, y);
        let m = (len - 1) as nat;
        lemma_advance_closed_form(nx, next.0, next.1, m);
        if x + 1 >= nx {
            lemma_add_row(m as int, nx);
            assert(x + len == nx + m);
        } else {
            assert(x + len == x + 1 + m);
        }
    }
}

/// One step more leads one coordinate further.
pub proof fn lemma_advance_push(nx: int, x: int, y: int, len: nat)
    ensures
        advance(nx, x, y, len + 1) == step(
            nx,
            advance(nx, x, y, len).0,
            advance(nx, x, y, len).1,
        ),
    decreases len,
{
    if len > 0 {
        let next = step(nx, x, y);
        lemma_advance_push(nx, next.0, next.1, (len - 1) as nat);
    } else {
        let next = step(nx, x, y);
        assert(advance(nx, next.0, next.1, 0) == next);
    }
}

/// Walking `a` steps and then `b` more is walking `a + b` steps.
pub proof fn lemma_advance_add(nx: int, x: int, y: int, a: nat, b: nat)
    ensures
        advance(nx, advance(nx, x, y, a).0, advance(nx, x, y, a).1, b) == advance(
            nx,
            x,
            y,
            a + b,
        ),
    decreases a,
{
    if a > 0 {
        let next = step(nx, x, y);
        lemma_advance_add(nx, next.0, next.1, (a - 1) as nat, b);
    }
}

/// The `k`-th coordinate of a run is the one reached after `k` steps.
pub proof fn lemma_walk_index(nx: int, x: int, y: int, len: nat, k: int)
    requires
        0 <= k < len,
    ensures
        walk(nx, x, y, len).len() == len,
        walk(nx, x, y, len)[k] == advance(nx, x, y, k as nat),
    decreases len,
{
    lemma_walk_len(nx, x, y, len);
    if k > 0 {
        let next = step(nx, x, y);
        lemma_walk_len(nx, next.0, next.1, (len - 1) as nat);
        lemma_walk_index(nx, next.0, next.1, (len - 1) as nat, k - 1);
    }
}

/// A run of `a + b` cells is a run of `a` cells followed by the run of `b`
/// cells that starts where the first one ends.
pub proof fn lemma_walk_split(nx: int, x: int, y: int, a: nat, b: nat)
    ensures
        walk(nx, x, y, a + b) == walk(nx, x, y, a) + walk(
            nx,
            advance(nx, x, y, a).0,
            advance(nx, x, y, a).1,
            b,
        ),
    decreases a,
{
    let end = advance(nx, x, y, a);
    if a == 0 {
        assert(walk(nx, x, y, a + b) =~= walk(nx, x, y, a) + walk(nx, end.0, end.1, b));
    } else {
        let next = step(nx, x, y);
        lemma_walk_split(nx, next.0, next.1, (a - 1) as nat, b);
        assert(walk(nx, x, y, a + b) =~= walk(nx, x, y, a) + walk(nx, end.0, end.1, b));
    }
}

/// While cells are left and runs have a length, the next run is not empty,
/// not longer than a full run, and not longer than what is left.
pub proof fn lemma_head_len(left: nat, chunk: nat, runs: nat)
    ensures
        head_len(left, chunk, runs) <= chunk,
        head_len(left, chunk, runs) <= left,
        left > 0 && chunk > 0 ==> head_len(left, chunk, runs) > 0,
        runs > 0 && runs <= left <= runs * chunk ==> {
            &&& runs - 1 <= left - head_len(left, chunk, runs)
            &&& left - head_len(left, chunk, runs) <= (runs - 1) * chunk
        },
{
    if runs > 0 && runs <= left <= runs * chunk {
        assert(runs * chunk == (runs - 1) * chunk + chunk) by (nonlinear_arith);
        assert(runs - 1 <= (runs - 1) * chunk) by (nonlinear_arith)
            requires
                runs >= 1,
                chunk >= 1 || runs == 1,
        ;
        assert(chunk >= 1) by (nonlinear_arith)
            requires
                1 <= left <= runs * chunk,
                runs >= 1,
                chunk >= 0,
        ;
    }
}

/// Cutting a run into parts loses and repeats nothing: the parts, put end
/// to end, are the run.
pub proof fn lemma_parts_flatten(nx: int, x: int, y: int, len: nat, chunk: nat, runs: nat)
    requires
        len > 0 ==> chunk > 0,
    ensures
        parts(nx, x, y, len, chunk, runs).flatten() == walk(nx, x, y, len),
    decreases len,
{
    let n = head_len(len, chunk, runs);
    lemma_head_len(len, chunk, runs);
    if n == 0 {
        assert(parts(nx, x, y, len, chunk, runs).flatten() =~= walk(nx, x, y, len));
    } else {
        let next = advance(nx, x, y, n);
        let runs_left: nat = if runs > 0 {
            (runs - 1) as nat
        } else {
            0
        };
        let tail = parts(nx, next.0, next.1, (len - n) as nat, chunk, runs_left);
        let all = parts(nx, x, y, len, chunk, runs);
        lemma_parts_flatten(nx, next.0, next.1, (len - n) as nat, chunk, runs_left);
        lemma_walk_split(nx, x, y, n, (len - n) as nat);
        assert(all.first() == walk(nx, x, y, n));
        assert(all.drop_first() =~= tail);
        assert(all.flatten() == all.first() + all.drop_first().flatten());
    }
}

/// Cells that are at least as many as the runs, and not more than full runs
/// would hold, are cut into exactly that many runs, none of them empty and
/// none longer than a full run.
pub proof fn lemma_parts_len(nx: int, x: int, y: int, len: nat, chunk: nat, runs: nat)
    requires
        runs <= len <= runs * chunk,
    ensures
        parts(nx, x, y, len, chunk, runs).len() == runs,
        forall|k: int|
            0 <= k < runs ==> 0 < (#[trigger] parts(nx, x, y, len, chunk, runs)[k]).len() <= chunk,
    decreases runs,
{
    lemma_head_len(len, chunk, runs);
    if runs == 0 {
        assert(runs * chunk == 0) by (nonlinear_arith)
            requires
                runs == 0,
        ;
    } else {
        let n = head_len(len, chunk, runs);
        let next = advance(nx, x, y, n);
        let rest = (len - n) as nat;
        lemma_parts_len(nx, next.0, next.1, rest, chunk, (runs - 1) as nat);
        lemma_walk_len(nx, x, y, n);
        let all = parts(nx, x, y, len, chunk, runs);
        let tail = parts(nx, next.0, next.1, rest, chunk, (runs - 1) as nat);
        assert forall|k: int| 0 <= k < runs implies 0 < (#[trigger] all[k]).len() <= chunk by {
            if k > 0 {
                assert(all[k] == tail[k - 1]);
            }
        }
    }
}

/// Where full runs do not use the cells up before the last run, every run
/// is full but the last, which holds what is left: run `k` holds `chunk`
/// cells, or the `len - k * chunk` cells that remain if that is less.
pub proof fn lemma_parts_full(nx: int, x: int, y: int, len: nat, chunk: nat, runs: nat)
    requires
        runs > 0,
        (runs - 1) * chunk < len <= runs * chunk,
    ensures
        parts(nx, x, y, len, chunk, runs).len() == runs,
        forall|k: int|
            0 <= k < runs ==> (#[trigger] parts(nx, x, y, len, chunk, runs)[k]).len() == (if chunk
                <= len - k * chunk {
                chunk as int
            } else {
                len - k * chunk
            }),
    decreases runs,
{
    assert(runs * chunk == (runs - 1) * chunk + chunk) by (nonlinear_arith);
    assert(chunk >= 1) by (nonlinear_arith)
        requires
            (runs - 1) * chunk < runs * chunk,
    ;
    assert(runs - 1 <= (runs - 1) * chunk) by (nonlinear_arith)
        requires
            runs >= 1,
            chunk >= 1,
    ;
    lemma_parts_len(nx, x, y, len, chunk, runs);
    let n = head_len(len, chunk, runs);
    let all = parts(nx, x, y, len, chunk, runs);
    lemma_walk_len(nx, x, y, n);
    if runs == 1 {
        assert(all[0].len() == len);
        assert(0 * chunk == 0) by (nonlinear_arith);
    } else {
        assert((runs - 1) * chunk == (runs - 2) * chunk + chunk) by (nonlinear_arith);
        assert((runs - 1) * (chunk - 1) >= chunk - 1) by (nonlinear_arith)
            requires
                runs >= 2,
                chunk >= 1,
        ;
        assert((runs - 1) * chunk == (runs - 1) * (chunk - 1) + (runs - 1)) by (nonlinear_arith);
        assert(n == chunk);
        let next = advance(nx, x, y, n);
        let rest = (len - n) as nat;
        let tail = parts(nx, next.0, next.1, rest, chunk, (runs - 1) as nat);
        lemma_parts_full(nx, next.0, next.1, rest, chunk, (runs - 1) as nat);
        assert forall|k: int| 0 <= k < runs implies (#[trigger] all[k]).len() == (if chunk <= len
            - k * chunk {
            chunk as int
        } else {
            len - k * chunk
        }) by {
            if k > 0 {
                assert(all[k] == tail[k - 1]);
                assert(k * chunk == (k - 1) * chunk + chunk) by (nonlinear_arith);
            } else {
                assert(0 * chunk == 0) by (nonlinear_arith);
            }
        }
    }
}

/// [`run_count`] runs of up to [`chunk_size`] cells are what `len` cells
/// need: there are at least as many cells as runs, full runs hold them all,
/// and runs one cell shorter would not.
pub proof fn lemma_shares(len: nat, count: nat)
    requires
        len > 0,
    ensures
        run_count(len, count) >= 1,
        1 <= count <= len ==> run_count(len, count) == count,
        run_count(len, count) <= len <= run_count(len, count) * chunk_size(len, count),
        run_count(len, count) * (chunk_size(len, count) - 1) < len,
        1 <= chunk_size(len, count) <= len,
{
    let c = run_count(len, count) as int;
    let l = len as int;
    let q = l / c;
    vstd::arithmetic::div_mod::lemma_fundamental_div_mod(l, c);
    vstd::arithmetic::div_mod::lemma_mod_bound(l, c);
    vstd::arithmetic::div_mod::lemma_div_pos_is_pos(l, c);
    assert(q == 0 ==> c * q == 0) by (nonlinear_arith);
    assert(c * q == q * c) by (nonlinear_arith);
    assert(c * (q + 1) == c * q + c) by (nonlinear_arith);
    assert(c * (q - 1) == c * q - c) by (nonlinear_arith);
    assert(q <= c * q) by (nonlinear_arith)
        requires
            c >= 1,
            q >= 0,
    ;
    assert(q >= 1) by (nonlinear_arith)
        requires
            l == c * q + l % c,
            0 <= l % c < c,
            c <= l,
            c >= 1,
    ;
}

/// Storage order names every cell of the grid exactly once: the cell at
/// storage place `i` has column `i % nx` and row `i / nx`, every coordinate
/// of the grid stands at the place [`offset`] gives it, and no coordinate
/// stands at two places.
pub proof fn lemma_grid_coords(nx: nat, ny: nat)
    ensures
        grid_coords(nx, ny).len() == nx * ny,
        forall|i: int|
            0 <= i < nx * ny ==> {
                &&& (#[trigger] grid_coords(nx, ny)[i]) == (i % (nx as int), i / (nx as int))
                &&& in_grid(nx as int, ny as int, grid_coords(nx, ny)[i])
            },
        forall|x: int, y: int|
            in_grid(nx as int, ny as int, (x, y)) ==> {
                &&& 0 <= (#[trigger] offset(nx as int, x, y)) < nx * ny
                &&& grid_coords(nx, ny)[offset(nx as int, x, y)] == (x, y)
            },
        grid_coords(nx, ny).no_duplicates(),
{
    let n = nx as int;
    let len = nx * ny;
    let grid = grid_coords(nx, ny);
    lemma_walk_len(n, 0, 0, len);
    assert forall|i: int| 0 <= i < len implies {
        &&& (#[trigger] grid[i]) == (i % n, i / n)
        &&& in_grid(n, ny as int, grid[i])
    } by {
        assert(n > 0) by (nonlinear_arith)
            requires
                0 <= i < n * ny,
                n >= 0,
        ;
        lemma_walk_index(n, 0, 0, len, i);
        lemma_advance_closed_form(n, 0, 0, i as nat);
        vstd::arithmetic::div_mod::lemma_fundamental_div_mod(i, n);
        vstd::arithmetic::div_mod::lemma_div_pos_is_pos(i, n);
        assert(i / n < ny) by (nonlinear_arith)
            requires
                i == n * (i / n) + i % n,
                0 <= i % n,
                i < n * ny,
                n > 0,
        ;
    }
    assert forall|x: int, y: int| in_grid(n, ny as int, (x, y)) implies {
        &&& 0 <= (#[trigger] offset(n, x, y)) < len
        &&& grid[offset(n, x, y)] == (x, y)
    } by {
        let i = offset(n, x, y);
        assert(0 <= n * y <= n * (ny - 1)) by (nonlinear_arith)
            requires
                0 <= y <= ny - 1,
                0 < n,
        ;
        assert(n * (ny - 1) == n * ny - n) by (nonlinear_arith);
        assert(i == y * n + x) by (nonlinear_arith)
            requires
                i == x + n * y,
        ;
        lemma_div_mod_unique(i, n, y, x);
        assert(grid[i] == (i % n, i / n));
    }
    assert forall|i: int, j: int| 0 <= i < len && 0 <= j < len && i != j implies grid[i]
        != grid[j] by {
        assert(n > 0) by (nonlinear_arith)
            requires
                0 <= i < n * ny,
                n >= 0,
        ;
        assert(grid[i] == (i % n, i / n));
        assert(grid[j] == (j % n, j / n));
        vstd::arithmetic::div_mod::lemma_fundamental_div_mod(i, n);
        vstd::arithmetic::div_mod::lemma_fundamental_div_mod(j, n);
    }
}

/// Sharing a grid out among `count` workers gives one run for each worker
/// (one for each cell, if there are fewer cells than workers), none of them
/// empty; the coordinates of the runs, put end to end, are the coordinates
/// of the grid in storage order, so every cell falls to exactly one run.
pub proof fn lemma_chunks_cover_grid(nx: nat, ny: nat, count: nat)
    ensures
        grid_parts(nx, ny, count).flatten() == grid_coords(nx, ny),
        grid_parts(nx, ny, count).len() == run_count(nx * ny, count),
        1 <= count <= nx * ny ==> grid_parts(nx, ny, count).len() == count,
        forall|k: int|
            0 <= k < grid_parts(nx, ny, count).len() ==> 0 < (#[trigger] grid_parts(
                nx,
                ny,
                count,
            )[k]).len() <= chunk_size(nx * ny, count),
        grid_coords(nx, ny).no_duplicates(),
        forall|c: (int, int)|
            in_grid(nx as int, ny as int, c) <==> #[trigger] grid_coords(nx, ny).contains(c),
{
    let n = nx as int;
    let len = nx * ny;
    let size = chunk_size(len, count);
    let runs = run_count(len, count);
    let grid = grid_coords(nx, ny);
    lemma_grid_coords(nx, ny);
    if len == 0 {
        assert(grid_parts(nx, ny, count).flatten() =~= grid);
    } else {
        lemma_shares(len, count);
        lemma_parts_flatten(n, 0, 0, len, size, runs);
        lemma_parts_len(n, 0, 0, len, size, runs);
    }
    assert forall|c: (int, int)| in_grid(n, ny as int, c) <==> #[trigger] grid.contains(c) by {
        if in_grid(n, ny as int, c) {
            assert(grid[offset(n, c.0, c.1)] == c);
        }
        if grid.contains(c) {
            let i = choose|i: int| 0 <= i < grid.len() && grid[i] == c;
            assert(in_grid(n, ny as int, grid[i]));
        }
    }
}

/// Two coordinates with columns inside the row and the same storage place are
/// the same coordinate.
pub proof fn lemma_offset_injective(nx: int, a: (int, int), b: (int, int))
    requires
        0 <= a.0 < nx,
        0 <= b.0 < nx,
        offset(nx, a.0, a.1) == offset(nx, b.0, b.1),
    ensures
        a == b,
{
    let i = offset(nx, a.0, a.1);
    assert(i == a.1 * nx + a.0 && i == b.1 * nx + b.0) by (nonlinear_arith)
        requires
            i == a.0 + nx * a.1,
            i == b.0 + nx * b.1,
    ;
    lemma_div_mod_unique(i, nx, a.1, a.0);
    lemma_div_mod_unique(i, nx, b.1, b.0);
}

/// A step from a column inside the row leads to the next storage place, and
/// to a column inside the row again.
pub proof fn lemma_step_offset(nx: int, x: int, y: int)
    requires
        0 <= x < nx,
    ensures
        offset(nx, step(nx, x, y).0, step(nx, x, y).1) == offset(nx, x, y) + 1,
        0 <= step(nx, x, y).0 < nx,
{
    assert(nx * (y + 1) == nx * y + nx) by (nonlinear_arith);
}

/// What a filtered run visits: only inner columns, only storage places of
/// the run, in rising order of storage place, and every inner-column
/// coordinate whose storage place belongs to the run.
pub proof fn lemma_inner_walk(nx: int, x: int, y: int, len: nat)
    requires
        0 <= x < nx,
    ensures
        forall|i: int|
            0 <= i < inner_walk(nx, x, y, len).len() ==> {
                let c = #[trigger] inner_walk(nx, x, y, len)[i];
                &&& is_inner_col(nx, c.0)
                &&& offset(nx, x, y) <= offset(nx, c.0, c.1) < offset(nx, x, y) + len
            },
        forall|i: int, j: int|
            0 <= i < j < inner_walk(nx, x, y, len).len() ==> {
                let a = #[trigger] inner_walk(nx, x, y, len)[i];
                let b = #[trigger] inner_walk(nx, x, y, len)[j];
                offset(nx, a.0, a.1) < offset(nx, b.0, b.1)
            },
        forall|c: (int, int)|
            is_inner_col(nx, c.0) && offset(nx, x, y) <= offset(nx, c.0, c.1) < offset(nx, x, y)
                + len ==> #[trigger] inner_walk(nx, x, y, len).contains(c),
    decreases len,
{
    let all = inner_walk(nx, x, y, len);
    if len > 0 {
        let next = step(nx, x, y);
        let rest = inner_walk(nx, next.0, next.1, (len - 1) as nat);
        lemma_step_offset(nx, x, y);
        lemma_inner_walk(nx, next.0, next.1, (len - 1) as nat);
        let shift: int = if is_inner_col(nx, x) {
            1
        } else {
            0
        };
        assert(all.len() == rest.len() + shift);
        assert forall|i: int| shift <= i < all.len() implies all[i] == rest[i - shift] by {}
        assert forall|c: (int, int)|
            is_inner_col(nx, c.0) && offset(nx, x, y) <= offset(nx, c.0, c.1) < offset(nx, x, y)
                + len implies #[trigger] all.contains(c) by {
            if offset(nx, c.0, c.1) == offset(nx, x, y) {
                lemma_offset_injective(nx, c, (x, y));
                assert(all[0] == c);
            } else {
                assert(rest.contains(c));
                let k = choose|k: int| 0 <= k < rest.len() && rest[k] == c;
                assert(all[k + shift] == c);
            }
        }
    }
}

/// The filtered runs of a band, put end to end, are the filtered band.
pub proof fn lemma_inner_walk_split(nx: int, x: int, y: int, a: nat, b: nat)
    ensures
        inner_walk(nx, x, y, a + b) == inner_walk(nx, x, y, a) + inner_walk(
            nx,
            advance(nx, x, y, a).0,
            advance(nx, x, y, a).1,
            b,
        ),
    decreases a,
{
    let end = advance(nx, x, y, a);
    if a == 0 {
        assert(inner_walk(nx, x, y, a + b) =~= inner_walk(nx, x, y, a) + inner_walk(
            nx,
            end.0,
            end.1,
            b,
        ));
    } else {
        let next = step(nx, x, y);
        lemma_inner_walk_split(nx, next.0, next.1, (a - 1) as nat, b);
        assert(inner_walk(nx, x, y, a + b) =~= inner_walk(nx, x, y, a) + inner_walk(
            nx,
            end.0,
            end.1,
            b,
        ));
    }
}

/// The interior traversal names every interior cell of the grid exactly once,
/// and names nothing else; it goes in rising order of storage place.
pub proof fn lemma_interior_coords(nx: nat, ny: nat)
    ensures
        forall|c: (int, int)|
            in_interior(nx as int, ny as int, c) <==> #[trigger] interior_coords(nx, ny).contains(
                c,
            ),
        interior_coords(nx, ny).no_duplicates(),
        forall|i: int, j: int|
            0 <= i < j < interior_coords(nx, ny).len() ==> {
                let a = #[trigger] interior_coords(nx, ny)[i];
                let b = #[trigger] interior_coords(nx, ny)[j];
                offset(nx as int, a.0, a.1) < offset(nx as int, b.0, b.1)
            },
{
    let n = nx as int;
    let h = ny as int;
    let len = band_len(nx, ny);
    let inner = interior_coords(nx, ny);
    if len == 0 {
        assert forall|c: (int, int)| in_interior(n, h, c) <==> #[trigger] inner.contains(c) by {
            if in_interior(n, h, c) {
                assert(n * (h - 2) > 0) by (nonlinear_arith)
                    requires
                        n >= 3,
                        h >= 3,
                ;
            }
        }
    } else {
        assert(n > 0 && h > 2) by (nonlinear_arith)
            requires
                n * (h - 2) > 0,
                n >= 0,
        ;
        lemma_inner_walk(n, 0, 1, len);
        assert(offset(n, 0, 1) == n) by (nonlinear_arith)
            requires
                offset(n, 0, 1) == 0 + n * 1,
        ;
        assert(n + n * (h - 2) == n * (h - 1)) by (nonlinear_arith);
        assert forall|c: (int, int)| in_interior(n, h, c) <==> #[trigger] inner.contains(c) by {
            if in_interior(n, h, c) {
                assert(n * 1 <= n * c.1 <= n * (h - 2)) by (nonlinear_arith)
                    requires
                        1 <= c.1 <= h - 2,
                        n > 0,
                ;
                assert(n * (h - 2) + n == n * (h - 1)) by (nonlinear_arith);
            }
            if inner.contains(c) {
                let i = choose|i: int| 0 <= i < inner.len() && inner[i] == c;
                assert(is_inner_col(n, inner[i].0));
                let o = offset(n, c.0, c.1);
                assert(1 <= c.1 && c.1 + 1 < h) by (nonlinear_arith)
                    requires
                        n <= c.0 + n * c.1 < n * (h - 1),
                        0 <= c.0 < n,
                ;
            }
        }
        assert forall|i: int, j: int|
            0 <= i < inner.len() && 0 <= j < inner.len() && i != j implies inner[i]
            != inner[j] by {
            if i < j {
                assert(offset(n, inner[i].0, inner[i].1) < offset(n, inner[j].0, inner[j].1));
            } else {
                assert(offset(n, inner[j].0, inner[j].1) < offset(n, inner[i].0, inner[i].1));
            }
        }
    }
}

/// Walking one cell further adds that cell's coordinate if it lies in an
/// inner column, and nothing otherwise.
pub proof fn lemma_inner_walk_push(nx: int, x: int, y: int, len: nat)
    ensures
        inner_walk(nx, x, y, len + 1).len() == inner_walk(nx, x, y, len).len() + (if is_inner_col(
            nx,
            advance(nx, x, y, len).0,
        ) {
            1nat
        } else {
            0nat
        }),
{
    let end = advance(nx, x, y, len);
    lemma_inner_walk_split(nx, x, y, len, 1);
    let next = step(nx, end.0, end.1);
    assert(inner_walk(nx, next.0, next.1, 0).len() == 0);
    assert(inner_walk(nx, end.0, end.1, 1).len() == (if is_inner_col(nx, end.0) {
        1nat
    } else {
        0nat
    }));
}

/// What a cut holds: it is part of the run, it holds `n` inner-column cells
/// if the run has that many and all of them otherwise, and it stops short of
/// the end of the run only when it holds `n`.
pub proof fn lemma_cut_len(nx: int, x: int, y: int, len: nat, n: nat)
    ensures
        cut_len(nx, x, len, n) <= len,
        inner_walk(nx, x, y, cut_len(nx, x, len, n)).len() <= n,
        inner_walk(nx, x, y, cut_len(nx, x, len, n)).len() <= inner_walk(nx, x, y, len).len(),
        inner_walk(nx, x, y, cut_len(nx, x, len, n)).len() == n || inner_walk(
            nx,
            x,
            y,
            cut_len(nx, x, len, n),
        ).len() == inner_walk(nx, x, y, len).len(),
        inner_walk(nx, x, y, cut_len(nx, x, len, n)).len() < n ==> cut_len(nx, x, len, n) == len,
    decreases len,
{
    if n == 0 || len == 0 {
        assert(inner_walk(nx, x, y, 0).len() == 0);
    } else {
        let left: nat = if is_inner_col(nx, x) {
            (n - 1) as nat
        } else {
            n
        };
        let next = step(nx, x, y);
        assert(next.0 == step(nx, x, 0).0);
        lemma_cut_len(nx, next.0, next.1, (len - 1) as nat, left);
    }
}

/// A band whose inner-column cells are at least as many as the runs, and
/// not more than full runs would hold, is cut into exactly that many runs,
/// none of them empty and none with more than `chunk` cells, which put end
/// to end are the inner-column cells of the band.
pub proof fn lemma_inner_parts(nx: int, x: int, y: int, len: nat, chunk: nat, runs: nat)
    requires
        runs <= inner_walk(nx, x, y, len).len() <= runs * chunk,
    ensures
        inner_parts(nx, x, y, len, chunk, runs).len() == runs,
        forall|k: int|
            0 <= k < runs ==> 0 < (#[trigger] inner_parts(nx, x, y, len, chunk, runs)[k]).len()
                <= chunk,
        inner_parts(nx, x, y, len, chunk, runs).flatten() == inner_walk(nx, x, y, len),
    decreases runs,
{
    let inner = inner_walk(nx, x, y, len).len();
    let want = head_len(inner, chunk, runs);
    let cut = cut_len(nx, x, len, want);
    let head = inner_walk(nx, x, y, cut);
    let all = inner_parts(nx, x, y, len, chunk, runs);
    lemma_cut_len(nx, x, y, len, want);
    lemma_head_len(inner, chunk, runs);
    if runs == 0 {
        assert(runs * chunk == 0) by (nonlinear_arith)
            requires
                runs == 0,
        ;
        assert(all.flatten() =~= inner_walk(nx, x, y, len));
    } else {
        assert(chunk >= 1) by (nonlinear_arith)
            requires
                1 <= inner <= runs * chunk,
                runs >= 1,
                chunk >= 0,
        ;
        assert(head.len() == want);
        assert(cut > 0) by {
            if cut == 0 {
                assert(inner_walk(nx, x, y, 0).len() == 0);
            }
        }
        let next = advance(nx, x, y, cut);
        let rest = (len - cut) as nat;
        lemma_inner_walk_split(nx, x, y, cut, rest);
        let tail = inner_parts(nx, next.0, next.1, rest, chunk, (runs - 1) as nat);
        lemma_inner_parts(nx, next.0, next.1, rest, chunk, (runs - 1) as nat);
        assert(all.first() == head);
        assert(all.drop_first() =~= tail);
        assert(all.flatten() == all.first() + all.drop_first().flatten());
        assert forall|k: int| 0 <= k < runs implies 0 < (#[trigger] all[k]).len() <= chunk by {
            if k > 0 {
                assert(all[k] == tail[k - 1]);
            }
        }
    }
}

/// From column `x` to the end of its row, a run passes over as many
/// inner-column cells as lie between them, and ends at the start of the next
/// row.
pub proof fn lemma_inner_row(nx: int, x: int, y: int)
    requires
        0 <= x <= nx,
    ensures
        inner_walk(nx, x, y, (nx - x) as nat).len() == (if nx < 3 || x + 1 >= nx {
            0
        } else if x == 0 {
            nx - 2
        } else {
            nx - 1 - x
        }),
        x < nx ==> advance(nx, x, y, (nx - x) as nat) == (0int, y + 1),
    decreases nx - x,
{
    if x < nx {
        let next = step(nx, x, y);
        if x + 1 < nx {
            lemma_inner_row(nx, x + 1, y);
        } else {
            assert(inner_walk(nx, next.0, next.1, 0).len() == 0);
            assert(advance(nx, next.0, next.1, 0) == next);
        }
    } else {
        assert(inner_walk(nx, x, y, 0).len() == 0);
    }
}

/// `rows` whole rows hold `nx - 2` inner-column cells each, if rows are at
/// least three cells wide, and none otherwise.
pub proof fn lemma_inner_rows(nx: nat, y: int, rows: nat)
    ensures
        inner_walk(nx as int, 0, y, nx * rows).len() == (if nx >= 3 {
            (nx - 2) * rows
        } else {
            0
        }),
    decreases rows,
{
    let n = nx as int;
    if rows == 0 || nx == 0 {
        assert(nx * rows == 0) by (nonlinear_arith)
            requires
                rows == 0 || nx == 0,
        ;
        assert(inner_walk(n, 0, y, 0).len() == 0);
        assert((nx - 2) * rows == 0 || nx < 3) by (nonlinear_arith)
            requires
                rows == 0 || nx == 0,
        ;
    } else {
        let below = (nx * (rows - 1)) as nat;
        assert(nx * rows == nx + nx * (rows - 1)) by (nonlinear_arith);
        assert(nx * (rows - 1) >= 0) by (nonlinear_arith)
            requires
                rows >= 1,
        ;
        assert((nx - 2) * rows == (nx - 2) + (nx - 2) * (rows - 1)) by (nonlinear_arith);
        lemma_inner_row(n, 0, y);
        lemma_inner_walk_split(n, 0, y, nx, below);
        lemma_inner_rows(nx, y + 1, (rows - 1) as nat);
    }
}

/// The interior traversal visits [`interior_len`] cells.
pub proof fn lemma_interior_len(nx: nat, ny: nat)
    ensures
        interior_coords(nx, ny).len() == interior_len(nx, ny),
        interior_len(nx, ny) <= band_len(nx, ny),
{
    if ny >= 2 {
        lemma_inner_rows(nx, 1, (ny - 2) as nat);
        if nx >= 3 && ny >= 3 {
            assert((nx - 2) * (ny - 2) <= nx * (ny - 2)) by (nonlinear_arith)
                requires
                    nx >= 3,
                    ny >= 3,
            ;
        } else if nx >= 3 {
            assert((nx - 2) * (ny - 2) == 0) by (nonlinear_arith)
                requires
                    ny == 2,
            ;
        }
    } else {
        assert(inner_walk(nx as int, 0, 1, 0).len() == 0);
    }
}

/// Sharing the interior of a grid out among `count` workers gives one run
/// for each worker (one for each interior cell, if there are fewer of those
/// than workers), none of them empty; the coordinates of the runs, put end
/// to end, are the interior coordinates in storage order, so every interior
/// cell falls to exactly one run, and no other cell to any.
pub proof fn lemma_inner_chunks_cover_interior(nx: nat, ny: nat, count: nat)
    ensures
        interior_parts(nx, ny, count).flatten() == interior_coords(nx, ny),
        interior_parts(nx, ny, count).len() == run_count(interior_len(nx, ny), count),
        1 <= count <= interior_len(nx, ny) ==> interior_parts(nx, ny, count).len() == count,
        forall|k: int|
            0 <= k < interior_parts(nx, ny, count).len() ==> 0 < (#[trigger] interior_parts(
                nx,
                ny,
                count,
            )[k]).len() <= chunk_size(interior_len(nx, ny), count),
        interior_coords(nx, ny).no_duplicates(),
        forall|c: (int, int)|
            in_interior(nx as int, ny as int, c) <==> #[trigger] interior_coords(nx, ny).contains(
                c,
            ),
{
    let total = interior_len(nx, ny);
    lemma_interior_coords(nx, ny);
    lemma_interior_len(nx, ny);
    if total == 0 {
        lemma_cut_len(nx as int, 0, 1, band_len(nx, ny), 0);
        lemma_head_len(0, chunk_size(total, count), run_count(total, count));
        assert(inner_walk(nx as int, 0, 1, 0).len() == 0);
        assert(interior_parts(nx, ny, count).flatten() =~= interior_coords(nx, ny));
    } else {
        lemma_shares(total, count);
        lemma_inner_parts(
            nx as int,
            0,
            1,
            band_len(nx, ny),
            chunk_size(total, count),
            run_count(total, count),
        );
    }
}

} // verus!
