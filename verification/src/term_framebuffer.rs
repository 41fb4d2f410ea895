//! The cell buffer: an ordered sequence of renderable cells sized
//! `cols * rows`, with a chunk-parallel fill and a strictly sequential
//! render pass that threads a carry-over color to suppress redundant
//! escape sequences.

use vstd::prelude::*;

use crate::iterators::fill_chunked;

verus! {

/// A minimal renderable unit. `edit` replaces the whole logical value
/// atomically; `render` appends the cell's bytes to the frame, reading and
/// updating the carried-over state of the current render pass. Both are pure
/// functions of the cell and the carry-over, pinned by the spec functions
/// below.
pub trait Render: Sized {
    /// Render-pass state threaded from cell to cell (the last emitted color,
    /// for colored cells).
    type CarryOver;

    /// The logical value an `edit` installs.
    type Input;

    /// The carry-over at the start of a render pass.
    spec fn initial_carry() -> Self::CarryOver;

    /// The cell after `edit(change)`.
    spec fn edited(self, change: Self::Input) -> Self;

    /// The cell a freshly allocated buffer holds.
    spec fn default_spec() -> Self;

    /// The bytes `render` emits given the incoming carry-over.
    spec fn rendered(self, c: Self::CarryOver) -> Seq<u8>;

    /// The carry-over `render` leaves for the next cell.
    spec fn carry_after(self, c: Self::CarryOver) -> Self::CarryOver;

    fn fresh_carry() -> (r: Self::CarryOver)
        ensures
            r == Self::initial_carry(),
    ;

    fn default_cell() -> (r: Self)
        ensures
            r == Self::default_spec(),
    ;

    fn render(&self, out: &mut Vec<u8>, c: &mut Self::CarryOver)
        ensures
            final(out)@ == old(out)@ + self.rendered(*old(c)),
            *final(c) == self.carry_after(*old(c)),
    ;

    fn edit(&mut self, change: Self::Input)
        ensures
            *final(self) == old(self).edited(change),
    ;
}

/// The bytes of a whole render pass over `cells`, visited in index order,
/// starting from carry-over `c`.
pub open spec fn render_from<D: Render>(cells: Seq<D>, c: D::CarryOver) -> Seq<u8>
    decreases cells.len(),
{
    if cells.len() == 0 {
        Seq::empty()
    } else {
        cells[0].rendered(c) + render_from(cells.drop_first(), cells[0].carry_after(c))
    }
}

/// Unrolls one step of `render_from` at position `i`.
proof fn lemma_render_from_step<D: Render>(cells: Seq<D>, c: D::CarryOver, i: int)
    requires
        0 <= i < cells.len(),
    ensures
        render_from(cells.skip(i), c) == cells[i].rendered(c) + render_from(
            cells.skip(i + 1),
            cells[i].carry_after(c),
        ),
{
    assert(cells.skip(i).drop_first() =~= cells.skip(i + 1));
    assert(cells.skip(i)[0] == cells[i]);
}

/// Cell `i` of a row-major grid `cols` wide went from `before` to `after`
/// by one edit with an output of `f` at that cell's coordinates.
pub open spec fn fills_cell<D: Render, F: Fn(usize, usize) -> D::Input>(
    f: F,
    cols: int,
    i: int,
    before: D,
    after: D,
) -> bool {
    exists|inp: D::Input|
        #[trigger] call_ensures(f, (((i % cols) as usize, (i / cols) as usize)), inp) && after
            == before.edited(inp)
}

/// Law: a fill is deterministic in the worker count. If the per-cell
/// function is pure — every input it admits for `(x, y)` equals `g(x, y)`
/// for one mathematical `g` — then any two cell sequences that both arose by
/// filling `before` with it, as `iterate_xy` ensures, are equal, however the
/// work was chunked over workers.
pub proof fn lemma_fill_cells_deterministic<D: Render, F: Fn(usize, usize) -> D::Input>(
    f: F,
    cols: int,
    before: Seq<D>,
    a: Seq<D>,
    b: Seq<D>,
    g: spec_fn(usize, usize) -> D::Input,
)
    requires
        forall|x: usize, y: usize, r: D::Input| call_ensures(f, (x, y), r) ==> r == g(x, y),
        a.len() == before.len(),
        b.len() == before.len(),
        forall|i: int| 0 <= i < before.len() ==> fills_cell(f, cols, i, before[i], #[trigger] a[i]),
        forall|i: int| 0 <= i < before.len() ==> fills_cell(f, cols, i, before[i], #[trigger] b[i]),
    ensures
        a == b,
{
    assert forall|i: int| 0 <= i < before.len() implies a[i] == b[i] by {
        let x = ((i % cols) as usize, (i / cols) as usize);
        let inp_a = choose|inp: D::Input|
            #[trigger] call_ensures(f, x, inp) && a[i] == before[i].edited(inp);
        let inp_b = choose|inp: D::Input|
            #[trigger] call_ensures(f, x, inp) && b[i] == before[i].edited(inp);
        assert(inp_a == g(x.0, x.1));
        assert(inp_b == g(x.0, x.1));
    }
    assert(a =~= b);
}

/// A grid of cells in row-major order: index `y * cols + x` holds the cell
/// at column `x` of row `y`. The length is always exactly `cols * rows`.
pub struct TerminalFramebuffer<D: Render + Copy> {
    data: Vec<D>,
    size: (usize, usize),
    workers: usize,
}

impl<D: Render + Copy> TerminalFramebuffer<D> {
    /// The cells, in row-major index order.
    pub closed spec fn cells(&self) -> Seq<D> {
        self.data@
    }

    /// The dimensions as `(cols, rows)`.
    pub closed spec fn dims(&self) -> (usize, usize) {
        self.size
    }

    /// The worker count the fill is partitioned for.
    pub closed spec fn worker_count(&self) -> usize {
        self.workers
    }

    pub open spec fn wf(&self) -> bool {
        &&& self.cells().len() == self.dims().0 * self.dims().1
        &&& self.worker_count() >= 1
    }

    /// Allocates a `cols * rows` buffer of default cells, to be filled by
    /// `workers` workers. Zero-area dimensions give an empty buffer.
    pub fn new(cols: usize, rows: usize, workers: usize) -> (fb: Self)
        requires
            cols * rows <= usize::MAX,
            workers >= 1,
        ensures
            fb.wf(),
            fb.dims() == (cols, rows),
            fb.worker_count() == workers,
            fb.cells() =~= Seq::new((cols * rows) as nat, |i: int| D::default_spec()),
    {
        let n = cols * rows;
        let mut data: Vec<D> = Vec::new();
        let mut i: usize = 0;
        while i < n
            invariant
                0 <= i <= n,
                data@.len() == i as int,
                forall|k: int| 0 <= k < i ==> #[trigger] data@[k] == D::default_spec(),
            decreases n - i,
        {
            data.push(D::default_cell());
            i = i + 1;
        }
        TerminalFramebuffer { data, size: (cols, rows), workers }
    }

    /// The current dimensions as `(cols, rows)`.
    pub fn size(&self) -> (r: (usize, usize))
        ensures
            r == self.dims(),
    {
        self.size
    }

    /// Exclusive access to the raw cell storage, in row-major order.
    pub fn raw_data(&mut self) -> (r: &mut Vec<D>)
        ensures
            (*r)@ == old(self).cells(),
            final(self).cells() == (*final(r))@,
            final(self).dims() == old(self).dims(),
            final(self).worker_count() == old(self).worker_count(),
    {
        &mut self.data
    }

    /// Reallocates to `cols * rows` default cells when the dimensions
    /// changed, discarding all prior contents; leaves the buffer untouched,
    /// cell for cell, when they did not.
    pub fn check_size(&mut self, cols: usize, rows: usize)
        requires
            cols * rows <= usize::MAX,
            old(self).wf(),
        ensures
            final(self).wf(),
            final(self).dims() == (cols, rows),
            final(self).worker_count() == old(self).worker_count(),
            old(self).dims() == (cols, rows) ==> *final(self) == *old(self),
            old(self).dims() != (cols, rows) ==> final(self).cells() =~= Seq::new(
                (cols * rows) as nat,
                |i: int| D::default_spec(),
            ),
    {
        if self.size.0 == cols && self.size.1 == rows {
            return;
        }
        let n = cols * rows;
        let mut data: Vec<D> = Vec::new();
        let mut i: usize = 0;
        while i < n
            invariant
                0 <= i <= n,
                data@.len() == i as int,
                forall|k: int| 0 <= k < i ==> #[trigger] data@[k] == D::default_spec(),
            decreases n - i,
        {
            data.push(D::default_cell());
            i = i + 1;
        }
        self.data = data;
        self.size = (cols, rows);
    }

    /// Row-major coordinates of `index`: `(index mod cols, index div cols)`.
    pub fn index_to_cords(index: usize, size: (usize, usize)) -> (r: (usize, usize))
        requires
            size.0 > 0,
        ensures
            r.0 == index as int % size.0 as int,
            r.1 == index as int / size.0 as int,
    {
        let y = index / size.0;
        let x = index % size.0;
        (x, y)
    }

    /// Row-major index of the cell at column `x` of row `y`.
    pub fn cords_to_index(cords: (usize, usize), size: (usize, usize)) -> (r: usize)
        requires
            cords.0 < size.0,
            cords.1 < size.1,
            size.0 * size.1 <= usize::MAX,
        ensures
            r == cords.1 * size.0 + cords.0,
            r < size.0 * size.1,
    {
        proof {
            lemma_cord_index_in_range(cords.0 as int, cords.1 as int, size.0 as int, size.1 as int);
        }
        cords.1 * size.0 + cords.0
    }

    /// Recomputes every cell: the cell at `(x, y)` is edited with an output
    /// of `f(x, y)`, exactly once per cell. The work is split over the
    /// buffer's worker count by the chunk partition; because the chunks are
    /// disjoint and exhaustive, the result is the same whatever that count.
    pub fn iterate_xy<F: Fn(usize, usize) -> D::Input>(&mut self, f: &F)
        requires
            old(self).wf(),
            forall|x: usize, y: usize|
                x < old(self).dims().0 && y < old(self).dims().1 ==> call_requires(f, (x, y)),
        ensures
            final(self).wf(),
            final(self).dims() == old(self).dims(),
            final(self).worker_count() == old(self).worker_count(),
            final(self).cells().len() == old(self).cells().len(),
            forall|i: int|
                0 <= i < old(self).cells().len() ==> fills_cell(
                    f,
                    old(self).dims().0 as int,
                    i,
                    old(self).cells()[i],
                    #[trigger] final(self).cells()[i],
                ),
    {
        let cols = self.size.0;
        let rows = self.size.1;
        let workers = self.workers;
        let n = self.data.len();
        let ghost orig = self.data@;
        proof {
            assert(orig.len() == n as int);
        }
        let g = |cell: D, i: usize| -> (r: D)
            requires
                i < cols * rows,
            ensures
                fills_cell(f, cols as int, i as int, cell, r),
            {
                proof {
                    assert(cols > 0) by (nonlinear_arith)
                        requires
                            i < cols * rows,
                            i >= 0,
                    ;
                    assert((i as int) / (cols as int) < (rows as int)) by (nonlinear_arith)
                        requires
                            i < cols * rows,
                            cols > 0,
                    ;
                    assert((i as int) % (cols as int) < (cols as int)) by (nonlinear_arith)
                        requires
                            cols > 0,
                            i >= 0,
                    ;
                }
                let x = i % cols;
                let y = i / cols;
                let inp = f(x, y);
                let mut c2 = cell;
                c2.edit(inp);
                c2
            };
        fill_chunked(&mut self.data, workers, &g);
        proof {
            assert forall|i: int| 0 <= i < orig.len() implies fills_cell(
                f,
                old(self).dims().0 as int,
                i,
                orig[i],
                #[trigger] self.cells()[i],
            ) by {
                let iu = i as usize;
                assert(iu as int == i);
                assert(call_ensures(g, (orig[i], iu), self.cells()[i]));
                assert(fills_cell(f, cols as int, iu as int, orig[i], self.cells()[i]));
            }
        }
    }

    /// One full frame: a strictly sequential pass over the cells in
    /// increasing index order, threading the carry-over from cell to cell so
    /// that redundant color escapes are suppressed.
    pub fn render_pass(&self) -> (out: Vec<u8>)
        ensures
            out@ == render_from(self.cells(), D::initial_carry()),
    {
        let mut out: Vec<u8> = Vec::new();
        let mut carry = D::fresh_carry();
        let mut i: usize = 0;
        proof {
            assert(self.cells().skip(0) =~= self.cells());
            assert(out@ + render_from(self.cells(), D::initial_carry()) =~= render_from(
                self.cells(),
                D::initial_carry(),
            ));
        }
        while i < self.data.len()
            invariant
                0 <= i <= self.data.len(),
                render_from(self.cells(), D::initial_carry()) == out@ + render_from(
                    self.cells().skip(i as int),
                    carry,
                ),
            decreases self.data.len() - i,
        {
            proof {
                lemma_render_from_step(self.cells(), carry, i as int);
            }
            let ghost prev_out = out@;
            let ghost prev_carry = carry;
            self.data[i].render(&mut out, &mut carry);
            proof {
                assert(out@ + render_from(self.cells().skip(i + 1), carry) =~= prev_out + (self.cells()[i as int].rendered(prev_carry) + render_from(
                    self.cells().skip(i + 1),
                    carry,
                )));
            }
            i = i + 1;
        }
        proof {
            assert(self.cells().skip(self.cells().len() as int) =~= Seq::<D>::empty());
            assert(out@ + render_from(self.cells().skip(self.cells().len() as int), carry) =~= out@);
        }
        out
    }
}

/// The row-major index of in-range coordinates lies within the grid.
proof fn lemma_cord_index_in_range(x: int, y: int, w: int, h: int)
    requires
        0 <= x < w,
        0 <= y < h,
    ensures
        0 <= y * w + x < w * h,
    decreases h,
{
    assert(y * w + x < w * h) by (nonlinear_arith)
        requires
            0 <= x < w,
            0 <= y < h,
    ;
    assert(y * w >= 0) by (nonlinear_arith)
        requires
            y >= 0,
            w > 0,
    ;
}

/// Law: the coordinate mappings invert each other. Coordinates survive a
/// round trip through the row-major index, and an in-range index survives a
/// round trip through its coordinates.
pub proof fn lemma_cords_round_trip(x: int, y: int, w: int, h: int, index: int)
    requires
        0 <= x < w,
        0 <= y < h,
        0 <= index < w * h,
    ensures
        (y * w + x) % w == x,
        (y * w + x) / w == y,
        (index / w) * w + index % w == index,
        index % w < w,
        index / w < h,
{
    assert((y * w + x) % w == x && (y * w + x) / w == y) by (nonlinear_arith)
        requires
            0 <= x < w,
            0 <= y,
    ;
    vstd::arithmetic::div_mod::lemma_fundamental_div_mod(index, w);
    assert(index % w < w) by (nonlinear_arith)
        requires
            0 <= index,
            w > 0,
    ;
    assert(index / w < h) by (nonlinear_arith)
        requires
            0 <= index < w * h,
            w > 0,
    ;
}

} // verus!
