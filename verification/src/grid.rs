//! Boolean grids backed by `ndarray`.
//!
//! `Bitmap` holds an `ndarray::Array2<bool>` and `Volume` an
//! `ndarray::Array3<bool>`. Their contents are described by the spec
//! functions `bitmap_cells` / `bitmap_shape` and `volume_cells` /
//! `volume_shape`; every operation on them states its effect over these.
use vstd::prelude::*;
use ndarray::{Array2, Array3};

verus! {

/// `ndarray` refuses to build an array whose non-zero axis lengths multiply
/// to more than `isize::MAX`; an axis of length zero counts as one.
pub open spec fn axis_factor(n: int) -> int {
    if n == 0 { 1 } else { n }
}

/// Shape check made by `ndarray` for a two-dimensional array.
pub open spec fn shape2_fits(rows: int, cols: int) -> bool {
    axis_factor(rows) * axis_factor(cols) <= isize::MAX
}

/// Shape check made by `ndarray` for a three-dimensional array.
pub open spec fn shape3_fits(x: int, y: int, z: int) -> bool {
    axis_factor(x) * axis_factor(y) * axis_factor(z) <= isize::MAX
}

/// The grid with `rows` rows of `cols` cells, all equal to `value`.
pub open spec fn filled_grid(rows: int, cols: int, value: bool) -> Seq<Seq<bool>> {
    Seq::new(rows as nat, |i: int| Seq::new(cols as nat, |j: int| value))
}

/// A rectangular grid: `rows` rows, each of `cols` cells.
pub open spec fn is_rect(g: Seq<Seq<bool>>, rows: int, cols: int) -> bool {
    &&& g.len() == rows
    &&& forall|i: int| 0 <= i < rows ==> #[trigger] g[i].len() == cols
}

/// Number of cells equal to `v` in a row.
pub open spec fn count_in_row(row: Seq<bool>, v: bool) -> nat
    decreases row.len(),
{
    if row.len() == 0 {
        0
    } else {
        count_in_row(row.drop_last(), v) + if row.last() == v { 1nat } else { 0nat }
    }
}

/// Number of cells equal to `v` in a grid, row by row.
pub open spec fn count_in_grid(g: Seq<Seq<bool>>, v: bool) -> nat
    decreases g.len(),
{
    if g.len() == 0 {
        0
    } else {
        count_in_grid(g.drop_last(), v) + count_in_row(g.last(), v)
    }
}

/// Number of cells equal to `v` in a volume, layer by layer along the first axis.
pub open spec fn count_in_volume(vol: Seq<Seq<Seq<bool>>>, v: bool) -> nat
    decreases vol.len(),
{
    if vol.len() == 0 {
        0
    } else {
        count_in_volume(vol.drop_last(), v) + count_in_grid(vol.last(), v)
    }
}

/// A filled row, grid or volume holds no cell of the other value.
pub proof fn lemma_filled_count(x: nat, y: int, z: int, value: bool)
    requires
        0 <= y,
        0 <= z,
    ensures
        count_in_row(Seq::new(z as nat, |k: int| value), !value) == 0,
        count_in_grid(filled_grid(y, z, value), !value) == 0,
        count_in_volume(Seq::new(x, |i: int| filled_grid(y, z, value)), !value) == 0,
    decreases x, y, z,
{
    if z > 0 {
        lemma_filled_count(0, 0, z - 1, value);
        assert(Seq::new(z as nat, |k: int| value).drop_last() =~= Seq::new((z - 1) as nat, |k: int| value));
    }
    if y > 0 {
        lemma_filled_count(0, y - 1, z, value);
        assert(filled_grid(y, z, value).drop_last() =~= filled_grid(y - 1, z, value));
    }
    if x > 0 {
        lemma_filled_count((x - 1) as nat, y, z, value);
        assert(Seq::new(x, |i: int| filled_grid(y, z, value)).drop_last() =~= Seq::new(
            (x - 1) as nat,
            |i: int| filled_grid(y, z, value),
        ));
    }
}

/// Counting one value and the other counts every cell once: the cells of a
/// row equal to `v` and those equal to `!v` make up the row, and a filled row
/// of `v` holds only cells equal to `v`.
pub proof fn lemma_count_in_row_split(row: Seq<bool>, v: bool)
    ensures
        count_in_row(row, v) + count_in_row(row, !v) == row.len(),
        (forall|j: int| 0 <= j < row.len() ==> #[trigger] row[j] == v) ==> count_in_row(row, v) == row.len(),
    decreases row.len(),
{
    if row.len() > 0 {
        lemma_count_in_row_split(row.drop_last(), v);
    }
}

/// Switching on a cell that was off adds one set cell to a row.
pub proof fn lemma_row_switch_on(row: Seq<bool>, j: int)
    requires
        0 <= j < row.len(),
        !row[j],
    ensures
        count_in_row(row.update(j, true), true) == count_in_row(row, true) + 1,
    decreases row.len(),
{
    let n = row.len() - 1;
    if j < n {
        lemma_row_switch_on(row.drop_last(), j);
        assert(row.update(j, true).drop_last() =~= row.drop_last().update(j, true));
    } else {
        assert(row.update(j, true).drop_last() =~= row.drop_last());
    }
}

/// Switching on a cell that was off adds one set cell to a grid.
pub proof fn lemma_grid_switch_on(g: Seq<Seq<bool>>, i: int, j: int)
    requires
        0 <= i < g.len(),
        0 <= j < g[i].len(),
        !g[i][j],
    ensures
        count_in_grid(g.update(i, g[i].update(j, true)), true) == count_in_grid(g, true) + 1,
    decreases g.len(),
{
    let n = g.len() - 1;
    if i < n {
        lemma_grid_switch_on(g.drop_last(), i, j);
        assert(g.update(i, g[i].update(j, true)).drop_last() =~= g.drop_last().update(
            i,
            g.drop_last()[i].update(j, true),
        ));
    } else {
        lemma_row_switch_on(g[i], j);
        assert(g.update(i, g[i].update(j, true)).drop_last() =~= g.drop_last());
    }
}

/// Switching on a cell that was off adds one set cell to a volume.
pub proof fn lemma_volume_switch_on(vol: Seq<Seq<Seq<bool>>>, x: int, y: int, z: int)
    requires
        0 <= x < vol.len(),
        0 <= y < vol[x].len(),
        0 <= z < vol[x][y].len(),
        !vol[x][y][z],
    ensures
        count_in_volume(vol.update(x, vol[x].update(y, vol[x][y].update(z, true))), true)
            == count_in_volume(vol, true) + 1,
    decreases vol.len(),
{
    let n = vol.len() - 1;
    if x < n {
        lemma_volume_switch_on(vol.drop_last(), x, y, z);
        assert(vol.update(x, vol[x].update(y, vol[x][y].update(z, true))).drop_last()
            =~= vol.drop_last().update(x, vol[x].update(y, vol[x][y].update(z, true))));
    } else {
        lemma_grid_switch_on(vol[x], y, z);
        assert(vol.update(x, vol[x].update(y, vol[x][y].update(z, true))).drop_last()
            =~= vol.drop_last());
    }
}

/// A row has no more matching cells than cells.
pub proof fn lemma_count_in_row_bound(row: Seq<bool>, v: bool)
    ensures
        count_in_row(row, v) <= row.len(),
    decreases row.len(),
{
    if row.len() > 0 {
        lemma_count_in_row_bound(row.drop_last(), v);
    }
}

/// Counting the first `k + 1` cells of a row adds the cell `k` to the first `k`.
pub proof fn lemma_count_in_row_step(row: Seq<bool>, k: int, v: bool)
    requires
        0 <= k < row.len(),
    ensures
        count_in_row(row.take(k + 1), v) == count_in_row(row.take(k), v) + if row[k] == v {
            1nat
        } else {
            0nat
        },
{
    assert(row.take(k + 1).drop_last() =~= row.take(k));
}

/// Counting the first `k + 1` rows adds the row `k` to the first `k`.
pub proof fn lemma_count_in_grid_step(g: Seq<Seq<bool>>, k: int, v: bool)
    requires
        0 <= k < g.len(),
    ensures
        count_in_grid(g.take(k + 1), v) == count_in_grid(g.take(k), v) + count_in_row(g[k], v),
{
    assert(g.take(k + 1).drop_last() =~= g.take(k));
}

/// In a grid whose rows have `cols` cells, the first `k` rows hold at most
/// `k * cols` matching cells.
pub proof fn lemma_count_in_grid_bound(g: Seq<Seq<bool>>, k: int, cols: int, v: bool)
    requires
        0 <= k <= g.len(),
        0 <= cols,
        forall|i: int| 0 <= i < g.len() ==> #[trigger] g[i].len() == cols,
    ensures
        count_in_grid(g.take(k), v) <= k * cols,
    decreases k,
{
    if k == 0 {
        assert(g.take(0) =~= Seq::<Seq<bool>>::empty());
    } else {
        lemma_count_in_grid_bound(g, k - 1, cols, v);
        lemma_count_in_grid_step(g, k - 1, v);
        lemma_count_in_row_bound(g[k - 1], v);
        assert((k - 1) * cols + cols == k * cols) by (nonlinear_arith);
    }
}

/// `i * cols + j` stays below `rows * cols` inside the grid.
pub proof fn lemma_row_major_bound(i: int, j: int, rows: int, cols: int)
    requires
        0 <= i < rows,
        0 <= j <= cols,
    ensures
        i * cols + j <= rows * cols,
        0 <= i * cols,
{
    assert(i * cols + j <= rows * cols) by (nonlinear_arith)
        requires
            0 <= i < rows,
            0 <= j <= cols,
    ;
    assert(0 <= i * cols) by (nonlinear_arith)
        requires
            0 <= i,
            0 <= j <= cols,
    ;
}

/// Under the shape check, `rows * cols` is at most `isize::MAX`.
pub proof fn lemma_shape2_product(rows: int, cols: int)
    requires
        0 <= rows,
        0 <= cols,
        shape2_fits(rows, cols),
    ensures
        rows * cols <= isize::MAX,
{
    assert(rows * cols <= axis_factor(rows) * axis_factor(cols)) by (nonlinear_arith)
        requires
            0 <= rows,
            0 <= cols,
            axis_factor(rows) == if rows == 0 { 1 } else { rows },
            axis_factor(cols) == if cols == 0 { 1 } else { cols },
    ;
}

/// Shapes of at most `0x7fff` by `0x7fff` pass the size check.
pub proof fn lemma_small_shape2_fits(rows: int, cols: int)
    requires
        0 <= rows <= 0x7fff,
        0 <= cols <= 0x7fff,
    ensures
        shape2_fits(rows, cols),
{
    assert(isize::MAX >= 0x7fff_ffff);
    assert(axis_factor(rows) * axis_factor(cols) <= 0x7fff * 0x7fff) by (nonlinear_arith)
        requires
            1 <= axis_factor(rows) <= 0x7fff,
            1 <= axis_factor(cols) <= 0x7fff,
    ;
}

/// A two-dimensional grid of booleans, held in an `ndarray::Array2<bool>`.
#[verifier::external_body]
#[derive(Debug, PartialEq, Eq)]
pub struct Bitmap {
    array: Array2<bool>,
}

/// The cells of a bitmap, row by row, as `ndarray` indexes them with `[[i, j]]`.
pub uninterp spec fn bitmap_cells(b: Bitmap) -> Seq<Seq<bool>>;

/// The shape of a bitmap, `(rows, columns)`, as `Array2::dim` reports it.
pub uninterp spec fn bitmap_shape(b: Bitmap) -> (usize, usize);

impl View for Bitmap {
    type V = Seq<Seq<bool>>;

    open spec fn view(&self) -> Seq<Seq<bool>> {
        bitmap_cells(*self)
    }
}

impl Bitmap {
    /// Number of rows.
    pub open spec fn rows(&self) -> usize {
        bitmap_shape(*self).0
    }

    /// Number of columns.
    pub open spec fn cols(&self) -> usize {
        bitmap_shape(*self).1
    }

    /// The cell in row `i` and column `j`.
    pub open spec fn cell(&self, i: int, j: int) -> bool {
        bitmap_cells(*self)[i][j]
    }

    /// What every `ndarray` array satisfies: the cells form a rectangle of
    /// the reported shape, and the shape passed `ndarray`'s size check.
    pub open spec fn wf(&self) -> bool {
        &&& is_rect(bitmap_cells(*self), self.rows() as int, self.cols() as int)
        &&& shape2_fits(self.rows() as int, self.cols() as int)
    }

    /// `Array2::from_elem((rows, cols), value)`: every cell is `value`.
    /// `from_elem` panics when the shape fails its size check, hence the `requires`.
    #[verifier::external_body]
    fn from_elem(rows: usize, cols: usize, value: bool) -> (r: Bitmap)
        requires
            shape2_fits(rows as int, cols as int),
        ensures
            bitmap_shape(r) == (rows, cols),
            bitmap_cells(r) == filled_grid(rows as int, cols as int, value),
    {
        Bitmap { array: Array2::from_elem((rows, cols), value) }
    }

    /// `Array2::dim`: the shape; claims too that the cells form a rectangle of
    /// that shape, and that the shape passed the size check made by every
    /// `ndarray` constructor (`size_of_shape_checked`).
    #[verifier::external_body]
    fn shape(&self) -> (r: (usize, usize))
        ensures
            r == bitmap_shape(*self),
            is_rect(bitmap_cells(*self), r.0 as int, r.1 as int),
            shape2_fits(r.0 as int, r.1 as int),
    {
        self.array.dim()
    }

    /// `array[[i, j]]` read; indexing panics out of range, hence the `requires`.
    #[verifier::external_body]
    fn read(&self, i: usize, j: usize) -> (r: bool)
        requires
            i < self.rows(),
            j < self.cols(),
        ensures
            r == self.cell(i as int, j as int),
    {
        self.array[[i, j]]
    }

    /// `array[[i, j]] = value`: only that cell changes.
    #[verifier::external_body]
    fn write(&mut self, i: usize, j: usize, value: bool)
        requires
            i < old(self).rows(),
            j < old(self).cols(),
        ensures
            bitmap_shape(*final(self)) == bitmap_shape(*old(self)),
            bitmap_cells(*final(self)) == bitmap_cells(*old(self)).update(
                i as int,
                bitmap_cells(*old(self))[i as int].update(j as int, value),
            ),
    {
        self.array[[i, j]] = value;
    }

    /// A `rows` by `cols` bitmap with every cell set to `value`.
    pub fn new(rows: usize, cols: usize, value: bool) -> (r: Bitmap)
        requires
            shape2_fits(rows as int, cols as int),
        ensures
            r.rows() == rows,
            r.cols() == cols,
            r@ == filled_grid(rows as int, cols as int, value),
    {
        Bitmap::from_elem(rows, cols, value)
    }

    /// The shape `(rows, columns)`.
    pub fn dim(&self) -> (r: (usize, usize))
        ensures
            r == (self.rows(), self.cols()),
            self.wf(),
    {
        self.shape()
    }

    /// The cell in row `i`, column `j`.
    pub fn get(&self, i: usize, j: usize) -> (r: bool)
        requires
            i < self.rows(),
            j < self.cols(),
        ensures
            r == self.cell(i as int, j as int),
    {
        self.read(i, j)
    }

    /// Sets the cell in row `i`, column `j`; the shape and all other cells stay.
    pub fn set(&mut self, i: usize, j: usize, value: bool)
        requires
            i < old(self).rows(),
            j < old(self).cols(),
        ensures
            final(self).rows() == old(self).rows(),
            final(self).cols() == old(self).cols(),
            final(self)@ == old(self)@.update(i as int, old(self)@[i as int].update(j as int, value)),
    {
        self.write(i, j, value)
    }

    /// Builds a bitmap from its rows; all rows must have the same length.
    /// An empty list gives the bitmap with no rows and no columns.
    pub fn from_rows(rows: &Vec<Vec<bool>>) -> (r: Bitmap)
        requires
            forall|i: int| 0 <= i < rows@.len() ==> #[trigger] rows@[i]@.len() == rows@[0]@.len(),
            rows@.len() > 0 ==> shape2_fits(rows@.len() as int, rows@[0]@.len() as int),
        ensures
            r.rows() == rows@.len(),
            r.cols() == (if rows@.len() == 0 { 0 } else { rows@[0]@.len() }),
            r@ == rows@.map_values(|row: Vec<bool>| row@),
    {
        let n = rows.len();
        let m = if n == 0 { 0 } else { rows[0].len() };
        let mut b = Bitmap::from_elem(n, m, false);
        let mut i: usize = 0;
        while i < n
            invariant
                n == rows@.len(),
                m == (if n == 0 { 0 } else { rows@[0]@.len() }),
                i <= n,
                forall|k: int| 0 <= k < rows@.len() ==> #[trigger] rows@[k]@.len() == m,
                bitmap_shape(b) == (n, m),
                is_rect(bitmap_cells(b), n as int, m as int),
                forall|k: int| 0 <= k < i ==> #[trigger] bitmap_cells(b)[k] == rows@[k]@,
            decreases n - i,
        {
            let mut j: usize = 0;
            while j < m
                invariant
                    n == rows@.len(),
                    i < n,
                    j <= m,
                    rows@[i as int]@.len() == m,
                    bitmap_shape(b) == (n, m),
                    is_rect(bitmap_cells(b), n as int, m as int),
                    forall|k: int| 0 <= k < i ==> #[trigger] bitmap_cells(b)[k] == rows@[k]@,
                    forall|l: int| 0 <= l < j ==> bitmap_cells(b)[i as int][l] == rows@[i as int]@[l],
                decreases m - j,
            {
                let v = rows[i][j];
                b.write(i, j, v);
                j += 1;
            }
            assert(bitmap_cells(b)[i as int] =~= rows@[i as int]@);
            i += 1;
        }
        assert(bitmap_cells(b) =~= rows@.map_values(|row: Vec<bool>| row@));
        b
    }

    /// The rows of the bitmap as vectors.
    pub fn to_rows(&self) -> (r: Vec<Vec<bool>>)
        ensures
            r@.len() == self.rows(),
            forall|i: int| 0 <= i < self.rows() ==> #[trigger] r@[i]@ == self@[i],
    {
        let (n, m) = self.shape();
        let mut out: Vec<Vec<bool>> = Vec::new();
        let mut i: usize = 0;
        while i < n
            invariant
                (n, m) == bitmap_shape(*self),
                self.wf(),
                i <= n,
                out@.len() == i,
                forall|k: int| 0 <= k < i ==> #[trigger] out@[k]@ == self@[k],
            decreases n - i,
        {
            let mut row: Vec<bool> = Vec::new();
            let mut j: usize = 0;
            while j < m
                invariant
                    (n, m) == bitmap_shape(*self),
                    self.wf(),
                    i < n,
                    j <= m,
                    row@.len() == j,
                    forall|l: int| 0 <= l < j ==> row@[l] == self@[i as int][l],
                decreases m - j,
            {
                row.push(self.read(i, j));
                j += 1;
            }
            assert(row@ =~= self@[i as int]);
            out.push(row);
            i += 1;
        }
        out
    }

    /// Number of cells equal to `value`.
    pub fn count(&self, value: bool) -> (r: usize)
        ensures
            self.wf(),
            r == count_in_grid(self@, value),
            r <= self.rows() * self.cols(),
    {
        let (n, m) = self.shape();
        proof {
            lemma_shape2_product(n as int, m as int);
        }
        let mut total: usize = 0;
        let mut i: usize = 0;
        while i < n
            invariant
                (n, m) == bitmap_shape(*self),
                self.wf(),
                n * m <= isize::MAX,
                i <= n,
                total == count_in_grid(self@.take(i as int), value),
            decreases n - i,
        {
            let mut j: usize = 0;
            while j < m
                invariant
                    (n, m) == bitmap_shape(*self),
                    self.wf(),
                    n * m <= isize::MAX,
                    i < n,
                    j <= m,
                    total == count_in_grid(self@.take(i as int), value) + count_in_row(
                        self@[i as int].take(j as int),
                        value,
                    ),
                decreases m - j,
            {
                proof {
                    lemma_count_in_row_step(self@[i as int], j as int, value);
                    lemma_count_in_grid_bound(self@, i as int, m as int, value);
                    lemma_count_in_row_bound(self@[i as int].take(j as int), value);
                    lemma_row_major_bound(i as int, j as int + 1, n as int, m as int);
                }
                if self.read(i, j) == value {
                    total += 1;
                }
                j += 1;
            }
            proof {
                lemma_count_in_grid_step(self@, i as int, value);
                assert(self@[i as int].take(m as int) =~= self@[i as int]);
            }
            i += 1;
        }
        assert(self@.take(n as int) =~= self@);
        proof {
            lemma_count_in_grid_bound(self@, n as int, m as int, value);
        }
        total
    }
}

/// A three-dimensional grid of booleans, held in an `ndarray::Array3<bool>`.
#[verifier::external_body]
#[derive(Debug, PartialEq, Eq)]
pub struct Volume {
    array: Array3<bool>,
}

/// The cells of a volume, `cells[x][y][z]`, as `ndarray` indexes them with `[[x, y, z]]`.
pub uninterp spec fn volume_cells(v: Volume) -> Seq<Seq<Seq<bool>>>;

/// The shape of a volume as `Array3::dim` reports it.
pub uninterp spec fn volume_shape(v: Volume) -> (usize, usize, usize);

impl View for Volume {
    type V = Seq<Seq<Seq<bool>>>;

    open spec fn view(&self) -> Seq<Seq<Seq<bool>>> {
        volume_cells(*self)
    }
}

impl Volume {
    /// Length of the first axis.
    pub open spec fn len_x(&self) -> usize {
        volume_shape(*self).0
    }

    /// Length of the second axis.
    pub open spec fn len_y(&self) -> usize {
        volume_shape(*self).1
    }

    /// Length of the third axis.
    pub open spec fn len_z(&self) -> usize {
        volume_shape(*self).2
    }

    /// The cell at `(x, y, z)`.
    pub open spec fn cell(&self, x: int, y: int, z: int) -> bool {
        volume_cells(*self)[x][y][z]
    }

    /// Whether `(x, y, z)` lies inside the volume.
    pub open spec fn contains(&self, p: (usize, usize, usize)) -> bool {
        p.0 < self.len_x() && p.1 < self.len_y() && p.2 < self.len_z()
    }

    /// What every `ndarray` array satisfies: the cells form a box of the
    /// reported shape, and the shape passed `ndarray`'s size check.
    pub open spec fn wf(&self) -> bool {
        &&& volume_cells(*self).len() == self.len_x()
        &&& forall|x: int| 0 <= x < self.len_x() ==> is_rect(#[trigger] volume_cells(*self)[x], self.len_y() as int, self.len_z() as int)
        &&& shape3_fits(self.len_x() as int, self.len_y() as int, self.len_z() as int)
    }

    /// `Array3::from_elem((x, y, z), value)`: every cell is `value`.
    /// `from_elem` panics when the shape fails its size check, hence the `requires`.
    #[verifier::external_body]
    fn from_elem(x: usize, y: usize, z: usize, value: bool) -> (r: Volume)
        requires
            shape3_fits(x as int, y as int, z as int),
        ensures
            volume_shape(r) == (x, y, z),
            volume_cells(r) == Seq::new(x as nat, |i: int| filled_grid(y as int, z as int, value)),
    {
        Volume { array: Array3::from_elem((x, y, z), value) }
    }

    /// `Array3::dim`: the shape; claims too that the cells form a box of that
    /// shape, and that the shape passed the size check made by every
    /// `ndarray` constructor (`size_of_shape_checked`).
    #[verifier::external_body]
    fn shape(&self) -> (r: (usize, usize, usize))
        ensures
            r == volume_shape(*self),
            volume_cells(*self).len() == r.0,
            forall|x: int| 0 <= x < r.0 ==> is_rect(#[trigger] volume_cells(*self)[x], r.1 as int, r.2 as int),
            shape3_fits(r.0 as int, r.1 as int, r.2 as int),
    {
        self.array.dim()
    }

    /// `array[[x, y, z]]` read; indexing panics out of range, hence the `requires`.
    #[verifier::external_body]
    fn read(&self, x: usize, y: usize, z: usize) -> (r: bool)
        requires
            self.contains((x, y, z)),
        ensures
            r == self.cell(x as int, y as int, z as int),
    {
        self.array[[x, y, z]]
    }

    /// `array[[x, y, z]] = value`: only that cell changes.
    #[verifier::external_body]
    fn write(&mut self, x: usize, y: usize, z: usize, value: bool)
        requires
            old(self).contains((x, y, z)),
        ensures
            volume_shape(*final(self)) == volume_shape(*old(self)),
            volume_cells(*final(self)) == volume_cells(*old(self)).update(
                x as int,
                volume_cells(*old(self))[x as int].update(
                    y as int,
                    volume_cells(*old(self))[x as int][y as int].update(z as int, value),
                ),
            ),
    {
        self.array[[x, y, z]] = value;
    }

    /// A volume of the given shape with every cell set to `value`.
    pub fn new(x: usize, y: usize, z: usize, value: bool) -> (r: Volume)
        requires
            shape3_fits(x as int, y as int, z as int),
        ensures
            volume_shape(r) == (x, y, z),
            r@ == Seq::new(x as nat, |i: int| filled_grid(y as int, z as int, value)),
            count_in_volume(r@, !value) == 0,
    {
        proof {
            lemma_filled_count(x as nat, y as int, z as int, value);
        }
        Volume::from_elem(x, y, z, value)
    }

    /// The shape `(x, y, z)`.
    pub fn dim(&self) -> (r: (usize, usize, usize))
        ensures
            r == volume_shape(*self),
            self.wf(),
    {
        self.shape()
    }

    /// The cell at `(x, y, z)`.
    pub fn get(&self, x: usize, y: usize, z: usize) -> (r: bool)
        requires
            self.contains((x, y, z)),
        ensures
            r == self.cell(x as int, y as int, z as int),
    {
        self.read(x, y, z)
    }

    /// Sets the cell at `(x, y, z)`; the shape and all other cells stay.
    pub fn set(&mut self, x: usize, y: usize, z: usize, value: bool)
        requires
            old(self).contains((x, y, z)),
        ensures
            volume_shape(*final(self)) == volume_shape(*old(self)),
            final(self)@ == old(self)@.update(
                x as int,
                old(self)@[x as int].update(y as int, old(self)@[x as int][y as int].update(z as int, value)),
            ),
    {
        self.write(x, y, z, value)
    }
}

} // verus!
