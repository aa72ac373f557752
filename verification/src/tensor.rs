//! Matrices that live on a device, and the few operations on them that the layer needs.
//!
//! A [`Mat`] is a burn tensor of rank 2, a [`Row`] one of rank 1, a [`Mask`] a boolean one. What
//! they hold is their view, a [`Grid`]. An operation that moves numbers is described exactly. One
//! that computes depends on the device for its rounding: its contract says of each entry of the
//! result from which entries it was computed, by a relation of
//! [`Outcomes`](crate::outcome::Outcomes) that every result of the device meets.
//!
//! The operations ask for matrices on one device, in one format, with an entry at least. Burn
//! panics on matrices of two devices or formats, and on quantized ones where new entries are made;
//! devices panic on sides of length 0.

#[allow(unused_imports)]
use crate::grid::cell;
#[allow(unused_imports)]
use crate::words::{raised, ONE_WORD};
use burn::tensor::{Bool, DType, Tensor, TensorData};
use vstd::prelude::*;

verus! {

/// A matrix, row-major.
pub struct Grid<N> {
    pub rows: int,
    pub cols: int,
    pub cells: Seq<N>,
}

impl<N> Grid<N> {
    pub open spec fn wf(self) -> bool {
        &&& 0 <= self.rows
        &&& 0 <= self.cols
        &&& self.cells.len() == self.rows * self.cols
    }

    /// The entry at row `i`, column `j`.
    pub open spec fn at(self, i: int, j: int) -> N {
        self.cells[cell(i, self.cols, j)]
    }

    /// The entry at row `i`, column `j` of a larger matrix, where this one is repeated along the
    /// sides of length 1.
    pub open spec fn spread(self, i: int, j: int) -> N {
        self.at(
            if self.rows == 1 {
                0
            } else {
                i
            },
            if self.cols == 1 {
                0
            } else {
                j
            },
        )
    }

    pub open spec fn row(self, i: int) -> Seq<N> {
        Seq::new(self.cols as nat, |j: int| self.at(i, j))
    }

    pub open spec fn column(self, j: int) -> Seq<N> {
        Seq::new(self.rows as nat, |i: int| self.at(i, j))
    }

    pub open spec fn columns(self) -> Seq<Seq<N>> {
        Seq::new(self.cols as nat, |j: int| self.column(j))
    }

    /// There is an entry.
    pub open spec fn inhabited(self) -> bool {
        self.rows > 0 && self.cols > 0
    }

    /// The shape of `rows x cols`.
    pub open spec fn sized(self, rows: int, cols: int) -> bool {
        self.wf() && self.rows == rows && self.cols == cols
    }
}

/// Whether sides of length `a` and `b` can be laid over each other.
pub open spec fn overlays(a: int, b: int) -> bool {
    a == b || a == 1 || b == 1
}

/// The length of two sides laid over each other.
pub open spec fn overlaid(a: int, b: int) -> int {
    if a == 1 {
        b
    } else {
        a
    }
}

/// How a number is stored.
pub enum Format {
    /// In 64 bits.
    Double,
    /// In 32 bits.
    Single,
    /// In 32 bits, but computed with as in 16.
    Flexible,
    /// In 16 bits, 5 of them for the exponent.
    Half,
    /// In 16 bits, 8 of them for the exponent.
    Brain,
    /// Quantized, together with other numbers.
    Packed,
}

/// Where a tensor lives and how it stores numbers.
pub struct Setting {
    /// A number for the device.
    pub home: nat,
    pub format: Format,
}

impl Setting {
    /// The entries are numbers of single width, 32 bits.
    pub open spec fn single(self) -> bool {
        self.format is Single
    }

    /// Every entry has a word of its own.
    pub open spec fn plain(self) -> bool {
        !(self.format is Packed)
    }
}

/// A matrix on a device.
#[verifier::external_body]
pub struct Mat {
    pub tensor: Tensor<2>,
}

/// A vector on a device.
#[verifier::external_body]
pub struct Row {
    pub tensor: Tensor<1>,
}

/// A matrix of truth values on a device.
#[verifier::external_body]
pub struct Mask {
    pub tensor: Tensor<2, Bool>,
}

/// What a matrix holds: the words of its entries, in their format, as numbers.
pub uninterp spec fn mat_grid(m: Mat) -> Grid<u64>;

/// Where a matrix lives and how it stores its entries.
pub uninterp spec fn mat_setting(m: Mat) -> Setting;

/// Whether the gradient of a matrix is kept.
pub uninterp spec fn mat_grad(m: Mat) -> bool;

/// Whether the gradient of a matrix can be asked for: it is on a device that tracks gradients, and
/// not the result of an operation.
pub uninterp spec fn mat_tracks(m: Mat) -> bool;

/// What a vector holds: the words of its entries, in their format, as numbers.
pub uninterp spec fn row_cells(v: Row) -> Seq<u64>;

/// Where a vector lives and how it stores its entries.
pub uninterp spec fn row_setting(v: Row) -> Setting;

/// What a mask holds.
pub uninterp spec fn mask_grid(m: Mask) -> Grid<bool>;

/// A number for the device of a mask.
pub uninterp spec fn mask_home(m: Mask) -> nat;

impl View for Mat {
    type V = Grid<u64>;

    open spec fn view(&self) -> Grid<u64> {
        mat_grid(*self)
    }
}

impl View for Row {
    type V = Seq<u64>;

    open spec fn view(&self) -> Seq<u64> {
        row_cells(*self)
    }
}

impl View for Mask {
    type V = Grid<bool>;

    open spec fn view(&self) -> Grid<bool> {
        mask_grid(*self)
    }
}

impl Mat {
    pub open spec fn setting(&self) -> Setting {
        mat_setting(*self)
    }

    pub open spec fn keeps_grad(&self) -> bool {
        mat_grad(*self)
    }
}

impl Row {
    pub open spec fn setting(&self) -> Setting {
        row_setting(*self)
    }
}

/// The side lengths of a matrix: `Tensor::dims`. The matrix has as many entries as they say.
#[verifier::external_body]
pub(crate) fn dims(m: &Mat) -> (r: (usize, usize))
    ensures
        mat_grid(*m).sized(r.0 as int, r.1 as int),
{
    let [rows, cols] = m.tensor.dims();
    (rows, cols)
}

/// The same matrix again: `Tensor::clone` shares the entries, which no operation writes to.
#[verifier::external_body]
pub(crate) fn copied(m: &Mat) -> (r: Mat)
    ensures
        r == *m,
{
    Mat { tensor: m.tensor.clone() }
}

/// The words of the entries, row-major: `Tensor::into_data`. A number of single width and its word
/// have the same bits. A device that cannot be read from makes the call panic; no argument shows
/// whether it can.
#[verifier::external_body]
pub(crate) fn words_of(m: &Mat) -> (words: Vec<u32>)
    requires
        m.setting().single(),
    ensures
        mat_grid(*m).cells == raised(words@),
        words.len() == mat_grid(*m).rows * mat_grid(*m).cols,
{
    let (bytes, shape, _) = m.tensor.clone().into_data().into_parts();
    TensorData::from_bytes(bytes, shape, DType::U32).try_into_vec::<u32>().unwrap()
}

/// The matrix with the given words, row-major, on the device of `like`: `Tensor::from_data`. The
/// device of a matrix whose gradient is kept tracks gradients, and the new matrix is not the result
/// of an operation, so that its gradient can be asked for too.
#[verifier::external_body]
pub(crate) fn from_words(words: Vec<u32>, rows: usize, cols: usize, like: &Mat) -> (r: Mat)
    requires
        words.len() == rows * cols,
    ensures
        mat_grid(r).sized(rows as int, cols as int),
        mat_grid(r).cells == raised(words@),
        mat_setting(r).home == mat_setting(*like).home,
        mat_setting(r).single(),
        mat_grad(*like) ==> mat_tracks(r),
{
    let (bytes, shape, _) = TensorData::new(words, [rows, cols]).into_parts();
    let data = TensorData::from_bytes(bytes, shape, DType::F32);
    Mat { tensor: Tensor::from_data(data, (&like.tensor.device(), DType::F32)) }
}

/// Whether the gradient of a matrix is kept: `Tensor::is_require_grad`.
#[verifier::external_body]
pub(crate) fn keeps_grad(m: &Mat) -> (r: bool)
    ensures
        r == mat_grad(*m),
{
    m.tensor.is_require_grad()
}

/// The matrix with its gradient kept or not: `Tensor::set_require_grad`. The entries stay.
#[verifier::external_body]
pub(crate) fn with_grad(m: Mat, keep: bool) -> (r: Mat)
    requires
        keep ==> mat_tracks(m),
        m.setting().plain(),
    ensures
        mat_grid(r) == mat_grid(m),
        mat_setting(r) == mat_setting(m),
        mat_grad(r) == keep,
{
    Mat { tensor: m.tensor.set_require_grad(keep) }
}

/// The vector with the given words on the device of `like`: `Tensor::from_data`.
#[verifier::external_body]
pub(crate) fn row_from_words(words: Vec<u32>, like: &Mat) -> (r: Row)
    ensures
        row_cells(r) == raised(words@),
        row_setting(r).home == mat_setting(*like).home,
        row_setting(r).single(),
{
    let len = words.len();
    let (bytes, shape, _) = TensorData::new(words, [len]).into_parts();
    let data = TensorData::from_bytes(bytes, shape, DType::F32);
    Row { tensor: Tensor::from_data(data, (&like.tensor.device(), DType::F32)) }
}

/// The word of a whole number from -1 to 1 in a format; a packed number has none.
pub open spec fn word_in(format: Format, n: int) -> u64 {
    if n == 1 {
        match format {
            Format::Double => 0x3ff0_0000_0000_0000,
            Format::Single | Format::Flexible => ONE_WORD as u64,
            Format::Half => 0x3c00,
            Format::Brain => 0x3f80,
            Format::Packed => 0,
        }
    } else if n == -1 {
        match format {
            Format::Double => 0xbff0_0000_0000_0000,
            Format::Single | Format::Flexible => 0xbf80_0000,
            Format::Half => 0xbc00,
            Format::Brain => 0xbf80,
            Format::Packed => 0,
        }
    } else {
        0
    }
}

/// 1 on the diagonal, 0 elsewhere.
pub open spec fn unit_entry(i: int, j: int) -> int {
    if i == j {
        1
    } else {
        0
    }
}

/// Entry `(i, j)` of `m` with `values` laid over it, its corner at `(r0, c0)`.
pub open spec fn patched<N>(m: Grid<N>, r0: int, c0: int, values: Grid<N>, i: int, j: int) -> N {
    if r0 <= i < r0 + values.rows && c0 <= j < c0 + values.cols {
        values.at(i - r0, j - c0)
    } else {
        m.at(i, j)
    }
}

/// Entry `(i, j)` of `m`, or `x` where the mask is true.
pub open spec fn masked<N>(mask: Grid<bool>, x: N, m: Grid<N>, i: int, j: int) -> N {
    if mask.spread(i, j) {
        x
    } else {
        m.at(i, j)
    }
}

/// A vector of `len` ones on the device of `like`: `Tensor::ones`.
#[verifier::external_body]
pub(crate) fn row_of_ones(len: usize, like: &Mat) -> (r: Row)
    ensures
        row_cells(r) == Seq::new(len as nat, |i: int| word_in(Format::Single, 1)),
        row_setting(r).home == mat_setting(*like).home,
        row_setting(r).single(),
{
    Row { tensor: Tensor::ones([len], (&like.tensor.device(), DType::F32)) }
}

/// A vector as a matrix of one row: `Tensor::unsqueeze_dims` at the front.
#[verifier::external_body]
pub(crate) fn row_as_mat(v: &Row) -> (r: Mat)
    requires
        v@.len() > 0,
    ensures
        mat_grid(r).sized(1, row_cells(*v).len() as int),
        mat_grid(r).cells == row_cells(*v),
        mat_setting(r) == row_setting(*v),
{
    Mat { tensor: v.tensor.clone().unsqueeze_dims(&[0]) }
}

/// The matrix in the format of `like`, which is on the same device: `Tensor::cast`. The whole
/// numbers from -1 to 1 are in every format, so that they stay what they are; of other numbers
/// nothing is said.
#[verifier::external_body]
pub(crate) fn cast_like(m: &Mat, like: &Mat) -> (r: Mat)
    requires
        m.setting().plain(),
        like.setting().plain(),
        m.setting().home == like.setting().home,
    ensures
        mat_grid(r).sized(mat_grid(*m).rows, mat_grid(*m).cols),
        mat_setting(r).home == mat_setting(*m).home,
        mat_setting(r).format == mat_setting(*like).format,
        forall|i: int, j: int, n: int|
            0 <= i < mat_grid(*m).rows && 0 <= j < mat_grid(*m).cols && -1 <= n <= 1
                && mat_grid(*m).at(i, j) == #[trigger] word_in(mat_setting(*m).format, n)
                ==> #[trigger] mat_grid(r).at(i, j) == word_in(mat_setting(*like).format, n),
{
    Mat { tensor: m.tensor.clone().cast(like.tensor.dtype()) }
}

/// A matrix of zeros of the shape of `m`: `Tensor::zeros_like`.
#[verifier::external_body]
pub(crate) fn zeros_like(m: &Mat) -> (r: Mat)
    requires
        m@.inhabited(),
        m.setting().plain(),
    ensures
        r@.sized(m@.rows, m@.cols),
        r.setting() == m.setting(),
        forall|i: int, j: int|
            0 <= i < m@.rows && 0 <= j < m@.cols ==> #[trigger] r@.at(i, j) == word_in(
                m.setting().format,
                0,
            ),
{
    Mat { tensor: m.tensor.zeros_like() }
}

/// `Tensor::transpose`: rows become columns.
#[verifier::external_body]
pub(crate) fn transposed(m: &Mat) -> (r: Mat)
    requires
        m@.inhabited(),
        m.setting().plain(),
    ensures
        r@.sized(m@.cols, m@.rows),
        r.setting() == m.setting(),
        forall|i: int, j: int|
            0 <= i < m@.cols && 0 <= j < m@.rows ==> #[trigger] r@.at(i, j) == m@.at(j, i),
{
    Mat { tensor: m.tensor.clone().transpose() }
}

/// `Tensor::slice`: rows `r0..r1` of the columns `c0..c1`.
#[verifier::external_body]
pub(crate) fn slice(m: &Mat, r0: usize, r1: usize, c0: usize, c1: usize) -> (r: Mat)
    requires
        r0 < r1 <= m@.rows,
        c0 < c1 <= m@.cols,
        m.setting().plain(),
    ensures
        r@.sized(r1 - r0, c1 - c0),
        r.setting() == m.setting(),
        forall|i: int, j: int|
            0 <= i < r1 - r0 && 0 <= j < c1 - c0 ==> #[trigger] r@.at(i, j) == m@.at(
                r0 + i,
                c0 + j,
            ),
{
    Mat { tensor: m.tensor.clone().slice([r0..r1, c0..c1]) }
}

/// `Tensor::slice_assign`: `m` with rows `r0..r1` of the columns `c0..c1` taken from `values`.
#[verifier::external_body]
pub(crate) fn slice_assign(
    m: &Mat,
    r0: usize,
    r1: usize,
    c0: usize,
    c1: usize,
    values: &Mat,
) -> (r: Mat)
    requires
        r0 < r1 <= m@.rows,
        c0 < c1 <= m@.cols,
        values@.rows == r1 - r0,
        values@.cols == c1 - c0,
        m.setting() == values.setting(),
        m.setting().plain(),
    ensures
        r@.sized(m@.rows, m@.cols),
        r.setting() == m.setting(),
        forall|i: int, j: int|
            0 <= i < m@.rows && 0 <= j < m@.cols ==> #[trigger] r@.at(i, j) == patched(
                m@,
                r0 as int,
                c0 as int,
                values@,
                i,
                j,
            ),
{
    Mat { tensor: m.tensor.clone().slice_assign([r0..r1, c0..c1], values.tensor.clone()) }
}

/// `Tensor::mask_fill`: the number `n` wherever the mask is true, the mask repeated along its
/// sides of length 1.
#[verifier::external_body]
pub(crate) fn mask_fill(m: &Mat, mask: &Mask, n: i64) -> (r: Mat)
    requires
        -1 <= n <= 1,
        m@.inhabited(),
        mask@.rows == m@.rows || mask@.rows == 1,
        mask@.cols == m@.cols || mask@.cols == 1,
        mask_home(*mask) == m.setting().home,
        m.setting().plain(),
    ensures
        r@.sized(m@.rows, m@.cols),
        r.setting() == m.setting(),
        forall|i: int, j: int|
            0 <= i < m@.rows && 0 <= j < m@.cols ==> #[trigger] r@.at(i, j) == masked(
                mask@,
                word_in(m.setting().format, n as int),
                m@,
                i,
                j,
            ),
{
    Mat { tensor: m.tensor.clone().mask_fill(mask.tensor.clone(), n) }
}

/// Some value that `Tensor::matmul` gives for a row and a column. It depends on the device, which
/// orders and rounds the sum as it likes.
pub uninterp spec fn matmul_outcome(row: Seq<u64>, column: Seq<u64>, r: u64) -> bool;

/// `Tensor::matmul`: every entry is computed from a row of `a` and a column of `b`.
#[verifier::external_body]
pub(crate) fn matmul(a: &Mat, b: &Mat) -> (r: Mat)
    requires
        a@.cols == b@.rows,
        a@.inhabited(),
        b@.inhabited(),
        a.setting() == b.setting(),
        a.setting().plain(),
    ensures
        r@.sized(a@.rows, b@.cols),
        r.setting() == a.setting(),
        forall|i: int, j: int|
            0 <= i < a@.rows && 0 <= j < b@.cols ==> matmul_outcome(
                a@.row(i),
                b@.column(j),
                #[trigger] r@.at(i, j),
            ),
{
    Mat { tensor: a.tensor.clone().matmul(b.tensor.clone()) }
}

/// Some value that `Tensor::sum_dim` gives for a column; it depends on the device.
pub uninterp spec fn sum_outcome(column: Seq<u64>, r: u64) -> bool;

/// `Tensor::sum_dim` over the rows: every entry is computed from a column of `a`.
#[verifier::external_body]
pub(crate) fn column_sums(a: &Mat) -> (r: Mat)
    requires
        a@.inhabited(),
        a.setting().plain(),
    ensures
        r@.sized(1, a@.cols),
        r.setting() == a.setting(),
        forall|j: int|
            0 <= j < a@.cols ==> sum_outcome(a@.column(j), #[trigger] r@.at(0, j)),
{
    Mat { tensor: a.tensor.clone().sum_dim(0) }
}

/// Some truth value that `Tensor::is_close` gives, with its default tolerances; it depends on the
/// device.
pub uninterp spec fn close_outcome(x: u64, y: u64, r: bool) -> bool;

/// `Tensor::is_close` with the default tolerances, entry by entry.
#[verifier::external_body]
pub(crate) fn is_close(a: &Mat, b: &Mat) -> (r: Mask)
    requires
        a@.rows == b@.rows,
        a@.cols == b@.cols,
        a@.inhabited(),
        a.setting() == b.setting(),
        a.setting().plain(),
    ensures
        mask_grid(r).sized(a@.rows, a@.cols),
        mask_home(r) == a.setting().home,
        forall|i: int, j: int|
            0 <= i < a@.rows && 0 <= j < a@.cols ==> close_outcome(
                a@.at(i, j),
                b@.at(i, j),
                #[trigger] mask_grid(r).at(i, j),
            ),
{
    Mask { tensor: a.tensor.clone().is_close(b.tensor.clone(), None, None) }
}

/// Some value that `Tensor::sub` gives; it depends on the device.
pub uninterp spec fn sub_outcome(x: u64, y: u64, r: u64) -> bool;

/// `Tensor::sub`: entry by entry, with sides of length 1 repeated.
#[verifier::external_body]
pub(crate) fn minus(a: &Mat, b: &Mat) -> (r: Mat)
    requires
        overlays(a@.rows, b@.rows),
        overlays(a@.cols, b@.cols),
        a@.inhabited(),
        b@.inhabited(),
        a.setting() == b.setting(),
        a.setting().plain(),
    ensures
        r@.sized(overlaid(a@.rows, b@.rows), overlaid(a@.cols, b@.cols)),
        r.setting() == a.setting(),
        forall|i: int, j: int|
            0 <= i < r@.rows && 0 <= j < r@.cols ==> sub_outcome(
                a@.spread(i, j),
                b@.spread(i, j),
                #[trigger] r@.at(i, j),
            ),
{
    Mat { tensor: a.tensor.clone().sub(b.tensor.clone()) }
}

/// Some value that `Tensor::mul` gives; it depends on the device.
pub uninterp spec fn mul_outcome(x: u64, y: u64, r: u64) -> bool;

/// `Tensor::mul`: entry by entry, with sides of length 1 repeated.
#[verifier::external_body]
pub(crate) fn times(a: &Mat, b: &Mat) -> (r: Mat)
    requires
        overlays(a@.rows, b@.rows),
        overlays(a@.cols, b@.cols),
        a@.inhabited(),
        b@.inhabited(),
        a.setting() == b.setting(),
        a.setting().plain(),
    ensures
        r@.sized(overlaid(a@.rows, b@.rows), overlaid(a@.cols, b@.cols)),
        r.setting() == a.setting(),
        forall|i: int, j: int|
            0 <= i < r@.rows && 0 <= j < r@.cols ==> mul_outcome(
                a@.spread(i, j),
                b@.spread(i, j),
                #[trigger] r@.at(i, j),
            ),
{
    Mat { tensor: a.tensor.clone().mul(b.tensor.clone()) }
}

/// Some value that `Tensor::div` gives; it depends on the device.
pub uninterp spec fn div_outcome(x: u64, y: u64, r: u64) -> bool;

/// `Tensor::div`: entry by entry, with sides of length 1 repeated.
#[verifier::external_body]
pub(crate) fn over(a: &Mat, b: &Mat) -> (r: Mat)
    requires
        overlays(a@.rows, b@.rows),
        overlays(a@.cols, b@.cols),
        a@.inhabited(),
        b@.inhabited(),
        a.setting() == b.setting(),
        a.setting().plain(),
    ensures
        r@.sized(overlaid(a@.rows, b@.rows), overlaid(a@.cols, b@.cols)),
        r.setting() == a.setting(),
        forall|i: int, j: int|
            0 <= i < r@.rows && 0 <= j < r@.cols ==> div_outcome(
                a@.spread(i, j),
                b@.spread(i, j),
                #[trigger] r@.at(i, j),
            ),
{
    Mat { tensor: a.tensor.clone().div(b.tensor.clone()) }
}

/// Some value that `Tensor::neg` gives; it depends on the device.
pub uninterp spec fn neg_outcome(x: u64, r: u64) -> bool;

/// `Tensor::neg`: entry by entry.
#[verifier::external_body]
pub(crate) fn opposite(a: &Mat) -> (r: Mat)
    requires
        a@.inhabited(),
        a.setting().plain(),
    ensures
        r@.sized(a@.rows, a@.cols),
        r.setting() == a.setting(),
        forall|i: int, j: int|
            0 <= i < a@.rows && 0 <= j < a@.cols ==> neg_outcome(
                a@.at(i, j),
                #[trigger] r@.at(i, j),
            ),
{
    Mat { tensor: a.tensor.clone().neg() }
}

/// Some value that `Tensor::sign` gives; it depends on the device.
pub uninterp spec fn sign_outcome(x: u64, r: u64) -> bool;

/// `Tensor::sign`: entry by entry.
#[verifier::external_body]
pub(crate) fn signs(a: &Mat) -> (r: Mat)
    requires
        a@.inhabited(),
        a.setting().plain(),
    ensures
        r@.sized(a@.rows, a@.cols),
        r.setting() == a.setting(),
        forall|i: int, j: int|
            0 <= i < a@.rows && 0 <= j < a@.cols ==> sign_outcome(
                a@.at(i, j),
                #[trigger] r@.at(i, j),
            ),
{
    Mat { tensor: a.tensor.clone().sign() }
}

/// Some value that `Tensor::sqrt` gives; it depends on the device.
pub uninterp spec fn sqrt_outcome(x: u64, r: u64) -> bool;

/// `Tensor::sqrt`: entry by entry.
#[verifier::external_body]
pub(crate) fn roots(a: &Mat) -> (r: Mat)
    requires
        a@.inhabited(),
        a.setting().plain(),
    ensures
        r@.sized(a@.rows, a@.cols),
        r.setting() == a.setting(),
        forall|i: int, j: int|
            0 <= i < a@.rows && 0 <= j < a@.cols ==> sqrt_outcome(
                a@.at(i, j),
                #[trigger] r@.at(i, j),
            ),
{
    Mat { tensor: a.tensor.clone().sqrt() }
}

/// Some value that `Tensor::powf_scalar` gives; it depends on the device.
pub uninterp spec fn power_outcome(x: u64, n: i64, r: u64) -> bool;

/// `Tensor::powf_scalar`: every entry to the power `n`. It is asked for squares only; with a power
/// next to the largest whole number burn panics.
#[verifier::external_body]
pub(crate) fn powers(a: &Mat, n: i64) -> (r: Mat)
    requires
        n == 2,
        a@.inhabited(),
        a.setting().plain(),
    ensures
        r@.sized(a@.rows, a@.cols),
        r.setting() == a.setting(),
        forall|i: int, j: int|
            0 <= i < a@.rows && 0 <= j < a@.cols ==> power_outcome(
                a@.at(i, j),
                n,
                #[trigger] r@.at(i, j),
            ),
{
    Mat { tensor: a.tensor.clone().powf_scalar(n) }
}

/// Some value that `Tensor::mul_scalar` gives; it depends on the device.
pub uninterp spec fn mul_scalar_outcome(x: u64, n: i64, r: u64) -> bool;

/// `Tensor::mul_scalar`: every entry times `n`.
#[verifier::external_body]
pub(crate) fn scaled(a: &Mat, n: i64) -> (r: Mat)
    requires
        a@.inhabited(),
        a.setting().plain(),
    ensures
        r@.sized(a@.rows, a@.cols),
        r.setting() == a.setting(),
        forall|i: int, j: int|
            0 <= i < a@.rows && 0 <= j < a@.cols ==> mul_scalar_outcome(
                a@.at(i, j),
                n,
                #[trigger] r@.at(i, j),
            ),
{
    Mat { tensor: a.tensor.clone().mul_scalar(n) }
}

/// Some value that `Tensor::add_scalar` gives; it depends on the device.
pub uninterp spec fn add_scalar_outcome(x: u64, n: i64, r: u64) -> bool;

/// `Tensor::add_scalar`: every entry plus `n`.
#[verifier::external_body]
pub(crate) fn shifted(a: &Mat, n: i64) -> (r: Mat)
    requires
        a@.inhabited(),
        a.setting().plain(),
    ensures
        r@.sized(a@.rows, a@.cols),
        r.setting() == a.setting(),
        forall|i: int, j: int|
            0 <= i < a@.rows && 0 <= j < a@.cols ==> add_scalar_outcome(
                a@.at(i, j),
                n,
                #[trigger] r@.at(i, j),
            ),
{
    Mat { tensor: a.tensor.clone().add_scalar(n) }
}

} // verus!
