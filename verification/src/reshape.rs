//! Patch extraction and its inverse: from a plane to the matrix of its
//! sliding windows, and from a matrix of patches back to a plane.

use crate::collection::{Image, ImageView, PatchMatrix};
use crate::error::{SizeMismatchError, TensorError};
use crate::scalar::{fold_terms, Scalar};
use crate::window::{lemma_join_index, lemma_split_index, window_of, Window};
use vstd::prelude::*;

verus! {

/// The patch matrix of a plane: one row per window position, one column per
/// window cell, both row-major. A cell under the plane holds the plane's
/// value; a cell in the padding holds `fill`.
pub open spec fn patches<T>(plane: Seq<T>, fill: T, win: Window) -> Seq<T> {
    Seq::new(
        (win.rows() * win.cols()) as nat,
        |j: int|
            match win.source(j / win.cols(), j % win.cols()) {
                Some(i) => plane[i],
                None => fill,
            },
    )
}

/// What a patch matrix holds, said by window and by cell: for the window at
/// row `oy`, column `ox` of the output, the cell at row `ky`, column `kx` of
/// the window lies over row `oy * s + ky - pad`, column `ox * s + kx - pad`
/// of the plane. It holds the plane's value there, and `fill` where that is
/// outside the plane.
pub proof fn lemma_patch_cell<T>(
    plane: Seq<T>,
    fill: T,
    win: Window,
    oy: int,
    ox: int,
    ky: int,
    kx: int,
)
    requires
        win.valid(),
        0 <= oy < win.out_h(),
        0 <= ox < win.out_w(),
        0 <= ky < win.fh,
        0 <= kx < win.fw,
    ensures
        0 <= ((oy * win.out_w() + ox) * win.fh + ky) * win.fw + kx < patches(
            plane,
            fill,
            win,
        ).len(),
        patches(plane, fill, win)[((oy * win.out_w() + ox) * win.fh + ky) * win.fw + kx] == if win.pad
            <= oy * win.s + ky < win.h + win.pad && win.pad <= ox * win.s + kx < win.w + win.pad {
            plane[(oy * win.s + ky - win.pad) * win.w + (ox * win.s + kx - win.pad)]
        } else {
            fill
        },
{
    let row = oy * win.out_w() + ox;
    let col = ky * win.fw + kx;
    lemma_join_index(oy, ox, win.out_w());
    lemma_join_index(ky, kx, win.fw as int);
    crate::window::lemma_flat_index(oy, ox, win.out_h(), win.out_w());
    crate::window::lemma_flat_index(ky, kx, win.fh as int, win.fw as int);
    crate::window::lemma_flat_index(row, col, win.rows(), win.cols());
    lemma_join_index(row, col, win.cols());
    assert((row * win.fh + ky) * win.fw + kx == row * (win.fh * win.fw) + (ky * win.fw + kx))
        by (nonlinear_arith);
}

/// What the patch cells, taken in row-major order, give to cell `p` of the
/// plane: the cells that lie over `p`, and nothing from the others.
pub open spec fn scatter_terms<T>(cells: Seq<T>, win: Window, p: int) -> spec_fn(int) -> Option<T> {
    |j: int|
        if win.source(j / win.cols(), j % win.cols()) == Some(p) {
            Some(cells[j])
        } else {
            None
        }
}

/// The plane that a patch matrix folds back into: each cell is the sum of the
/// patch cells that lie over it, added in row-major order of the matrix.
pub open spec fn reduced<T: Scalar>(cells: Seq<T>, win: Window) -> Seq<T> {
    Seq::new(
        win.plane() as nat,
        |p: int| fold_terms((win.rows() * win.cols()) as nat, scatter_terms(cells, win, p)),
    )
}

/// Builds the patch matrix of `plane`.
pub fn expand_plane<T: Copy>(plane: &[T], fill: T, win: &Window) -> (r: Vec<T>)
    requires
        win.valid(),
        plane@.len() == win.plane(),
        win.rows() * win.cols() <= usize::MAX,
    ensures
        r@ == patches(plane@, fill, *win),
{
    let mut out: Vec<T> = Vec::new();
    let cols = win.cell_count();
    if cols == 0 {
        assert(win.rows() * win.cols() == 0) by (nonlinear_arith)
            requires
                win.cols() == 0,
        ;
        return out;
    }
    proof {
        win.lemma_extents();
        assert(win.rows() <= win.rows() * win.cols()) by (nonlinear_arith)
            requires
                win.rows() >= 1,
                win.cols() >= 1,
        ;
    }
    let rows = win.position_count();
    proof {
        crate::collection::lemma_slice_len_fits(plane);
    }
    let mut row: usize = 0;
    while row < rows
        invariant
            win.valid(),
            plane@.len() == win.plane(),
            win.plane() <= usize::MAX,
            win.rows() * win.cols() <= usize::MAX,
            rows == win.rows(),
            cols == win.cols(),
            cols > 0,
            row <= rows,
            out@.len() == row * cols,
            forall|j: int| 0 <= j < out@.len() ==> out@[j] == patches(plane@, fill, *win)[j],
        decreases rows - row,
    {
        let mut col: usize = 0;
        while col < cols
            invariant
                win.valid(),
                plane@.len() == win.plane(),
                win.plane() <= usize::MAX,
                win.rows() * win.cols() <= usize::MAX,
                rows == win.rows(),
                cols == win.cols(),
                cols > 0,
                row < rows,
                col <= cols,
                out@.len() == row * cols + col,
                forall|j: int| 0 <= j < out@.len() ==> out@[j] == patches(plane@, fill, *win)[j],
            decreases cols - col,
        {
            proof {
                lemma_join_index(row as int, col as int, cols as int);
                crate::window::lemma_flat_index(row as int, col as int, rows as int, cols as int);
            }
            let v = match win.source_of(row, col) {
                Some(i) => plane[i],
                None => fill,
            };
            out.push(v);
            col += 1;
        }
        row += 1;
        assert((row - 1) * cols + cols == row * cols) by (nonlinear_arith);
    }
    out
}

/// Folds a patch matrix back into a plane.
pub fn reduce_plane<T: Scalar>(cells: &[T], win: &Window) -> (r: Vec<T>)
    requires
        win.valid(),
        win.plane() <= usize::MAX,
        cells@.len() == win.rows() * win.cols(),
    ensures
        r@ == reduced(cells@, *win),
{
    let n = win.h * win.w;
    let mut plane: Vec<T> = Vec::new();
    let mut p: usize = 0;
    while p < n
        invariant
            p <= n,
            plane@.len() == p,
            forall|q: int| 0 <= q < p ==> plane@[q] == T::zero_spec(),
        decreases n - p,
    {
        plane.push(T::zero());
        p += 1;
    }
    let total = cells.len();
    if total == 0 {
        return plane;
    }
    let cols = win.cell_count();
    assert(cols > 0) by (nonlinear_arith)
        requires
            total == win.rows() * cols,
            total > 0,
    ;
    let mut j: usize = 0;
    while j < total
        invariant
            win.valid(),
            win.plane() <= usize::MAX,
            total == win.rows() * win.cols(),
            total == cells@.len(),
            cols == win.cols(),
            cols > 0,
            j <= total,
            plane@.len() == win.plane(),
            forall|q: int|
                0 <= q < plane@.len() ==> plane@[q] == fold_terms(
                    j as nat,
                    scatter_terms(cells@, *win, q),
                ),
        decreases total - j,
    {
        proof {
            lemma_split_index(j as int, cols as int, win.rows());
        }
        let row = j / cols;
        let col = j % cols;
        match win.source_of(row, col) {
            Some(i) => {
                let v = plane[i].add(cells[j]);
                plane.set(i, v);
            },
            None => {},
        }
        j += 1;
    }
    plane
}

/// The patch matrix of `image` for windows of `FH` rows and `FW` columns,
/// padding `PAD` and stride `S`. A cell in the padding holds a value that
/// `T::default()` gives.
pub fn im2col<
    T: Default + Copy,
    const H: usize,
    const W: usize,
    const FH: usize,
    const FW: usize,
    const PAD: usize,
    const S: usize,
>(image: &ImageView<'_, T, H, W>) -> (r: Result<PatchMatrix<T>, TensorError>)
    requires
        image.wf(),
        window_of(H, W, FH, FW, PAD, S).valid() ==> window_of(H, W, FH, FW, PAD, S).fits(),
    ensures
        !window_of(H, W, FH, FW, PAD, S).valid() ==> r == Err::<PatchMatrix<T>, _>(
            TensorError::UnimplementedConfiguration,
        ),
        window_of(H, W, FH, FW, PAD, S).valid() ==> ({
            let win = window_of(H, W, FH, FW, PAD, S);
            &&& r matches Ok(m)
            &&& m.wf()
            &&& m.rows_spec() == win.rows()
            &&& m.cols_spec() == win.cols()
            &&& forall|j: int|
                0 <= j < m@.len() ==> match win.source(j / win.cols(), j % win.cols()) {
                    Some(i) => #[trigger] m@[j] == image@[i],
                    None => call_ensures(T::default, (), m@[j]),
                }
        }),
{
    match Window::new(H, W, FH, FW, PAD, S) {
        None => Err(TensorError::UnimplementedConfiguration),
        Some(win) => {
            let fill = T::default();
            let cells = expand_plane(image.as_raw_slice(), fill, &win);
            let rows = win.position_count();
            let cols = win.cell_count();
            match PatchMatrix::from_raw(rows, cols, cells) {
                Ok(m) => Ok(m),
                Err(e) => Err(TensorError::SizeMismatch(e)),
            }
        },
    }
}

/// The patch matrix of `image`, with zero in the padding.
pub fn expand_image<
    T: Scalar,
    const H: usize,
    const W: usize,
    const FH: usize,
    const FW: usize,
    const PAD: usize,
    const S: usize,
>(image: &ImageView<'_, T, H, W>) -> (r: Result<PatchMatrix<T>, TensorError>)
    requires
        image.wf(),
        window_of(H, W, FH, FW, PAD, S).valid() ==> window_of(H, W, FH, FW, PAD, S).fits(),
    ensures
        !window_of(H, W, FH, FW, PAD, S).valid() ==> r == Err::<PatchMatrix<T>, _>(
            TensorError::UnimplementedConfiguration,
        ),
        window_of(H, W, FH, FW, PAD, S).valid() ==> ({
            let win = window_of(H, W, FH, FW, PAD, S);
            &&& r matches Ok(m)
            &&& m.wf()
            &&& m.rows_spec() == win.rows()
            &&& m.cols_spec() == win.cols()
            &&& m@ == patches(image@, T::zero_spec(), win)
        }),
{
    match Window::new(H, W, FH, FW, PAD, S) {
        None => Err(TensorError::UnimplementedConfiguration),
        Some(win) => {
            let cells = expand_plane(image.as_raw_slice(), T::zero(), &win);
            let rows = win.position_count();
            let cols = win.cell_count();
            match PatchMatrix::from_raw(rows, cols, cells) {
                Ok(m) => Ok(m),
                Err(e) => Err(TensorError::SizeMismatch(e)),
            }
        },
    }
}

/// What `reduce_images` answers to a patch matrix of `rows` rows and `cols`
/// columns: the error, or `None` where it gives the plane.
pub open spec fn reduce_refusal(win: Window, rows: usize, cols: usize) -> Option<TensorError> {
    if !win.valid() {
        Some(TensorError::UnimplementedConfiguration)
    } else if rows != win.rows() {
        Some(TensorError::SizeMismatch(SizeMismatchError(rows, win.rows() as usize)))
    } else if cols != win.cols() {
        Some(TensorError::SizeMismatch(SizeMismatchError(cols, win.cols() as usize)))
    } else {
        None
    }
}

/// The plane that `patches` folds back into: every cell is the sum of the
/// patch cells that lie over it, so that cells under several windows gather
/// from each of them.
pub fn reduce_images<
    T: Scalar,
    const H: usize,
    const W: usize,
    const FH: usize,
    const FW: usize,
    const PAD: usize,
    const S: usize,
>(patches: &PatchMatrix<T>) -> (r: Result<Image<T, H, W>, TensorError>)
    requires
        patches.wf(),
        window_of(H, W, FH, FW, PAD, S).valid() ==> window_of(H, W, FH, FW, PAD, S).fits(),
    ensures
        match reduce_refusal(
            window_of(H, W, FH, FW, PAD, S),
            patches.rows_spec(),
            patches.cols_spec(),
        ) {
            Some(e) => r == Err::<Image<T, H, W>, _>(e),
            None => {
                &&& r matches Ok(image)
                &&& image.wf()
                &&& image@ == reduced(patches@, window_of(H, W, FH, FW, PAD, S))
            },
        },
{
    match Window::new(H, W, FH, FW, PAD, S) {
        None => Err(TensorError::UnimplementedConfiguration),
        Some(win) => {
            let rows = win.position_count();
            let cols = win.cell_count();
            if patches.rows() != rows {
                Err(TensorError::SizeMismatch(SizeMismatchError(patches.rows(), rows)))
            } else if patches.cols() != cols {
                Err(TensorError::SizeMismatch(SizeMismatchError(patches.cols(), cols)))
            } else {
                let plane = reduce_plane(patches.as_raw_slice(), &win);
                match Image::from_raw(plane) {
                    Ok(image) => Ok(image),
                    Err(e) => Err(TensorError::SizeMismatch(e)),
                }
            }
        },
    }
}

} // verus!
