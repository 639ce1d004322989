//! 2D convolution: the output of a layer and its two gradients, for one
//! sample and for a batch.

use crate::collection::{block, block_of, Images, ImagesView, Kernel, VecImages};
use crate::device::{par_map, DeviceCpu};
use crate::error::{SizeMismatchError, TensorError};
use crate::reshape::{expand_plane, patches, reduce_plane, reduced};
use crate::scalar::{
    fold_terms, lemma_fold_terms_added, lemma_fold_terms_scaled, Scalar, Semiring,
};
use crate::window::{
    lemma_flat_index, lemma_join_index, lemma_row_bounds, lemma_split_index, window_of, Window,
};
use vstd::prelude::*;

verus! {

/// The products of two lists, cell by cell.
pub open spec fn product_terms<T: Scalar>(a: Seq<T>, b: Seq<T>) -> spec_fn(int) -> Option<T> {
    |i: int| Some(a[i].mul_spec(b[i]))
}

/// The dot product of `a` with `b`, over the length of `a`.
pub open spec fn dot<T: Scalar>(a: Seq<T>, b: Seq<T>) -> T {
    fold_terms(a.len(), product_terms(a, b))
}

/// What each input channel gives to the output of channel `k` at window
/// position `row`: the dot product of that window's patch with the filter
/// that leads from the channel to `k`.
pub open spec fn channel_terms<T: Scalar>(
    input: Seq<T>,
    kernel: Seq<T>,
    win: Window,
    cn: int,
    k: int,
    row: int,
) -> spec_fn(int) -> Option<T> {
    |c: int|
        Some(
            dot(
                block(patches(block(input, c, win.plane()), T::zero_spec(), win), row, win.cols()),
                block(kernel, k * cn + c, win.cols()),
            ),
        )
}

/// The output of a convolution: `kn` planes of one cell per window position,
/// each cell the sum over the `cn` input channels of the dot products of the
/// window's patches with the filters.
pub open spec fn forward<T: Scalar>(
    input: Seq<T>,
    kernel: Seq<T>,
    win: Window,
    cn: int,
    kn: int,
) -> Seq<T> {
    Seq::new(
        (kn * win.rows()) as nat,
        |o: int|
            fold_terms(
                cn as nat,
                channel_terms(input, kernel, win, cn, o / win.rows(), o % win.rows()),
            ),
    )
}

/// Every count that a convolution of `cn` input and `kn` output channels
/// computes with can be indexed on this machine.
pub open spec fn convolution_fits(win: Window, cn: int, kn: int) -> bool {
    &&& win.fits()
    &&& cn * win.plane() <= usize::MAX
    &&& kn * win.rows() <= usize::MAX
    &&& kn * cn <= usize::MAX
    &&& kn * cn * win.cols() <= usize::MAX
}

/// Decides whether `win` is valid and a convolution over it of `cn` input and
/// `kn` output channels can be indexed on this machine.
pub fn convolution_fits_ok(win: &Window, cn: usize, kn: usize) -> (b: bool)
    ensures
        b == (win.valid() && convolution_fits(*win, cn as int, kn as int)),
{
    if !win.fits_ok() {
        return false;
    }
    let plane = win.h * win.w;
    let rows = win.position_count();
    let cols = win.cell_count();
    match kn.checked_mul(cn) {
        None => false,
        Some(filters) => cn.checked_mul(plane).is_some() && kn.checked_mul(rows).is_some()
            && filters.checked_mul(cols).is_some(),
    }
}

/// The dot product of `a` with `b`.
pub fn dot_product<T: Scalar>(a: &[T], b: &[T]) -> (r: T)
    requires
        a@.len() <= b@.len(),
    ensures
        r == dot(a@, b@),
{
    let mut acc = T::zero();
    let mut i: usize = 0;
    while i < a.len()
        invariant
            i <= a@.len() <= b@.len(),
            acc == fold_terms(i as nat, product_terms(a@, b@)),
        decreases a@.len() - i,
    {
        acc = acc.add(a[i].mul(b[i]));
        i += 1;
    }
    acc
}

/// The patch matrix of each of the `cn` planes of `input`.
pub fn expand_channels<T: Scalar>(input: &[T], win: &Window, cn: usize) -> (r: Vec<Vec<T>>)
    requires
        win.valid(),
        win.fits(),
        input@.len() == cn * win.plane(),
    ensures
        r@.len() == cn,
        forall|c: int|
            0 <= c < cn ==> (#[trigger] r@[c])@ == patches(
                block(input@, c, win.plane()),
                T::zero_spec(),
                *win,
            ),
{
    let size = win.h * win.w;
    let mut out: Vec<Vec<T>> = Vec::new();
    let mut c: usize = 0;
    while c < cn
        invariant
            win.valid(),
            win.fits(),
            input@.len() == cn * win.plane(),
            size == win.plane(),
            c <= cn,
            out@.len() == c,
            forall|d: int|
                0 <= d < c ==> (#[trigger] out@[d])@ == patches(
                    block(input@, d, win.plane()),
                    T::zero_spec(),
                    *win,
                ),
        decreases cn - c,
    {
        proof {
            lemma_row_bounds(c as int, cn as int, size as int);
        }
        let plane = block_of(input, c, size);
        out.push(expand_plane(plane, T::zero(), win));
        c += 1;
    }
    out
}

/// Computes the output of a convolution.
pub fn forward_cells<T: Scalar>(input: &[T], kernel: &[T], win: &Window, cn: usize, kn: usize) -> (r:
    Vec<T>)
    requires
        win.valid(),
        convolution_fits(*win, cn as int, kn as int),
        input@.len() == cn * win.plane(),
        kernel@.len() == kn * cn * win.cols(),
    ensures
        r@ == forward(input@, kernel@, *win, cn as int, kn as int),
{
    let ex = expand_channels(input, win, cn);
    let rows = win.position_count();
    let cols = win.cell_count();
    let mut out: Vec<T> = Vec::new();
    let mut k: usize = 0;
    while k < kn
        invariant
            win.valid(),
            convolution_fits(*win, cn as int, kn as int),
            kernel@.len() == kn * cn * win.cols(),
            rows == win.rows(),
            cols == win.cols(),
            ex@.len() == cn,
            forall|c: int|
                0 <= c < cn ==> (#[trigger] ex@[c])@ == patches(
                    block(input@, c, win.plane()),
                    T::zero_spec(),
                    *win,
                ),
            k <= kn,
            out@.len() == k * rows,
            forall|o: int|
                0 <= o < out@.len() ==> out@[o] == forward(
                    input@,
                    kernel@,
                    *win,
                    cn as int,
                    kn as int,
                )[o],
        decreases kn - k,
    {
        let mut row: usize = 0;
        while row < rows
            invariant
                win.valid(),
                convolution_fits(*win, cn as int, kn as int),
                kernel@.len() == kn * cn * win.cols(),
                rows == win.rows(),
                cols == win.cols(),
                ex@.len() == cn,
                forall|c: int|
                    0 <= c < cn ==> (#[trigger] ex@[c])@ == patches(
                        block(input@, c, win.plane()),
                        T::zero_spec(),
                        *win,
                    ),
                k < kn,
                row <= rows,
                out@.len() == k * rows + row,
                forall|o: int|
                    0 <= o < out@.len() ==> out@[o] == forward(
                        input@,
                        kernel@,
                        *win,
                        cn as int,
                        kn as int,
                    )[o],
            decreases rows - row,
        {
            let ghost terms = channel_terms(
                input@,
                kernel@,
                *win,
                cn as int,
                k as int,
                row as int,
            );
            let mut acc = T::zero();
            let mut c: usize = 0;
            while c < cn
                invariant
                    win.valid(),
                    convolution_fits(*win, cn as int, kn as int),
                    kernel@.len() == kn * cn * win.cols(),
                    rows == win.rows(),
                    cols == win.cols(),
                    ex@.len() == cn,
                    forall|c: int|
                        0 <= c < cn ==> (#[trigger] ex@[c])@ == patches(
                            block(input@, c, win.plane()),
                            T::zero_spec(),
                            *win,
                        ),
                    k < kn,
                    row < rows,
                    c <= cn,
                    terms == channel_terms(input@, kernel@, *win, cn as int, k as int, row as int),
                    acc == fold_terms(c as nat, terms),
                decreases cn - c,
            {
                proof {
                    lemma_row_bounds(row as int, rows as int, cols as int);
                    lemma_flat_index(k as int, c as int, kn as int, cn as int);
                    lemma_row_bounds(k * cn + c, kn * cn, cols as int);
                }
                let patch = block_of(ex[c].as_slice(), row, cols);
                let filter = block_of(kernel, k * cn + c, cols);
                acc = acc.add(dot_product(patch, filter));
                c += 1;
            }
            proof {
                lemma_join_index(k as int, row as int, rows as int);
                lemma_flat_index(k as int, row as int, kn as int, rows as int);
            }
            out.push(acc);
            row += 1;
        }
        k += 1;
        assert((k - 1) * rows + rows == k * rows) by (nonlinear_arith);
    }
    out
}

/// The gradient patches of one filter: the patch of window `row` is the
/// filter scaled by the loss at that window.
pub open spec fn scaled_filter<T: Scalar>(loss: Seq<T>, filter: Seq<T>) -> Seq<T> {
    Seq::new(
        loss.len() * filter.len(),
        |j: int| filter[j % (filter.len() as int)].mul_spec(loss[j / (filter.len() as int)]),
    )
}

/// What each output channel gives to cell `p` of the input gradient of
/// channel `c`: its gradient patches folded back into the plane.
pub open spec fn output_terms<T: Scalar>(
    loss: Seq<T>,
    kernel: Seq<T>,
    win: Window,
    cn: int,
    c: int,
    p: int,
) -> spec_fn(int) -> Option<T> {
    |k: int|
        Some(
            reduced(
                scaled_filter(block(loss, k, win.rows()), block(kernel, k * cn + c, win.cols())),
                win,
            )[p],
        )
}

/// The gradient of a convolution with respect to its input: `cn` planes, each
/// cell the sum over the `kn` output channels of what the windows over that
/// cell hand back.
pub open spec fn backward<T: Scalar>(
    loss: Seq<T>,
    kernel: Seq<T>,
    win: Window,
    cn: int,
    kn: int,
) -> Seq<T> {
    Seq::new(
        (cn * win.plane()) as nat,
        |q: int|
            fold_terms(
                kn as nat,
                output_terms(loss, kernel, win, cn, q / win.plane(), q % win.plane()),
            ),
    )
}

/// What each window position gives to weight `i` of a filter: the loss at
/// that window times the patch cell under the weight.
pub open spec fn position_terms<T: Scalar>(loss: Seq<T>, patch: Seq<T>, cols: int, i: int) -> spec_fn(
    int,
) -> Option<T> {
    |row: int| Some(loss[row].mul_spec(patch[row * cols + i]))
}

/// The gradient of a convolution with respect to its weights, laid out as the
/// kernel is: each weight gathers, over all window positions, the loss at the
/// window times the input cell under the weight.
pub open spec fn weight_gradient<T: Scalar>(
    loss: Seq<T>,
    input: Seq<T>,
    win: Window,
    cn: int,
    kn: int,
) -> Seq<T> {
    Seq::new(
        (kn * cn * win.cols()) as nat,
        |g: int|
            fold_terms(
                win.rows() as nat,
                position_terms(
                    block(loss, (g / win.cols()) / cn, win.rows()),
                    patches(block(input, (g / win.cols()) % cn, win.plane()), T::zero_spec(), win),
                    win.cols(),
                    g % win.cols(),
                ),
            ),
    )
}

/// Builds the gradient patches of one filter.
pub fn scale_filter<T: Scalar>(loss: &[T], filter: &[T]) -> (r: Vec<T>)
    requires
        loss@.len() * filter@.len() <= usize::MAX,
    ensures
        r@ == scaled_filter(loss@, filter@),
{
    let rows = loss.len();
    let cols = filter.len();
    let mut out: Vec<T> = Vec::new();
    let mut row: usize = 0;
    while row < rows
        invariant
            rows == loss@.len(),
            cols == filter@.len(),
            rows * cols <= usize::MAX,
            row <= rows,
            out@.len() == row * cols,
            forall|j: int| 0 <= j < out@.len() ==> out@[j] == scaled_filter(loss@, filter@)[j],
        decreases rows - row,
    {
        let mut col: usize = 0;
        while col < cols
            invariant
                rows == loss@.len(),
                cols == filter@.len(),
                rows * cols <= usize::MAX,
                row < rows,
                col <= cols,
                out@.len() == row * cols + col,
                forall|j: int| 0 <= j < out@.len() ==> out@[j] == scaled_filter(loss@, filter@)[j],
            decreases cols - col,
        {
            proof {
                lemma_join_index(row as int, col as int, cols as int);
                lemma_flat_index(row as int, col as int, rows as int, cols as int);
            }
            out.push(filter[col].mul(loss[row]));
            col += 1;
        }
        row += 1;
        assert((row - 1) * cols + cols == row * cols) by (nonlinear_arith);
    }
    out
}

/// Computes the gradient of a convolution with respect to its input.
pub fn backward_cells<T: Scalar>(loss: &[T], kernel: &[T], win: &Window, cn: usize, kn: usize) -> (r:
    Vec<T>)
    requires
        win.valid(),
        convolution_fits(*win, cn as int, kn as int),
        loss@.len() == kn * win.rows(),
        kernel@.len() == kn * cn * win.cols(),
    ensures
        r@ == backward(loss@, kernel@, *win, cn as int, kn as int),
{
    let rows = win.position_count();
    let cols = win.cell_count();
    let size = win.h * win.w;
    let mut out: Vec<T> = Vec::new();
    let mut c: usize = 0;
    while c < cn
        invariant
            win.valid(),
            convolution_fits(*win, cn as int, kn as int),
            loss@.len() == kn * win.rows(),
            kernel@.len() == kn * cn * win.cols(),
            rows == win.rows(),
            cols == win.cols(),
            size == win.plane(),
            c <= cn,
            out@.len() == c * size,
            forall|q: int|
                0 <= q < out@.len() ==> out@[q] == backward(
                    loss@,
                    kernel@,
                    *win,
                    cn as int,
                    kn as int,
                )[q],
        decreases cn - c,
    {
        let mut acc: Vec<T> = Vec::new();
        let mut p: usize = 0;
        while p < size
            invariant
                p <= size,
                acc@.len() == p,
                forall|q: int| 0 <= q < p ==> acc@[q] == T::zero_spec(),
            decreases size - p,
        {
            acc.push(T::zero());
            p += 1;
        }
        let mut k: usize = 0;
        while k < kn
            invariant
                win.valid(),
                convolution_fits(*win, cn as int, kn as int),
                loss@.len() == kn * win.rows(),
                kernel@.len() == kn * cn * win.cols(),
                rows == win.rows(),
                cols == win.cols(),
                size == win.plane(),
                c < cn,
                k <= kn,
                acc@.len() == size,
                forall|q: int|
                    0 <= q < size ==> acc@[q] == fold_terms(
                        k as nat,
                        output_terms(loss@, kernel@, *win, cn as int, c as int, q),
                    ),
            decreases kn - k,
        {
            proof {
                lemma_row_bounds(k as int, kn as int, rows as int);
                lemma_flat_index(k as int, c as int, kn as int, cn as int);
                lemma_row_bounds(k * cn + c, kn * cn, cols as int);
            }
            let l = block_of(loss, k, rows);
            let f = block_of(kernel, k * cn + c, cols);
            let g = scale_filter(l, f);
            let back = reduce_plane(g.as_slice(), win);
            let mut p: usize = 0;
            while p < size
                invariant
                    size == win.plane(),
                    p <= size,
                    acc@.len() == size,
                    back@.len() == size,
                    back@ == reduced(
                        scaled_filter(
                            block(loss@, k as int, win.rows()),
                            block(kernel@, k * cn + c, win.cols()),
                        ),
                        *win,
                    ),
                    forall|q: int|
                        0 <= q < p ==> acc@[q] == fold_terms(
                            (k + 1) as nat,
                            output_terms(loss@, kernel@, *win, cn as int, c as int, q),
                        ),
                    forall|q: int|
                        p <= q < size ==> acc@[q] == fold_terms(
                            k as nat,
                            output_terms(loss@, kernel@, *win, cn as int, c as int, q),
                        ),
                decreases size - p,
            {
                let v = acc[p].add(back[p]);
                acc.set(p, v);
                p += 1;
            }
            k += 1;
        }
        let mut p: usize = 0;
        while p < size
            invariant
                win.valid(),
                convolution_fits(*win, cn as int, kn as int),
                size == win.plane(),
                c < cn,
                p <= size,
                acc@.len() == size,
                forall|q: int|
                    0 <= q < size ==> acc@[q] == fold_terms(
                        kn as nat,
                        output_terms(loss@, kernel@, *win, cn as int, c as int, q),
                    ),
                out@.len() == c * size + p,
                forall|q: int|
                    0 <= q < out@.len() ==> out@[q] == backward(
                        loss@,
                        kernel@,
                        *win,
                        cn as int,
                        kn as int,
                    )[q],
            decreases size - p,
        {
            proof {
                lemma_join_index(c as int, p as int, size as int);
                lemma_flat_index(c as int, p as int, cn as int, size as int);
            }
            out.push(acc[p]);
            p += 1;
        }
        c += 1;
        assert((c - 1) * size + size == c * size) by (nonlinear_arith);
    }
    out
}

/// Computes the gradient of a convolution with respect to its weights.
pub fn weight_cells<T: Scalar>(loss: &[T], input: &[T], win: &Window, cn: usize, kn: usize) -> (r:
    Vec<T>)
    requires
        win.valid(),
        convolution_fits(*win, cn as int, kn as int),
        loss@.len() == kn * win.rows(),
        input@.len() == cn * win.plane(),
    ensures
        r@ == weight_gradient(loss@, input@, *win, cn as int, kn as int),
{
    let ex = expand_channels(input, win, cn);
    let rows = win.position_count();
    let cols = win.cell_count();
    let mut out: Vec<T> = Vec::new();
    let mut k: usize = 0;
    assert(0 * cn * cols == 0) by (nonlinear_arith);
    while k < kn
        invariant
            win.valid(),
            convolution_fits(*win, cn as int, kn as int),
            loss@.len() == kn * win.rows(),
            rows == win.rows(),
            cols == win.cols(),
            ex@.len() == cn,
            forall|c: int|
                0 <= c < cn ==> (#[trigger] ex@[c])@ == patches(
                    block(input@, c, win.plane()),
                    T::zero_spec(),
                    *win,
                ),
            k <= kn,
            out@.len() == k * cn * cols,
            forall|g: int|
                0 <= g < out@.len() ==> out@[g] == weight_gradient(
                    loss@,
                    input@,
                    *win,
                    cn as int,
                    kn as int,
                )[g],
        decreases kn - k,
    {
        proof {
            lemma_row_bounds(k as int, kn as int, rows as int);
        }
        let l = block_of(loss, k, rows);
        let mut c: usize = 0;
        while c < cn
            invariant
                win.valid(),
                convolution_fits(*win, cn as int, kn as int),
                rows == win.rows(),
                cols == win.cols(),
                ex@.len() == cn,
                forall|c: int|
                    0 <= c < cn ==> (#[trigger] ex@[c])@ == patches(
                        block(input@, c, win.plane()),
                        T::zero_spec(),
                        *win,
                    ),
                k < kn,
                c <= cn,
                l@ == block(loss@, k as int, win.rows()),
                l@.len() == rows,
                out@.len() == (k * cn + c) * cols,
                forall|g: int|
                    0 <= g < out@.len() ==> out@[g] == weight_gradient(
                        loss@,
                        input@,
                        *win,
                        cn as int,
                        kn as int,
                    )[g],
            decreases cn - c,
        {
            let patch = ex[c].as_slice();
            let mut i: usize = 0;
            while i < cols
                invariant
                    win.valid(),
                    convolution_fits(*win, cn as int, kn as int),
                    rows == win.rows(),
                    cols == win.cols(),
                    k < kn,
                    c < cn,
                    i <= cols,
                    l@ == block(loss@, k as int, win.rows()),
                    l@.len() == rows,
                    patch@ == patches(block(input@, c as int, win.plane()), T::zero_spec(), *win),
                    out@.len() == (k * cn + c) * cols + i,
                    forall|g: int|
                        0 <= g < out@.len() ==> out@[g] == weight_gradient(
                            loss@,
                            input@,
                            *win,
                            cn as int,
                            kn as int,
                        )[g],
                decreases cols - i,
            {
                let ghost terms = position_terms(l@, patch@, cols as int, i as int);
                let mut acc = T::zero();
                let mut row: usize = 0;
                while row < rows
                    invariant
                        win.valid(),
                        win.fits(),
                        rows == win.rows(),
                        cols == win.cols(),
                        i < cols,
                        row <= rows,
                        l@.len() == rows,
                        patch@.len() == rows * cols,
                        terms == position_terms(l@, patch@, cols as int, i as int),
                        acc == fold_terms(row as nat, terms),
                    decreases rows - row,
                {
                    proof {
                        lemma_flat_index(row as int, i as int, rows as int, cols as int);
                    }
                    acc = acc.add(l[row].mul(patch[row * cols + i]));
                    row += 1;
                }
                proof {
                    lemma_flat_index(k as int, c as int, kn as int, cn as int);
                    lemma_join_index(k * cn + c, i as int, cols as int);
                    lemma_join_index(k as int, c as int, cn as int);
                    lemma_flat_index(k * cn + c, i as int, kn * cn, cols as int);
                }
                out.push(acc);
                i += 1;
            }
            c += 1;
            assert((k * cn + (c - 1)) * cols + cols == (k * cn + c) * cols) by (nonlinear_arith);
        }
        k += 1;
        assert(((k - 1) * cn + cn) * cols == k * cn * cols) by (nonlinear_arith);
    }
    out
}

/// The outputs of a batch of `n` samples, one after the other: each is the
/// output of its own sample.
pub open spec fn batch_forward<T: Scalar>(
    input: Seq<T>,
    kernel: Seq<T>,
    win: Window,
    cn: int,
    kn: int,
    n: int,
) -> Seq<T> {
    Seq::new(
        (n * (kn * win.rows())) as nat,
        |o: int|
            forward(block(input, o / (kn * win.rows()), cn * win.plane()), kernel, win, cn, kn)[o
                % (kn * win.rows())],
    )
}

/// The input gradients of a batch of `n` samples, one after the other: each
/// is the input gradient of its own sample.
pub open spec fn batch_backward<T: Scalar>(
    loss: Seq<T>,
    kernel: Seq<T>,
    win: Window,
    cn: int,
    kn: int,
    n: int,
) -> Seq<T> {
    Seq::new(
        (n * (cn * win.plane())) as nat,
        |q: int|
            backward(block(loss, q / (cn * win.plane()), kn * win.rows()), kernel, win, cn, kn)[q
                % (cn * win.plane())],
    )
}

/// What each sample of a batch gives to weight `g`: its own weight gradient.
pub open spec fn sample_terms<T: Scalar>(
    loss: Seq<T>,
    input: Seq<T>,
    win: Window,
    cn: int,
    kn: int,
    g: int,
) -> spec_fn(int) -> Option<T> {
    |s: int|
        Some(
            weight_gradient(
                block(loss, s, kn * win.rows()),
                block(input, s, cn * win.plane()),
                win,
                cn,
                kn,
            )[g],
        )
}

/// The weight gradient of a batch of `n` samples: the sum of the weight
/// gradients of the samples, added in the order of the batch.
pub open spec fn batch_weight_gradient<T: Scalar>(
    loss: Seq<T>,
    input: Seq<T>,
    win: Window,
    cn: int,
    kn: int,
    n: int,
) -> Seq<T> {
    Seq::new(
        (kn * cn * win.cols()) as nat,
        |g: int| fold_terms(n as nat, sample_terms(loss, input, win, cn, kn, g)),
    )
}

/// What an operation answers to output extents `oh` and `ow` that a tensor
/// type declares: the error, or `None` where the window is valid and the
/// extents are those of its output.
pub open spec fn shape_refusal(win: Window, oh: usize, ow: usize) -> Option<TensorError> {
    if !win.valid() {
        Some(TensorError::UnimplementedConfiguration)
    } else if oh != win.out_h() {
        Some(TensorError::SizeMismatch(SizeMismatchError(win.out_h() as usize, oh)))
    } else if ow != win.out_w() {
        Some(TensorError::SizeMismatch(SizeMismatchError(win.out_w() as usize, ow)))
    } else {
        None
    }
}

/// Decides [`shape_refusal`].
pub fn check_shape(
    h: usize,
    w: usize,
    fh: usize,
    fw: usize,
    pad: usize,
    s: usize,
    oh: usize,
    ow: usize,
) -> (r: Result<Window, TensorError>)
    requires
        window_of(h, w, fh, fw, pad, s).valid() ==> window_of(h, w, fh, fw, pad, s).out_h()
            <= usize::MAX && window_of(h, w, fh, fw, pad, s).out_w() <= usize::MAX,
    ensures
        match shape_refusal(window_of(h, w, fh, fw, pad, s), oh, ow) {
            Some(e) => r == Err::<Window, _>(e),
            None => r == Ok::<_, TensorError>(window_of(h, w, fh, fw, pad, s)),
        },
{
    match Window::new(h, w, fh, fw, pad, s) {
        None => Err(TensorError::UnimplementedConfiguration),
        Some(win) => {
            let out_h = win.output_height();
            let out_w = win.output_width();
            if oh != out_h {
                Err(TensorError::SizeMismatch(SizeMismatchError(out_h, oh)))
            } else if ow != out_w {
                Err(TensorError::SizeMismatch(SizeMismatchError(out_w, ow)))
            } else {
                Ok(win)
            }
        },
    }
}

/// The three operations of a convolution layer, for one sample and for a
/// batch: the output, the gradient with respect to the input and the gradient
/// with respect to the weights.
///
/// The input has `C` planes of `H` rows and `W` columns, the kernel `K`
/// stacks of `C` filters of `FH` rows and `FW` columns, the output `K` planes
/// of `OH` rows and `OW` columns. Where the window does not tile the padded
/// input, every operation gives `UnimplementedConfiguration`; where `OH` and
/// `OW` are not the output extents of the window, a size mismatch.
pub trait DeviceConvolution<
    T: Scalar,
    const C: usize,
    const K: usize,
    const H: usize,
    const W: usize,
    const FH: usize,
    const FW: usize,
    const PAD: usize,
    const S: usize,
    const OH: usize,
    const OW: usize,
> {
    /// The output of the layer for `input`.
    fn forward_convolution<'a>(
        &self,
        input: ImagesView<'a, T, C, H, W>,
        kernel: &Kernel<T, K, C, FH, FW>,
    ) -> (r: Result<Images<T, K, OH, OW>, TensorError>)
        requires
            input.wf(),
            kernel.wf(),
            window_of(H, W, FH, FW, PAD, S).valid() ==> convolution_fits(
                window_of(H, W, FH, FW, PAD, S),
                C as int,
                K as int,
            ),
        ensures
            match shape_refusal(window_of(H, W, FH, FW, PAD, S), OH, OW) {
                Some(e) => r == Err::<Images<T, K, OH, OW>, _>(e),
                None => {
                    &&& r matches Ok(out)
                    &&& out.wf()
                    &&& out@ == forward(
                        input@,
                        kernel@,
                        window_of(H, W, FH, FW, PAD, S),
                        C as int,
                        K as int,
                    )
                },
            },
    ;

    /// The gradient with respect to the input, from the gradient `loss` with
    /// respect to the output.
    fn backward_convolution<'a>(
        &self,
        loss: ImagesView<'a, T, K, OH, OW>,
        kernel: &Kernel<T, K, C, FH, FW>,
    ) -> (r: Result<Images<T, C, H, W>, TensorError>)
        requires
            loss.wf(),
            kernel.wf(),
            window_of(H, W, FH, FW, PAD, S).valid() ==> convolution_fits(
                window_of(H, W, FH, FW, PAD, S),
                C as int,
                K as int,
            ),
        ensures
            match shape_refusal(window_of(H, W, FH, FW, PAD, S), OH, OW) {
                Some(e) => r == Err::<Images<T, C, H, W>, _>(e),
                None => {
                    &&& r matches Ok(out)
                    &&& out.wf()
                    &&& out@ == backward(
                        loss@,
                        kernel@,
                        window_of(H, W, FH, FW, PAD, S),
                        C as int,
                        K as int,
                    )
                },
            },
    ;

    /// The gradient with respect to the weights, from the gradient `loss`
    /// with respect to the output and the input that was convolved.
    fn backward_weight_gradient_convolution<'a>(
        &self,
        loss: ImagesView<'a, T, K, OH, OW>,
        input: ImagesView<'a, T, C, H, W>,
    ) -> (r: Result<Kernel<T, K, C, FH, FW>, TensorError>)
        requires
            loss.wf(),
            input.wf(),
            window_of(H, W, FH, FW, PAD, S).valid() ==> convolution_fits(
                window_of(H, W, FH, FW, PAD, S),
                C as int,
                K as int,
            ),
        ensures
            match shape_refusal(window_of(H, W, FH, FW, PAD, S), OH, OW) {
                Some(e) => r == Err::<Kernel<T, K, C, FH, FW>, _>(e),
                None => {
                    &&& r matches Ok(out)
                    &&& out.wf()
                    &&& out@ == weight_gradient(
                        loss@,
                        input@,
                        window_of(H, W, FH, FW, PAD, S),
                        C as int,
                        K as int,
                    )
                },
            },
    ;
    /// The outputs of the layer for the samples of `input`, each computed as
    /// for a single sample, the samples shared out among workers.
    fn batch_forward_convolution(
        &self,
        input: &VecImages<T, C, H, W>,
        kernel: &Kernel<T, K, C, FH, FW>,
    ) -> (r: Result<VecImages<T, K, OH, OW>, TensorError>)
        requires
            input.wf(),
            kernel.wf(),
            window_of(H, W, FH, FW, PAD, S).valid() ==> convolution_fits(
                window_of(H, W, FH, FW, PAD, S),
                C as int,
                K as int,
            ),
        ensures
            match shape_refusal(window_of(H, W, FH, FW, PAD, S), OH, OW) {
                Some(e) => r == Err::<VecImages<T, K, OH, OW>, _>(e),
                None => {
                    &&& r matches Ok(out)
                    &&& out.wf()
                    &&& out.len_spec() == input.len_spec()
                    &&& out@ == batch_forward(
                        input@,
                        kernel@,
                        window_of(H, W, FH, FW, PAD, S),
                        C as int,
                        K as int,
                        input.len_spec() as int,
                    )
                },
            },
    ;

    /// The input gradients for the samples of `loss`, each computed as for a
    /// single sample, the samples shared out among workers.
    fn batch_backward_convolution(
        &self,
        loss: &VecImages<T, K, OH, OW>,
        kernel: &Kernel<T, K, C, FH, FW>,
    ) -> (r: Result<VecImages<T, C, H, W>, TensorError>)
        requires
            loss.wf(),
            kernel.wf(),
            window_of(H, W, FH, FW, PAD, S).valid() ==> convolution_fits(
                window_of(H, W, FH, FW, PAD, S),
                C as int,
                K as int,
            ),
        ensures
            match shape_refusal(window_of(H, W, FH, FW, PAD, S), OH, OW) {
                Some(e) => r == Err::<VecImages<T, C, H, W>, _>(e),
                None => {
                    &&& r matches Ok(out)
                    &&& out.wf()
                    &&& out.len_spec() == loss.len_spec()
                    &&& out@ == batch_backward(
                        loss@,
                        kernel@,
                        window_of(H, W, FH, FW, PAD, S),
                        C as int,
                        K as int,
                        loss.len_spec() as int,
                    )
                },
            },
    ;

    /// The weight gradient of a batch: the weight gradients of the samples,
    /// each computed as for a single sample, summed in the order of the
    /// batch. A batch of losses that does not hold as many samples as the
    /// batch of inputs is a size mismatch.
    fn batch_backward_weight_gradient_convolution(
        &self,
        loss: &VecImages<T, K, OH, OW>,
        input: &VecImages<T, C, H, W>,
    ) -> (r: Result<Kernel<T, K, C, FH, FW>, TensorError>)
        requires
            loss.wf(),
            input.wf(),
            window_of(H, W, FH, FW, PAD, S).valid() ==> convolution_fits(
                window_of(H, W, FH, FW, PAD, S),
                C as int,
                K as int,
            ),
        ensures
            match shape_refusal(window_of(H, W, FH, FW, PAD, S), OH, OW) {
                Some(e) => r == Err::<Kernel<T, K, C, FH, FW>, _>(e),
                None => if loss.len_spec() != input.len_spec() {
                    r == Err::<Kernel<T, K, C, FH, FW>, _>(
                        TensorError::SizeMismatch(
                            SizeMismatchError(loss.len_spec(), input.len_spec()),
                        ),
                    )
                } else {
                    &&& r matches Ok(out)
                    &&& out.wf()
                    &&& out@ == batch_weight_gradient(
                        loss@,
                        input@,
                        window_of(H, W, FH, FW, PAD, S),
                        C as int,
                        K as int,
                        input.len_spec() as int,
                    )
                },
            },
    ;
}

impl<
    T: Scalar,
    const C: usize,
    const K: usize,
    const H: usize,
    const W: usize,
    const FH: usize,
    const FW: usize,
    const PAD: usize,
    const S: usize,
    const OH: usize,
    const OW: usize,
> DeviceConvolution<T, C, K, H, W, FH, FW, PAD, S, OH, OW> for DeviceCpu {
    fn forward_convolution<'a>(
        &self,
        input: ImagesView<'a, T, C, H, W>,
        kernel: &Kernel<T, K, C, FH, FW>,
    ) -> (r: Result<Images<T, K, OH, OW>, TensorError>) {
        match check_shape(H, W, FH, FW, PAD, S, OH, OW) {
            Err(e) => Err(e),
            Ok(win) => {
                let cells = forward_cells(input.as_raw_slice(), kernel.as_raw_slice(), &win, C, K);
                match Images::from_raw(cells) {
                    Ok(out) => Ok(out),
                    Err(e) => Err(TensorError::SizeMismatch(e)),
                }
            },
        }
    }

    fn backward_convolution<'a>(
        &self,
        loss: ImagesView<'a, T, K, OH, OW>,
        kernel: &Kernel<T, K, C, FH, FW>,
    ) -> (r: Result<Images<T, C, H, W>, TensorError>) {
        match check_shape(H, W, FH, FW, PAD, S, OH, OW) {
            Err(e) => Err(e),
            Ok(win) => {
                let cells = backward_cells(loss.as_raw_slice(), kernel.as_raw_slice(), &win, C, K);
                match Images::from_raw(cells) {
                    Ok(out) => Ok(out),
                    Err(e) => Err(TensorError::SizeMismatch(e)),
                }
            },
        }
    }

    fn backward_weight_gradient_convolution<'a>(
        &self,
        loss: ImagesView<'a, T, K, OH, OW>,
        input: ImagesView<'a, T, C, H, W>,
    ) -> (r: Result<Kernel<T, K, C, FH, FW>, TensorError>) {
        match check_shape(H, W, FH, FW, PAD, S, OH, OW) {
            Err(e) => Err(e),
            Ok(win) => {
                let cells = weight_cells(loss.as_raw_slice(), input.as_raw_slice(), &win, C, K);
                match Kernel::from_raw(cells) {
                    Ok(out) => Ok(out),
                    Err(e) => Err(TensorError::SizeMismatch(e)),
                }
            },
        }
    }
    fn batch_forward_convolution(
        &self,
        input: &VecImages<T, C, H, W>,
        kernel: &Kernel<T, K, C, FH, FW>,
    ) -> (r: Result<VecImages<T, K, OH, OW>, TensorError>) {
        let win = match check_shape(H, W, FH, FW, PAD, S, OH, OW) {
            Err(e) => {
                return Err(e);
            },
            Ok(win) => win,
        };
        let n = input.len();
        let results = par_map(
            n,
            |i: usize| -> (r: Result<Images<T, K, OH, OW>, TensorError>)
                requires
                    n > i,
                ensures
                    r matches Ok(out) && out.wf() && out@ == forward(
                        input.sample(i as int),
                        kernel@,
                        win,
                        C as int,
                        K as int,
                    )
                {
                    <DeviceCpu as DeviceConvolution<T, C, K, H, W, FH, FW, PAD, S, OH, OW>>::forward_convolution(
                        self,
                        input.get(i),
                        kernel,
                    )
                },
        );
        let ghost size = K * win.rows();
        let mut out: VecImages<T, K, OH, OW> = VecImages::new();
        let mut i: usize = 0;
        while i < n
            invariant
                n == input.len_spec(),
                results@.len() == n,
                forall|j: int|
                    0 <= j < n ==> ((#[trigger] results@[j]) matches Ok(images) && images.wf()
                        && images@ == forward(
                        input.sample(j),
                        kernel@,
                        win,
                        C as int,
                        K as int,
                    )),
                win == window_of(H, W, FH, FW, PAD, S),
                OH == win.out_h(),
                OW == win.out_w(),
                size == K * win.rows(),
                size == K * (OH * OW),
                i <= n,
                out.wf(),
                out.len_spec() == i,
                out@.len() == i * size,
                forall|o: int|
                    0 <= o < out@.len() ==> out@[o] == batch_forward(
                        input@,
                        kernel@,
                        win,
                        C as int,
                        K as int,
                        n as int,
                    )[o],
            decreases n - i,
        {
            match &results[i] {
                Ok(images) => {
                    proof {
                        assert forall|o: int| i * size <= o < i * size + size implies (
                        #[trigger] batch_forward(
                            input@,
                            kernel@,
                            win,
                            C as int,
                            K as int,
                            n as int,
                        )[o]) == images@[o - i * size] by {
                            lemma_join_index(i as int, o - i * size, size);
                            lemma_flat_index(i as int, o - i * size, n as int, size);
                        }
                    }
                    out.push(images);
                },
                Err(e) => {
                    return Err(*e);
                },
            }
            i += 1;
            assert((i - 1) * size + size == i * size) by (nonlinear_arith);
        }
        Ok(out)
    }

    fn batch_backward_convolution(
        &self,
        loss: &VecImages<T, K, OH, OW>,
        kernel: &Kernel<T, K, C, FH, FW>,
    ) -> (r: Result<VecImages<T, C, H, W>, TensorError>) {
        let win = match check_shape(H, W, FH, FW, PAD, S, OH, OW) {
            Err(e) => {
                return Err(e);
            },
            Ok(win) => win,
        };
        let n = loss.len();
        let results = par_map(
            n,
            |i: usize| -> (r: Result<Images<T, C, H, W>, TensorError>)
                requires
                    n > i,
                ensures
                    r matches Ok(out) && out.wf() && out@ == backward(
                        loss.sample(i as int),
                        kernel@,
                        win,
                        C as int,
                        K as int,
                    )
                {
                    <DeviceCpu as DeviceConvolution<T, C, K, H, W, FH, FW, PAD, S, OH, OW>>::backward_convolution(
                        self,
                        loss.get(i),
                        kernel,
                    )
                },
        );
        let ghost size = C * win.plane();
        let mut out: VecImages<T, C, H, W> = VecImages::new();
        let mut i: usize = 0;
        while i < n
            invariant
                n == loss.len_spec(),
                results@.len() == n,
                forall|j: int|
                    0 <= j < n ==> ((#[trigger] results@[j]) matches Ok(images) && images.wf()
                        && images@ == backward(
                        loss.sample(j),
                        kernel@,
                        win,
                        C as int,
                        K as int,
                    )),
                win == window_of(H, W, FH, FW, PAD, S),
                OH == win.out_h(),
                OW == win.out_w(),
                size == C * win.plane(),
                size == C * (H * W),
                i <= n,
                out.wf(),
                out.len_spec() == i,
                out@.len() == i * size,
                forall|q: int|
                    0 <= q < out@.len() ==> out@[q] == batch_backward(
                        loss@,
                        kernel@,
                        win,
                        C as int,
                        K as int,
                        n as int,
                    )[q],
            decreases n - i,
        {
            match &results[i] {
                Ok(images) => {
                    proof {
                        assert forall|q: int| i * size <= q < i * size + size implies (
                        #[trigger] batch_backward(
                            loss@,
                            kernel@,
                            win,
                            C as int,
                            K as int,
                            n as int,
                        )[q]) == images@[q - i * size] by {
                            lemma_join_index(i as int, q - i * size, size);
                            lemma_flat_index(i as int, q - i * size, n as int, size);
                        }
                    }
                    out.push(images);
                },
                Err(e) => {
                    return Err(*e);
                },
            }
            i += 1;
            assert((i - 1) * size + size == i * size) by (nonlinear_arith);
        }
        Ok(out)
    }

    fn batch_backward_weight_gradient_convolution(
        &self,
        loss: &VecImages<T, K, OH, OW>,
        input: &VecImages<T, C, H, W>,
    ) -> (r: Result<Kernel<T, K, C, FH, FW>, TensorError>) {
        let win = match check_shape(H, W, FH, FW, PAD, S, OH, OW) {
            Err(e) => {
                return Err(e);
            },
            Ok(win) => win,
        };
        let n = input.len();
        if loss.len() != n {
            return Err(TensorError::SizeMismatch(SizeMismatchError(loss.len(), n)));
        }
        let results = par_map(
            n,
            |i: usize| -> (r: Result<Kernel<T, K, C, FH, FW>, TensorError>)
                requires
                    n > i,
                ensures
                    r matches Ok(out) && out.wf() && out@ == weight_gradient(
                        loss.sample(i as int),
                        input.sample(i as int),
                        win,
                        C as int,
                        K as int,
                    )
                {
                    <DeviceCpu as DeviceConvolution<T, C, K, H, W, FH, FW, PAD, S, OH, OW>>::backward_weight_gradient_convolution(
                        self,
                        loss.get(i),
                        input.get(i),
                    )
                },
        );
        let total = crate::collection::volume4(K, C, FH, FW);
        let mut acc: Vec<T> = Vec::new();
        let mut g: usize = 0;
        while g < total
            invariant
                g <= total,
                acc@.len() == g,
                forall|j: int| 0 <= j < g ==> acc@[j] == T::zero_spec(),
            decreases total - g,
        {
            acc.push(T::zero());
            g += 1;
        }
        let mut i: usize = 0;
        while i < n
            invariant
                results@.len() == n,
                forall|j: int|
                    0 <= j < n ==> ((#[trigger] results@[j]) matches Ok(grad) && grad.wf()
                        && grad@ == weight_gradient(
                        loss.sample(j),
                        input.sample(j),
                        win,
                        C as int,
                        K as int,
                    )),
                win == window_of(H, W, FH, FW, PAD, S),
                OH == win.out_h(),
                OW == win.out_w(),
                total == K * C * win.cols(),
                total == K * C * (FH * FW),
                i <= n,
                acc@.len() == total,
                forall|j: int|
                    0 <= j < total ==> acc@[j] == fold_terms(
                        i as nat,
                        sample_terms(loss@, input@, win, C as int, K as int, j),
                    ),
            decreases n - i,
        {
            match &results[i] {
                Ok(grad) => {
                    let cells = grad.as_raw_slice();
                    let mut g: usize = 0;
                    while g < total
                        invariant
                            win == window_of(H, W, FH, FW, PAD, S),
                            OH == win.out_h(),
                            OW == win.out_w(),
                            i < n,
                            cells@ == weight_gradient(
                                loss.sample(i as int),
                                input.sample(i as int),
                                win,
                                C as int,
                                K as int,
                            ),
                            cells@.len() == total,
                            g <= total,
                            acc@.len() == total,
                            forall|j: int|
                                0 <= j < g ==> acc@[j] == fold_terms(
                                    (i + 1) as nat,
                                    sample_terms(loss@, input@, win, C as int, K as int, j),
                                ),
                            forall|j: int|
                                g <= j < total ==> acc@[j] == fold_terms(
                                    i as nat,
                                    sample_terms(loss@, input@, win, C as int, K as int, j),
                                ),
                        decreases total - g,
                    {
                        let v = acc[g].add(cells[g]);
                        acc.set(g, v);
                        g += 1;
                    }
                },
                Err(e) => {
                    return Err(*e);
                },
            }
            i += 1;
        }
        match Kernel::from_raw(acc) {
            Ok(out) => Ok(out),
            Err(e) => Err(TensorError::SizeMismatch(e)),
        }
    }
}

/// The shapes of the three results: the output holds `kn` planes of one cell
/// per window position, the input gradient holds what the input holds, and
/// the weight gradient holds what the kernel holds.
pub proof fn lemma_result_shapes<T: Scalar>(
    input: Seq<T>,
    kernel: Seq<T>,
    loss: Seq<T>,
    win: Window,
    cn: int,
    kn: int,
)
    requires
        win.valid(),
        0 <= cn,
        0 <= kn,
    ensures
        forward(input, kernel, win, cn, kn).len() == kn * (win.out_h() * win.out_w()),
        backward(loss, kernel, win, cn, kn).len() == cn * (win.h * win.w),
        weight_gradient(loss, input, win, cn, kn).len() == kn * cn * (win.fh * win.fw),
{
    win.lemma_extents();
    assert(kn * win.rows() >= 0 && cn * win.plane() >= 0 && kn * cn * win.cols() >= 0)
        by (nonlinear_arith)
        requires
            kn >= 0,
            cn >= 0,
            win.rows() >= 0,
            win.plane() >= 0,
            win.cols() >= 0,
    ;
}

/// Every cell of `cells` times `a`.
pub open spec fn scaled<T: Scalar>(cells: Seq<T>, a: T) -> Seq<T> {
    Seq::new(cells.len(), |i: int| cells[i].mul_spec(a))
}

/// The sums of the cells of `x` and `y`, cell by cell.
pub open spec fn summed<T: Scalar>(x: Seq<T>, y: Seq<T>) -> Seq<T> {
    Seq::new(x.len(), |i: int| x[i].add_spec(y[i]))
}

/// The dot product with a scaled list is the scaled dot product.
pub proof fn lemma_dot_scales<T: Semiring>(p: Seq<T>, f: Seq<T>, a: T)
    requires
        p.len() <= f.len(),
    ensures
        dot(p, scaled(f, a)) == dot(p, f).mul_spec(a),
{
    assert forall|i: int| 0 <= i < p.len() implies #[trigger] product_terms(p, scaled(f, a))(i)
        == match product_terms(p, f)(i) {
        Some(v) => Some(v.mul_spec(a)),
        None => None::<T>,
    } by {
        T::lemma_mul_associative(p[i], f[i], a);
    }
    lemma_fold_terms_scaled(p.len(), product_terms(p, f), product_terms(p, scaled(f, a)), a);
}

/// The dot product with a sum of two lists is the sum of the dot products.
pub proof fn lemma_dot_adds<T: Semiring>(p: Seq<T>, f: Seq<T>, g: Seq<T>)
    requires
        p.len() <= f.len(),
        f.len() == g.len(),
    ensures
        dot(p, summed(f, g)) == dot(p, f).add_spec(dot(p, g)),
{
    assert forall|i: int| 0 <= i < p.len() implies #[trigger] product_terms(p, summed(f, g))(i)
        == match (product_terms(p, f)(i), product_terms(p, g)(i)) {
        (Some(u), Some(v)) => Some(u.add_spec(v)),
        (Some(u), None) => Some(u),
        (None, Some(v)) => Some(v),
        (None, None) => None::<T>,
    } by {
        T::lemma_mul_distributes_left(p[i], f[i], g[i]);
    }
    lemma_fold_terms_added(
        p.len(),
        product_terms(p, f),
        product_terms(p, g),
        product_terms(p, summed(f, g)),
    );
}

/// A convolution is homogeneous in its kernel: with every weight scaled by
/// `a`, every cell of the output is scaled by `a`.
pub proof fn lemma_forward_scales<T: Semiring>(
    input: Seq<T>,
    kernel: Seq<T>,
    win: Window,
    cn: int,
    kn: int,
    a: T,
)
    requires
        win.valid(),
        0 <= cn,
        0 <= kn,
        kernel.len() == kn * cn * win.cols(),
    ensures
        forward(input, scaled(kernel, a), win, cn, kn) == scaled(
            forward(input, kernel, win, cn, kn),
            a,
        ),
{
    let rows = win.rows();
    let cols = win.cols();
    win.lemma_extents();
    assert(kn * rows >= 0) by (nonlinear_arith)
        requires
            kn >= 0,
            rows >= 0,
    ;
    assert forall|o: int| 0 <= o < kn * rows implies #[trigger] forward(
        input,
        scaled(kernel, a),
        win,
        cn,
        kn,
    )[o] == forward(input, kernel, win, cn, kn)[o].mul_spec(a) by {
        lemma_split_index(o, rows, kn);
        let k = o / rows;
        let row = o % rows;
        let f = channel_terms(input, kernel, win, cn, k, row);
        let g = channel_terms(input, scaled(kernel, a), win, cn, k, row);
        assert forall|c: int| 0 <= c < cn implies #[trigger] g(c) == match f(c) {
            Some(v) => Some(v.mul_spec(a)),
            None => None::<T>,
        } by {
            lemma_flat_index(k, c, kn, cn);
            lemma_row_bounds(k * cn + c, kn * cn, cols);
            lemma_row_bounds(row, rows, cols);
            let p = block(patches(block(input, c, win.plane()), T::zero_spec(), win), row, cols);
            assert(block(scaled(kernel, a), k * cn + c, cols) == scaled(
                block(kernel, k * cn + c, cols),
                a,
            ));
            lemma_dot_scales(p, block(kernel, k * cn + c, cols), a);
        }
        lemma_fold_terms_scaled(cn as nat, f, g, a);
    }
}

/// A convolution is additive in its kernel: the output for the sum of two
/// kernels is the sum of the outputs for each.
pub proof fn lemma_forward_adds<T: Semiring>(
    input: Seq<T>,
    first: Seq<T>,
    second: Seq<T>,
    win: Window,
    cn: int,
    kn: int,
)
    requires
        win.valid(),
        0 <= cn,
        0 <= kn,
        first.len() == kn * cn * win.cols(),
        second.len() == kn * cn * win.cols(),
    ensures
        forward(input, summed(first, second), win, cn, kn) == summed(
            forward(input, first, win, cn, kn),
            forward(input, second, win, cn, kn),
        ),
{
    let rows = win.rows();
    let cols = win.cols();
    win.lemma_extents();
    assert(kn * rows >= 0) by (nonlinear_arith)
        requires
            kn >= 0,
            rows >= 0,
    ;
    assert forall|o: int| 0 <= o < kn * rows implies #[trigger] forward(
        input,
        summed(first, second),
        win,
        cn,
        kn,
    )[o] == forward(input, first, win, cn, kn)[o].add_spec(
        forward(input, second, win, cn, kn)[o],
    ) by {
        lemma_split_index(o, rows, kn);
        let k = o / rows;
        let row = o % rows;
        let f = channel_terms(input, first, win, cn, k, row);
        let g = channel_terms(input, second, win, cn, k, row);
        let h = channel_terms(input, summed(first, second), win, cn, k, row);
        assert forall|c: int| 0 <= c < cn implies #[trigger] h(c) == match (f(c), g(c)) {
            (Some(u), Some(v)) => Some(u.add_spec(v)),
            (Some(u), None) => Some(u),
            (None, Some(v)) => Some(v),
            (None, None) => None::<T>,
        } by {
            lemma_flat_index(k, c, kn, cn);
            lemma_row_bounds(k * cn + c, kn * cn, cols);
            lemma_row_bounds(row, rows, cols);
            let p = block(patches(block(input, c, win.plane()), T::zero_spec(), win), row, cols);
            assert(block(summed(first, second), k * cn + c, cols) == summed(
                block(first, k * cn + c, cols),
                block(second, k * cn + c, cols),
            ));
            lemma_dot_adds(p, block(first, k * cn + c, cols), block(second, k * cn + c, cols));
        }
        lemma_fold_terms_added(cn as nat, f, g, h);
    }
}

/// The dot product of a sum of two lists with a third is the sum of the dot
/// products.
pub proof fn lemma_dot_adds_left<T: Semiring>(p: Seq<T>, q: Seq<T>, f: Seq<T>)
    requires
        p.len() == q.len(),
        p.len() <= f.len(),
    ensures
        dot(summed(p, q), f) == dot(p, f).add_spec(dot(q, f)),
{
    assert forall|i: int| 0 <= i < p.len() implies #[trigger] product_terms(summed(p, q), f)(i)
        == match (product_terms(p, f)(i), product_terms(q, f)(i)) {
        (Some(u), Some(v)) => Some(u.add_spec(v)),
        (Some(u), None) => Some(u),
        (None, Some(v)) => Some(v),
        (None, None) => None::<T>,
    } by {
        T::lemma_mul_distributes_right(p[i], q[i], f[i]);
    }
    lemma_fold_terms_added(
        p.len(),
        product_terms(p, f),
        product_terms(q, f),
        product_terms(summed(p, q), f),
    );
}

/// The patch matrix of the sum of two planes is the sum of their patch
/// matrices: the padding stays zero.
pub proof fn lemma_patches_add<T: Semiring>(first: Seq<T>, second: Seq<T>, win: Window)
    requires
        win.valid(),
        first.len() == win.plane(),
        second.len() == win.plane(),
    ensures
        patches(summed(first, second), T::zero_spec(), win) == summed(
            patches(first, T::zero_spec(), win),
            patches(second, T::zero_spec(), win),
        ),
{
    let both = patches(summed(first, second), T::zero_spec(), win);
    let apart = summed(patches(first, T::zero_spec(), win), patches(second, T::zero_spec(), win));
    win.lemma_extents();
    assert forall|j: int| 0 <= j < both.len() implies both[j] == apart[j] by {
        assert(win.cols() > 0) by (nonlinear_arith)
            requires
                0 <= j < win.rows() * win.cols(),
                win.rows() >= 1,
                win.cols() >= 0,
        ;
        lemma_split_index(j, win.cols(), win.rows());
        win.lemma_source_in_plane(j / win.cols(), j % win.cols());
        T::lemma_add_zero(T::zero_spec());
    }
    assert(both =~= apart);
}

/// A convolution is additive in its input: the output for the sum of two
/// inputs is the sum of the outputs for each.
pub proof fn lemma_forward_adds_inputs<T: Semiring>(
    first: Seq<T>,
    second: Seq<T>,
    kernel: Seq<T>,
    win: Window,
    cn: int,
    kn: int,
)
    requires
        win.valid(),
        0 <= cn,
        0 <= kn,
        first.len() == cn * win.plane(),
        second.len() == cn * win.plane(),
        kernel.len() == kn * cn * win.cols(),
    ensures
        forward(summed(first, second), kernel, win, cn, kn) == summed(
            forward(first, kernel, win, cn, kn),
            forward(second, kernel, win, cn, kn),
        ),
{
    let rows = win.rows();
    let cols = win.cols();
    let m = win.plane();
    win.lemma_extents();
    assert(kn * rows >= 0 && rows * cols >= 0) by (nonlinear_arith)
        requires
            kn >= 0,
            rows >= 0,
            cols >= 0,
    ;
    assert forall|o: int| 0 <= o < kn * rows implies #[trigger] forward(
        summed(first, second),
        kernel,
        win,
        cn,
        kn,
    )[o] == forward(first, kernel, win, cn, kn)[o].add_spec(
        forward(second, kernel, win, cn, kn)[o],
    ) by {
        lemma_split_index(o, rows, kn);
        let k = o / rows;
        let row = o % rows;
        let f = channel_terms(first, kernel, win, cn, k, row);
        let g = channel_terms(second, kernel, win, cn, k, row);
        let h = channel_terms(summed(first, second), kernel, win, cn, k, row);
        assert forall|c: int| 0 <= c < cn implies #[trigger] h(c) == match (f(c), g(c)) {
            (Some(u), Some(v)) => Some(u.add_spec(v)),
            (Some(u), None) => Some(u),
            (None, Some(v)) => Some(v),
            (None, None) => None::<T>,
        } by {
            lemma_flat_index(k, c, kn, cn);
            lemma_row_bounds(k * cn + c, kn * cn, cols);
            lemma_row_bounds(row, rows, cols);
            lemma_row_bounds(c, cn, m);
            let a = block(first, c, m);
            let b = block(second, c, m);
            assert(block(summed(first, second), c, m) == summed(a, b));
            lemma_patches_add(a, b, win);
            let pa = patches(a, T::zero_spec(), win);
            let pb = patches(b, T::zero_spec(), win);
            assert(block(summed(pa, pb), row, cols) == summed(
                block(pa, row, cols),
                block(pb, row, cols),
            ));
            lemma_dot_adds_left(
                block(pa, row, cols),
                block(pb, row, cols),
                block(kernel, k * cn + c, cols),
            );
        }
        lemma_fold_terms_added(cn as nat, f, g, h);
    }
}

/// The output of a batch of one sample is the output of that sample.
pub proof fn lemma_batch_forward_of_one<T: Scalar>(
    input: Seq<T>,
    kernel: Seq<T>,
    win: Window,
    cn: int,
    kn: int,
)
    requires
        win.valid(),
        0 <= cn,
        0 <= kn,
        input.len() == cn * win.plane(),
    ensures
        batch_forward(input, kernel, win, cn, kn, 1) == forward(input, kernel, win, cn, kn),
{
    let size = kn * win.rows();
    win.lemma_extents();
    assert(size >= 0) by (nonlinear_arith)
        requires
            size == kn * win.rows(),
            kn >= 0,
            win.rows() >= 0,
    ;
    assert(block(input, 0, cn * win.plane()) == input);
    assert forall|o: int| 0 <= o < size implies #[trigger] batch_forward(
        input,
        kernel,
        win,
        cn,
        kn,
        1,
    )[o] == forward(input, kernel, win, cn, kn)[o] by {
        lemma_join_index(0, o, size);
    }
}

} // verus!
