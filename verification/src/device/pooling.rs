//! 2D max pooling: the output of a layer and the routing of its gradient,
//! for one sample and for a batch.

use crate::collection::{block, block_of, Images, ImagesView, VecImages};
use crate::device::convolution::{check_shape, shape_refusal};
use crate::device::{par_map, DeviceCpu};
use crate::error::{SizeMismatchError, TensorError};
use crate::scalar::{
    cell_terms, fold_terms, lemma_fold_terms_added, lemma_fold_terms_point,
    lemma_fold_terms_zeros, point_terms, total, Scalar, Semiring,
};
use crate::window::{lemma_flat_index, lemma_join_index, lemma_row_bounds, window_of, Window};
use vstd::prelude::*;

verus! {

/// The cell of the plane that holds the greatest value among the first `n`
/// cells of window `row`, the cells taken row-major and those in the padding
/// passed over. Of several cells that hold the greatest value the first one
/// stands. `None` where all of the `n` cells lie in the padding.
pub open spec fn arg_max<T: Scalar>(plane: Seq<T>, win: Window, row: int, n: nat) -> Option<int>
    decreases n,
{
    if n == 0 {
        None
    } else {
        let best = arg_max(plane, win, row, (n - 1) as nat);
        match win.source(row, n - 1) {
            None => best,
            Some(i) => match best {
                None => Some(i),
                Some(b) => if plane[i].gt_spec(plane[b]) {
                    Some(i)
                } else {
                    Some(b)
                },
            },
        }
    }
}

/// The greatest value under window `row`; zero for a window that lies in the
/// padding altogether.
pub open spec fn window_max<T: Scalar>(plane: Seq<T>, win: Window, row: int) -> T {
    match arg_max(plane, win, row, win.cols() as nat) {
        Some(i) => plane[i],
        None => T::zero_spec(),
    }
}

/// The output of max pooling: for each of the `cn` planes, one cell per
/// window position, the greatest value under the window.
pub open spec fn pooled<T: Scalar>(input: Seq<T>, win: Window, cn: int) -> Seq<T> {
    Seq::new(
        (cn * win.rows()) as nat,
        |o: int| window_max(block(input, o / win.rows(), win.plane()), win, o % win.rows()),
    )
}

/// What each window gives to cell `p` of the input gradient: its loss where
/// `p` is the cell that gave the window its greatest value, nothing
/// otherwise.
pub open spec fn routed_terms<T: Scalar>(loss: Seq<T>, plane: Seq<T>, win: Window, p: int) -> spec_fn(
    int,
) -> Option<T> {
    |row: int|
        if arg_max(plane, win, row, win.cols() as nat) == Some(p) {
            Some(loss[row])
        } else {
            None
        }
}

/// The gradient of max pooling with respect to its input: each cell gathers
/// the losses of the windows that took their greatest value from it, added in
/// row-major order of the windows.
pub open spec fn routed<T: Scalar>(loss: Seq<T>, input: Seq<T>, win: Window, cn: int) -> Seq<T> {
    Seq::new(
        (cn * win.plane()) as nat,
        |q: int|
            fold_terms(
                win.rows() as nat,
                routed_terms(
                    block(loss, q / win.plane(), win.rows()),
                    block(input, q / win.plane(), win.plane()),
                    win,
                    q % win.plane(),
                ),
            ),
    )
}

/// The outputs of max pooling for a batch of `n` samples, one after the
/// other.
pub open spec fn batch_pooled<T: Scalar>(input: Seq<T>, win: Window, cn: int, n: int) -> Seq<T> {
    Seq::new(
        (n * (cn * win.rows())) as nat,
        |o: int|
            pooled(block(input, o / (cn * win.rows()), cn * win.plane()), win, cn)[o % (cn
                * win.rows())],
    )
}

/// The input gradients of max pooling for a batch of `n` samples, one after
/// the other.
pub open spec fn batch_routed<T: Scalar>(
    loss: Seq<T>,
    input: Seq<T>,
    win: Window,
    cn: int,
    n: int,
) -> Seq<T> {
    Seq::new(
        (n * (cn * win.plane())) as nat,
        |q: int|
            routed(
                block(loss, q / (cn * win.plane()), cn * win.rows()),
                block(input, q / (cn * win.plane()), cn * win.plane()),
                win,
                cn,
            )[q % (cn * win.plane())],
    )
}

/// Every count that max pooling of `cn` planes computes with can be indexed
/// on this machine.
pub open spec fn pooling_fits(win: Window, cn: int) -> bool {
    &&& win.fits()
    &&& cn * win.plane() <= usize::MAX
    &&& cn * win.rows() <= usize::MAX
}

/// Decides whether `win` is valid and max pooling over it of `cn` planes can
/// be indexed on this machine.
pub fn pooling_fits_ok(win: &Window, cn: usize) -> (b: bool)
    ensures
        b == (win.valid() && pooling_fits(*win, cn as int)),
{
    if !win.fits_ok() {
        return false;
    }
    let plane = win.h * win.w;
    let rows = win.position_count();
    cn.checked_mul(plane).is_some() && cn.checked_mul(rows).is_some()
}

/// Finds the cell that gives window `row` its greatest value.
pub fn find_max<T: Scalar>(plane: &[T], win: &Window, row: usize) -> (r: Option<usize>)
    requires
        win.valid(),
        win.fits(),
        plane@.len() == win.plane(),
        row < win.rows(),
    ensures
        match arg_max(plane@, *win, row as int, win.cols() as nat) {
            Some(i) => r == Some(i as usize) && 0 <= i < win.plane(),
            None => r is None,
        },
{
    let cols = win.cell_count();
    let mut best: Option<usize> = None;
    let mut col: usize = 0;
    while col < cols
        invariant
            win.valid(),
            win.fits(),
            plane@.len() == win.plane(),
            row < win.rows(),
            cols == win.cols(),
            col <= cols,
            match arg_max(plane@, *win, row as int, col as nat) {
                Some(i) => best == Some(i as usize) && 0 <= i < win.plane(),
                None => best is None,
            },
        decreases cols - col,
    {
        match win.source_of(row, col) {
            None => {},
            Some(i) => {
                match best {
                    None => {
                        best = Some(i);
                    },
                    Some(b) => {
                        if plane[i].gt(plane[b]) {
                            best = Some(i);
                        }
                    },
                }
            },
        }
        col += 1;
    }
    best
}

/// Computes the output of max pooling.
pub fn pool_cells<T: Scalar>(input: &[T], win: &Window, cn: usize) -> (r: Vec<T>)
    requires
        win.valid(),
        pooling_fits(*win, cn as int),
        input@.len() == cn * win.plane(),
    ensures
        r@ == pooled(input@, *win, cn as int),
{
    let rows = win.position_count();
    let size = win.h * win.w;
    let mut out: Vec<T> = Vec::new();
    let mut c: usize = 0;
    while c < cn
        invariant
            win.valid(),
            pooling_fits(*win, cn as int),
            input@.len() == cn * win.plane(),
            rows == win.rows(),
            size == win.plane(),
            c <= cn,
            out@.len() == c * rows,
            forall|o: int| 0 <= o < out@.len() ==> out@[o] == pooled(input@, *win, cn as int)[o],
        decreases cn - c,
    {
        proof {
            lemma_row_bounds(c as int, cn as int, size as int);
        }
        let plane = block_of(input, c, size);
        let mut row: usize = 0;
        while row < rows
            invariant
                win.valid(),
                pooling_fits(*win, cn as int),
                rows == win.rows(),
                size == win.plane(),
                c < cn,
                row <= rows,
                plane@ == block(input@, c as int, win.plane()),
                plane@.len() == size,
                out@.len() == c * rows + row,
                forall|o: int|
                    0 <= o < out@.len() ==> out@[o] == pooled(input@, *win, cn as int)[o],
            decreases rows - row,
        {
            let v = match find_max(plane, win, row) {
                Some(i) => plane[i],
                None => T::zero(),
            };
            proof {
                lemma_join_index(c as int, row as int, rows as int);
                lemma_flat_index(c as int, row as int, cn as int, rows as int);
            }
            out.push(v);
            row += 1;
        }
        c += 1;
        assert((c - 1) * rows + rows == c * rows) by (nonlinear_arith);
    }
    out
}

/// Computes the gradient of max pooling with respect to its input.
pub fn route_cells<T: Scalar>(loss: &[T], input: &[T], win: &Window, cn: usize) -> (r: Vec<T>)
    requires
        win.valid(),
        pooling_fits(*win, cn as int),
        loss@.len() == cn * win.rows(),
        input@.len() == cn * win.plane(),
    ensures
        r@ == routed(loss@, input@, *win, cn as int),
{
    let rows = win.position_count();
    let size = win.h * win.w;
    let mut out: Vec<T> = Vec::new();
    let mut c: usize = 0;
    while c < cn
        invariant
            win.valid(),
            pooling_fits(*win, cn as int),
            loss@.len() == cn * win.rows(),
            input@.len() == cn * win.plane(),
            rows == win.rows(),
            size == win.plane(),
            c <= cn,
            out@.len() == c * size,
            forall|q: int|
                0 <= q < out@.len() ==> out@[q] == routed(loss@, input@, *win, cn as int)[q],
        decreases cn - c,
    {
        proof {
            lemma_row_bounds(c as int, cn as int, size as int);
            lemma_row_bounds(c as int, cn as int, rows as int);
        }
        let plane = block_of(input, c, size);
        let l = block_of(loss, c, rows);
        let mut acc: Vec<T> = Vec::new();
        let mut p: usize = 0;
        while p < size
            invariant
                p <= size,
                acc@.len() == p,
                forall|q: int| 0 <= q < p ==> acc@[q] == T::zero_spec(),
            decreases size - p,
        {
            acc.push(T::zero());
            p += 1;
        }
        let mut row: usize = 0;
        while row < rows
            invariant
                win.valid(),
                pooling_fits(*win, cn as int),
                rows == win.rows(),
                size == win.plane(),
                row <= rows,
                plane@ == block(input@, c as int, win.plane()),
                plane@.len() == size,
                l@ == block(loss@, c as int, win.rows()),
                l@.len() == rows,
                acc@.len() == size,
                forall|q: int|
                    0 <= q < size ==> acc@[q] == fold_terms(
                        row as nat,
                        routed_terms(l@, plane@, *win, q),
                    ),
            decreases rows - row,
        {
            match find_max(plane, win, row) {
                Some(i) => {
                    let v = acc[i].add(l[row]);
                    acc.set(i, v);
                },
                None => {},
            }
            row += 1;
        }
        let mut p: usize = 0;
        while p < size
            invariant
                win.valid(),
                pooling_fits(*win, cn as int),
                size == win.plane(),
                c < cn,
                p <= size,
                plane@ == block(input@, c as int, win.plane()),
                l@ == block(loss@, c as int, win.rows()),
                acc@.len() == size,
                forall|q: int|
                    0 <= q < size ==> acc@[q] == fold_terms(
                        win.rows() as nat,
                        routed_terms(l@, plane@, *win, q),
                    ),
                out@.len() == c * size + p,
                forall|q: int|
                    0 <= q < out@.len() ==> out@[q] == routed(loss@, input@, *win, cn as int)[q],
            decreases size - p,
        {
            proof {
                lemma_join_index(c as int, p as int, size as int);
                lemma_flat_index(c as int, p as int, cn as int, size as int);
            }
            out.push(acc[p]);
            p += 1;
        }
        c += 1;
        assert((c - 1) * size + size == c * size) by (nonlinear_arith);
    }
    out
}

/// The operations of a max pooling layer, for one sample and for a batch: the
/// output and the gradient with respect to the input.
///
/// The input has `C` planes of `H` rows and `W` columns, the output `C`
/// planes of `OH` rows and `OW` columns. Where the window does not tile the
/// padded input, every operation gives `UnimplementedConfiguration`; where
/// `OH` and `OW` are not the output extents of the window, a size mismatch.
pub trait DeviceMaxPooling2D<
    T: Scalar,
    const C: usize,
    const H: usize,
    const W: usize,
    const FH: usize,
    const FW: usize,
    const PAD: usize,
    const S: usize,
    const OH: usize,
    const OW: usize,
> {
    /// The output of the layer for `input`: the greatest value under each
    /// window, the padding left out of the comparison.
    fn forward_maxpooling_2d<'a>(&self, input: ImagesView<'a, T, C, H, W>) -> (r: Result<
        Images<T, C, OH, OW>,
        TensorError,
    >)
        requires
            input.wf(),
            window_of(H, W, FH, FW, PAD, S).valid() ==> pooling_fits(
                window_of(H, W, FH, FW, PAD, S),
                C as int,
            ),
        ensures
            match shape_refusal(window_of(H, W, FH, FW, PAD, S), OH, OW) {
                Some(e) => r == Err::<Images<T, C, OH, OW>, _>(e),
                None => {
                    &&& r matches Ok(out)
                    &&& out.wf()
                    &&& out@ == pooled(input@, window_of(H, W, FH, FW, PAD, S), C as int)
                },
            },
    ;

    /// The gradient with respect to the input: the loss of each window goes
    /// to the cell that gave the window its greatest value, and a cell
    /// gathers from every window that it gave it to. `output` is what the
    /// layer gave for `input`; nothing is read from it.
    fn backward_maxpooling_2d<'a>(
        &self,
        loss: ImagesView<'a, T, C, OH, OW>,
        input: ImagesView<'a, T, C, H, W>,
        output: ImagesView<'a, T, C, OH, OW>,
    ) -> (r: Result<Images<T, C, H, W>, TensorError>)
        requires
            loss.wf(),
            input.wf(),
            window_of(H, W, FH, FW, PAD, S).valid() ==> pooling_fits(
                window_of(H, W, FH, FW, PAD, S),
                C as int,
            ),
        ensures
            match shape_refusal(window_of(H, W, FH, FW, PAD, S), OH, OW) {
                Some(e) => r == Err::<Images<T, C, H, W>, _>(e),
                None => {
                    &&& r matches Ok(out)
                    &&& out.wf()
                    &&& out@ == routed(loss@, input@, window_of(H, W, FH, FW, PAD, S), C as int)
                },
            },
    ;

    /// The outputs of the layer for the samples of `input`, each computed as
    /// for a single sample, the samples shared out among workers.
    fn batch_forward_maxpooling_2d(&self, input: &VecImages<T, C, H, W>) -> (r: Result<
        VecImages<T, C, OH, OW>,
        TensorError,
    >)
        requires
            input.wf(),
            window_of(H, W, FH, FW, PAD, S).valid() ==> pooling_fits(
                window_of(H, W, FH, FW, PAD, S),
                C as int,
            ),
        ensures
            match shape_refusal(window_of(H, W, FH, FW, PAD, S), OH, OW) {
                Some(e) => r == Err::<VecImages<T, C, OH, OW>, _>(e),
                None => {
                    &&& r matches Ok(out)
                    &&& out.wf()
                    &&& out.len_spec() == input.len_spec()
                    &&& out@ == batch_pooled(
                        input@,
                        window_of(H, W, FH, FW, PAD, S),
                        C as int,
                        input.len_spec() as int,
                    )
                },
            },
    ;

    /// The input gradients for the samples of a batch, each computed as for a
    /// single sample, the samples shared out among workers. A batch of losses
    /// or of outputs that does not hold as many samples as the batch of
    /// inputs is a size mismatch.
    fn batch_backward_maxpooling_2d(
        &self,
        loss: &VecImages<T, C, OH, OW>,
        input: &VecImages<T, C, H, W>,
        output: &VecImages<T, C, OH, OW>,
    ) -> (r: Result<VecImages<T, C, H, W>, TensorError>)
        requires
            loss.wf(),
            input.wf(),
            output.wf(),
            window_of(H, W, FH, FW, PAD, S).valid() ==> pooling_fits(
                window_of(H, W, FH, FW, PAD, S),
                C as int,
            ),
        ensures
            match shape_refusal(window_of(H, W, FH, FW, PAD, S), OH, OW) {
                Some(e) => r == Err::<VecImages<T, C, H, W>, _>(e),
                None => if loss.len_spec() != input.len_spec() {
                    r == Err::<VecImages<T, C, H, W>, _>(
                        TensorError::SizeMismatch(
                            SizeMismatchError(loss.len_spec(), input.len_spec()),
                        ),
                    )
                } else if output.len_spec() != input.len_spec() {
                    r == Err::<VecImages<T, C, H, W>, _>(
                        TensorError::SizeMismatch(
                            SizeMismatchError(output.len_spec(), input.len_spec()),
                        ),
                    )
                } else {
                    &&& r matches Ok(out)
                    &&& out.wf()
                    &&& out.len_spec() == input.len_spec()
                    &&& out@ == batch_routed(
                        loss@,
                        input@,
                        window_of(H, W, FH, FW, PAD, S),
                        C as int,
                        input.len_spec() as int,
                    )
                },
            },
    ;
}

impl<
    T: Scalar,
    const C: usize,
    const H: usize,
    const W: usize,
    const FH: usize,
    const FW: usize,
    const PAD: usize,
    const S: usize,
    const OH: usize,
    const OW: usize,
> DeviceMaxPooling2D<T, C, H, W, FH, FW, PAD, S, OH, OW> for DeviceCpu {
    fn forward_maxpooling_2d<'a>(&self, input: ImagesView<'a, T, C, H, W>) -> (r: Result<
        Images<T, C, OH, OW>,
        TensorError,
    >) {
        match check_shape(H, W, FH, FW, PAD, S, OH, OW) {
            Err(e) => Err(e),
            Ok(win) => {
                let cells = pool_cells(input.as_raw_slice(), &win, C);
                match Images::from_raw(cells) {
                    Ok(out) => Ok(out),
                    Err(e) => Err(TensorError::SizeMismatch(e)),
                }
            },
        }
    }

    fn backward_maxpooling_2d<'a>(
        &self,
        loss: ImagesView<'a, T, C, OH, OW>,
        input: ImagesView<'a, T, C, H, W>,
        output: ImagesView<'a, T, C, OH, OW>,
    ) -> (r: Result<Images<T, C, H, W>, TensorError>) {
        match check_shape(H, W, FH, FW, PAD, S, OH, OW) {
            Err(e) => Err(e),
            Ok(win) => {
                let cells = route_cells(loss.as_raw_slice(), input.as_raw_slice(), &win, C);
                match Images::from_raw(cells) {
                    Ok(out) => Ok(out),
                    Err(e) => Err(TensorError::SizeMismatch(e)),
                }
            },
        }
    }

    fn batch_forward_maxpooling_2d(&self, input: &VecImages<T, C, H, W>) -> (r: Result<
        VecImages<T, C, OH, OW>,
        TensorError,
    >) {
        let win = match check_shape(H, W, FH, FW, PAD, S, OH, OW) {
            Err(e) => {
                return Err(e);
            },
            Ok(win) => win,
        };
        let n = input.len();
        let results = par_map(
            n,
            |i: usize| -> (r: Result<Images<T, C, OH, OW>, TensorError>)
                requires
                    n > i,
                ensures
                    r matches Ok(out) && out.wf() && out@ == pooled(
                        input.sample(i as int),
                        win,
                        C as int,
                    )
                {
                    <DeviceCpu as DeviceMaxPooling2D<
                        T,
                        C,
                        H,
                        W,
                        FH,
                        FW,
                        PAD,
                        S,
                        OH,
                        OW,
                    >>::forward_maxpooling_2d(self, input.get(i))
                },
        );
        let ghost size = C * win.rows();
        let mut out: VecImages<T, C, OH, OW> = VecImages::new();
        let mut i: usize = 0;
        while i < n
            invariant
                n == input.len_spec(),
                results@.len() == n,
                forall|j: int|
                    0 <= j < n ==> ((#[trigger] results@[j]) matches Ok(images) && images.wf()
                        && images@ == pooled(input.sample(j), win, C as int)),
                win == window_of(H, W, FH, FW, PAD, S),
                OH == win.out_h(),
                OW == win.out_w(),
                size == C * win.rows(),
                i <= n,
                out.wf(),
                out.len_spec() == i,
                out@.len() == i * size,
                forall|o: int|
                    0 <= o < out@.len() ==> out@[o] == batch_pooled(
                        input@,
                        win,
                        C as int,
                        n as int,
                    )[o],
            decreases n - i,
        {
            match &results[i] {
                Ok(images) => {
                    proof {
                        assert forall|o: int| i * size <= o < i * size + size implies (
                        #[trigger] batch_pooled(input@, win, C as int, n as int)[o]) == images@[o
                            - i * size] by {
                            lemma_join_index(i as int, o - i * size, size);
                            lemma_flat_index(i as int, o - i * size, n as int, size);
                        }
                    }
                    out.push(images);
                },
                Err(e) => {
                    return Err(*e);
                },
            }
            i += 1;
            assert((i - 1) * size + size == i * size) by (nonlinear_arith);
        }
        Ok(out)
    }

    fn batch_backward_maxpooling_2d(
        &self,
        loss: &VecImages<T, C, OH, OW>,
        input: &VecImages<T, C, H, W>,
        output: &VecImages<T, C, OH, OW>,
    ) -> (r: Result<VecImages<T, C, H, W>, TensorError>) {
        let win = match check_shape(H, W, FH, FW, PAD, S, OH, OW) {
            Err(e) => {
                return Err(e);
            },
            Ok(win) => win,
        };
        let n = input.len();
        if loss.len() != n {
            return Err(TensorError::SizeMismatch(SizeMismatchError(loss.len(), n)));
        }
        if output.len() != n {
            return Err(TensorError::SizeMismatch(SizeMismatchError(output.len(), n)));
        }
        let results = par_map(
            n,
            |i: usize| -> (r: Result<Images<T, C, H, W>, TensorError>)
                requires
                    n > i,
                ensures
                    r matches Ok(out) && out.wf() && out@ == routed(
                        loss.sample(i as int),
                        input.sample(i as int),
                        win,
                        C as int,
                    )
                {
                    <DeviceCpu as DeviceMaxPooling2D<
                        T,
                        C,
                        H,
                        W,
                        FH,
                        FW,
                        PAD,
                        S,
                        OH,
                        OW,
                    >>::backward_maxpooling_2d(self, loss.get(i), input.get(i), output.get(i))
                },
        );
        let ghost size = C * win.plane();
        let mut out: VecImages<T, C, H, W> = VecImages::new();
        let mut i: usize = 0;
        while i < n
            invariant
                n == input.len_spec(),
                results@.len() == n,
                forall|j: int|
                    0 <= j < n ==> ((#[trigger] results@[j]) matches Ok(images) && images.wf()
                        && images@ == routed(loss.sample(j), input.sample(j), win, C as int)),
                win == window_of(H, W, FH, FW, PAD, S),
                OH == win.out_h(),
                OW == win.out_w(),
                size == C * win.plane(),
                i <= n,
                out.wf(),
                out.len_spec() == i,
                out@.len() == i * size,
                forall|q: int|
                    0 <= q < out@.len() ==> out@[q] == batch_routed(
                        loss@,
                        input@,
                        win,
                        C as int,
                        n as int,
                    )[q],
            decreases n - i,
        {
            match &results[i] {
                Ok(images) => {
                    proof {
                        assert forall|q: int| i * size <= q < i * size + size implies (
                        #[trigger] batch_routed(loss@, input@, win, C as int, n as int)[q])
                            == images@[q - i * size] by {
                            lemma_join_index(i as int, q - i * size, size);
                            lemma_flat_index(i as int, q - i * size, n as int, size);
                        }
                    }
                    out.push(images);
                },
                Err(e) => {
                    return Err(*e);
                },
            }
            i += 1;
            assert((i - 1) * size + size == i * size) by (nonlinear_arith);
        }
        Ok(out)
    }
}

/// The shapes of the two results: the output holds one cell per window
/// position of each plane, and the input gradient holds what the input holds.
pub proof fn lemma_pooling_shapes<T: Scalar>(input: Seq<T>, loss: Seq<T>, win: Window, cn: int)
    requires
        win.valid(),
        0 <= cn,
    ensures
        pooled(input, win, cn).len() == cn * (win.out_h() * win.out_w()),
        routed(loss, input, win, cn).len() == cn * (win.h * win.w),
{
    win.lemma_extents();
    assert(cn * win.rows() >= 0 && cn * win.plane() >= 0) by (nonlinear_arith)
        requires
            cn >= 0,
            win.rows() >= 0,
            win.plane() >= 0,
    ;
}

/// Among the first `n` cells of a window, the chosen cell is a cell under
/// one of them.
pub proof fn lemma_arg_max_is_under_window<T: Scalar>(
    plane: Seq<T>,
    win: Window,
    row: int,
    n: nat,
)
    ensures
        arg_max(plane, win, row, n) matches Some(b) ==> exists|j: int|
            0 <= j < n && #[trigger] win.source(row, j) == Some(b),
    decreases n,
{
    if n > 0 {
        lemma_arg_max_is_under_window(plane, win, row, (n - 1) as nat);
        if let Some(b) = arg_max(plane, win, row, n) {
            if win.source(row, n - 1) == Some(b) {
            } else {
                let j = choose|j: int| 0 <= j < n - 1 && #[trigger] win.source(row, j) == Some(b);
                assert(0 <= j < n && win.source(row, j) == Some(b));
            }
        }
    }
}

/// A window whose cell `col` holds a value greater than that of every other
/// cell under the window takes its greatest value from that cell, however
/// far the search has gone past it.
pub proof fn lemma_unique_maximum_stands<T: Semiring>(
    plane: Seq<T>,
    win: Window,
    row: int,
    col: int,
    n: nat,
)
    requires
        0 <= col < n,
        win.source(row, col) is Some,
        forall|other: int|
            0 <= other < n && other != col ==> (#[trigger] win.source(row, other) matches Some(
                i,
            ) ==> plane[win.source(row, col)->Some_0].gt_spec(plane[i])),
    ensures
        arg_max(plane, win, row, n) == win.source(row, col),
    decreases n,
{
    let m = win.source(row, col)->Some_0;
    if n - 1 == col {
        lemma_arg_max_is_under_window(plane, win, row, (n - 1) as nat);
        if let Some(b) = arg_max(plane, win, row, (n - 1) as nat) {
            let j = choose|j: int| 0 <= j < n - 1 && #[trigger] win.source(row, j) == Some(b);
            assert(plane[m].gt_spec(plane[b]));
        }
    } else {
        lemma_unique_maximum_stands(plane, win, row, col, (n - 1) as nat);
        if let Some(i) = win.source(row, n - 1) {
            assert(plane[m].gt_spec(plane[i]));
            T::lemma_gt_asymmetric(plane[m], plane[i]);
        }
    }
}

/// Routing of a window with a unique maximum: where cell `col` of window
/// `row` holds a value greater than that of every other cell under the
/// window, the whole loss of the window goes to the plane's cell under `col`,
/// and no other cell of the plane gets anything from this window.
pub proof fn lemma_unique_maximum_takes_all<T: Semiring>(
    loss: Seq<T>,
    plane: Seq<T>,
    win: Window,
    row: int,
    col: int,
)
    requires
        0 <= col < win.cols(),
        win.source(row, col) is Some,
        forall|other: int|
            0 <= other < win.cols() && other != col ==> (#[trigger] win.source(
                row,
                other,
            ) matches Some(i) ==> plane[win.source(row, col)->Some_0].gt_spec(plane[i])),
    ensures
        forall|p: int|
            #[trigger] routed_terms(loss, plane, win, p)(row) == if Some(p) == win.source(
                row,
                col,
            ) {
                Some(loss[row])
            } else {
                None
            },
{
    lemma_unique_maximum_stands(plane, win, row, col, win.cols() as nat);
}

/// The losses that reach the plane: that of each window that has a cell
/// under the plane, and so a cell that gave it its greatest value.
pub open spec fn reaching_terms<T: Scalar>(loss: Seq<T>, plane: Seq<T>, win: Window) -> spec_fn(
    int,
) -> Option<T> {
    |row: int|
        if arg_max(plane, win, row, win.cols() as nat) is Some {
            Some(loss[row])
        } else {
            None
        }
}

/// The gradient of one plane after the first `n` windows have handed their
/// losses back.
pub open spec fn routed_plane<T: Scalar>(loss: Seq<T>, plane: Seq<T>, win: Window, n: nat) -> Seq<T> {
    Seq::new(win.plane() as nat, |p: int| fold_terms(n, routed_terms(loss, plane, win, p)))
}

/// Routing loses nothing and adds nothing: after the first `n` windows the
/// gradient of a plane sums to the sum of the losses of those among them that
/// reach the plane.
pub proof fn lemma_routed_plane_total<T: Semiring>(
    loss: Seq<T>,
    plane: Seq<T>,
    win: Window,
    n: nat,
)
    requires
        win.valid(),
        n <= win.rows(),
    ensures
        total(routed_plane(loss, plane, win, n)) == fold_terms(
            n,
            reaching_terms(loss, plane, win),
        ),
    decreases n,
{
    let m = win.plane() as nat;
    let now = routed_plane(loss, plane, win, n);
    if n == 0 {
        lemma_fold_terms_zeros(m, cell_terms(now));
    } else {
        let row = n - 1;
        let before = routed_plane(loss, plane, win, (n - 1) as nat);
        lemma_routed_plane_total(loss, plane, win, (n - 1) as nat);
        match arg_max(plane, win, row, win.cols() as nat) {
            None => {
                assert(now =~= before);
            },
            Some(a) => {
                lemma_arg_max_is_under_window(plane, win, row, win.cols() as nat);
                let j = choose|j: int|
                    0 <= j < win.cols() && #[trigger] win.source(row, j) == Some(a);
                win.lemma_source_in_plane(row, j);
                let l = loss[row];
                assert forall|p: int| 0 <= p < m implies #[trigger] cell_terms(now)(p) == match (
                    cell_terms(before)(p),
                    point_terms(a, l)(p),
                ) {
                    (Some(u), Some(v)) => Some(u.add_spec(v)),
                    (Some(u), None) => Some(u),
                    (None, Some(v)) => Some(v),
                    (None, None) => None::<T>,
                } by {}
                lemma_fold_terms_added(
                    m,
                    cell_terms(before),
                    point_terms(a, l),
                    cell_terms(now),
                );
                lemma_fold_terms_point(m, a, l);
            },
        }
    }
}

/// The gradient of max pooling sums, plane by plane, to the sum of the
/// losses of the windows that reach the plane: each such window hands its
/// whole loss to one cell, and a window that lies in the padding altogether
/// hands it to none.
pub proof fn lemma_routed_total<T: Semiring>(
    loss: Seq<T>,
    input: Seq<T>,
    win: Window,
    cn: int,
    c: int,
)
    requires
        win.valid(),
        0 <= c < cn,
    ensures
        total(block(routed(loss, input, win, cn), c, win.plane())) == fold_terms(
            win.rows() as nat,
            reaching_terms(block(loss, c, win.rows()), block(input, c, win.plane()), win),
        ),
{
    let m = win.plane();
    win.lemma_extents();
    lemma_row_bounds(c, cn, m);
    let l = block(loss, c, win.rows());
    let x = block(input, c, m);
    assert forall|p: int| 0 <= p < m implies #[trigger] block(
        routed(loss, input, win, cn),
        c,
        m,
    )[p] == routed_plane(l, x, win, win.rows() as nat)[p] by {
        lemma_join_index(c, p, m);
        lemma_flat_index(c, p, cn, m);
    }
    assert(block(routed(loss, input, win, cn), c, m) =~= routed_plane(
        l,
        x,
        win,
        win.rows() as nat,
    ));
    lemma_routed_plane_total(l, x, win, win.rows() as nat);
}

/// The output of max pooling for a batch of one sample is the output for that
/// sample.
pub proof fn lemma_batch_pooled_of_one<T: Scalar>(input: Seq<T>, win: Window, cn: int)
    requires
        win.valid(),
        0 <= cn,
        input.len() == cn * win.plane(),
    ensures
        batch_pooled(input, win, cn, 1) == pooled(input, win, cn),
{
    let size = cn * win.rows();
    win.lemma_extents();
    assert(size >= 0) by (nonlinear_arith)
        requires
            size == cn * win.rows(),
            cn >= 0,
            win.rows() >= 0,
    ;
    assert(block(input, 0, cn * win.plane()) == input);
    assert forall|o: int| 0 <= o < size implies #[trigger] batch_pooled(input, win, cn, 1)[o]
        == pooled(input, win, cn)[o] by {
        lemma_join_index(0, o, size);
    }
}

} // verus!
