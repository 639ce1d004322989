//! The input gradient as the transpose of the convolution: what ties the
//! gradient to the output that it is the gradient of.

use crate::collection::block;
use crate::device::convolution::{
    backward, channel_terms, dot, forward, lemma_dot_adds, lemma_forward_adds,
    lemma_forward_adds_inputs, output_terms, position_terms, product_terms, scaled_filter,
    summed, weight_gradient,
};
use crate::reshape::{patches, reduced, scatter_terms};
use crate::scalar::{
    all_terms, fold_terms, lemma_fold_terms_added, lemma_fold_terms_congruent,
    lemma_fold_terms_point, lemma_fold_terms_zeros, lemma_sum_congruent, lemma_sum_exchanged,
    lemma_sum_flattened, lemma_sum_scaled_left, lemma_sum_scaled_right, point_terms, sum, Scalar,
    Semiring,
};
use crate::window::{lemma_flat_index, lemma_join_index, lemma_row_bounds, lemma_split_index, Window};
use vstd::prelude::*;

verus! {

/// The plane that the first `n` cells of a patch matrix fold back into.
pub open spec fn reduced_upto<T: Scalar>(cells: Seq<T>, win: Window, n: nat) -> Seq<T> {
    Seq::new(win.plane() as nat, |p: int| fold_terms(n, scatter_terms(cells, win, p)))
}

/// Folding back is the transpose of extracting, cell by cell of the patch
/// matrix: the first `n` patch cells of `cells`, each times the cell of the
/// patch matrix of `plane` at its place, sum to the dot product of what
/// those cells fold back into with `plane`.
pub proof fn lemma_reduce_transposes_upto<T: Semiring>(
    cells: Seq<T>,
    plane: Seq<T>,
    win: Window,
    n: nat,
)
    requires
        win.valid(),
        n <= win.rows() * win.cols(),
    ensures
        fold_terms(n, product_terms(cells, patches(plane, T::zero_spec(), win))) == dot(
            reduced_upto(cells, win, n),
            plane,
        ),
    decreases n,
{
    let m = win.plane() as nat;
    let now = reduced_upto(cells, win, n);
    let extracted = patches(plane, T::zero_spec(), win);
    if n == 0 {
        assert forall|p: int| 0 <= p < m implies #[trigger] product_terms(now, plane)(p) == Some(
            T::zero_spec(),
        ) by {
            T::lemma_mul_zero(plane[p]);
        }
        lemma_fold_terms_zeros(m, product_terms(now, plane));
    } else {
        let j = n - 1;
        let before = reduced_upto(cells, win, (n - 1) as nat);
        lemma_reduce_transposes_upto(cells, plane, win, (n - 1) as nat);
        win.lemma_extents();
        assert(win.cols() > 0) by (nonlinear_arith)
            requires
                0 <= j < win.rows() * win.cols(),
                win.rows() >= 1,
                win.cols() >= 0,
        ;
        lemma_split_index(j, win.cols(), win.rows());
        match win.source(j / win.cols(), j % win.cols()) {
            None => {
                assert(now =~= before);
                T::lemma_mul_commutative(cells[j], T::zero_spec());
                T::lemma_mul_zero(cells[j]);
                T::lemma_add_zero(fold_terms(j as nat, product_terms(cells, extracted)));
            },
            Some(a) => {
                win.lemma_source_in_plane(j / win.cols(), j % win.cols());
                let v = cells[j].mul_spec(plane[a]);
                assert forall|p: int| 0 <= p < m implies #[trigger] product_terms(now, plane)(p)
                    == match (product_terms(before, plane)(p), point_terms(a, v)(p)) {
                    (Some(u), Some(w)) => Some(u.add_spec(w)),
                    (Some(u), None) => Some(u),
                    (None, Some(w)) => Some(w),
                    (None, None) => None::<T>,
                } by {
                    if p == a {
                        T::lemma_mul_distributes_right(before[p], cells[j], plane[p]);
                    }
                }
                lemma_fold_terms_added(
                    m,
                    product_terms(before, plane),
                    point_terms(a, v),
                    product_terms(now, plane),
                );
                lemma_fold_terms_point(m, a, v);
            },
        }
    }
}

/// Folding back is the transpose of extracting: the dot product of a matrix
/// of patches with the patch matrix of a plane is the dot product of what the
/// patches fold back into with the plane.
pub proof fn lemma_reduce_transposes<T: Semiring>(cells: Seq<T>, plane: Seq<T>, win: Window)
    requires
        win.valid(),
        cells.len() == win.rows() * win.cols(),
    ensures
        dot(cells, patches(plane, T::zero_spec(), win)) == dot(reduced(cells, win), plane),
{
    lemma_reduce_transposes_upto(cells, plane, win, cells.len());
    assert(reduced_upto(cells, win, cells.len()) =~= reduced(cells, win));
}

/// The products of two lists, cell by cell.
pub open spec fn products<T: Scalar>(a: Seq<T>, b: Seq<T>) -> spec_fn(int) -> T {
    |i: int| a[i].mul_spec(b[i])
}

/// A dot product is the sum of the products.
pub proof fn lemma_dot_is_sum<T: Scalar>(a: Seq<T>, b: Seq<T>)
    ensures
        dot(a, b) == sum(a.len(), products(a, b)),
{
    lemma_fold_terms_congruent(a.len(), product_terms(a, b), all_terms(products(a, b)));
}

/// A convolution with what flows through it: the input, the kernel and the
/// gradient with respect to the output, over `cn` input and `kn` output
/// channels.
pub struct Flow<T> {
    pub input: Seq<T>,
    pub kernel: Seq<T>,
    pub loss: Seq<T>,
    pub win: Window,
    pub cn: int,
    pub kn: int,
}

impl<T: Scalar> Flow<T> {
    /// The three buffers hold what their shapes say.
    pub open spec fn wf(self) -> bool {
        &&& self.win.valid()
        &&& 0 <= self.cn
        &&& 0 <= self.kn
        &&& self.input.len() == self.cn * self.win.plane()
        &&& self.kernel.len() == self.kn * self.cn * self.win.cols()
        &&& self.loss.len() == self.kn * self.win.rows()
    }

    /// The patch matrix of input channel `c`.
    pub open spec fn extracted(self, c: int) -> Seq<T> {
        patches(block(self.input, c, self.win.plane()), T::zero_spec(), self.win)
    }

    /// The filter that leads from input channel `c` to output channel `k`.
    pub open spec fn filter(self, k: int, c: int) -> Seq<T> {
        block(self.kernel, k * self.cn + c, self.win.cols())
    }

    /// The gradient patches that output channel `k` hands to input channel
    /// `c`.
    pub open spec fn handed(self, k: int, c: int) -> Seq<T> {
        scaled_filter(block(self.loss, k, self.win.rows()), self.filter(k, c))
    }

    /// What passes between output channel `k` and input channel `c`: the dot
    /// product of the gradient patches with the patches of the input.
    pub open spec fn passed(self, k: int, c: int) -> T {
        dot(self.handed(k, c), self.extracted(c))
    }

    /// What passes from output channel `k`, by input channel.
    pub open spec fn passed_from(self, k: int) -> spec_fn(int) -> T {
        |c: int| self.passed(k, c)
    }

    /// What passes to input channel `c`, by output channel.
    pub open spec fn passed_to(self, c: int) -> spec_fn(int) -> T {
        |k: int| self.passed(k, c)
    }

    /// What passes from each output channel in all.
    pub open spec fn all_from(self) -> spec_fn(int) -> T {
        |k: int| sum(self.cn as nat, self.passed_from(k))
    }

    /// What passes to each input channel in all.
    pub open spec fn all_to(self) -> spec_fn(int) -> T {
        |c: int| sum(self.kn as nat, self.passed_to(c))
    }

    /// What input channel `c` gives to the output of channel `k` at window
    /// `row`.
    pub open spec fn given(self, k: int, c: int, row: int) -> T {
        dot(block(self.extracted(c), row, self.win.cols()), self.filter(k, c))
    }

    /// The loss at window `row` of output channel `k`.
    pub open spec fn loss_at(self, k: int, row: int) -> T {
        self.loss[k * self.win.rows() + row]
    }

    /// What the input channels give at window `row` of output channel `k`.
    pub open spec fn given_at(self, k: int, row: int) -> spec_fn(int) -> T {
        |c: int| self.given(k, c, row)
    }

    /// The loss at a window times what each input channel gives there.
    pub open spec fn weighed_at(self, k: int) -> spec_fn(int) -> spec_fn(int) -> T {
        |row: int| |c: int| self.loss_at(k, row).mul_spec(self.given(k, c, row))
    }

    /// The loss at each window times what one input channel gives there.
    pub open spec fn weighed_by(self, k: int) -> spec_fn(int) -> spec_fn(int) -> T {
        |c: int| |row: int| self.loss_at(k, row).mul_spec(self.given(k, c, row))
    }

    /// The loss times the output, window by window of output channel `k`.
    pub open spec fn loss_output(self) -> spec_fn(int) -> spec_fn(int) -> T {
        |k: int|
            |row: int|
                products(
                    self.loss,
                    forward(self.input, self.kernel, self.win, self.cn, self.kn),
                )(k * self.win.rows() + row)
    }

    /// The products of the gradient patches with the patches of the input,
    /// cell by cell of window `row`.
    pub open spec fn handed_extracted(self, k: int, c: int) -> spec_fn(int) -> spec_fn(int) -> T {
        |row: int|
            |i: int|
                products(self.handed(k, c), self.extracted(c))(row * self.win.cols() + i)
    }

    /// What output channel `k` hands back to cell `p` of input channel `c`.
    pub open spec fn returned(self, k: int, c: int) -> Seq<T> {
        reduced(self.handed(k, c), self.win)
    }

    /// What each output channel hands back to cell `p` of input channel `c`.
    pub open spec fn returned_at(self, c: int, p: int) -> spec_fn(int) -> T {
        |k: int| self.returned(k, c)[p]
    }

    /// What is handed back to a cell times the cell, by output channel.
    pub open spec fn taken_at(self, c: int) -> spec_fn(int) -> spec_fn(int) -> T {
        |p: int|
            |k: int|
                self.returned(k, c)[p].mul_spec(self.input[c * self.win.plane() + p])
    }

    /// What one output channel hands back to each cell times the cell.
    pub open spec fn taken_by(self, c: int) -> spec_fn(int) -> spec_fn(int) -> T {
        |k: int|
            |p: int|
                self.returned(k, c)[p].mul_spec(self.input[c * self.win.plane() + p])
    }

    /// The input gradient times the input, cell by cell of input channel `c`.
    pub open spec fn gradient_input(self) -> spec_fn(int) -> spec_fn(int) -> T {
        |c: int|
            |p: int|
                products(
                    backward(self.loss, self.kernel, self.win, self.cn, self.kn),
                    self.input,
                )(c * self.win.plane() + p)
    }

    /// The gradient with respect to the weights.
    pub open spec fn weights(self) -> Seq<T> {
        weight_gradient(self.loss, self.input, self.win, self.cn, self.kn)
    }

    /// What each window gives to weight `i` of the filter between output
    /// channel `k` and input channel `c`.
    pub open spec fn gathered(self, k: int, c: int, i: int) -> spec_fn(int) -> T {
        |row: int|
            self.loss_at(k, row).mul_spec(self.extracted(c)[row * self.win.cols() + i])
    }

    /// The weight gradient times the kernel, weight by weight of filter `f`.
    pub open spec fn weights_kernel(self) -> spec_fn(int) -> spec_fn(int) -> T {
        |f: int| |i: int| products(self.weights(), self.kernel)(f * self.win.cols() + i)
    }

    /// What each window gives to a weight, times the weight.
    pub open spec fn gathered_at(self, k: int, c: int) -> spec_fn(int) -> spec_fn(int) -> T {
        |i: int|
            |row: int|
                self.gathered(k, c, i)(row).mul_spec(self.filter(k, c)[i])
    }

    /// What one window gives to each weight, times the weight.
    pub open spec fn gathered_by(self, k: int, c: int) -> spec_fn(int) -> spec_fn(int) -> T {
        |row: int|
            |i: int|
                self.gathered(k, c, i)(row).mul_spec(self.filter(k, c)[i])
    }

    /// What passes through filter `f`, the filters counted as the kernel
    /// holds them.
    pub open spec fn passed_through(self) -> spec_fn(int) -> T {
        |f: int| self.passed(f / self.cn, f % self.cn)
    }

    /// What passes from output channel `k`, by input channel, for every `k`.
    pub open spec fn passed_by(self) -> spec_fn(int) -> spec_fn(int) -> T {
        |k: int| self.passed_from(k)
    }

    /// Output channel `k` and input channel `c` are channels of the flow, and
    /// so their blocks lie within the buffers.
    pub proof fn lemma_blocks(self, k: int, c: int)
        requires
            self.wf(),
            0 <= k < self.kn,
            0 <= c < self.cn,
        ensures
            self.filter(k, c).len() == self.win.cols(),
            block(self.loss, k, self.win.rows()).len() == self.win.rows(),
            block(self.input, c, self.win.plane()).len() == self.win.plane(),
            self.handed(k, c).len() == self.win.rows() * self.win.cols(),
            self.extracted(c).len() == self.win.rows() * self.win.cols(),
            self.returned(k, c).len() == self.win.plane(),
            self.win.rows() >= 1,
            self.win.cols() >= 0,
            self.win.plane() >= 0,
            forall|row: int|
                0 <= row < self.win.rows() ==> #[trigger] block(
                    self.loss,
                    k,
                    self.win.rows(),
                )[row] == self.loss_at(k, row),
            forall|p: int|
                0 <= p < self.win.plane() ==> #[trigger] block(
                    self.input,
                    c,
                    self.win.plane(),
                )[p] == self.input[c * self.win.plane() + p],
    {
        self.win.lemma_extents();
        lemma_flat_index(k, c, self.kn, self.cn);
        lemma_row_bounds(k * self.cn + c, self.kn * self.cn, self.win.cols());
        lemma_row_bounds(k, self.kn, self.win.rows());
        lemma_row_bounds(c, self.cn, self.win.plane());
        assert(self.win.rows() * self.win.cols() >= 0) by (nonlinear_arith)
            requires
                self.win.rows() >= 0,
                self.win.cols() >= 0,
        ;
    }
}

impl<T: Semiring> Flow<T> {
    /// The loss at a window times what a channel gives there is the sum,
    /// over the cells of the window, of the gradient patch times the patch.
    proof fn lemma_window(self, k: int, c: int, row: int)
        requires
            self.wf(),
            0 <= k < self.kn,
            0 <= c < self.cn,
            0 <= row < self.win.rows(),
        ensures
            self.weighed_by(k)(c)(row) == sum(
                self.win.cols() as nat,
                self.handed_extracted(k, c)(row),
            ),
    {
        let cols = self.win.cols();
        self.lemma_blocks(k, c);
        lemma_row_bounds(row, self.win.rows(), cols);
        let patch = block(self.extracted(c), row, cols);
        let filter = self.filter(k, c);
        let l = self.loss_at(k, row);
        lemma_dot_is_sum(patch, filter);
        assert forall|i: int| 0 <= i < cols implies #[trigger] self.handed_extracted(k, c)(row)(i)
            == l.mul_spec(products(patch, filter)(i)) by {
            lemma_join_index(row, i, cols);
            lemma_flat_index(row, i, self.win.rows(), cols);
            T::lemma_mul_commutative(filter[i], l);
            T::lemma_mul_associative(l, filter[i], patch[i]);
            T::lemma_mul_commutative(filter[i], patch[i]);
        }
        lemma_sum_scaled_left(
            cols as nat,
            products(patch, filter),
            self.handed_extracted(k, c)(row),
            l,
        );
    }

    /// What passes between two channels is the sum, over the windows, of the
    /// loss at the window times what the input channel gives there.
    proof fn lemma_pair(self, k: int, c: int)
        requires
            self.wf(),
            0 <= k < self.kn,
            0 <= c < self.cn,
        ensures
            self.passed(k, c) == sum(self.win.rows() as nat, self.weighed_by(k)(c)),
    {
        let rows = self.win.rows() as nat;
        let cols = self.win.cols() as nat;
        self.lemma_blocks(k, c);
        lemma_dot_is_sum(self.handed(k, c), self.extracted(c));
        assert forall|row: int| 0 <= row < rows implies #[trigger] self.weighed_by(k)(c)(row)
            == sum(cols, self.handed_extracted(k, c)(row)) by {
            self.lemma_window(k, c, row);
        }
        lemma_sum_flattened(
            rows,
            cols,
            products(self.handed(k, c), self.extracted(c)),
            self.handed_extracted(k, c),
            self.weighed_by(k)(c),
        );
    }

    /// The loss at a window times the output there is the sum, over the
    /// input channels, of the loss times what each gives.
    proof fn lemma_output_cell(self, k: int, row: int)
        requires
            self.wf(),
            0 <= k < self.kn,
            0 <= row < self.win.rows(),
        ensures
            self.loss_output()(k)(row) == sum(self.cn as nat, self.weighed_at(k)(row)),
    {
        let rows = self.win.rows();
        self.win.lemma_extents();
        lemma_join_index(k, row, rows);
        lemma_flat_index(k, row, self.kn, rows);
        lemma_fold_terms_congruent(
            self.cn as nat,
            channel_terms(self.input, self.kernel, self.win, self.cn, k, row),
            all_terms(self.given_at(k, row)),
        );
        lemma_sum_scaled_left(
            self.cn as nat,
            self.given_at(k, row),
            self.weighed_at(k)(row),
            self.loss_at(k, row),
        );
    }

    /// The loss times the output, summed over the windows of an output
    /// channel, is what passes from that channel in all.
    proof fn lemma_output_channel(self, k: int)
        requires
            self.wf(),
            0 <= k < self.kn,
        ensures
            self.all_from()(k) == sum(self.win.rows() as nat, self.loss_output()(k)),
    {
        let rows = self.win.rows() as nat;
        self.win.lemma_extents();
        assert forall|row: int| 0 <= row < rows implies #[trigger] self.loss_output()(k)(row)
            == sum(self.cn as nat, self.weighed_at(k)(row)) by {
            self.lemma_output_cell(k, row);
        }
        assert forall|c: int| 0 <= c < self.cn implies #[trigger] self.passed_from(k)(c) == sum(
            rows,
            self.weighed_by(k)(c),
        ) by {
            self.lemma_pair(k, c);
        }
        lemma_sum_exchanged(
            rows,
            self.cn as nat,
            self.weighed_at(k),
            self.weighed_by(k),
            self.loss_output()(k),
            self.passed_from(k),
        );
    }

    /// The dot product of the loss with the output is what passes from all
    /// output channels.
    proof fn lemma_output_side(self)
        requires
            self.wf(),
        ensures
            dot(self.loss, forward(self.input, self.kernel, self.win, self.cn, self.kn)) == sum(
                self.kn as nat,
                self.all_from(),
            ),
    {
        let output = forward(self.input, self.kernel, self.win, self.cn, self.kn);
        self.win.lemma_extents();
        lemma_dot_is_sum(self.loss, output);
        assert forall|k: int| 0 <= k < self.kn implies #[trigger] self.all_from()(k) == sum(
            self.win.rows() as nat,
            self.loss_output()(k),
        ) by {
            self.lemma_output_channel(k);
        }
        lemma_sum_flattened(
            self.kn as nat,
            self.win.rows() as nat,
            products(self.loss, output),
            self.loss_output(),
            self.all_from(),
        );
    }

    /// The input gradient at a cell times the cell is the sum, over the
    /// output channels, of what each hands back times the cell.
    proof fn lemma_gradient_cell(self, c: int, p: int)
        requires
            self.wf(),
            0 <= c < self.cn,
            0 <= p < self.win.plane(),
        ensures
            self.gradient_input()(c)(p) == sum(self.kn as nat, self.taken_at(c)(p)),
    {
        let m = self.win.plane();
        lemma_join_index(c, p, m);
        lemma_flat_index(c, p, self.cn, m);
        lemma_fold_terms_congruent(
            self.kn as nat,
            output_terms(self.loss, self.kernel, self.win, self.cn, c, p),
            all_terms(self.returned_at(c, p)),
        );
        lemma_sum_scaled_right(
            self.kn as nat,
            self.returned_at(c, p),
            self.taken_at(c)(p),
            self.input[c * m + p],
        );
    }

    /// The input gradient times the input, summed over the cells of an input
    /// channel, is what passes to that channel in all.
    proof fn lemma_gradient_channel(self, c: int)
        requires
            self.wf(),
            0 <= c < self.cn,
        ensures
            self.all_to()(c) == sum(self.win.plane() as nat, self.gradient_input()(c)),
    {
        let m = self.win.plane() as nat;
        assert forall|p: int| 0 <= p < m implies #[trigger] self.gradient_input()(c)(p) == sum(
            self.kn as nat,
            self.taken_at(c)(p),
        ) by {
            self.lemma_gradient_cell(c, p);
        }
        assert forall|k: int| 0 <= k < self.kn implies #[trigger] self.passed_to(c)(k) == sum(
            m,
            self.taken_by(c)(k),
        ) by {
            self.lemma_blocks(k, c);
            let plane = block(self.input, c, self.win.plane());
            lemma_reduce_transposes(self.handed(k, c), plane, self.win);
            lemma_dot_is_sum(self.returned(k, c), plane);
            lemma_sum_congruent(m, products(self.returned(k, c), plane), self.taken_by(c)(k));
        }
        lemma_sum_exchanged(
            m,
            self.kn as nat,
            self.taken_at(c),
            self.taken_by(c),
            self.gradient_input()(c),
            self.passed_to(c),
        );
    }

    /// The dot product of the input gradient with the input is what passes
    /// to all input channels.
    proof fn lemma_gradient_side(self)
        requires
            self.wf(),
        ensures
            dot(backward(self.loss, self.kernel, self.win, self.cn, self.kn), self.input) == sum(
                self.cn as nat,
                self.all_to(),
            ),
    {
        let gradient = backward(self.loss, self.kernel, self.win, self.cn, self.kn);
        assert(self.cn * self.win.plane() >= 0) by (nonlinear_arith)
            requires
                self.cn >= 0,
                self.win.plane() >= 0,
        ;
        lemma_dot_is_sum(gradient, self.input);
        assert forall|c: int| 0 <= c < self.cn implies #[trigger] self.all_to()(c) == sum(
            self.win.plane() as nat,
            self.gradient_input()(c),
        ) by {
            self.lemma_gradient_channel(c);
        }
        lemma_sum_flattened(
            self.cn as nat,
            self.win.plane() as nat,
            products(gradient, self.input),
            self.gradient_input(),
            self.all_to(),
        );
    }
}

/// The input gradient is the transpose of the convolution: the dot product of
/// a loss with the output for an input is the dot product of the input
/// gradient of that loss with the input. So what a change of the input adds
/// to the loss-weighted output is the input gradient times the change.
pub proof fn lemma_backward_transposes_forward<T: Semiring>(
    input: Seq<T>,
    kernel: Seq<T>,
    loss: Seq<T>,
    win: Window,
    cn: int,
    kn: int,
)
    requires
        win.valid(),
        0 <= cn,
        0 <= kn,
        input.len() == cn * win.plane(),
        kernel.len() == kn * cn * win.cols(),
        loss.len() == kn * win.rows(),
    ensures
        dot(loss, forward(input, kernel, win, cn, kn)) == dot(
            backward(loss, kernel, win, cn, kn),
            input,
        ),
{
    let flow = Flow { input, kernel, loss, win, cn, kn };
    flow.lemma_output_side();
    flow.lemma_gradient_side();
    lemma_sum_exchanged(
        kn as nat,
        cn as nat,
        |k: int| flow.passed_from(k),
        |c: int| flow.passed_to(c),
        flow.all_from(),
        flow.all_to(),
    );
}

/// The input gradient is what a change of the input does to the output, loss
/// by loss: with `change` added to the input, the dot product of the loss
/// with the output grows by the dot product of the input gradient with the
/// change.
pub proof fn lemma_gradient_is_difference<T: Semiring>(
    input: Seq<T>,
    change: Seq<T>,
    kernel: Seq<T>,
    loss: Seq<T>,
    win: Window,
    cn: int,
    kn: int,
)
    requires
        win.valid(),
        0 <= cn,
        0 <= kn,
        input.len() == cn * win.plane(),
        change.len() == cn * win.plane(),
        kernel.len() == kn * cn * win.cols(),
        loss.len() == kn * win.rows(),
    ensures
        dot(loss, forward(summed(input, change), kernel, win, cn, kn)) == dot(
            loss,
            forward(input, kernel, win, cn, kn),
        ).add_spec(dot(backward(loss, kernel, win, cn, kn), change)),
{
    lemma_forward_adds_inputs(input, change, kernel, win, cn, kn);
    lemma_dot_adds(
        loss,
        forward(input, kernel, win, cn, kn),
        forward(change, kernel, win, cn, kn),
    );
    lemma_backward_transposes_forward(change, kernel, loss, win, cn, kn);
}

impl<T: Semiring> Flow<T> {
    /// The weight gradient of a filter times the filter, summed over its
    /// weights, is what passes through the filter.
    proof fn lemma_filter(self, k: int, c: int)
        requires
            self.wf(),
            0 <= k < self.kn,
            0 <= c < self.cn,
        ensures
            self.passed(k, c) == sum(
                self.win.cols() as nat,
                self.weights_kernel()(k * self.cn + c),
            ),
    {
        let rows = self.win.rows();
        let cols = self.win.cols();
        let f = k * self.cn + c;
        let filter = self.filter(k, c);
        self.lemma_blocks(k, c);
        lemma_flat_index(k, c, self.kn, self.cn);
        lemma_row_bounds(f, self.kn * self.cn, cols);
        assert forall|i: int| 0 <= i < cols implies #[trigger] self.weights_kernel()(f)(i) == sum(
            rows as nat,
            self.gathered_at(k, c)(i),
        ) by {
            lemma_flat_index(f, i, self.kn * self.cn, cols);
            lemma_join_index(f, i, cols);
            lemma_join_index(k, c, self.cn);
            lemma_fold_terms_congruent(
                rows as nat,
                position_terms(
                    block(self.loss, k, rows),
                    self.extracted(c),
                    cols,
                    i,
                ),
                all_terms(self.gathered(k, c, i)),
            );
            lemma_sum_scaled_right(
                rows as nat,
                self.gathered(k, c, i),
                self.gathered_at(k, c)(i),
                filter[i],
            );
        }
        assert forall|row: int| 0 <= row < rows implies #[trigger] self.weighed_by(k)(c)(row)
            == sum(cols as nat, self.gathered_by(k, c)(row)) by {
            self.lemma_window(k, c, row);
            assert forall|i: int| 0 <= i < cols implies #[trigger] self.handed_extracted(
                k,
                c,
            )(row)(i) == self.gathered_by(k, c)(row)(i) by {
                lemma_join_index(row, i, cols);
                lemma_flat_index(row, i, rows, cols);
                let l = self.loss_at(k, row);
                let p = self.extracted(c)[row * cols + i];
                T::lemma_mul_commutative(filter[i], l);
                T::lemma_mul_associative(l, filter[i], p);
                T::lemma_mul_commutative(filter[i], p);
                T::lemma_mul_associative(l, p, filter[i]);
            }
            lemma_sum_congruent(
                cols as nat,
                self.handed_extracted(k, c)(row),
                self.gathered_by(k, c)(row),
            );
        }
        lemma_sum_exchanged(
            cols as nat,
            rows as nat,
            self.gathered_at(k, c),
            self.gathered_by(k, c),
            self.weights_kernel()(f),
            self.weighed_by(k)(c),
        );
        self.lemma_pair(k, c);
    }

    /// The dot product of the weight gradient with the kernel is what passes
    /// from all output channels.
    proof fn lemma_weight_side(self)
        requires
            self.wf(),
        ensures
            dot(self.weights(), self.kernel) == sum(self.kn as nat, self.all_from()),
    {
        let cols = self.win.cols();
        let filters = self.kn * self.cn;
        assert(filters >= 0 && filters * cols >= 0) by (nonlinear_arith)
            requires
                filters == self.kn * self.cn,
                self.kn >= 0,
                self.cn >= 0,
                cols >= 0,
        ;
        lemma_dot_is_sum(self.weights(), self.kernel);
        assert forall|f: int| 0 <= f < filters implies #[trigger] self.passed_through()(f) == sum(
            cols as nat,
            self.weights_kernel()(f),
        ) by {
            assert(self.cn > 0) by (nonlinear_arith)
                requires
                    0 <= f < self.kn * self.cn,
                    self.kn >= 0,
                    self.cn >= 0,
            ;
            lemma_split_index(f, self.cn, self.kn);
            self.lemma_filter(f / self.cn, f % self.cn);
        }
        lemma_sum_flattened(
            filters as nat,
            cols as nat,
            products(self.weights(), self.kernel),
            self.weights_kernel(),
            self.passed_through(),
        );
        assert forall|k: int, c: int|
            0 <= k < self.kn && 0 <= c < self.cn implies #[trigger] self.passed_by()(k)(c)
            == self.passed_through()(k * self.cn + c) by {
            lemma_join_index(k, c, self.cn);
        }
        lemma_sum_flattened(
            self.kn as nat,
            self.cn as nat,
            self.passed_through(),
            self.passed_by(),
            self.all_from(),
        );
    }
}

/// The weight gradient is the transpose of the convolution taken as a
/// function of its kernel: the dot product of a loss with the output for a
/// kernel is the dot product of the weight gradient of that loss with the
/// kernel.
pub proof fn lemma_weights_transpose_forward<T: Semiring>(
    input: Seq<T>,
    kernel: Seq<T>,
    loss: Seq<T>,
    win: Window,
    cn: int,
    kn: int,
)
    requires
        win.valid(),
        0 <= cn,
        0 <= kn,
        input.len() == cn * win.plane(),
        kernel.len() == kn * cn * win.cols(),
        loss.len() == kn * win.rows(),
    ensures
        dot(loss, forward(input, kernel, win, cn, kn)) == dot(
            weight_gradient(loss, input, win, cn, kn),
            kernel,
        ),
{
    let flow = Flow { input, kernel, loss, win, cn, kn };
    flow.lemma_output_side();
    flow.lemma_weight_side();
}

/// The weight gradient is what a change of the kernel does to the output,
/// loss by loss: with `change` added to the kernel, the dot product of the
/// loss with the output grows by the dot product of the weight gradient with
/// the change.
pub proof fn lemma_weight_gradient_is_difference<T: Semiring>(
    input: Seq<T>,
    kernel: Seq<T>,
    change: Seq<T>,
    loss: Seq<T>,
    win: Window,
    cn: int,
    kn: int,
)
    requires
        win.valid(),
        0 <= cn,
        0 <= kn,
        input.len() == cn * win.plane(),
        kernel.len() == kn * cn * win.cols(),
        change.len() == kn * cn * win.cols(),
        loss.len() == kn * win.rows(),
    ensures
        dot(loss, forward(input, summed(kernel, change), win, cn, kn)) == dot(
            loss,
            forward(input, kernel, win, cn, kn),
        ).add_spec(dot(weight_gradient(loss, input, win, cn, kn), change)),
{
    lemma_forward_adds(input, kernel, change, win, cn, kn);
    lemma_dot_adds(
        loss,
        forward(input, kernel, win, cn, kn),
        forward(input, change, win, cn, kn),
    );
    lemma_weights_transpose_forward(input, change, loss, win, cn, kn);
}

} // verus!
