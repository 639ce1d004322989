//! The geometry of sliding windows, and the index arithmetic of row-major
//! buffers.

use vstd::prelude::*;

verus! {

/// Whether windows of `win` cells, moved `stride` cells at a time, tile an
/// axis of `len` cells padded by `pad` cells on both sides: the padded axis
/// is at least as long as the window, and the stride divides what the window
/// leaves over. The padded extent is one that the index type can hold.
pub open spec fn axis_fits(len: int, win: int, pad: int, stride: int) -> bool {
    &&& stride > 0
    &&& len + 2 * pad <= usize::MAX
    &&& len + 2 * pad >= win
    &&& (len + 2 * pad - win) % stride == 0
}

/// The number of window positions along such an axis.
pub open spec fn out_extent(len: int, win: int, pad: int, stride: int) -> int {
    (len + 2 * pad - win) / stride + 1
}

/// `a * nb + b` is a position in an array of `na * nb` cells.
pub proof fn lemma_flat_index(a: int, b: int, na: int, nb: int)
    requires
        0 <= a < na,
        0 <= b < nb,
    ensures
        0 <= a * nb + b < na * nb,
        a * nb + b + (nb - b) <= na * nb,
{
    assert(a * nb + nb <= na * nb) by (nonlinear_arith)
        requires
            0 <= a < na,
            0 <= nb,
    ;
    assert(0 <= a * nb) by (nonlinear_arith)
        requires
            0 <= a,
            0 <= nb,
    ;
}

/// Row `a` of an array of `na` rows of `nb` cells starts at `a * nb` and ends
/// within the array.
pub proof fn lemma_row_bounds(a: int, na: int, nb: int)
    requires
        0 <= a < na,
        0 <= nb,
    ensures
        0 <= a * nb,
        (a + 1) * nb == a * nb + nb,
        (a + 1) * nb <= na * nb,
{
    assert(0 <= a * nb && (a + 1) * nb == a * nb + nb && (a + 1) * nb <= na * nb)
        by (nonlinear_arith)
        requires
            0 <= a < na,
            0 <= nb,
    ;
}

/// A position in an array of `n * d` cells splits into a row below `n` and a
/// column below `d`.
pub proof fn lemma_split_index(x: int, d: int, n: int)
    requires
        0 <= x < n * d,
        d > 0,
    ensures
        0 <= x / d < n,
        0 <= x % d < d,
        x == (x / d) * d + x % d,
{
    vstd::arithmetic::div_mod::lemma_fundamental_div_mod(x, d);
    vstd::arithmetic::div_mod::lemma_mod_bound(x, d);
    vstd::arithmetic::div_mod::lemma_div_pos_is_pos(x, d);
    assert(d * (x / d) == (x / d) * d) by (nonlinear_arith);
    assert(x / d < n) by (nonlinear_arith)
        requires
            (x / d) * d <= x,
            x < n * d,
            d > 0,
    ;
}

/// Row `q` and column `r` are what the position `q * d + r` splits into.
pub proof fn lemma_join_index(q: int, r: int, d: int)
    requires
        0 <= r < d,
    ensures
        (q * d + r) / d == q,
        (q * d + r) % d == r,
{
    vstd::arithmetic::div_mod::lemma_fundamental_div_mod_converse(q * d + r, d, q, r);
}

/// The window over a plane of `h` rows and `w` columns.
pub open spec fn window_of(h: usize, w: usize, fh: usize, fw: usize, pad: usize, s: usize) -> Window {
    Window { h, w, fh, fw, pad, s }
}

/// The geometry of a sliding window over one plane: the plane's height and
/// width, the window's height and width, the padding on each side and the
/// stride.
#[derive(Clone, Copy, Debug)]
pub struct Window {
    pub h: usize,
    pub w: usize,
    pub fh: usize,
    pub fw: usize,
    pub pad: usize,
    pub s: usize,
}

impl Window {
    /// The windows tile the padded plane on both axes.
    pub open spec fn valid(&self) -> bool {
        &&& axis_fits(self.h as int, self.fh as int, self.pad as int, self.s as int)
        &&& axis_fits(self.w as int, self.fw as int, self.pad as int, self.s as int)
    }

    /// Window positions from top to bottom.
    pub open spec fn out_h(&self) -> int {
        out_extent(self.h as int, self.fh as int, self.pad as int, self.s as int)
    }

    /// Window positions from left to right.
    pub open spec fn out_w(&self) -> int {
        out_extent(self.w as int, self.fw as int, self.pad as int, self.s as int)
    }

    /// Window positions in all: the rows of the patch matrix.
    pub open spec fn rows(&self) -> int {
        self.out_h() * self.out_w()
    }

    /// Cells of one window: the columns of the patch matrix.
    pub open spec fn cols(&self) -> int {
        self.fh * self.fw
    }

    /// Cells of the plane.
    pub open spec fn plane(&self) -> int {
        self.h * self.w
    }

    /// The plane, the window positions on each axis and in all, and the
    /// patch matrix can all be counted in the index type. (An empty window
    /// moved one cell at a time over a padded axis of the greatest extent
    /// has one position more than the index type holds.)
    pub open spec fn fits(&self) -> bool {
        &&& self.plane() <= usize::MAX
        &&& self.out_h() <= usize::MAX
        &&& self.out_w() <= usize::MAX
        &&& self.rows() <= usize::MAX
        &&& self.rows() * self.cols() <= usize::MAX
    }

    /// The plane's cell that lies under cell `col` of window `row`, both
    /// counted row-major, or `None` where that cell lies in the padding.
    pub open spec fn source(&self, row: int, col: int) -> Option<int> {
        let sy = (row / self.out_w()) * self.s + col / (self.fw as int);
        let sx = (row % self.out_w()) * self.s + col % (self.fw as int);
        if self.pad <= sy < self.h + self.pad && self.pad <= sx < self.w + self.pad {
            Some((sy - self.pad) * self.w + (sx - self.pad))
        } else {
            None
        }
    }

    /// A valid window has at least one position on each axis, and the last
    /// position ends where the padded plane ends.
    pub proof fn lemma_extents(&self)
        requires
            self.valid(),
        ensures
            1 <= self.out_h() <= self.h + 2 * self.pad - self.fh + 1,
            1 <= self.out_w() <= self.w + 2 * self.pad - self.fw + 1,
            (self.out_h() - 1) * self.s == self.h + 2 * self.pad - self.fh,
            (self.out_w() - 1) * self.s == self.w + 2 * self.pad - self.fw,
            self.rows() >= 1,
    {
        lemma_exact_quotient(self.h + 2 * self.pad - self.fh, self.s as int);
        lemma_exact_quotient(self.w + 2 * self.pad - self.fw, self.s as int);
        assert(self.out_h() * self.out_w() >= 1) by (nonlinear_arith)
            requires
                self.out_h() >= 1,
                self.out_w() >= 1,
        ;
    }

    /// Every cell under a window is a cell of the plane.
    pub proof fn lemma_source_in_plane(&self, row: int, col: int)
        requires
            self.valid(),
            0 <= row < self.rows(),
            0 <= col < self.cols(),
        ensures
            self.source(row, col) matches Some(i) ==> 0 <= i < self.plane(),
    {
        if let Some(i) = self.source(row, col) {
            let sy = (row / self.out_w()) * self.s + col / (self.fw as int);
            let sx = (row % self.out_w()) * self.s + col % (self.fw as int);
            lemma_flat_index(sy - self.pad, sx - self.pad, self.h as int, self.w as int);
        }
    }

    /// The geometry, if the windows tile the padded plane.
    pub fn new(h: usize, w: usize, fh: usize, fw: usize, pad: usize, s: usize) -> (r: Option<
        Window,
    >)
        ensures
            r is Some <==> (Window { h, w, fh, fw, pad, s }).valid(),
            r matches Some(win) ==> win == (Window { h, w, fh, fw, pad, s }),
    {
        if axis_ok(h, fh, pad, s) && axis_ok(w, fw, pad, s) {
            Some(Window { h, w, fh, fw, pad, s })
        } else {
            None
        }
    }

    /// Whether the windows tile the padded plane on both axes.
    pub fn is_valid(&self) -> (b: bool)
        ensures
            b == self.valid(),
    {
        axis_ok(self.h, self.fh, self.pad, self.s) && axis_ok(self.w, self.fw, self.pad, self.s)
    }

    /// Whether the window is valid and all that is counted of it can be
    /// counted in the index type.
    pub fn fits_ok(&self) -> (b: bool)
        ensures
            b == (self.valid() && self.fits()),
    {
        if !self.is_valid() {
            return false;
        }
        proof {
            self.lemma_extents();
        }
        let oh = match ((self.h + 2 * self.pad - self.fh) / self.s).checked_add(1) {
            Some(oh) => oh,
            None => {
                return false;
            },
        };
        let ow = match ((self.w + 2 * self.pad - self.fw) / self.s).checked_add(1) {
            Some(ow) => ow,
            None => {
                return false;
            },
        };
        let rows = match oh.checked_mul(ow) {
            Some(rows) => rows,
            None => {
                return false;
            },
        };
        let cols = match self.fh.checked_mul(self.fw) {
            Some(cols) => cols,
            None => {
                assert(self.rows() * self.cols() >= self.cols()) by (nonlinear_arith)
                    requires
                        self.rows() >= 1,
                        self.cols() >= 0,
                ;
                return false;
            },
        };
        rows.checked_mul(cols).is_some() && self.h.checked_mul(self.w).is_some()
    }

    /// Window positions from top to bottom.
    pub fn output_height(&self) -> (r: usize)
        requires
            self.valid(),
            self.out_h() <= usize::MAX,
        ensures
            r == self.out_h(),
    {
        proof {
            self.lemma_extents();
        }
        (self.h + 2 * self.pad - self.fh) / self.s + 1
    }

    /// Window positions from left to right.
    pub fn output_width(&self) -> (r: usize)
        requires
            self.valid(),
            self.out_w() <= usize::MAX,
        ensures
            r == self.out_w(),
    {
        proof {
            self.lemma_extents();
        }
        (self.w + 2 * self.pad - self.fw) / self.s + 1
    }

    /// Cells of one window.
    pub fn cell_count(&self) -> (r: usize)
        requires
            self.valid(),
            self.rows() * self.cols() <= usize::MAX,
        ensures
            r == self.cols(),
    {
        proof {
            self.lemma_extents();
            assert(self.cols() <= self.rows() * self.cols()) by (nonlinear_arith)
                requires
                    self.rows() >= 1,
                    self.cols() >= 0,
            ;
        }
        self.fh * self.fw
    }

    /// Window positions in all.
    pub fn position_count(&self) -> (r: usize)
        requires
            self.valid(),
            self.rows() <= usize::MAX,
        ensures
            r == self.rows(),
    {
        proof {
            self.lemma_extents();
            assert(self.out_h() <= self.rows() && self.out_w() <= self.rows())
                by (nonlinear_arith)
                requires
                    self.out_h() >= 1,
                    self.out_w() >= 1,
                    self.rows() == self.out_h() * self.out_w(),
            ;
        }
        let oh = self.output_height();
        let ow = self.output_width();
        oh * ow
    }

    /// The plane's cell under cell `col` of window `row`.
    pub fn source_of(&self, row: usize, col: usize) -> (r: Option<usize>)
        requires
            self.valid(),
            row < self.rows(),
            col < self.cols(),
            self.plane() <= usize::MAX,
        ensures
            match self.source(row as int, col as int) {
                Some(i) => r == Some(i as usize) && i < self.plane(),
                None => r is None,
            },
    {
        assert(self.fw > 0) by (nonlinear_arith)
            requires
                col < self.fh * self.fw,
        ;
        proof {
            self.lemma_extents();
        }
        let ow = self.output_width();
        let oy = row / ow;
        let ox = row % ow;
        let ky = col / self.fw;
        let kx = col % self.fw;
        proof {
            self.lemma_extents();
            self.lemma_source_in_plane(row as int, col as int);
            lemma_split_index(row as int, self.out_w(), self.out_h());
            assert(self.fh * self.fw == self.fw * self.fh) by (nonlinear_arith);
            lemma_split_index(col as int, self.fw as int, self.fh as int);
            assert(oy * self.s <= (self.out_h() - 1) * self.s) by (nonlinear_arith)
                requires
                    0 <= oy <= self.out_h() - 1,
                    self.s > 0,
            ;
            assert(ox * self.s <= (self.out_w() - 1) * self.s) by (nonlinear_arith)
                requires
                    0 <= ox <= self.out_w() - 1,
                    self.s > 0,
            ;
        }
        let sy = oy * self.s + ky;
        let sx = ox * self.s + kx;
        if sy >= self.pad && sy - self.pad < self.h && sx >= self.pad && sx - self.pad < self.w {
            proof {
                lemma_flat_index(sy - self.pad, sx - self.pad, self.h as int, self.w as int);
            }
            Some((sy - self.pad) * self.w + (sx - self.pad))
        } else {
            None
        }
    }
}

/// Where `d` divides `x`, the quotient times `d` is `x` again.
proof fn lemma_exact_quotient(x: int, d: int)
    requires
        x >= 0,
        d > 0,
        x % d == 0,
    ensures
        (x / d) * d == x,
        0 <= x / d <= x,
{
    vstd::arithmetic::div_mod::lemma_fundamental_div_mod(x, d);
    assert(d * (x / d) == (x / d) * d) by (nonlinear_arith);
    vstd::arithmetic::div_mod::lemma_div_pos_is_pos(x, d);
    assert(x / d <= x) by (nonlinear_arith)
        requires
            (x / d) * d == x,
            d >= 1,
            x / d >= 0,
    ;
}

/// Whether the windows tile one axis, computed without overflow.
pub fn axis_ok(len: usize, win: usize, pad: usize, stride: usize) -> (b: bool)
    ensures
        b == axis_fits(len as int, win as int, pad as int, stride as int),
{
    if stride == 0 {
        return false;
    }
    match pad.checked_mul(2) {
        None => false,
        Some(p2) => match len.checked_add(p2) {
            None => false,
            Some(t) => t >= win && (t - win) % stride == 0,
        },
    }
}

} // verus!
