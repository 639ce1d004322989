//! Tensor storage: planes, stacks of planes, batches, kernels and patch
//! matrices, each in one row-major buffer, with their borrowed views and the
//! walks over them.

use crate::error::SizeMismatchError;
use crate::window::{lemma_flat_index, lemma_row_bounds};
use vstd::prelude::*;

verus! {

/// `a * (b * c)`, for extents whose product is a length.
pub fn volume(a: usize, b: usize, c: usize) -> (r: usize)
    requires
        a * (b * c) <= usize::MAX,
    ensures
        r == a * (b * c),
{
    if a == 0 || b == 0 || c == 0 {
        assert(a * (b * c) == 0) by (nonlinear_arith)
            requires
                a == 0 || b == 0 || c == 0,
        ;
        0
    } else {
        assert(b * c <= a * (b * c)) by (nonlinear_arith)
            requires
                a >= 1,
                b >= 1,
                c >= 1,
        ;
        a * (b * c)
    }
}

/// The position of cell `(y, x)` in a row-major plane of `h` rows and `w`
/// columns.
pub fn offset2(y: usize, x: usize, h: usize, w: usize) -> (r: usize)
    requires
        y < h,
        x < w,
        h * w <= usize::MAX,
    ensures
        r == y * w + x,
        r < h * w,
{
    proof {
        lemma_flat_index(y as int, x as int, h as int, w as int);
        lemma_flat_index(y as int, 0, h as int, w as int);
    }
    y * w + x
}

/// The position of cell `(c, y, x)` in a stack of `n` row-major planes of `h`
/// rows and `w` columns.
pub fn offset3(c: usize, y: usize, x: usize, n: usize, h: usize, w: usize) -> (r: usize)
    requires
        c < n,
        y < h,
        x < w,
        n * (h * w) <= usize::MAX,
    ensures
        r == c * (h * w) + y * w + x,
        r < n * (h * w),
{
    proof {
        lemma_flat_index(y as int, x as int, h as int, w as int);
        lemma_flat_index(c as int, y * w + x, n as int, h * w);
        lemma_flat_index(c as int, 0, n as int, h * w);
        assert(h * w <= n * (h * w)) by (nonlinear_arith)
            requires
                n >= 1,
                h * w >= 0,
        ;
    }
    c * (h * w) + (y * w + x)
}

/// The cells of a slice can be counted in the index type.
pub proof fn lemma_slice_len_fits<T>(cells: &[T])
    ensures
        cells@.len() <= usize::MAX,
{
    let n = cells.len();
}

/// The cells of a vector can be counted in the index type.
pub proof fn lemma_vec_len_fits<T>(cells: &Vec<T>)
    ensures
        cells@.len() <= usize::MAX,
{
    let n = cells.len();
}

/// Block `i` of a buffer cut into blocks of `size` cells.
pub open spec fn block<T>(cells: Seq<T>, i: int, size: int) -> Seq<T> {
    cells.subrange(i * size, (i + 1) * size)
}

/// Block `i` of `cells` cut into blocks of `size` cells.
pub fn block_of<'a, T>(cells: &'a [T], i: usize, size: usize) -> (r: &'a [T])
    requires
        (i + 1) * size <= cells@.len(),
    ensures
        r@ == block(cells@, i as int, size as int),
        r@.len() == size,
{
    proof {
        lemma_slice_len_fits(cells);
        assert(0 <= i * size && (i + 1) * size == i * size + size) by (nonlinear_arith)
            requires
                0 <= i,
                0 <= size,
        ;
    }
    let from = i * size;
    vstd::slice::slice_subrange(cells, from, from + size)
}

/// The blocks of `size` cells that a buffer is made of, in order.
pub open spec fn chunks<T>(cells: Seq<T>, size: int) -> Seq<Seq<T>> {
    if size <= 0 {
        Seq::empty()
    } else {
        Seq::new((cells.len() as int / size) as nat, |i: int| block(cells, i, size))
    }
}

/// A buffer of a whole number of blocks that is not empty has a first block,
/// and the blocks of what follows it are the blocks after the first.
pub proof fn lemma_chunks_first<T>(cells: Seq<T>, size: int)
    requires
        cells.len() > 0,
        0 <= size,
        whole_rows(cells.len(), size as nat),
    ensures
        chunks(cells, size).len() > 0,
        chunks(cells, size)[0] == cells.subrange(0, size),
        chunks(cells.subrange(size, cells.len() as int), size) == chunks(cells, size).drop_first(),
{
    let len = cells.len() as int;
    lemma_whole_rows(len, size);
    vstd::arithmetic::div_mod::lemma_fundamental_div_mod(len, size);
    let n = len / size;
    assert(n >= 1 && (len - size) / size == n - 1) by {
        assert(len == size * n);
        assert(n >= 1) by (nonlinear_arith)
            requires
                len == size * n,
                len > 0,
                size > 0,
        ;
        assert(len - size == (n - 1) * size) by (nonlinear_arith)
            requires
                len == size * n,
        ;
        vstd::arithmetic::div_mod::lemma_fundamental_div_mod_converse(len - size, size, n - 1, 0);
    }
    assert(0 * size == 0 && (0 + 1) * size == size) by (nonlinear_arith);
    assert(chunks(cells, size)[0] == block(cells, 0, size));
    let rest = cells.subrange(size, len);
    assert forall|i: int| 0 <= i < n - 1 implies #[trigger] block(rest, i, size) == block(
        cells,
        i + 1,
        size,
    ) by {
        lemma_row_bounds(i, n - 1, size);
        assert((i + 1 + 1) * size == (i + 1) * size + size) by (nonlinear_arith);
        assert(n * size == len) by (nonlinear_arith)
            requires
                len == size * n,
        ;
        assert((n - 1) * size == len - size) by (nonlinear_arith)
            requires
                len == size * n,
        ;
    }
    assert(chunks(rest, size) =~= chunks(cells, size).drop_first());
}

/// A copy of `cells[from..to]`.
pub fn copy_range<T: Copy>(cells: &[T], from: usize, to: usize) -> (r: Vec<T>)
    requires
        from <= to <= cells@.len(),
    ensures
        r@ == cells@.subrange(from as int, to as int),
{
    let mut out: Vec<T> = Vec::new();
    let mut i: usize = from;
    while i < to
        invariant
            from <= i <= to <= cells@.len(),
            out@ == cells@.subrange(from as int, i as int),
        decreases to - i,
    {
        out.push(cells[i]);
        i += 1;
    }
    out
}

/// The cells of `rows`, one row after the other.
pub open spec fn concat_rows<T, const W: usize>(rows: Seq<[T; W]>) -> Seq<T>
    decreases rows.len(),
{
    if rows.len() == 0 {
        Seq::empty()
    } else {
        concat_rows(rows.drop_last()) + rows.last()@
    }
}

/// `n` rows of `W` cells hold `n * W` cells.
pub proof fn lemma_concat_rows_len<T, const W: usize>(rows: Seq<[T; W]>)
    ensures
        concat_rows(rows).len() == rows.len() * W,
    decreases rows.len(),
{
    if rows.len() > 0 {
        lemma_concat_rows_len(rows.drop_last());
        assert((rows.len() - 1) * W + W == rows.len() * W) by (nonlinear_arith);
    }
}

/// One plane of `H` rows and `W` columns, row-major in one buffer.
#[verifier::reject_recursive_types(H)]
#[verifier::reject_recursive_types(W)]
#[derive(Debug, PartialEq, Eq)]
pub struct Image<T, const H: usize, const W: usize> {
    arr: Vec<T>,
}

/// A borrowed plane of `H` rows and `W` columns.
#[verifier::reject_recursive_types(H)]
#[verifier::reject_recursive_types(W)]
#[derive(Debug, PartialEq, Eq)]
pub struct ImageView<'a, T, const H: usize, const W: usize> {
    arr: &'a [T],
}

/// A plane of `H` rows and `W` columns borrowed for writing. The field is the
/// borrowed buffer itself, so that a contract can speak of what it holds when
/// the borrow ends.
#[verifier::reject_recursive_types(H)]
#[verifier::reject_recursive_types(W)]
#[derive(Debug, PartialEq, Eq)]
pub struct ImageViewMut<'a, T, const H: usize, const W: usize> {
    pub arr: &'a mut [T],
}

/// Walks the rows of a plane, each a slice of `W` cells.
#[verifier::reject_recursive_types(W)]
#[derive(Debug, PartialEq, Eq)]
pub struct ImageIter<'a, T, const W: usize> {
    arr: &'a [T],
}

/// Walks the rows of a plane borrowed for writing. The field is the part of
/// the buffer not yet handed out.
#[verifier::reject_recursive_types(W)]
#[derive(Debug, PartialEq, Eq)]
pub struct ImageIterMut<'a, T, const W: usize> {
    pub arr: &'a mut [T],
}

impl<T, const H: usize, const W: usize> Image<T, H, W> {
    /// The cells, row-major.
    pub closed spec fn view(&self) -> Seq<T> {
        self.arr@
    }

    /// The buffer holds `H * W` cells.
    pub open spec fn wf(&self) -> bool {
        self@.len() == H * W
    }

    /// A plane whose every cell holds a value that `T::default()` gives.
    pub fn new() -> (r: Self) where T: Default + Copy
        requires
            H * W <= usize::MAX,
        ensures
            r.wf(),
            forall|i: int| 0 <= i < r@.len() ==> call_ensures(T::default, (), #[trigger] r@[i]),
    {
        let n = H * W;
        let fill = T::default();
        let mut arr: Vec<T> = Vec::new();
        let mut i: usize = 0;
        while i < n
            invariant
                i <= n,
                arr@.len() == i,
                call_ensures(T::default, (), fill),
                forall|j: int| 0 <= j < i ==> call_ensures(T::default, (), #[trigger] arr@[j]),
            decreases n - i,
        {
            arr.push(fill);
            i += 1;
        }
        Image { arr }
    }

    /// The plane that holds `cells`, if there are `H * W` of them.
    pub fn from_raw(cells: Vec<T>) -> (r: Result<Self, SizeMismatchError>)
        requires
            H * W <= usize::MAX,
        ensures
            cells@.len() == H * W ==> (r matches Ok(image) && image@ == cells@),
            cells@.len() != H * W ==> r == Err::<Self, _>(
                SizeMismatchError(cells@.len() as usize, (H * W) as usize),
            ),
    {
        if cells.len() != H * W {
            Err(SizeMismatchError(cells.len(), H * W))
        } else {
            Ok(Image { arr: cells })
        }
    }

    /// Gives the buffer back.
    pub fn into_raw(self) -> (r: Vec<T>)
        ensures
            r@ == self@,
    {
        self.arr
    }

    /// The plane made of `items`, one row each, if there are `H` of them.
    pub fn try_from(items: Vec<[T; W]>) -> (r: Result<Self, SizeMismatchError>) where T: Copy
        ensures
            items@.len() == H ==> (r matches Ok(image) && image.wf() && image@ == concat_rows(
                items@,
            )),
            items@.len() != H ==> r == Err::<Self, _>(
                SizeMismatchError(items@.len() as usize, H),
            ),
    {
        if items.len() != H {
            return Err(SizeMismatchError(items.len(), H));
        }
        let mut buffer: Vec<T> = Vec::new();
        let mut y: usize = 0;
        while y < H
            invariant
                items@.len() == H,
                y <= H,
                buffer@ == concat_rows(items@.take(y as int)),
            decreases H - y,
        {
            let row = &items[y];
            let ghost before = buffer@;
            let mut x: usize = 0;
            while x < W
                invariant
                    x <= W,
                    row@.len() == W,
                    buffer@ == before + row@.take(x as int),
                decreases W - x,
            {
                buffer.push(row[x]);
                x += 1;
                assert(row@.take(x as int) == row@.take(x - 1).push(row@[x - 1]));
            }
            y += 1;
            proof {
                assert(row@.take(W as int) == row@);
                assert(items@.take(y as int).drop_last() == items@.take(y - 1));
            }
        }
        proof {
            assert(items@.take(H as int) == items@);
            lemma_concat_rows_len(items@);
        }
        Ok(Image { arr: buffer })
    }

    /// The plane as a view.
    pub fn iter<'a>(&'a self) -> (r: ImageView<'a, T, H, W>)
        ensures
            r@ == self@,
    {
        ImageView { arr: self.arr.as_slice() }
    }

    /// The plane as a view for writing: what the view holds when it is given
    /// up is what the plane holds from then on.
    pub fn iter_mut<'a>(&'a mut self) -> (r: ImageViewMut<'a, T, H, W>)
        ensures
            r@ == old(self)@,
            final(self)@ == final(r.arr)@,
    {
        ImageViewMut { arr: self.arr.as_mut_slice() }
    }

    /// The cell at row `y`, column `x`.
    pub fn index(&self, at: (usize, usize)) -> (r: &T)
        requires
            self.wf(),
            at.0 < H,
            at.1 < W,
        ensures
            *r == self@[at.0 * W + at.1],
    {
        proof {
            lemma_vec_len_fits(&self.arr);
        }
        let i = offset2(at.0, at.1, H, W);
        &self.arr[i]
    }

    /// The cells as one slice.
    pub fn as_raw_slice(&self) -> (r: &[T])
        ensures
            r@ == self@,
    {
        self.arr.as_slice()
    }

    /// The cells as one slice for writing.
    pub fn as_raw_mut_slice(&mut self) -> (r: &mut [T])
        ensures
            r@ == old(self)@,
            final(self)@ == final(r)@,
    {
        self.arr.as_mut_slice()
    }

    /// The rows, to be handed out to workers.
    pub fn par_iter<'a>(&'a self) -> (r: ImageParIter<'a, T, H, W>)
        ensures
            r@ == self@,
    {
        ImageParIter { arr: self.arr.as_slice() }
    }
}

impl<T: Copy, const H: usize, const W: usize> Clone for Image<T, H, W> {
    fn clone(&self) -> (r: Self)
        ensures
            r@ == self@,
    {
        Image { arr: copy_range(self.arr.as_slice(), 0, self.arr.len()) }
    }
}

impl<'a, T, const H: usize, const W: usize> ImageView<'a, T, H, W> {
    /// The cells, row-major.
    pub closed spec fn view(&self) -> Seq<T> {
        self.arr@
    }

    /// The view holds `H * W` cells.
    pub open spec fn wf(&self) -> bool {
        self@.len() == H * W
    }

    /// The view of `arr`.
    pub fn make_view(arr: &'a [T]) -> (r: Self)
        ensures
            r@ == arr@,
    {
        ImageView { arr }
    }

    /// Walks the rows.
    pub fn iter(&self) -> (r: ImageIter<'a, T, W>)
        ensures
            r@ == self@,
            self.wf() ==> r.wf(),
    {
        proof {
            lemma_stack_whole(H as int, W as int);
        }
        ImageIter { arr: self.arr }
    }

    /// The cell at row `y`, column `x`.
    pub fn index(&self, at: (usize, usize)) -> (r: &'a T)
        requires
            self.wf(),
            at.0 < H,
            at.1 < W,
        ensures
            *r == self@[at.0 * W + at.1],
    {
        proof {
            lemma_slice_len_fits(self.arr);
        }
        let i = offset2(at.0, at.1, H, W);
        &self.arr[i]
    }

    /// The cells as one slice.
    pub fn as_raw_slice(&self) -> (r: &'a [T])
        ensures
            r@ == self@,
    {
        self.arr
    }

    /// The rows, to be handed out to workers.
    pub fn par_iter(&self) -> (r: ImageParIter<'a, T, H, W>)
        ensures
            r@ == self@,
    {
        ImageParIter { arr: self.arr }
    }
}

impl<'a, T, const H: usize, const W: usize> Clone for ImageView<'a, T, H, W> {
    fn clone(&self) -> (r: Self)
        ensures
            r@ == self@,
    {
        ImageView { arr: self.arr }
    }
}

impl<'a, T, const W: usize> ImageIter<'a, T, W> {
    /// The cells not yet handed out, row-major.
    pub closed spec fn view(&self) -> Seq<T> {
        self.arr@
    }

    /// The rows that are still to come, in the order in which `next` hands
    /// them out.
    pub open spec fn items(&self) -> Seq<Seq<T>> {
        chunks(self@, W as int)
    }

    /// What is left is a whole number of rows.
    pub open spec fn wf(&self) -> bool {
        whole_rows(self@.len(), W as nat)
    }

    /// Number of cells in one row.
    pub fn element_size(&self) -> (r: usize)
        ensures
            r == W,
    {
        W
    }

    /// The next row, if one is left.
    pub fn next(&mut self) -> (r: Option<&'a [T]>)
        requires
            old(self).wf(),
        ensures
            final(self).wf(),
            match r {
                None => {
                    &&& old(self)@.len() == 0
                    &&& old(self).items().len() == 0
                    &&& final(self)@ == old(self)@
                },
                Some(row) => {
                    &&& old(self)@.len() >= W
                    &&& old(self)@.len() > 0
                    &&& row@ == old(self)@.subrange(0, W as int)
                    &&& final(self)@ == old(self)@.subrange(W as int, old(self)@.len() as int)
                    &&& old(self).items().len() > 0
                    &&& row@ == old(self).items()[0]
                    &&& final(self).items() == old(self).items().drop_first()
                },
            },
    {
        if self.arr.len() == 0 {
            None
        } else {
            proof {
                lemma_whole_rows(self.arr@.len() as int, W as int);
                lemma_chunks_first(self.arr@, W as int);
            }
            let (l, r) = self.arr.split_at(self.element_size());
            self.arr = r;
            Some(l)
        }
    }
}

/// Whether `len` cells are a whole number of rows of `w` cells.
pub open spec fn whole_rows(len: nat, w: nat) -> bool {
    if w == 0 {
        len == 0
    } else {
        len % w == 0
    }
}

/// A whole number of rows that is not empty holds a first row, and what is
/// left after it is a whole number of rows again.
pub proof fn lemma_whole_rows(len: int, w: int)
    requires
        len > 0,
        w >= 0,
        whole_rows(len as nat, w as nat),
    ensures
        0 < w <= len,
        whole_rows((len - w) as nat, w as nat),
{
    vstd::arithmetic::div_mod::lemma_fundamental_div_mod(len, w);
    assert(len / w >= 1 && w * (len / w) >= w && len - w == w * (len / w - 1)) by (nonlinear_arith)
        requires
            len == w * (len / w),
            len > 0,
            w > 0,
    ;
    assert(w * (len / w - 1) == (len / w - 1) * w) by (nonlinear_arith);
    vstd::arithmetic::div_mod::lemma_mod_multiples_basic(len / w - 1, w);
}

/// `core::mem::replace` moves `src` into `dest` and hands back what `dest`
/// held before.
pub assume_specification<T>[ core::mem::replace::<T> ](dest: &mut T, src: T) -> (r: T)
    ensures
        r == *old(dest),
        *final(dest) == src,
;

impl<'a, T, const H: usize, const W: usize> ImageViewMut<'a, T, H, W> {
    /// The cells, row-major.
    pub open spec fn view(&self) -> Seq<T> {
        self.arr@
    }

    /// The view holds `H * W` cells.
    pub open spec fn wf(&self) -> bool {
        self@.len() == H * W
    }

    /// Walks the rows.
    pub fn iter(&'a self) -> (r: ImageIter<'a, T, W>)
        ensures
            r@ == self@,
            self.wf() ==> r.wf(),
    {
        proof {
            lemma_stack_whole(H as int, W as int);
        }
        ImageIter { arr: &*self.arr }
    }

    /// Walks the rows for writing: what the rows hold when they are given up,
    /// one after the other, is what the view holds from then on.
    pub fn iter_mut(&'a mut self) -> (r: ImageIterMut<'a, T, W>)
        ensures
            r@ == old(self)@,
            final(final(self).arr)@ == final(old(self).arr)@,
            final(self)@ == final(r.arr)@,
            old(self).wf() ==> r.wf(),
    {
        proof {
            lemma_stack_whole(H as int, W as int);
        }
        ImageIterMut { arr: &mut *self.arr }
    }

    /// The cell at row `y`, column `x`.
    pub fn index(&self, at: (usize, usize)) -> (r: &T)
        requires
            self.wf(),
            at.0 < H,
            at.1 < W,
        ensures
            *r == self@[at.0 * W + at.1],
    {
        proof {
            lemma_slice_len_fits(self.arr);
        }
        let i = offset2(at.0, at.1, H, W);
        &self.arr[i]
    }

    /// The cell at row `y`, column `x`, for writing.
    pub fn index_mut(&mut self, at: (usize, usize)) -> (r: &mut T)
        requires
            old(self).wf(),
            at.0 < H,
            at.1 < W,
        ensures
            *r == old(self)@[at.0 * W + at.1],
            final(self)@ == old(self)@.update(at.0 * W + at.1, *final(r)),
            final(final(self).arr)@ == final(old(self).arr)@,
    {
        proof {
            lemma_slice_len_fits(self.arr);
        }
        let i = offset2(at.0, at.1, H, W);
        &mut self.arr[i]
    }
}

impl<'a, T, const W: usize> ImageIterMut<'a, T, W> {
    /// The cells not yet handed out, row-major.
    pub open spec fn view(&self) -> Seq<T> {
        self.arr@
    }

    /// What is left is a whole number of rows.
    pub open spec fn wf(&self) -> bool {
        whole_rows(self@.len(), W as nat)
    }

    /// Number of cells in one row.
    pub fn element_size(&self) -> (r: usize)
        ensures
            r == W,
    {
        W
    }

    /// The next row, if one is left. What the buffer holds in the end is what
    /// this row holds when it is given up, followed by what the rows after it
    /// hold then.
    pub fn next(&mut self) -> (r: Option<&'a mut [T]>)
        requires
            old(self).wf(),
        ensures
            final(self).wf(),
            match r {
                None => {
                    &&& old(self)@.len() == 0
                    &&& final(self)@ == old(self)@
                    &&& final(final(self).arr)@ == final(old(self).arr)@
                },
                Some(row) => {
                    &&& old(self)@.len() >= W
                    &&& old(self)@.len() > 0
                    &&& row@ == old(self)@.subrange(0, W as int)
                    &&& final(self)@ == old(self)@.subrange(W as int, old(self)@.len() as int)
                    &&& final(old(self).arr)@ == final(row)@ + final(final(self).arr)@
                },
            },
    {
        if self.arr.len() == 0 {
            None
        } else {
            proof {
                lemma_whole_rows(self.arr@.len() as int, W as int);
            }
            let slice = core::mem::replace(&mut self.arr, &mut []);
            let (l, r) = slice.split_at_mut(W);
            self.arr = r;
            Some(l)
        }
    }
}

/// The rows of a plane, ready to be split among workers.
#[verifier::reject_recursive_types(H)]
#[verifier::reject_recursive_types(W)]
#[derive(Debug)]
pub struct ImageParIter<'data, T, const H: usize, const W: usize> {
    arr: &'data [T],
}

impl<'data, T, const H: usize, const W: usize> ImageParIter<'data, T, H, W> {
    /// The cells, row-major.
    pub closed spec fn view(&self) -> Seq<T> {
        self.arr@
    }

    /// The view holds `H * W` cells.
    pub open spec fn wf(&self) -> bool {
        self@.len() == H * W
    }

    /// Number of rows.
    pub fn len(&self) -> (r: usize)
        ensures
            r == H,
    {
        H
    }

    /// Number of rows, which is always known.
    pub fn opt_len(&self) -> (r: Option<usize>)
        ensures
            r == Some(H),
    {
        Some(self.len())
    }

    /// The producer that hands the rows out.
    pub fn with_producer(self) -> (r: ImageIterProducer<'data, T, H, W>)
        ensures
            r@ == self@,
            self.wf() ==> r.wf(),
    {
        proof {
            lemma_stack_whole(H as int, W as int);
        }
        ImageIterProducer { arr: self.arr }
    }
}

/// Hands out the rows of a plane from either end, and splits in two.
#[verifier::reject_recursive_types(H)]
#[verifier::reject_recursive_types(W)]
#[derive(Debug)]
pub struct ImageIterProducer<'data, T, const H: usize, const W: usize> {
    arr: &'data [T],
}

impl<'data, T, const H: usize, const W: usize> ImageIterProducer<'data, T, H, W> {
    /// The cells not yet handed out, row-major.
    pub closed spec fn view(&self) -> Seq<T> {
        self.arr@
    }

    /// What is left is a whole number of rows.
    pub open spec fn wf(&self) -> bool {
        whole_rows(self@.len(), W as nat)
    }

    /// Number of cells in one row.
    pub fn element_size(&self) -> (r: usize)
        ensures
            r == W,
    {
        W
    }

    /// The first row left, if any.
    pub fn next(&mut self) -> (r: Option<&'data [T]>)
        requires
            old(self).wf(),
        ensures
            final(self).wf(),
            match r {
                None => old(self)@.len() == 0 && final(self)@ == old(self)@,
                Some(row) => {
                    &&& old(self)@.len() >= W
                    &&& old(self)@.len() > 0
                    &&& row@ == old(self)@.subrange(0, W as int)
                    &&& final(self)@ == old(self)@.subrange(W as int, old(self)@.len() as int)
                },
            },
    {
        if self.arr.len() == 0 {
            None
        } else {
            proof {
                lemma_whole_rows(self.arr@.len() as int, W as int);
            }
            let (l, r) = self.arr.split_at(self.element_size());
            self.arr = r;
            Some(l)
        }
    }

    /// The last row left, if any.
    pub fn next_back(&mut self) -> (r: Option<&'data [T]>)
        requires
            old(self).wf(),
        ensures
            final(self).wf(),
            match r {
                None => old(self)@.len() == 0 && final(self)@ == old(self)@,
                Some(row) => {
                    &&& old(self)@.len() >= W
                    &&& old(self)@.len() > 0
                    &&& row@ == old(self)@.subrange(old(self)@.len() - W, old(self)@.len() as int)
                    &&& final(self)@ == old(self)@.subrange(0, old(self)@.len() - W)
                },
            },
    {
        if self.arr.len() == 0 {
            None
        } else {
            proof {
                lemma_whole_rows(self.arr@.len() as int, W as int);
            }
            let (l, r) = self.arr.split_at(self.arr.len() - self.element_size());
            self.arr = l;
            Some(r)
        }
    }

    /// Number of rows left.
    pub fn len(&self) -> (r: usize)
        ensures
            W > 0 ==> r == self@.len() / (W as nat),
            W == 0 ==> r == 0,
    {
        if W == 0 {
            0
        } else {
            self.arr.len() / W
        }
    }

    /// Number of rows left, as a lower and an upper bound.
    pub fn size_hint(&self) -> (r: (usize, Option<usize>))
        ensures
            W > 0 ==> r.0 == self@.len() / (W as nat),
            W == 0 ==> r.0 == 0,
            r.1 == Some(r.0),
    {
        let n = self.len();
        (n, Some(n))
    }

    /// The producer itself: it walks its own rows.
    pub fn into_iter(self) -> (r: Self)
        ensures
            r == self,
    {
        self
    }

    /// The first `mid` rows, and the rest.
    pub fn split_at(self, mid: usize) -> (r: (Self, Self))
        requires
            self.wf(),
            mid * W <= self@.len(),
        ensures
            r.0.wf(),
            r.1.wf(),
            r.0@ == self@.subrange(0, mid * W),
            r.1@ == self@.subrange(mid * W, self@.len() as int),
    {
        let n = self.arr.len();
        proof {
            lemma_whole_rows_split(n as int, mid as int, W as int);
        }
        let (l, r) = self.arr.split_at(mid * W);
        (ImageIterProducer { arr: l }, ImageIterProducer { arr: r })
    }
}

/// The cells of `planes`, one plane after the other.
pub open spec fn concat_planes<T, const H: usize, const W: usize>(
    planes: Seq<Image<T, H, W>>,
) -> Seq<T>
    decreases planes.len(),
{
    if planes.len() == 0 {
        Seq::empty()
    } else {
        concat_planes(planes.drop_last()) + planes.last()@
    }
}

/// `n` planes of `H * W` cells hold `n * H * W` cells.
pub proof fn lemma_concat_planes_len<T, const H: usize, const W: usize>(
    planes: Seq<Image<T, H, W>>,
)
    requires
        forall|i: int| 0 <= i < planes.len() ==> (#[trigger] planes[i]).wf(),
    ensures
        concat_planes(planes).len() == planes.len() * (H * W),
    decreases planes.len(),
{
    if planes.len() > 0 {
        lemma_concat_planes_len(planes.drop_last());
        assert(planes.last().wf());
        assert((planes.len() - 1) * (H * W) + H * W == planes.len() * (H * W)) by (nonlinear_arith);
    } else {
        assert(planes.len() * (H * W) == 0) by (nonlinear_arith)
            requires
                planes.len() == 0,
        ;
    }
}

/// A stack of `C` planes of `H` rows and `W` columns, in one buffer.
#[verifier::reject_recursive_types(C)]
#[verifier::reject_recursive_types(H)]
#[verifier::reject_recursive_types(W)]
#[derive(Debug, PartialEq, Eq)]
pub struct Images<T, const C: usize, const H: usize, const W: usize> {
    arr: Vec<T>,
}

/// A borrowed stack of `C` planes of `H` rows and `W` columns.
#[verifier::reject_recursive_types(C)]
#[verifier::reject_recursive_types(H)]
#[verifier::reject_recursive_types(W)]
#[derive(Debug, PartialEq, Eq)]
pub struct ImagesView<'a, T, const C: usize, const H: usize, const W: usize> {
    arr: &'a [T],
}

/// A stack of `C` planes of `H` rows and `W` columns borrowed for writing.
/// The field is the borrowed buffer itself, so that a contract can speak of
/// what it holds when the borrow ends.
#[verifier::reject_recursive_types(C)]
#[verifier::reject_recursive_types(H)]
#[verifier::reject_recursive_types(W)]
#[derive(Debug, PartialEq, Eq)]
pub struct ImagesViewMut<'a, T, const C: usize, const H: usize, const W: usize> {
    pub arr: &'a mut [T],
}

/// Walks the planes of a stack.
#[verifier::reject_recursive_types(H)]
#[verifier::reject_recursive_types(W)]
#[derive(Debug, PartialEq, Eq)]
pub struct ImagesIter<'a, T, const H: usize, const W: usize> {
    arr: &'a [T],
}

/// Walks the planes of a stack borrowed for writing. The field is the part
/// of the buffer not yet handed out.
#[verifier::reject_recursive_types(H)]
#[verifier::reject_recursive_types(W)]
#[derive(Debug, PartialEq, Eq)]
pub struct ImagesIterMut<'a, T, const H: usize, const W: usize> {
    pub arr: &'a mut [T],
}

/// The planes of a stack, ready to be split among workers.
#[verifier::reject_recursive_types(C)]
#[verifier::reject_recursive_types(H)]
#[verifier::reject_recursive_types(W)]
#[derive(Debug)]
pub struct ImagesParIter<'data, T, const C: usize, const H: usize, const W: usize> {
    arr: &'data [T],
}

/// Hands out the planes of a stack from either end, and splits in two.
#[verifier::reject_recursive_types(C)]
#[verifier::reject_recursive_types(H)]
#[verifier::reject_recursive_types(W)]
#[derive(Debug)]
pub struct ImagesIterProducer<'data, T, const C: usize, const H: usize, const W: usize> {
    arr: &'data [T],
}

impl<T, const C: usize, const H: usize, const W: usize> Images<T, C, H, W> {
    /// The cells: plane after plane, each row-major.
    pub closed spec fn view(&self) -> Seq<T> {
        self.arr@
    }

    /// The buffer holds `C * (H * W)` cells.
    pub open spec fn wf(&self) -> bool {
        self@.len() == C * (H * W)
    }

    /// The cells of plane `c`.
    pub open spec fn plane(&self, c: int) -> Seq<T> {
        block(self@, c, H * W)
    }

    /// A stack whose every cell holds a value that `T::default()` gives.
    pub fn new() -> (r: Self) where T: Default + Copy
        requires
            C * (H * W) <= usize::MAX,
        ensures
            r.wf(),
            forall|i: int| 0 <= i < r@.len() ==> call_ensures(T::default, (), #[trigger] r@[i]),
    {
        let n = volume(C, H, W);
        let fill = T::default();
        let mut arr: Vec<T> = Vec::new();
        let mut i: usize = 0;
        while i < n
            invariant
                i <= n,
                arr@.len() == i,
                call_ensures(T::default, (), fill),
                forall|j: int| 0 <= j < i ==> call_ensures(T::default, (), #[trigger] arr@[j]),
            decreases n - i,
        {
            arr.push(fill);
            i += 1;
        }
        Images { arr }
    }

    /// The stack that holds `cells`, if there are `C * (H * W)` of them.
    pub fn from_raw(cells: Vec<T>) -> (r: Result<Self, SizeMismatchError>)
        requires
            C * (H * W) <= usize::MAX,
        ensures
            cells@.len() == C * (H * W) ==> (r matches Ok(images) && images@ == cells@),
            cells@.len() != C * (H * W) ==> r == Err::<Self, _>(
                SizeMismatchError(cells@.len() as usize, (C * (H * W)) as usize),
            ),
    {
        let n = volume(C, H, W);
        if cells.len() != n {
            Err(SizeMismatchError(cells.len(), n))
        } else {
            Ok(Images { arr: cells })
        }
    }

    /// Gives the buffer back.
    pub fn into_raw(self) -> (r: Vec<T>)
        ensures
            r@ == self@,
    {
        self.arr
    }

    /// The stack made of `items`, one plane each, if there are `C` of them.
    pub fn try_from(items: Vec<Image<T, H, W>>) -> (r: Result<Self, SizeMismatchError>) where
        T: Copy,

        requires
            forall|i: int| 0 <= i < items@.len() ==> (#[trigger] items@[i]).wf(),
        ensures
            items@.len() == C ==> (r matches Ok(images) && images.wf() && images@
                == concat_planes(items@)),
            items@.len() != C ==> r == Err::<Self, _>(
                SizeMismatchError(items@.len() as usize, C),
            ),
    {
        if items.len() != C {
            return Err(SizeMismatchError(items.len(), C));
        }
        let mut buffer: Vec<T> = Vec::new();
        let mut c: usize = 0;
        while c < C
            invariant
                items@.len() == C,
                c <= C,
                buffer@ == concat_planes(items@.take(c as int)),
            decreases C - c,
        {
            let cells = items[c].as_raw_slice();
            let ghost before = buffer@;
            let mut i: usize = 0;
            while i < cells.len()
                invariant
                    i <= cells@.len(),
                    buffer@ == before + cells@.take(i as int),
                decreases cells@.len() - i,
            {
                buffer.push(cells[i]);
                i += 1;
                assert(cells@.take(i as int) == cells@.take(i - 1).push(cells@[i - 1]));
            }
            c += 1;
            proof {
                assert(cells@.take(cells@.len() as int) == cells@);
                assert(items@.take(c as int).drop_last() == items@.take(c - 1));
            }
        }
        proof {
            assert(items@.take(C as int) == items@);
            lemma_concat_planes_len(items@);
        }
        Ok(Images { arr: buffer })
    }

    /// Walks the planes.
    pub fn iter<'a>(&'a self) -> (r: ImagesIter<'a, T, H, W>)
        ensures
            r@ == self@,
            self.wf() ==> r.wf(),
    {
        proof {
            lemma_stack_whole(C as int, H * W);
        }
        ImagesIter { arr: self.arr.as_slice() }
    }

    /// Walks the planes for writing: what the planes hold when they are given
    /// up, one after the other, is what the stack holds from then on.
    pub fn iter_mut<'a>(&'a mut self) -> (r: ImagesIterMut<'a, T, H, W>)
        ensures
            r@ == old(self)@,
            final(self)@ == final(r.arr)@,
            old(self).wf() ==> r.wf(),
    {
        proof {
            lemma_stack_whole(C as int, H * W);
        }
        ImagesIterMut { arr: self.arr.as_mut_slice() }
    }

    /// Writes to every cell what `f` gives for its position, walking the
    /// planes, the rows of each plane and the cells of each row in order.
    pub fn fill_with<F: Fn(usize) -> T>(&mut self, f: F)
        requires
            old(self).wf(),
            forall|i: usize| i < old(self)@.len() ==> call_requires(f, (i,)),
        ensures
            final(self).wf(),
            forall|i: int|
                0 <= i < final(self)@.len() ==> call_ensures(
                    f,
                    (i as usize,),
                    #[trigger] final(self)@[i],
                ),
    {
        let ghost n = self@.len();
        proof {
            lemma_vec_len_fits(&self.arr);
        }
        let mut count: usize = 0;
        let ghost mut done: Seq<T> = Seq::empty();
        let mut planes = self.iter_mut();
        loop
            invariant
                n <= usize::MAX,
                forall|i: usize| i < n ==> call_requires(f, (i,)),
                planes.wf(),
                after_borrow(*self)@ == done + final(planes.arr)@,
                done.len() == count,
                done.len() + planes@.len() == n,
                forall|i: int| 0 <= i < done.len() ==> call_ensures(f, (i as usize,), #[trigger] done[i]),
            ensures
                after_borrow(*self)@ == done,
                done.len() == n,
                forall|i: int| 0 <= i < done.len() ==> call_ensures(f, (i as usize,), #[trigger] done[i]),
            decreases planes@.len(),
        {
            match planes.next() {
                None => {
                    break ;
                },
                Some(plane) => {
                    let ghost plane_start = done;
                    let mut plane = plane;
                    let ghost plane_final = final(plane.arr)@;
                    let mut rows = plane.iter_mut();
                    loop
                        invariant
                            n <= usize::MAX,
                            forall|i: usize| i < n ==> call_requires(f, (i,)),
                            rows.wf(),
                            done.len() == count,
                            done.len() + rows@.len() + planes@.len() == n,
                            forall|i: int|
                                0 <= i < done.len() ==> call_ensures(
                                    f,
                                    (i as usize,),
                                    #[trigger] done[i],
                                ),
                            plane_start + plane_final == done + final(rows.arr)@,
                        ensures
                            done.len() == count,
                            done.len() + planes@.len() == n,
                            forall|i: int|
                                0 <= i < done.len() ==> call_ensures(
                                    f,
                                    (i as usize,),
                                    #[trigger] done[i],
                                ),
                            plane_start + plane_final == done,
                        decreases rows@.len(),
                    {
                        match rows.next() {
                            None => {
                                break ;
                            },
                            Some(row) => {
                                let ghost row_start = done;
                                let mut j: usize = 0;
                                while j < row.len()
                                    invariant
                                        n <= usize::MAX,
                                        forall|i: usize| i < n ==> call_requires(f, (i,)),
                                        j <= row@.len(),
                                        row@.len() == W,
                                        count == row_start.len() + j,
                                        row_start.len() + row@.len() + rows@.len() + planes@.len()
                                            == n,
                                        done == row_start + row@.take(j as int),
                                        forall|i: int|
                                            0 <= i < done.len() ==> call_ensures(
                                                f,
                                                (i as usize,),
                                                #[trigger] done[i],
                                            ),
                                    decreases row@.len() - j,
                                {
                                    let ghost before = done;
                                    let v = f(count);
                                    row[j] = v;
                                    count += 1;
                                    j += 1;
                                    proof {
                                        done = row_start + row@.take(j as int);
                                        assert(done == before.push(v));
                                    }
                                }
                                proof {
                                    assert(row@.take(row@.len() as int) == row@);
                                }
                            },
                        }
                    }
                },
            }
        }
    }

    /// The cell at plane `c`, row `y`, column `x`.
    pub fn index(&self, at: (usize, usize, usize)) -> (r: &T)
        requires
            self.wf(),
            at.0 < C,
            at.1 < H,
            at.2 < W,
        ensures
            *r == self@[at.0 * (H * W) + at.1 * W + at.2],
    {
        proof {
            lemma_vec_len_fits(&self.arr);
        }
        let i = offset3(at.0, at.1, at.2, C, H, W);
        &self.arr[i]
    }

    /// The cell at plane `c`, row `y`, column `x`, for writing.
    pub fn index_mut(&mut self, at: (usize, usize, usize)) -> (r: &mut T)
        requires
            old(self).wf(),
            at.0 < C,
            at.1 < H,
            at.2 < W,
        ensures
            *r == old(self)@[at.0 * (H * W) + at.1 * W + at.2],
            final(self)@ == old(self)@.update(at.0 * (H * W) + at.1 * W + at.2, *final(r)),
    {
        proof {
            lemma_vec_len_fits(&self.arr);
        }
        let i = offset3(at.0, at.1, at.2, C, H, W);
        &mut self.arr[i]
    }

    /// The view of `arr` as a stack.
    pub fn make_view<'a>(arr: &'a [T]) -> (r: ImagesView<'a, T, C, H, W>)
        ensures
            r@ == arr@,
    {
        ImagesView { arr }
    }

    /// The view of `arr` as a stack for writing.
    pub fn make_view_mut<'a>(arr: &'a mut [T]) -> (r: ImagesViewMut<'a, T, C, H, W>)
        ensures
            r@ == old(arr)@,
            final(arr)@ == final(r.arr)@,
    {
        ImagesViewMut { arr }
    }

    /// The stack as a view.
    pub fn as_view<'a>(&'a self) -> (r: ImagesView<'a, T, C, H, W>)
        ensures
            r@ == self@,
    {
        ImagesView { arr: self.arr.as_slice() }
    }

    /// The cells as one slice.
    pub fn as_raw_slice(&self) -> (r: &[T])
        ensures
            r@ == self@,
    {
        self.arr.as_slice()
    }

    /// The planes, to be handed out to workers.
    pub fn par_iter<'a>(&'a self) -> (r: ImagesParIter<'a, T, C, H, W>)
        ensures
            r@ == self@,
    {
        ImagesParIter { arr: self.arr.as_slice() }
    }
}

impl<T: Copy, const C: usize, const H: usize, const W: usize> Clone for Images<T, C, H, W> {
    fn clone(&self) -> (r: Self)
        ensures
            r@ == self@,
    {
        Images { arr: copy_range(self.arr.as_slice(), 0, self.arr.len()) }
    }
}

impl<'a, T, const C: usize, const H: usize, const W: usize> ImagesView<'a, T, C, H, W> {
    /// The cells: plane after plane, each row-major.
    pub closed spec fn view(&self) -> Seq<T> {
        self.arr@
    }

    /// The view holds `C * (H * W)` cells.
    pub open spec fn wf(&self) -> bool {
        self@.len() == C * (H * W)
    }

    /// The cells of plane `c`.
    pub open spec fn plane(&self, c: int) -> Seq<T> {
        block(self@, c, H * W)
    }

    /// Walks the planes.
    pub fn iter(&self) -> (r: ImagesIter<'a, T, H, W>)
        ensures
            r@ == self@,
            self.wf() ==> r.wf(),
    {
        proof {
            lemma_stack_whole(C as int, H * W);
        }
        ImagesIter { arr: self.arr }
    }

    /// The cell at plane `c`, row `y`, column `x`.
    pub fn index(&self, at: (usize, usize, usize)) -> (r: &'a T)
        requires
            self.wf(),
            at.0 < C,
            at.1 < H,
            at.2 < W,
        ensures
            *r == self@[at.0 * (H * W) + at.1 * W + at.2],
    {
        proof {
            lemma_slice_len_fits(self.arr);
        }
        let i = offset3(at.0, at.1, at.2, C, H, W);
        &self.arr[i]
    }

    /// The cells as one slice.
    pub fn as_raw_slice(&self) -> (r: &'a [T])
        ensures
            r@ == self@,
    {
        self.arr
    }

    /// The planes, to be handed out to workers.
    pub fn par_iter(&self) -> (r: ImagesParIter<'a, T, C, H, W>)
        ensures
            r@ == self@,
    {
        ImagesParIter { arr: self.arr }
    }
}

impl<'a, T, const C: usize, const H: usize, const W: usize> Clone for ImagesView<'a, T, C, H, W> {
    fn clone(&self) -> (r: Self)
        ensures
            r@ == self@,
    {
        ImagesView { arr: self.arr }
    }
}

impl<'a, T, const C: usize, const H: usize, const W: usize> ImagesViewMut<'a, T, C, H, W> {
    /// The cells: plane after plane, each row-major.
    pub open spec fn view(&self) -> Seq<T> {
        self.arr@
    }

    /// The view holds `C * (H * W)` cells.
    pub open spec fn wf(&self) -> bool {
        self@.len() == C * (H * W)
    }

    /// Walks the planes.
    pub fn iter(&'a self) -> (r: ImagesIter<'a, T, H, W>)
        ensures
            r@ == self@,
            self.wf() ==> r.wf(),
    {
        proof {
            lemma_stack_whole(C as int, H * W);
        }
        ImagesIter { arr: &*self.arr }
    }

    /// Walks the planes for writing: what the planes hold when they are given
    /// up, one after the other, is what the view holds from then on.
    pub fn iter_mut(&'a mut self) -> (r: ImagesIterMut<'a, T, H, W>)
        ensures
            r@ == old(self)@,
            final(final(self).arr)@ == final(old(self).arr)@,
            final(self)@ == final(r.arr)@,
            old(self).wf() ==> r.wf(),
    {
        proof {
            lemma_stack_whole(C as int, H * W);
        }
        ImagesIterMut { arr: &mut *self.arr }
    }

    /// The cell at plane `c`, row `y`, column `x`.
    pub fn index(&self, at: (usize, usize, usize)) -> (r: &T)
        requires
            self.wf(),
            at.0 < C,
            at.1 < H,
            at.2 < W,
        ensures
            *r == self@[at.0 * (H * W) + at.1 * W + at.2],
    {
        proof {
            lemma_slice_len_fits(self.arr);
        }
        let i = offset3(at.0, at.1, at.2, C, H, W);
        &self.arr[i]
    }

    /// The cell at plane `c`, row `y`, column `x`, for writing.
    pub fn index_mut(&mut self, at: (usize, usize, usize)) -> (r: &mut T)
        requires
            old(self).wf(),
            at.0 < C,
            at.1 < H,
            at.2 < W,
        ensures
            *r == old(self)@[at.0 * (H * W) + at.1 * W + at.2],
            final(self)@ == old(self)@.update(at.0 * (H * W) + at.1 * W + at.2, *final(r)),
            final(final(self).arr)@ == final(old(self).arr)@,
    {
        proof {
            lemma_slice_len_fits(self.arr);
        }
        let i = offset3(at.0, at.1, at.2, C, H, W);
        &mut self.arr[i]
    }
}

impl<'a, T, const H: usize, const W: usize> ImagesIter<'a, T, H, W> {
    /// The cells not yet handed out.
    pub closed spec fn view(&self) -> Seq<T> {
        self.arr@
    }

    /// The planes that are still to come, in the order in which `next` hands
    /// them out.
    pub open spec fn items(&self) -> Seq<Seq<T>> {
        chunks(self@, H * W)
    }

    /// What is left is a whole number of planes.
    pub open spec fn wf(&self) -> bool {
        whole_rows(self@.len(), (H * W) as nat)
    }

    /// Number of cells in one plane.
    pub fn element_size(&self) -> (r: usize)
        requires
            H * W <= usize::MAX,
        ensures
            r == H * W,
    {
        H * W
    }

    /// The next plane, if one is left.
    pub fn next(&mut self) -> (r: Option<ImageView<'a, T, H, W>>)
        requires
            old(self).wf(),
        ensures
            final(self).wf(),
            match r {
                None => {
                    &&& old(self)@.len() == 0
                    &&& old(self).items().len() == 0
                    &&& final(self)@ == old(self)@
                },
                Some(plane) => {
                    &&& old(self)@.len() >= H * W
                    &&& old(self)@.len() > 0
                    &&& plane.wf()
                    &&& plane@ == old(self)@.subrange(0, H * W)
                    &&& final(self)@ == old(self)@.subrange(H * W, old(self)@.len() as int)
                    &&& old(self).items().len() > 0
                    &&& plane@ == old(self).items()[0]
                    &&& final(self).items() == old(self).items().drop_first()
                },
            },
    {
        if self.arr.len() == 0 {
            None
        } else {
            proof {
                lemma_whole_rows(self.arr@.len() as int, H * W);
                lemma_chunks_first(self.arr@, H * W);
            }
            proof {
                lemma_slice_len_fits(self.arr);
            }
            let (l, r) = self.arr.split_at(self.element_size());
            self.arr = r;
            Some(ImageView { arr: l })
        }
    }
}

impl<'a, T, const H: usize, const W: usize> ImagesIterMut<'a, T, H, W> {
    /// The cells not yet handed out.
    pub open spec fn view(&self) -> Seq<T> {
        self.arr@
    }

    /// What is left is a whole number of planes.
    pub open spec fn wf(&self) -> bool {
        whole_rows(self@.len(), (H * W) as nat)
    }

    /// Number of cells in one plane.
    pub fn element_size(&self) -> (r: usize)
        requires
            H * W <= usize::MAX,
        ensures
            r == H * W,
    {
        H * W
    }

    /// The next plane, if one is left. What the buffer holds in the end is
    /// what this plane holds when it is given up, followed by what the planes
    /// after it hold then.
    pub fn next(&mut self) -> (r: Option<ImageViewMut<'a, T, H, W>>)
        requires
            old(self).wf(),
        ensures
            final(self).wf(),
            match r {
                None => {
                    &&& old(self)@.len() == 0
                    &&& final(self)@ == old(self)@
                    &&& final(final(self).arr)@ == final(old(self).arr)@
                },
                Some(plane) => {
                    &&& old(self)@.len() >= H * W
                    &&& old(self)@.len() > 0
                    &&& plane.wf()
                    &&& plane@ == old(self)@.subrange(0, H * W)
                    &&& final(self)@ == old(self)@.subrange(H * W, old(self)@.len() as int)
                    &&& final(old(self).arr)@ == final(plane.arr)@ + final(final(self).arr)@
                },
            },
    {
        if self.arr.len() == 0 {
            None
        } else {
            proof {
                lemma_whole_rows(self.arr@.len() as int, H * W);
            }
            proof {
                lemma_slice_len_fits(self.arr);
            }
            let size = self.element_size();
            let slice = core::mem::replace(&mut self.arr, &mut []);
            let (l, r) = slice.split_at_mut(size);
            self.arr = r;
            Some(ImageViewMut { arr: l })
        }
    }
}

impl<'data, T, const C: usize, const H: usize, const W: usize> ImagesParIter<'data, T, C, H, W> {
    /// The cells: plane after plane, each row-major.
    pub closed spec fn view(&self) -> Seq<T> {
        self.arr@
    }

    /// The view holds `C * (H * W)` cells.
    pub open spec fn wf(&self) -> bool {
        self@.len() == C * (H * W)
    }

    /// Number of planes.
    pub fn len(&self) -> (r: usize)
        ensures
            r == C,
    {
        C
    }

    /// Number of planes, which is always known.
    pub fn opt_len(&self) -> (r: Option<usize>)
        ensures
            r == Some(C),
    {
        Some(self.len())
    }

    /// The producer that hands the planes out.
    pub fn with_producer(self) -> (r: ImagesIterProducer<'data, T, C, H, W>)
        ensures
            r@ == self@,
            self.wf() ==> r.wf(),
    {
        proof {
            lemma_stack_whole(C as int, H * W);
        }
        ImagesIterProducer { arr: self.arr }
    }
}

impl<'data, T, const C: usize, const H: usize, const W: usize> ImagesIterProducer<
    'data,
    T,
    C,
    H,
    W,
> {
    /// The cells not yet handed out.
    pub closed spec fn view(&self) -> Seq<T> {
        self.arr@
    }

    /// What is left is a whole number of planes.
    pub open spec fn wf(&self) -> bool {
        whole_rows(self@.len(), (H * W) as nat)
    }

    /// Number of cells in one plane.
    pub fn element_size(&self) -> (r: usize)
        requires
            H * W <= usize::MAX,
        ensures
            r == H * W,
    {
        H * W
    }

    /// The first plane left, if any.
    pub fn next(&mut self) -> (r: Option<ImageView<'data, T, H, W>>)
        requires
            old(self).wf(),
        ensures
            final(self).wf(),
            match r {
                None => old(self)@.len() == 0 && final(self)@ == old(self)@,
                Some(plane) => {
                    &&& old(self)@.len() >= H * W
                    &&& old(self)@.len() > 0
                    &&& plane.wf()
                    &&& plane@ == old(self)@.subrange(0, H * W)
                    &&& final(self)@ == old(self)@.subrange(H * W, old(self)@.len() as int)
                },
            },
    {
        if self.arr.len() == 0 {
            None
        } else {
            proof {
                lemma_whole_rows(self.arr@.len() as int, H * W);
            }
            proof {
                lemma_slice_len_fits(self.arr);
            }
            let (l, r) = self.arr.split_at(self.element_size());
            self.arr = r;
            Some(ImageView { arr: l })
        }
    }

    /// The last plane left, if any.
    pub fn next_back(&mut self) -> (r: Option<ImageView<'data, T, H, W>>)
        requires
            old(self).wf(),
        ensures
            final(self).wf(),
            match r {
                None => old(self)@.len() == 0 && final(self)@ == old(self)@,
                Some(plane) => {
                    &&& old(self)@.len() >= H * W
                    &&& old(self)@.len() > 0
                    &&& plane.wf()
                    &&& plane@ == old(self)@.subrange(
                        old(self)@.len() - H * W,
                        old(self)@.len() as int,
                    )
                    &&& final(self)@ == old(self)@.subrange(0, old(self)@.len() - H * W)
                },
            },
    {
        if self.arr.len() == 0 {
            None
        } else {
            proof {
                lemma_whole_rows(self.arr@.len() as int, H * W);
            }
            let n = self.arr.len();
            let (l, r) = self.arr.split_at(n - self.element_size());
            self.arr = l;
            Some(ImageView { arr: r })
        }
    }

    /// Number of planes left.
    pub fn len(&self) -> (r: usize)
        requires
            self.wf(),
        ensures
            H * W > 0 ==> r == self@.len() / ((H * W) as nat),
            H * W == 0 ==> r == 0,
    {
        let n = self.arr.len();
        if n == 0 {
            0
        } else {
            proof {
                lemma_whole_rows(n as int, H * W);
            }
            n / self.element_size()
        }
    }

    /// Number of planes left, as a lower and an upper bound.
    pub fn size_hint(&self) -> (r: (usize, Option<usize>))
        requires
            self.wf(),
        ensures
            H * W > 0 ==> r.0 == self@.len() / ((H * W) as nat),
            H * W == 0 ==> r.0 == 0,
            r.1 == Some(r.0),
    {
        let n = self.len();
        (n, Some(n))
    }

    /// The producer itself: it walks its own planes.
    pub fn into_iter(self) -> (r: Self)
        ensures
            r == self,
    {
        self
    }

    /// The first `mid` planes, and the rest.
    pub fn split_at(self, mid: usize) -> (r: (Self, Self))
        requires
            self.wf(),
            mid * (H * W) <= self@.len(),
        ensures
            r.0.wf(),
            r.1.wf(),
            r.0@ == self@.subrange(0, mid * (H * W)),
            r.1@ == self@.subrange(mid * (H * W), self@.len() as int),
    {
        let n = self.arr.len();
        if n == 0 {
            assert(mid * (H * W) == 0) by (nonlinear_arith)
                requires
                    0 <= mid * (H * W) <= 0,
            ;
            let (l, r) = self.arr.split_at(0);
            return (ImagesIterProducer { arr: l }, ImagesIterProducer { arr: r });
        }
        proof {
            lemma_whole_rows(n as int, H * W);
        }
        let size = self.element_size();
        proof {
            lemma_whole_rows_split(n as int, mid as int, size as int);
        }
        let (l, r) = self.arr.split_at(mid * size);
        (ImagesIterProducer { arr: l }, ImagesIterProducer { arr: r })
    }
}

/// `a * b * (c * d)`, for extents whose product is a length.
pub fn volume4(a: usize, b: usize, c: usize, d: usize) -> (r: usize)
    requires
        a * b * (c * d) <= usize::MAX,
    ensures
        r == a * b * (c * d),
{
    if a == 0 || b == 0 || c == 0 || d == 0 {
        assert(a * b * (c * d) == 0) by (nonlinear_arith)
            requires
                a == 0 || b == 0 || c == 0 || d == 0,
        ;
        0
    } else {
        assert(c * d <= a * b * (c * d) && a * b <= a * b * (c * d)) by (nonlinear_arith)
            requires
                a >= 1,
                b >= 1,
                c >= 1,
                d >= 1,
        ;
        (a * b) * (c * d)
    }
}

/// The weights of a convolution: `K` output channels, each a stack of `C`
/// filters of `FH` rows and `FW` columns, in one buffer.
#[verifier::reject_recursive_types(K)]
#[verifier::reject_recursive_types(C)]
#[verifier::reject_recursive_types(FH)]
#[verifier::reject_recursive_types(FW)]
#[derive(Debug, PartialEq, Eq)]
pub struct Kernel<T, const K: usize, const C: usize, const FH: usize, const FW: usize> {
    arr: Vec<T>,
}

impl<T, const K: usize, const C: usize, const FH: usize, const FW: usize> Kernel<T, K, C, FH, FW> {
    /// The weights: output channel after output channel, in each input
    /// channel after input channel, each filter row-major.
    pub closed spec fn view(&self) -> Seq<T> {
        self.arr@
    }

    /// The buffer holds `K * C * FH * FW` weights.
    pub open spec fn wf(&self) -> bool {
        self@.len() == K * C * (FH * FW)
    }

    /// A kernel whose every weight is a value that `T::default()` gives.
    pub fn new() -> (r: Self) where T: Default + Copy
        requires
            K * C * (FH * FW) <= usize::MAX,
        ensures
            r.wf(),
            forall|i: int| 0 <= i < r@.len() ==> call_ensures(T::default, (), #[trigger] r@[i]),
    {
        let n = volume4(K, C, FH, FW);
        let fill = T::default();
        let mut arr: Vec<T> = Vec::new();
        let mut i: usize = 0;
        while i < n
            invariant
                i <= n,
                arr@.len() == i,
                call_ensures(T::default, (), fill),
                forall|j: int| 0 <= j < i ==> call_ensures(T::default, (), #[trigger] arr@[j]),
            decreases n - i,
        {
            arr.push(fill);
            i += 1;
        }
        Kernel { arr }
    }

    /// The kernel that holds `weights`, if there are `K * C * FH * FW` of
    /// them.
    pub fn from_raw(weights: Vec<T>) -> (r: Result<Self, SizeMismatchError>)
        requires
            K * C * (FH * FW) <= usize::MAX,
        ensures
            weights@.len() == K * C * (FH * FW) ==> (r matches Ok(kernel) && kernel@ == weights@),
            weights@.len() != K * C * (FH * FW) ==> r == Err::<Self, _>(
                SizeMismatchError(weights@.len() as usize, (K * C * (FH * FW)) as usize),
            ),
    {
        let n = volume4(K, C, FH, FW);
        if weights.len() != n {
            Err(SizeMismatchError(weights.len(), n))
        } else {
            Ok(Kernel { arr: weights })
        }
    }

    /// Gives the buffer back.
    pub fn into_raw(self) -> (r: Vec<T>)
        ensures
            r@ == self@,
    {
        self.arr
    }

    /// The weights as one slice.
    pub fn as_raw_slice(&self) -> (r: &[T])
        ensures
            r@ == self@,
    {
        self.arr.as_slice()
    }

    /// The weight of output channel `k`, input channel `c`, row `y`, column
    /// `x`.
    pub fn index(&self, at: (usize, usize, usize, usize)) -> (r: &T)
        requires
            self.wf(),
            at.0 < K,
            at.1 < C,
            at.2 < FH,
            at.3 < FW,
        ensures
            *r == self@[(at.0 * C + at.1) * (FH * FW) + at.2 * FW + at.3],
    {
        proof {
            lemma_vec_len_fits(&self.arr);
        }
        let i = offset4(at.0, at.1, at.2, at.3, K, C, FH, FW);
        &self.arr[i]
    }

    /// The weight of output channel `k`, input channel `c`, row `y`, column
    /// `x`, for writing.
    pub fn index_mut(&mut self, at: (usize, usize, usize, usize)) -> (r: &mut T)
        requires
            old(self).wf(),
            at.0 < K,
            at.1 < C,
            at.2 < FH,
            at.3 < FW,
        ensures
            *r == old(self)@[(at.0 * C + at.1) * (FH * FW) + at.2 * FW + at.3],
            final(self)@ == old(self)@.update(
                (at.0 * C + at.1) * (FH * FW) + at.2 * FW + at.3,
                *final(r),
            ),
    {
        proof {
            lemma_vec_len_fits(&self.arr);
        }
        let i = offset4(at.0, at.1, at.2, at.3, K, C, FH, FW);
        &mut self.arr[i]
    }
}

impl<T: Copy, const K: usize, const C: usize, const FH: usize, const FW: usize> Clone for Kernel<
    T,
    K,
    C,
    FH,
    FW,
> {
    fn clone(&self) -> (r: Self)
        ensures
            r@ == self@,
    {
        Kernel { arr: copy_range(self.arr.as_slice(), 0, self.arr.len()) }
    }
}

/// The position of weight `(k, c, y, x)` in a kernel of `nk` output channels,
/// `nc` input channels and filters of `fh` rows and `fw` columns.
pub fn offset4(
    k: usize,
    c: usize,
    y: usize,
    x: usize,
    nk: usize,
    nc: usize,
    fh: usize,
    fw: usize,
) -> (r: usize)
    requires
        k < nk,
        c < nc,
        y < fh,
        x < fw,
        nk * nc * (fh * fw) <= usize::MAX,
    ensures
        r == (k * nc + c) * (fh * fw) + y * fw + x,
        r < nk * nc * (fh * fw),
{
    proof {
        lemma_flat_index(k as int, c as int, nk as int, nc as int);
        lemma_flat_index(y as int, x as int, fh as int, fw as int);
        lemma_flat_index(k * nc + c, y * fw + x, nk * nc, fh * fw);
        lemma_flat_index(k * nc + c, 0, nk * nc, fh * fw);
        assert(nk * nc <= nk * nc * (fh * fw) && fh * fw <= nk * nc * (fh * fw)) by (nonlinear_arith)
            requires
                nk >= 1,
                nc >= 1,
                fh >= 1,
                fw >= 1,
        ;
    }
    (k * nc + c) * (fh * fw) + (y * fw + x)
}

/// A patch matrix: one row per window position, one column per window cell,
/// row-major in one buffer.
#[derive(Debug, PartialEq, Eq)]
pub struct PatchMatrix<T> {
    rows: usize,
    cols: usize,
    arr: Vec<T>,
}

impl<T> PatchMatrix<T> {
    /// The cells, row-major.
    pub closed spec fn view(&self) -> Seq<T> {
        self.arr@
    }

    /// Number of rows.
    pub closed spec fn rows_spec(&self) -> usize {
        self.rows
    }

    /// Number of columns.
    pub closed spec fn cols_spec(&self) -> usize {
        self.cols
    }

    /// The buffer holds `rows * cols` cells.
    pub open spec fn wf(&self) -> bool {
        self@.len() == self.rows_spec() * self.cols_spec()
    }

    /// The matrix of `rows` rows and `cols` columns that holds `cells`, if
    /// there are `rows * cols` of them.
    pub fn from_raw(rows: usize, cols: usize, cells: Vec<T>) -> (r: Result<
        Self,
        SizeMismatchError,
    >)
        ensures
            cells@.len() == rows * cols ==> (r matches Ok(m) && m@ == cells@ && m.rows_spec()
                == rows && m.cols_spec() == cols),
            cells@.len() != rows * cols ==> r == Err::<Self, _>(
                SizeMismatchError(
                    cells@.len() as usize,
                    if rows * cols <= usize::MAX {
                        (rows * cols) as usize
                    } else {
                        usize::MAX
                    },
                ),
            ),
    {
        match rows.checked_mul(cols) {
            Some(n) => {
                if cells.len() == n {
                    Ok(PatchMatrix { rows, cols, arr: cells })
                } else {
                    Err(SizeMismatchError(cells.len(), n))
                }
            },
            None => Err(SizeMismatchError(cells.len(), usize::MAX)),
        }
    }

    /// Gives the buffer back.
    pub fn into_raw(self) -> (r: Vec<T>)
        ensures
            r@ == self@,
    {
        self.arr
    }

    /// Number of rows.
    #[verifier::when_used_as_spec(rows_spec)]
    pub fn rows(&self) -> (r: usize)
        ensures
            r == self.rows_spec(),
    {
        self.rows
    }

    /// Number of columns.
    #[verifier::when_used_as_spec(cols_spec)]
    pub fn cols(&self) -> (r: usize)
        ensures
            r == self.cols_spec(),
    {
        self.cols
    }

    /// The cells as one slice.
    pub fn as_raw_slice(&self) -> (r: &[T])
        ensures
            r@ == self@,
    {
        self.arr.as_slice()
    }

    /// The cell in row `row`, column `col`.
    pub fn index(&self, at: (usize, usize)) -> (r: &T)
        requires
            self.wf(),
            at.0 < self.rows_spec(),
            at.1 < self.cols_spec(),
        ensures
            *r == self@[at.0 * self.cols_spec() + at.1],
    {
        proof {
            lemma_vec_len_fits(&self.arr);
        }
        let i = offset2(at.0, at.1, self.rows, self.cols);
        &self.arr[i]
    }

    /// Row `row`.
    pub fn row(&self, row: usize) -> (r: &[T])
        requires
            self.wf(),
            row < self.rows_spec(),
        ensures
            r@ == self@.subrange(row * self.cols_spec(), (row + 1) * self.cols_spec()),
    {
        proof {
            lemma_vec_len_fits(&self.arr);
        }
        proof {
            lemma_row_bounds(row as int, self.rows as int, self.cols as int);
        }
        let from = row * self.cols;
        vstd::slice::slice_subrange(self.arr.as_slice(), from, from + self.cols)
    }
}

/// The cells of `samples`, one stack after the other.
pub open spec fn concat_samples<T, const C: usize, const H: usize, const W: usize>(
    samples: Seq<Images<T, C, H, W>>,
) -> Seq<T>
    decreases samples.len(),
{
    if samples.len() == 0 {
        Seq::empty()
    } else {
        concat_samples(samples.drop_last()) + samples.last()@
    }
}

/// A batch of stacks of `C` planes of `H` rows and `W` columns, in one
/// buffer.
#[verifier::reject_recursive_types(C)]
#[verifier::reject_recursive_types(H)]
#[verifier::reject_recursive_types(W)]
#[derive(Debug, PartialEq, Eq)]
pub struct VecImages<T, const C: usize, const H: usize, const W: usize> {
    n: usize,
    arr: Vec<T>,
}

impl<T, const C: usize, const H: usize, const W: usize> VecImages<T, C, H, W> {
    /// The cells: sample after sample.
    pub closed spec fn view(&self) -> Seq<T> {
        self.arr@
    }

    /// Number of samples.
    pub closed spec fn len_spec(&self) -> usize {
        self.n
    }

    /// The buffer holds `C * (H * W)` cells for each sample.
    pub open spec fn wf(&self) -> bool {
        self@.len() == self.len_spec() * (C * (H * W))
    }

    /// The cells of sample `i`.
    pub open spec fn sample(&self, i: int) -> Seq<T> {
        block(self@, i, C * (H * W))
    }

    /// The batch without samples.
    pub fn new() -> (r: Self)
        ensures
            r.wf(),
            r.len_spec() == 0,
            r@ == Seq::<T>::empty(),
    {
        VecImages { n: 0, arr: Vec::new() }
    }

    /// Number of samples.
    #[verifier::when_used_as_spec(len_spec)]
    pub fn len(&self) -> (r: usize)
        ensures
            r == self.len_spec(),
    {
        self.n
    }

    /// Adds a copy of `images` as the last sample.
    pub fn push(&mut self, images: &Images<T, C, H, W>) where T: Copy
        requires
            old(self).wf(),
            images.wf(),
            old(self).len_spec() < usize::MAX,
        ensures
            final(self).wf(),
            final(self).len_spec() == old(self).len_spec() + 1,
            final(self)@ == old(self)@ + images@,
    {
        let cells = images.as_raw_slice();
        let ghost before = self.arr@;
        let ghost count = self.n as int;
        let mut i: usize = 0;
        while i < cells.len()
            invariant
                i <= cells@.len(),
                self.n == old(self).n,
                self.arr@ == before + cells@.take(i as int),
            decreases cells@.len() - i,
        {
            self.arr.push(cells[i]);
            i += 1;
            assert(cells@.take(i as int) == cells@.take(i - 1).push(cells@[i - 1]));
        }
        self.n = self.n + 1;
        proof {
            assert(cells@.take(cells@.len() as int) == cells@);
            assert((count + 1) * (C * (H * W)) == count * (C * (H * W)) + C * (H * W))
                by (nonlinear_arith);
        }
    }

    /// The batch made of `items`, one sample each.
    pub fn from(items: Vec<Images<T, C, H, W>>) -> (r: Self) where T: Copy
        requires
            forall|i: int| 0 <= i < items@.len() ==> (#[trigger] items@[i]).wf(),
        ensures
            r.wf(),
            r.len_spec() == items@.len(),
            r@ == concat_samples(items@),
    {
        let mut out = VecImages { n: 0, arr: Vec::new() };
        let mut k: usize = 0;
        while k < items.len()
            invariant
                k <= items@.len(),
                forall|i: int| 0 <= i < items@.len() ==> (#[trigger] items@[i]).wf(),
                out.wf(),
                out.n == k,
                out.arr@ == concat_samples(items@.take(k as int)),
            decreases items@.len() - k,
        {
            let cells = items[k].as_raw_slice();
            let ghost before = out.arr@;
            let mut i: usize = 0;
            while i < cells.len()
                invariant
                    i <= cells@.len(),
                    out.n == k,
                    out.arr@ == before + cells@.take(i as int),
                decreases cells@.len() - i,
            {
                out.arr.push(cells[i]);
                i += 1;
                assert(cells@.take(i as int) == cells@.take(i - 1).push(cells@[i - 1]));
            }
            k += 1;
            out.n = k;
            proof {
                assert(cells@.take(cells@.len() as int) == cells@);
                assert(items@.take(k as int).drop_last() == items@.take(k - 1));
                assert(k * (C * (H * W)) == (k - 1) * (C * (H * W)) + C * (H * W)) by (nonlinear_arith);
            }
        }
        proof {
            assert(items@.take(items@.len() as int) == items@);
        }
        out
    }

    /// Sample `i` as a view.
    pub fn get<'a>(&'a self, i: usize) -> (r: ImagesView<'a, T, C, H, W>)
        requires
            self.wf(),
            i < self.len_spec(),
        ensures
            r.wf(),
            r@ == self.sample(i as int),
    {
        proof {
            lemma_vec_len_fits(&self.arr);
            assert(C * (H * W) >= 0) by (nonlinear_arith);
            lemma_row_bounds(i as int, self.n as int, C * (H * W));
            lemma_row_bounds(0, self.n as int, C * (H * W));
        }
        let size = volume(C, H, W);
        let from = i * size;
        ImagesView { arr: vstd::slice::slice_subrange(self.arr.as_slice(), from, from + size) }
    }

    /// The cells as one slice.
    pub fn as_raw_slice(&self) -> (r: &[T])
        ensures
            r@ == self@,
    {
        self.arr.as_slice()
    }
}

/// Walking a view does not change it: two walks over the planes of one view,
/// whenever they are begun, hand out the same planes in the same order,
/// which are the planes of the view.
pub proof fn lemma_walks_agree<'a, T, const C: usize, const H: usize, const W: usize>(
    view: ImagesView<'a, T, C, H, W>,
    first: ImagesIter<'a, T, H, W>,
    second: ImagesIter<'a, T, H, W>,
)
    requires
        first@ == view@,
        second@ == view@,
    ensures
        first.items() == second.items(),
        first.items() == chunks(view@, H * W),
{
}

/// Walking a plane does not change it: two walks over the rows of one view,
/// whenever they are begun, hand out the same rows in the same order, which
/// are the rows of the view.
pub proof fn lemma_row_walks_agree<'a, T, const H: usize, const W: usize>(
    view: ImageView<'a, T, H, W>,
    first: ImageIter<'a, T, W>,
    second: ImageIter<'a, T, W>,
)
    requires
        first@ == view@,
        second@ == view@,
    ensures
        first.items() == second.items(),
        first.items() == chunks(view@, W as int),
{
}

/// `n` rows of `w` cells are a whole number of rows.
pub proof fn lemma_stack_whole(n: int, w: int)
    requires
        0 <= n,
        0 <= w,
    ensures
        n * w >= 0,
        whole_rows((n * w) as nat, w as nat),
{
    assert(n * w >= 0) by (nonlinear_arith)
        requires
            0 <= n,
            0 <= w,
    ;
    if w > 0 {
        vstd::arithmetic::div_mod::lemma_mod_multiples_basic(n, w);
    } else {
        assert(n * w == 0) by (nonlinear_arith)
            requires
                w == 0,
        ;
    }
}

/// Cutting `mid` rows off a whole number of rows leaves a whole number of
/// rows on both sides.
pub proof fn lemma_whole_rows_split(len: int, mid: int, w: int)
    requires
        0 <= mid,
        0 <= w,
        mid * w <= len,
        whole_rows(len as nat, w as nat),
    ensures
        0 <= mid * w,
        whole_rows((mid * w) as nat, w as nat),
        whole_rows((len - mid * w) as nat, w as nat),
{
    assert(0 <= mid * w) by (nonlinear_arith)
        requires
            0 <= mid,
            0 <= w,
    ;
    if w > 0 {
        vstd::arithmetic::div_mod::lemma_mod_multiples_basic(mid, w);
        vstd::arithmetic::div_mod::lemma_fundamental_div_mod(len, w);
        assert(len - mid * w == (len / w - mid) * w) by (nonlinear_arith)
            requires
                len == w * (len / w),
        ;
        vstd::arithmetic::div_mod::lemma_mod_multiples_basic(len / w - mid, w);
    } else {
        assert(mid * w == 0) by (nonlinear_arith)
            requires
                w == 0,
        ;
    }
}

} // verus!
