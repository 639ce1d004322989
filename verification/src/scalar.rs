//! The arithmetic of tensor cells, and ordered sums over it.

use vstd::prelude::*;

verus! {

/// The arithmetic that the engines need of a tensor cell: a zero, an
/// addition, a multiplication and a strict comparison.
///
/// Each executable operation is tied to a specification function, so that
/// contracts can say what a result is without fixing the number type. No law
/// is asked of the operations here; see [`Semiring`] for those.
pub trait Scalar: Copy + Send + Sync {
    /// The value that accumulations start from.
    spec fn zero_spec() -> Self;

    /// What `add` computes.
    spec fn add_spec(self, rhs: Self) -> Self;

    /// What `mul` computes.
    spec fn mul_spec(self, rhs: Self) -> Self;

    /// What `gt` computes: whether `self` is strictly greater than `rhs`.
    spec fn gt_spec(self, rhs: Self) -> bool;

    /// The zero.
    fn zero() -> (r: Self)
        ensures
            r == Self::zero_spec(),
    ;

    /// The sum of `self` and `rhs`.
    fn add(self, rhs: Self) -> (r: Self)
        ensures
            r == self.add_spec(rhs),
    ;

    /// The product of `self` and `rhs`.
    fn mul(self, rhs: Self) -> (r: Self)
        ensures
            r == self.mul_spec(rhs),
    ;

    /// Whether `self` is strictly greater than `rhs`.
    fn gt(self, rhs: Self) -> (r: bool)
        ensures
            r == self.gt_spec(rhs),
    ;
}

/// A [`Scalar`] whose operations obey the laws of a commutative semiring with
/// a strict order. Exact number types have them; rounding ones do not.
pub trait Semiring: Scalar {
    /// Addition does not depend on the order of its operands.
    proof fn lemma_add_commutative(a: Self, b: Self)
        ensures
            a.add_spec(b) == b.add_spec(a),
    ;

    /// Addition does not depend on how a sum is bracketed.
    proof fn lemma_add_associative(a: Self, b: Self, c: Self)
        ensures
            a.add_spec(b).add_spec(c) == a.add_spec(b.add_spec(c)),
    ;

    /// Adding zero changes nothing.
    proof fn lemma_add_zero(a: Self)
        ensures
            a.add_spec(Self::zero_spec()) == a,
    ;

    /// Multiplication does not depend on how a product is bracketed.
    proof fn lemma_mul_associative(a: Self, b: Self, c: Self)
        ensures
            a.mul_spec(b).mul_spec(c) == a.mul_spec(b.mul_spec(c)),
    ;

    /// Multiplication does not depend on the order of its operands.
    proof fn lemma_mul_commutative(a: Self, b: Self)
        ensures
            a.mul_spec(b) == b.mul_spec(a),
    ;

    /// Zero times anything is zero.
    proof fn lemma_mul_zero(a: Self)
        ensures
            Self::zero_spec().mul_spec(a) == Self::zero_spec(),
    ;

    /// A product with a sum on the right is the sum of the products.
    proof fn lemma_mul_distributes_left(a: Self, b: Self, c: Self)
        ensures
            a.mul_spec(b.add_spec(c)) == a.mul_spec(b).add_spec(a.mul_spec(c)),
    ;

    /// A product with a sum on the left is the sum of the products.
    proof fn lemma_mul_distributes_right(a: Self, b: Self, c: Self)
        ensures
            a.add_spec(b).mul_spec(c) == a.mul_spec(c).add_spec(b.mul_spec(c)),
    ;

    /// Of two values at most one is greater than the other.
    proof fn lemma_gt_asymmetric(a: Self, b: Self)
        ensures
            a.gt_spec(b) ==> !b.gt_spec(a),
    ;
}

/// The sum of the first `n` terms, added from the left in index order,
/// starting from zero. A term that is `None` is passed over.
pub open spec fn fold_terms<T: Scalar>(n: nat, term: spec_fn(int) -> Option<T>) -> T
    decreases n,
{
    if n == 0 {
        T::zero_spec()
    } else {
        let rest = fold_terms((n - 1) as nat, term);
        match term(n - 1) {
            Some(v) => rest.add_spec(v),
            None => rest,
        }
    }
}

/// Two lists of terms that agree on the first `n` indices have the same sum.
pub proof fn lemma_fold_terms_congruent<T: Scalar>(
    n: nat,
    f: spec_fn(int) -> Option<T>,
    g: spec_fn(int) -> Option<T>,
)
    requires
        forall|i: int| 0 <= i < n ==> #[trigger] f(i) == g(i),
    ensures
        fold_terms(n, f) == fold_terms(n, g),
    decreases n,
{
    if n > 0 {
        lemma_fold_terms_congruent((n - 1) as nat, f, g);
    }
}

/// A list whose terms are all zero sums to zero.
pub proof fn lemma_fold_terms_zeros<T: Semiring>(n: nat, f: spec_fn(int) -> Option<T>)
    requires
        forall|i: int| 0 <= i < n ==> #[trigger] f(i) == Some(T::zero_spec()),
    ensures
        fold_terms(n, f) == T::zero_spec(),
    decreases n,
{
    if n > 0 {
        lemma_fold_terms_zeros((n - 1) as nat, f);
        T::lemma_add_zero(T::zero_spec());
    }
}

/// The list whose one term is `v`, at index `at`.
pub open spec fn point_terms<T>(at: int, v: T) -> spec_fn(int) -> Option<T> {
    |i: int|
        if i == at {
            Some(v)
        } else {
            None
        }
}

/// A list of one term sums to that term.
pub proof fn lemma_fold_terms_point<T: Semiring>(n: nat, at: int, v: T)
    ensures
        fold_terms(n, point_terms(at, v)) == if 0 <= at < n {
            v
        } else {
            T::zero_spec()
        },
    decreases n,
{
    if n > 0 {
        lemma_fold_terms_point((n - 1) as nat, at, v);
        if at == n - 1 {
            T::lemma_add_commutative(T::zero_spec(), v);
            T::lemma_add_zero(v);
        }
    }
}

/// The list of the cells of a buffer.
pub open spec fn cell_terms<T>(cells: Seq<T>) -> spec_fn(int) -> Option<T> {
    |i: int| Some(cells[i])
}

/// The sum of the cells of a buffer.
pub open spec fn total<T: Scalar>(cells: Seq<T>) -> T {
    fold_terms(cells.len(), cell_terms(cells))
}

/// The list that has every term of `f`.
pub open spec fn all_terms<T>(f: spec_fn(int) -> T) -> spec_fn(int) -> Option<T> {
    |i: int| Some(f(i))
}

/// The sum of `f(0)` to `f(n - 1)`, added from the left, starting from zero.
pub open spec fn sum<T: Scalar>(n: nat, f: spec_fn(int) -> T) -> T {
    fold_terms(n, all_terms(f))
}

/// Functions that agree below `n` have the same sum.
pub proof fn lemma_sum_congruent<T: Scalar>(n: nat, f: spec_fn(int) -> T, g: spec_fn(int) -> T)
    requires
        forall|i: int| 0 <= i < n ==> #[trigger] f(i) == g(i),
    ensures
        sum(n, f) == sum(n, g),
{
    lemma_fold_terms_congruent(n, all_terms(f), all_terms(g));
}

/// The sum of sums, term by term, is the sum of the sums.
pub proof fn lemma_sum_added<T: Semiring>(
    n: nat,
    f: spec_fn(int) -> T,
    g: spec_fn(int) -> T,
    h: spec_fn(int) -> T,
)
    requires
        forall|i: int| 0 <= i < n ==> #[trigger] h(i) == f(i).add_spec(g(i)),
    ensures
        sum(n, h) == sum(n, f).add_spec(sum(n, g)),
{
    lemma_fold_terms_added(n, all_terms(f), all_terms(g), all_terms(h));
}

/// A factor on the right of every term is a factor on the right of the sum.
pub proof fn lemma_sum_scaled_right<T: Semiring>(
    n: nat,
    f: spec_fn(int) -> T,
    g: spec_fn(int) -> T,
    a: T,
)
    requires
        forall|i: int| 0 <= i < n ==> #[trigger] g(i) == f(i).mul_spec(a),
    ensures
        sum(n, g) == sum(n, f).mul_spec(a),
{
    lemma_fold_terms_scaled(n, all_terms(f), all_terms(g), a);
}

/// A factor on the left of every term is a factor on the left of the sum.
pub proof fn lemma_sum_scaled_left<T: Semiring>(
    n: nat,
    f: spec_fn(int) -> T,
    g: spec_fn(int) -> T,
    a: T,
)
    requires
        forall|i: int| 0 <= i < n ==> #[trigger] g(i) == a.mul_spec(f(i)),
    ensures
        sum(n, g) == a.mul_spec(sum(n, f)),
{
    assert forall|i: int| 0 <= i < n implies #[trigger] g(i) == f(i).mul_spec(a) by {
        T::lemma_mul_commutative(a, f(i));
    }
    lemma_sum_scaled_right(n, f, g, a);
    T::lemma_mul_commutative(a, sum(n, f));
}

/// A sum over `k + m` indices is the sum over the first `k` plus the sum over
/// the `m` that follow.
pub proof fn lemma_sum_split<T: Semiring>(
    k: nat,
    m: nat,
    f: spec_fn(int) -> T,
    g: spec_fn(int) -> T,
)
    requires
        forall|b: int| 0 <= b < m ==> #[trigger] g(b) == f(k + b),
    ensures
        sum(k + m, f) == sum(k, f).add_spec(sum(m, g)),
    decreases m,
{
    if m == 0 {
        T::lemma_add_zero(sum(k, f));
    } else {
        lemma_sum_split(k, (m - 1) as nat, f, g);
        assert(g(m - 1) == f(k + (m - 1)));
        T::lemma_add_associative(sum(k, f), sum((m - 1) as nat, g), g(m - 1));
    }
}

/// A sum over `n * m` indices is the sum, over `n` blocks, of the sums over
/// the `m` indices of each block.
pub proof fn lemma_sum_flattened<T: Semiring>(
    n: nat,
    m: nat,
    f: spec_fn(int) -> T,
    part: spec_fn(int) -> spec_fn(int) -> T,
    parts: spec_fn(int) -> T,
)
    requires
        forall|a: int, b: int| 0 <= a < n && 0 <= b < m ==> #[trigger] part(a)(b) == f(a * m + b),
        forall|a: int| 0 <= a < n ==> #[trigger] parts(a) == sum(m, part(a)),
    ensures
        sum(n * m, f) == sum(n, parts),
    decreases n,
{
    if n == 0 {
        assert(n * m == 0) by (nonlinear_arith)
            requires
                n == 0,
        ;
    } else {
        lemma_sum_flattened((n - 1) as nat, m, f, part, parts);
        assert((n - 1) * m + m == n * m && (n - 1) * m >= 0) by (nonlinear_arith)
            requires
                n >= 1,
                m >= 0,
        ;
        assert forall|b: int| 0 <= b < m implies #[trigger] part(n - 1)(b) == f(
            ((n - 1) * m) as nat + b,
        ) by {}
        lemma_sum_split(((n - 1) * m) as nat, m, f, part(n - 1));
    }
}

/// A sum over two indices does not depend on which index is summed first.
pub proof fn lemma_sum_exchanged<T: Semiring>(
    n: nat,
    m: nat,
    row: spec_fn(int) -> spec_fn(int) -> T,
    col: spec_fn(int) -> spec_fn(int) -> T,
    rows: spec_fn(int) -> T,
    cols: spec_fn(int) -> T,
)
    requires
        forall|i: int, j: int| 0 <= i < n && 0 <= j < m ==> #[trigger] row(i)(j) == col(j)(i),
        forall|i: int| 0 <= i < n ==> #[trigger] rows(i) == sum(m, row(i)),
        forall|j: int| 0 <= j < m ==> #[trigger] cols(j) == sum(n, col(j)),
    ensures
        sum(n, rows) == sum(m, cols),
    decreases n,
{
    if n == 0 {
        lemma_fold_terms_zeros(m, all_terms(cols));
    } else {
        let before = |j: int| sum((n - 1) as nat, col(j));
        lemma_sum_exchanged((n - 1) as nat, m, row, col, rows, before);
        assert forall|j: int| 0 <= j < m implies #[trigger] cols(j) == before(j).add_spec(
            row(n - 1)(j),
        ) by {
            assert(row(n - 1)(j) == col(j)(n - 1));
        }
        lemma_sum_added(m, before, row(n - 1), cols);
    }
}

/// Scaling every term scales the sum.
pub proof fn lemma_fold_terms_scaled<T: Semiring>(
    n: nat,
    f: spec_fn(int) -> Option<T>,
    g: spec_fn(int) -> Option<T>,
    a: T,
)
    requires
        forall|i: int|
            0 <= i < n ==> #[trigger] g(i) == match f(i) {
                Some(v) => Some(v.mul_spec(a)),
                None => None::<T>,
            },
    ensures
        fold_terms(n, g) == fold_terms(n, f).mul_spec(a),
    decreases n,
{
    if n == 0 {
        T::lemma_mul_zero(a);
    } else {
        lemma_fold_terms_scaled((n - 1) as nat, f, g, a);
        match f(n - 1) {
            Some(v) => {
                T::lemma_mul_distributes_right(fold_terms((n - 1) as nat, f), v, a);
            },
            None => {},
        }
    }
}

/// Adding two lists term by term adds their sums.
pub proof fn lemma_fold_terms_added<T: Semiring>(
    n: nat,
    f: spec_fn(int) -> Option<T>,
    g: spec_fn(int) -> Option<T>,
    h: spec_fn(int) -> Option<T>,
)
    requires
        forall|i: int|
            0 <= i < n ==> #[trigger] h(i) == match (f(i), g(i)) {
                (Some(u), Some(v)) => Some(u.add_spec(v)),
                (Some(u), None) => Some(u),
                (None, Some(v)) => Some(v),
                (None, None) => None::<T>,
            },
    ensures
        fold_terms(n, h) == fold_terms(n, f).add_spec(fold_terms(n, g)),
    decreases n,
{
    if n == 0 {
        T::lemma_add_zero(T::zero_spec());
    } else {
        lemma_fold_terms_added((n - 1) as nat, f, g, h);
        let x = fold_terms((n - 1) as nat, f);
        let y = fold_terms((n - 1) as nat, g);
        match (f(n - 1), g(n - 1)) {
            (Some(u), Some(v)) => {
                // (x + y) + (u + v) == (x + u) + (y + v)
                T::lemma_add_associative(x, y, u.add_spec(v));
                T::lemma_add_associative(y, u, v);
                T::lemma_add_commutative(y, u);
                T::lemma_add_associative(u, y, v);
                T::lemma_add_associative(x, u, y.add_spec(v));
            },
            (Some(u), None) => {
                // (x + y) + u == (x + u) + y
                T::lemma_add_associative(x, y, u);
                T::lemma_add_commutative(y, u);
                T::lemma_add_associative(x, u, y);
            },
            (None, Some(v)) => {
                T::lemma_add_associative(x, y, v);
            },
            (None, None) => {},
        }
    }
}

/// 64-bit integers under wrapping arithmetic: sums and products are taken
/// modulo two to the power 64.
impl Scalar for i64 {
    open spec fn zero_spec() -> Self {
        0i64
    }

    open spec fn add_spec(self, rhs: Self) -> Self {
        self.wrapping_add(rhs)
    }

    open spec fn mul_spec(self, rhs: Self) -> Self {
        self.wrapping_mul(rhs)
    }

    open spec fn gt_spec(self, rhs: Self) -> bool {
        self > rhs
    }

    fn zero() -> (r: Self) {
        0i64
    }

    fn add(self, rhs: Self) -> (r: Self) {
        self.wrapping_add(rhs)
    }

    fn mul(self, rhs: Self) -> (r: Self) {
        self.wrapping_mul(rhs)
    }

    fn gt(self, rhs: Self) -> (r: bool) {
        self > rhs
    }
}

/// The range of `i64`: two to the power 64.
pub open spec fn wrap_range() -> int {
    0x1_0000_0000_0000_0000
}

/// The `i64` that is congruent to `x` modulo two to the power 64.
pub open spec fn wrap(x: int) -> i64 {
    vstd::wrapping::i64_specs::signed_crop(x)
}

/// `wrap(x)` differs from `x` by a multiple of the range.
pub proof fn lemma_wrap_residue(x: int) -> (k: int)
    ensures
        wrap(x) == x + k * wrap_range(),
{
    let r = wrap_range();
    vstd::arithmetic::div_mod::lemma_fundamental_div_mod(x, r);
    vstd::arithmetic::div_mod::lemma_mod_bound(x, r);
    let k = if x % r > i64::MAX {
        -(x / r) - 1
    } else {
        -(x / r)
    };
    assert(x + k * r == x % r + (k + x / r) * r) by (nonlinear_arith)
        requires
            x == r * (x / r) + x % r,
    ;
    k
}

/// Numbers that differ by a multiple of the range wrap to the same `i64`.
pub proof fn lemma_wrap_shift(x: int, k: int)
    ensures
        wrap(x + k * wrap_range()) == wrap(x),
{
    let r = wrap_range();
    vstd::arithmetic::div_mod::lemma_mod_multiples_vanish(k, x, r);
    assert(r * k + x == x + k * r) by (nonlinear_arith);
}

/// A number in the range of `i64` wraps to itself.
pub proof fn lemma_wrap_small(x: int)
    requires
        i64::MIN <= x <= i64::MAX,
    ensures
        wrap(x) == x,
{
    let r = wrap_range();
    if x >= 0 {
        vstd::arithmetic::div_mod::lemma_small_mod(x as nat, r as nat);
    } else {
        vstd::arithmetic::div_mod::lemma_small_mod((x + r) as nat, r as nat);
        vstd::arithmetic::div_mod::lemma_mod_multiples_vanish(1, x, r);
    }
}

/// Wrapping addition is addition followed by wrapping.
pub proof fn lemma_add_wraps(a: i64, b: i64)
    ensures
        a.add_spec(b) == wrap(a + b),
{
    let r = wrap_range();
    let x = a + b;
    if x > i64::MAX {
        lemma_wrap_small(x - r);
        lemma_wrap_shift(x - r, 1);
    } else if x < i64::MIN {
        lemma_wrap_small(x + r);
        lemma_wrap_shift(x + r, -1);
    } else {
        lemma_wrap_small(x);
    }
}

/// Wrapping arithmetic is arithmetic modulo two to the power 64, and so has
/// the laws of the integers.
impl Semiring for i64 {
    proof fn lemma_add_commutative(a: Self, b: Self) {
    }

    proof fn lemma_add_associative(a: Self, b: Self, c: Self) {
        lemma_add_wraps(a, b);
        lemma_add_wraps(b, c);
        lemma_add_wraps(a.add_spec(b), c);
        lemma_add_wraps(a, b.add_spec(c));
        let k1 = lemma_wrap_residue(a + b);
        let k2 = lemma_wrap_residue(b + c);
        lemma_wrap_shift(a + b + c, k1);
        lemma_wrap_shift(a + b + c, k2);
    }

    proof fn lemma_add_zero(a: Self) {
        lemma_add_wraps(a, 0i64);
        lemma_wrap_small(a as int);
    }

    proof fn lemma_mul_associative(a: Self, b: Self, c: Self) {
        let r = wrap_range();
        let k1 = lemma_wrap_residue(a * b);
        let k2 = lemma_wrap_residue(b * c);
        assert((a * b + k1 * r) * c == a * b * c + (k1 * c) * r) by (nonlinear_arith);
        assert(a * (b * c + k2 * r) == a * b * c + (a * k2) * r) by (nonlinear_arith);
        lemma_wrap_shift(a * b * c, k1 * c);
        lemma_wrap_shift(a * b * c, a * k2);
    }

    proof fn lemma_mul_commutative(a: Self, b: Self) {
        assert(a * b == b * a) by (nonlinear_arith);
    }

    proof fn lemma_mul_zero(a: Self) {
        lemma_wrap_small(0);
    }

    proof fn lemma_mul_distributes_left(a: Self, b: Self, c: Self) {
        let r = wrap_range();
        lemma_add_wraps(b, c);
        lemma_add_wraps(a.mul_spec(b), a.mul_spec(c));
        let k0 = lemma_wrap_residue(b + c);
        let k1 = lemma_wrap_residue(a * b);
        let k2 = lemma_wrap_residue(a * c);
        assert(a * (b + c + k0 * r) == a * b + a * c + (a * k0) * r) by (nonlinear_arith);
        assert((a * b + k1 * r) + (a * c + k2 * r) == a * b + a * c + (k1 + k2) * r)
            by (nonlinear_arith);
        lemma_wrap_shift(a * b + a * c, a * k0);
        lemma_wrap_shift(a * b + a * c, k1 + k2);
    }

    proof fn lemma_mul_distributes_right(a: Self, b: Self, c: Self) {
        let r = wrap_range();
        lemma_add_wraps(a, b);
        lemma_add_wraps(a.mul_spec(c), b.mul_spec(c));
        let k0 = lemma_wrap_residue(a + b);
        let k1 = lemma_wrap_residue(a * c);
        let k2 = lemma_wrap_residue(b * c);
        assert((a + b + k0 * r) * c == a * c + b * c + (k0 * c) * r) by (nonlinear_arith);
        assert((a * c + k1 * r) + (b * c + k2 * r) == a * c + b * c + (k1 + k2) * r)
            by (nonlinear_arith);
        lemma_wrap_shift(a * c + b * c, k0 * c);
        lemma_wrap_shift(a * c + b * c, k1 + k2);
    }

    proof fn lemma_gt_asymmetric(a: Self, b: Self) {
    }
}

} // verus!
