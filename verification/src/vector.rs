//! Fixed-size vectors of unsigned integers with exact arithmetic contracts.
//!
//! Lengths are computed with the truncated integer square root, supplied by
//! an outside arithmetic crate through the `Sqrt` trait.

use vstd::prelude::*;

verus! {

broadcast use vstd::array::group_array_axioms;

/// Sum of the squares of the elements before index `n`.
pub open spec fn sum_squares(s: Seq<u64>, n: int) -> int
    decreases n,
{
    if n <= 0 {
        0
    } else {
        sum_squares(s, n - 1) + s[n - 1] * s[n - 1]
    }
}

/// Sum of the products of corresponding elements before index `n`.
pub open spec fn dot_prefix(a: Seq<u64>, b: Seq<u64>, n: int) -> int
    decreases n,
{
    if n <= 0 {
        0
    } else {
        dot_prefix(a, b, n - 1) + a[n - 1] * b[n - 1]
    }
}

/// The truncated square root: the unique nonnegative `r` with
/// `r * r <= n < (r + 1) * (r + 1)`.
pub open spec fn isqrt(n: int) -> int {
    choose|r: int| 0 <= r && (#[trigger] (r * r)) <= n && n < (r + 1) * (r + 1)
}

/// Any nonnegative `r` whose square brackets `n` is the truncated root.
pub proof fn lemma_isqrt_is(n: int, r: int)
    requires
        0 <= r,
        r * r <= n,
        n < (r + 1) * (r + 1),
    ensures
        isqrt(n) == r,
{
    assert(exists|q: int| 0 <= q && (#[trigger] (q * q)) <= n && n < (q + 1) * (q + 1)) by {
        assert(0 <= r && r * r <= n && n < (r + 1) * (r + 1));
    }
    let c = isqrt(n);
    assert(0 <= c && c * c <= n && n < (c + 1) * (c + 1));
    if c < r {
        assert((c + 1) * (c + 1) <= r * r) by (nonlinear_arith)
            requires
                0 <= c,
                c < r,
        ;
        assert(false);
    }
    if r < c {
        assert((r + 1) * (r + 1) <= c * c) by (nonlinear_arith)
            requires
                0 <= r,
                r < c,
        ;
        assert(false);
    }
}

/// The truncated root exists for every nonnegative argument, so `isqrt`
/// satisfies its defining bracket.
pub proof fn lemma_isqrt_bounds(n: int)
    requires
        0 <= n,
    ensures
        0 <= isqrt(n),
        isqrt(n) * isqrt(n) <= n,
        n < (isqrt(n) + 1) * (isqrt(n) + 1),
    decreases n,
{
    if n == 0 {
        lemma_isqrt_is(0, 0);
    } else {
        lemma_isqrt_bounds(n - 1);
        let p = isqrt(n - 1);
        if (p + 1) * (p + 1) <= n {
            assert((p + 1) * (p + 1) < (p + 2) * (p + 2)) by (nonlinear_arith)
                requires
                    p >= 0,
            ;
            lemma_isqrt_is(n, p + 1);
        } else {
            lemma_isqrt_is(n, p);
        }
    }
}

/// A partial sum of squares is nonnegative.
proof fn lemma_sum_squares_nonneg(s: Seq<u64>, n: int)
    ensures
        0 <= sum_squares(s, n),
    decreases n,
{
    if n > 0 {
        lemma_sum_squares_nonneg(s, n - 1);
        assert(s[n - 1] * s[n - 1] >= 0) by (nonlinear_arith);
    }
}

/// Partial sums of squares grow with the index.
proof fn lemma_sum_squares_grows(s: Seq<u64>, m: int, n: int)
    requires
        0 <= m <= n,
    ensures
        0 <= sum_squares(s, m) <= sum_squares(s, n),
    decreases n - m,
{
    if m == n {
        lemma_sum_squares_nonneg(s, m);
    } else {
        lemma_sum_squares_grows(s, m, n - 1);
        assert(s[n - 1] * s[n - 1] >= 0) by (nonlinear_arith);
    }
}

/// A partial dot product of unsigned vectors is nonnegative.
proof fn lemma_dot_prefix_nonneg(a: Seq<u64>, b: Seq<u64>, n: int)
    ensures
        0 <= dot_prefix(a, b, n),
    decreases n,
{
    if n > 0 {
        lemma_dot_prefix_nonneg(a, b, n - 1);
        let x = a[n - 1];
        let y = b[n - 1];
        assert(x * y >= 0) by (nonlinear_arith)
            requires
                x >= 0,
                y >= 0,
        ;
    }
}

/// Partial dot products of unsigned vectors grow with the index.
pub(crate) proof fn lemma_dot_prefix_grows(a: Seq<u64>, b: Seq<u64>, m: int, n: int)
    requires
        0 <= m <= n,
    ensures
        0 <= dot_prefix(a, b, m) <= dot_prefix(a, b, n),
    decreases n - m,
{
    if m == n {
        lemma_dot_prefix_nonneg(a, b, m);
    } else {
        lemma_dot_prefix_grows(a, b, m, n - 1);
        let x = a[n - 1];
        let y = b[n - 1];
        assert(x * y >= 0) by (nonlinear_arith)
            requires
                x >= 0,
                y >= 0,
        ;
    }
}

/// Relies on `num::integer::sqrt`: the truncated principal square root of an
/// unsigned integer, with `r * r <= x < (r + 1) * (r + 1)` as its
/// documentation states.
#[verifier::external_body]
fn u64_sqrt(x: u64) -> (r: u64)
    ensures
        (r as int) * (r as int) <= x as int,
        (x as int) < ((r as int) + 1) * ((r as int) + 1),
{
    num::integer::sqrt(x)
}

/// Relies on `num::integer::sqrt`: as for the unsigned wrapper; the call
/// panics on negative input, which the precondition rules out.
#[verifier::external_body]
fn i64_sqrt(x: i64) -> (r: i64)
    requires
        0 <= x,
    ensures
        0 <= r as int,
        (r as int) * (r as int) <= x as int,
        (x as int) < ((r as int) + 1) * ((r as int) + 1),
{
    num::integer::sqrt(x)
}

/// A truncated square root on the element type, `r * r <= self` and
/// `self < (r + 1) * (r + 1)`, defined for nonnegative values.
pub trait Sqrt: Sized {
    /// The mathematical value the root is taken of.
    spec fn as_int(&self) -> int;

    fn sqrt(self) -> (r: Self)
        requires
            self.as_int() >= 0,
        ensures
            0 <= r.as_int(),
            r.as_int() * r.as_int() <= self.as_int(),
            self.as_int() < (r.as_int() + 1) * (r.as_int() + 1),
    ;
}

impl Sqrt for u64 {
    open spec fn as_int(&self) -> int {
        *self as int
    }

    fn sqrt(self) -> (r: Self) {
        u64_sqrt(self)
    }
}

impl Sqrt for i64 {
    open spec fn as_int(&self) -> int {
        *self as int
    }

    fn sqrt(self) -> (r: Self) {
        i64_sqrt(self)
    }
}

/// A vector of `SIZE` unsigned integers.
#[derive(Clone, Copy, PartialEq, Eq, Debug)]
pub struct Vector<const SIZE: usize> {
    pub data: [u64; SIZE],
}

impl<const SIZE: usize> View for Vector<SIZE> {
    type V = Seq<u64>;

    open spec fn view(&self) -> Seq<u64> {
        self.data@
    }
}

impl<const SIZE: usize> Vector<SIZE> {
    /// A new vector holding exactly the given elements.
    pub fn new(data: [u64; SIZE]) -> (v: Self)
        ensures
            v@ == data@,
    {
        Vector { data }
    }

    /// A new vector holding `a` in every position.
    pub fn broadcast(a: u64) -> (v: Self)
        ensures
            v@.len() == SIZE,
            forall|i: int| 0 <= i < SIZE ==> v@[i] == a,
    {
        Vector { data: [a; SIZE] }
    }

    /// The squared Euclidean length: the sum of the squares of the
    /// elements.
    pub fn length_square(&self) -> (r: u64)
        requires
            sum_squares(self@, SIZE as int) <= u64::MAX,
        ensures
            r == sum_squares(self@, SIZE as int),
    {
        let mut acc: u64 = 0;
        let mut i: usize = 0;
        while i < SIZE
            invariant
                i <= SIZE,
                self@.len() == SIZE,
                sum_squares(self@, SIZE as int) <= u64::MAX,
                acc == sum_squares(self@, i as int),
            decreases SIZE - i,
        {
            let x = self.data[i];
            proof {
                lemma_sum_squares_grows(self@, i + 1, SIZE as int);
                lemma_sum_squares_grows(self@, i as int, i + 1);
                assert(x * x >= 0) by (nonlinear_arith);
            }
            acc = acc + x * x;
            i = i + 1;
        }
        acc
    }

    /// The Euclidean length, truncated to an integer.
    pub fn length(&self) -> (r: u64)
        requires
            sum_squares(self@, SIZE as int) <= u64::MAX,
        ensures
            r as int == isqrt(sum_squares(self@, SIZE as int)),
    {
        let sq = self.length_square();
        let r = Sqrt::sqrt(sq);
        proof {
            lemma_isqrt_is(sq as int, r as int);
        }
        r
    }

    /// Each element divided by the truncated length, which must not be
    /// zero.
    pub fn normalized(&self) -> (v: Self)
        requires
            1 <= sum_squares(self@, SIZE as int) <= u64::MAX,
        ensures
            v@.len() == SIZE,
            forall|i: int|
                0 <= i < SIZE ==> v@[i] as int == self@[i] as int / isqrt(
                    sum_squares(self@, SIZE as int),
                ),
    {
        let l = self.length();
        proof {
            let s = sum_squares(self@, SIZE as int);
            lemma_isqrt_bounds(s);
            assert(l as int == isqrt(s));
            assert(s < (isqrt(s) + 1) * (isqrt(s) + 1));
            if l == 0 {
                assert(isqrt(s) == 0);
                assert((isqrt(s) + 1) * (isqrt(s) + 1) == 1) by (nonlinear_arith)
                    requires
                        isqrt(s) == 0,
                ;
                assert(false);
            }
        }
        let mut ret: [u64; SIZE] = [0u64; SIZE];
        let mut i: usize = 0;
        while i < SIZE
            invariant
                i <= SIZE,
                self@.len() == SIZE,
                ret@.len() == SIZE,
                l != 0,
                l as int == isqrt(sum_squares(self@, SIZE as int)),
                forall|j: int| 0 <= j < i ==> ret@[j] as int == self@[j] as int / l as int,
            decreases SIZE - i,
        {
            ret[i] = self.data[i] / l;
            i = i + 1;
        }
        Vector { data: ret }
    }

    /// The dot product of two vectors.
    pub fn dot(a: Self, b: Self) -> (r: u64)
        requires
            dot_prefix(a@, b@, SIZE as int) <= u64::MAX,
        ensures
            r == dot_prefix(a@, b@, SIZE as int),
    {
        let mut acc: u64 = 0;
        let mut i: usize = 0;
        while i < SIZE
            invariant
                i <= SIZE,
                a@.len() == SIZE,
                b@.len() == SIZE,
                dot_prefix(a@, b@, SIZE as int) <= u64::MAX,
                acc == dot_prefix(a@, b@, i as int),
            decreases SIZE - i,
        {
            let x = a.data[i];
            let y = b.data[i];
            proof {
                lemma_dot_prefix_grows(a@, b@, i + 1, SIZE as int);
                lemma_dot_prefix_grows(a@, b@, i as int, i + 1);
                assert(x * y >= 0) by (nonlinear_arith)
                    requires
                        x >= 0,
                        y >= 0,
                ;
            }
            acc = acc + x * y;
            i = i + 1;
        }
        acc
    }

    /// The number of elements.
    pub fn size() -> (n: usize)
        ensures
            n == SIZE,
    {
        SIZE
    }
}

} // verus!
