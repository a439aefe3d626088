//! Fixed-dimension points with integer coordinates.

use vstd::prelude::*;

verus! {

/// A point in `D`-dimensional space with coordinates of type `N`.
#[derive(Debug, Clone, Copy, PartialEq)]
pub struct Point<const D: usize, N> {
    pub coords: [N; D],
}

impl<const D: usize, N> From<[N; D]> for Point<D, N> {
    fn from(coords: [N; D]) -> (r: Self)
        ensures
            r.coords == coords,
    {
        Point { coords }
    }
}

impl<const D: usize, N> vstd::std_specs::convert::FromSpecImpl<[N; D]> for Point<D, N> {
    open spec fn obeys_from_spec() -> bool {
        true
    }

    open spec fn from_spec(coords: [N; D]) -> Self {
        Point { coords }
    }
}

impl Default for Point<2, i64> {
    fn default() -> (r: Self)
        ensures
            r.coords@ == seq![0i64, 0i64],
    {
        let p = Point { coords: [0i64, 0i64] };
        proof {
            assert(p.coords@ =~= seq![0i64, 0i64]);
        }
        p
    }
}

impl<N: Copy> Point<2, N> {
    pub fn x(&self) -> (r: N)
        ensures
            r == self.coords@[0],
    {
        self.coords[0]
    }

    pub fn y(&self) -> (r: N)
        ensures
            r == self.coords@[1],
    {
        self.coords[1]
    }
}

impl Point<2, i64> {
    /// Coordinate-wise sum.
    pub fn add(&self, other: &Self) -> (r: Self)
        requires
            i64::MIN <= self.coords@[0] + other.coords@[0] <= i64::MAX,
            i64::MIN <= self.coords@[1] + other.coords@[1] <= i64::MAX,
        ensures
            r.coords@[0] == self.coords@[0] + other.coords@[0],
            r.coords@[1] == self.coords@[1] + other.coords@[1],
    {
        Point { coords: [self.coords[0] + other.coords[0], self.coords[1] + other.coords[1]] }
    }

    /// Coordinate-wise difference.
    pub fn sub(&self, other: &Self) -> (r: Self)
        requires
            i64::MIN <= self.coords@[0] - other.coords@[0] <= i64::MAX,
            i64::MIN <= self.coords@[1] - other.coords@[1] <= i64::MAX,
        ensures
            r.coords@[0] == self.coords@[0] - other.coords@[0],
            r.coords@[1] == self.coords@[1] - other.coords@[1],
    {
        Point { coords: [self.coords[0] - other.coords[0], self.coords[1] - other.coords[1]] }
    }

    /// Two-dimensional cross product: `x * other.y - y * other.x`.
    pub fn cross(&self, other: &Self) -> (r: i64)
        requires
            i64::MIN <= self.coords@[0] * other.coords@[1] <= i64::MAX,
            i64::MIN <= self.coords@[1] * other.coords@[0] <= i64::MAX,
            i64::MIN <= self.coords@[0] * other.coords@[1] - self.coords@[1] * other.coords@[0]
                <= i64::MAX,
        ensures
            r == self.coords@[0] * other.coords@[1] - self.coords@[1] * other.coords@[0],
    {
        self.x() * other.y() - self.y() * other.x()
    }
}

impl<N: Copy> Point<3, N> {
    pub fn x(&self) -> (r: N)
        ensures
            r == self.coords@[0],
    {
        self.coords[0]
    }

    pub fn y(&self) -> (r: N)
        ensures
            r == self.coords@[1],
    {
        self.coords[1]
    }

    pub fn z(&self) -> (r: N)
        ensures
            r == self.coords@[2],
    {
        self.coords[2]
    }
}

impl Point<3, i64> {
    /// Coordinate-wise sum.
    pub fn add(&self, other: &Self) -> (r: Self)
        requires
            forall|i: int| 0 <= i < 3 ==> i64::MIN <= #[trigger] (self.coords@[i]
                + other.coords@[i]) <= i64::MAX,
        ensures
            forall|i: int|
                0 <= i < 3 ==> r.coords@[i] == #[trigger] (self.coords@[i] + other.coords@[i]),
    {
        Point {
            coords: [
                self.coords[0] + other.coords[0],
                self.coords[1] + other.coords[1],
                self.coords[2] + other.coords[2],
            ],
        }
    }

    /// Coordinate-wise difference.
    pub fn sub(&self, other: &Self) -> (r: Self)
        requires
            forall|i: int| 0 <= i < 3 ==> i64::MIN <= #[trigger] (self.coords@[i]
                - other.coords@[i]) <= i64::MAX,
        ensures
            forall|i: int|
                0 <= i < 3 ==> r.coords@[i] == #[trigger] (self.coords@[i] - other.coords@[i]),
    {
        Point {
            coords: [
                self.coords[0] - other.coords[0],
                self.coords[1] - other.coords[1],
                self.coords[2] - other.coords[2],
            ],
        }
    }
}

/// Sum of squared coordinate differences over the first `n` dimensions.
pub open spec fn sq_dist_upto(a: Seq<i64>, b: Seq<i64>, n: int) -> int
    decreases n,
{
    if n <= 0 {
        0
    } else {
        sq_dist_upto(a, b, n - 1) + (a[n - 1] - b[n - 1]) * (a[n - 1] - b[n - 1])
    }
}

/// Every partial sum of squared differences is non-negative and no larger
/// than a later partial sum.
pub proof fn lemma_sq_dist_upto_mono(a: Seq<i64>, b: Seq<i64>, j: int, k: int)
    requires
        0 <= j <= k,
    ensures
        0 <= sq_dist_upto(a, b, j),
        sq_dist_upto(a, b, j) <= sq_dist_upto(a, b, k),
    decreases k,
{
    if k > 0 {
        let d = a[k - 1] - b[k - 1];
        assert(d * d >= 0) by (nonlinear_arith);
        if j == k {
            lemma_sq_dist_upto_mono(a, b, if j > 0 { j - 1 } else { 0 }, k - 1);
        } else {
            lemma_sq_dist_upto_mono(a, b, j, k - 1);
        }
    }
}

impl<const D: usize> Point<D, i64> {
    /// Squared Euclidean distance between two points.
    pub fn square_distance(&self, other: &Self) -> (r: i64)
        requires
            forall|i: int|
                0 <= i < D ==> i64::MIN <= #[trigger] (self.coords@[i] - other.coords@[i])
                    <= i64::MAX,
            sq_dist_upto(self.coords@, other.coords@, D as int) <= i64::MAX,
        ensures
            r == sq_dist_upto(self.coords@, other.coords@, D as int),
    {
        let mut acc: i64 = 0;
        let mut i: usize = 0;
        while i < D
            invariant
                0 <= i <= D,
                forall|j: int|
                    0 <= j < D ==> i64::MIN <= #[trigger] (self.coords@[j] - other.coords@[j])
                        <= i64::MAX,
                sq_dist_upto(self.coords@, other.coords@, D as int) <= i64::MAX,
                0 <= acc,
                acc == sq_dist_upto(self.coords@, other.coords@, i as int),
            decreases D - i,
        {
            let d: i64 = self.coords[i] - other.coords[i];
            proof {
                lemma_sq_dist_upto_mono(self.coords@, other.coords@, i + 1, D as int);
                assert(d * d >= 0) by (nonlinear_arith);
                assert(sq_dist_upto(self.coords@, other.coords@, i + 1) == acc + d * d);
            }
            acc = acc + d * d;
            i = i + 1;
        }
        acc
    }
}

} // verus!
