//! Integer vectors and the distance metrics between them.

use vstd::prelude::*;
use crate::error::IndexError;

verus! {

/// A vector of integer coordinates, stored at one of two widths. Two
/// vectors are the same point when their coordinates are, whatever the
/// width they are stored at.
#[derive(Debug)]
pub enum Vector {
    I32(Vec<i32>),
    I16(Vec<i16>),
}

/// The metric of an index, fixed when the index is created.
#[derive(Clone, Copy, Debug, PartialEq, Eq, Structural)]
pub enum Distance {
    /// The straight-line distance. Its exact measure is the sum of the
    /// squares of the coordinate differences; as a distance, for radii and
    /// bounds, it is the root of that sum rounded up to the next integer.
    Euclidean,
    /// The sum of the coordinate differences.
    Manhattan,
    /// The largest coordinate difference.
    Chebyshev,
    /// The number of coordinates that differ.
    Hamming,
}

impl View for Vector {
    type V = Seq<int>;

    open spec fn view(&self) -> Seq<int> {
        match self {
            Vector::I32(v) => Seq::new(v@.len(), |i: int| v@[i] as int),
            Vector::I16(v) => Seq::new(v@.len(), |i: int| v@[i] as int),
        }
    }
}

/// A sequence of coordinates that a [`Vector`] can hold.
pub open spec fn is_point(s: Seq<int>) -> bool {
    &&& s.len() <= usize::MAX
    &&& forall|i: int| 0 <= i < s.len() ==> -0x8000_0000 <= #[trigger] s[i] <= 0x7fff_ffff
}

/// The absolute difference of two coordinates.
pub open spec fn gap(x: int, y: int) -> nat {
    if x >= y { (x - y) as nat } else { (y - x) as nat }
}

/// What one more pair of coordinates makes of the running value of a metric.
pub open spec fn step(kind: Distance, acc: nat, x: int, y: int) -> nat {
    match kind {
        Distance::Euclidean => acc + gap(x, y) * gap(x, y),
        Distance::Manhattan => acc + gap(x, y),
        Distance::Chebyshev => if acc >= gap(x, y) { acc } else { gap(x, y) },
        Distance::Hamming => if x == y { acc } else { acc + 1 },
    }
}

/// The running value of a metric over all coordinates: the sum of squares,
/// the sum, the maximum, or the count of differences.
pub open spec fn accumulate(kind: Distance, a: Seq<int>, b: Seq<int>) -> nat
    decreases a.len(),
{
    if a.len() == 0 || b.len() == 0 {
        0
    } else {
        step(kind, accumulate(kind, a.drop_last(), b.drop_last()), a.last(), b.last())
    }
}

/// `r` is the least number whose square reaches `n`.
pub open spec fn is_ceil_sqrt(n: nat, r: nat) -> bool {
    r * r >= n && (r == 0 || (r - 1) * (r - 1) < n)
}

/// The square root of `n`, rounded up.
pub open spec fn ceil_sqrt(n: nat) -> nat {
    choose|r: nat| is_ceil_sqrt(n, r)
}

/// The distance that a running value stands for: the value itself, and
/// under the Euclidean metric its root, rounded up.
pub open spec fn rounded(kind: Distance, value: nat) -> nat {
    match kind {
        Distance::Euclidean => ceil_sqrt(value),
        _ => value,
    }
}

/// The distance between two points of the same dimension. Under the
/// Euclidean metric it is the straight-line distance rounded up to the next
/// integer; the running value, the sum of squares, is the exact measure.
pub open spec fn dist(kind: Distance, a: Seq<int>, b: Seq<int>) -> nat {
    rounded(kind, accumulate(kind, a, b))
}

/// The square of the smaller number is the smaller square.
proof fn lemma_square_monotonic(x: nat, y: nat)
    requires
        x <= y,
    ensures
        x * x <= y * y,
{
    assert(x * x <= y * y) by (nonlinear_arith)
        requires
            x <= y,
    ;
}

/// Below a number whose square reaches `n` there is a least such number.
proof fn lemma_ceil_sqrt_search(n: nat, r: nat)
    requires
        r * r >= n,
    ensures
        exists|s: nat| is_ceil_sqrt(n, s),
    decreases r,
{
    if r == 0 || (r - 1) * (r - 1) < n {
        assert(is_ceil_sqrt(n, r));
    } else {
        lemma_ceil_sqrt_search(n, (r - 1) as nat);
    }
}

/// The rounded-up square root is what its name says, and nothing else is.
pub proof fn lemma_ceil_sqrt(n: nat)
    ensures
        is_ceil_sqrt(n, ceil_sqrt(n)),
        forall|r: nat| is_ceil_sqrt(n, r) ==> r == ceil_sqrt(n),
{
    assert(n * n >= n) by (nonlinear_arith);
    lemma_ceil_sqrt_search(n, n);
    let c = ceil_sqrt(n);
    assert forall|r: nat| is_ceil_sqrt(n, r) implies r == c by {
        if r < c {
            lemma_square_monotonic(r, (c - 1) as nat);
        } else if c < r {
            lemma_square_monotonic(c, (r - 1) as nat);
        }
    }
}

/// A number whose square reaches `n` is at least the rounded-up root of `n`.
pub proof fn lemma_ceil_sqrt_least(n: nat, r: nat)
    requires
        r * r >= n,
    ensures
        ceil_sqrt(n) <= r,
{
    lemma_ceil_sqrt(n);
    let c = ceil_sqrt(n);
    if c > r {
        lemma_square_monotonic(r, (c - 1) as nat);
    }
}

/// A larger running value never stands for a smaller distance.
pub proof fn lemma_rounded_monotonic(kind: Distance, x: nat, y: nat)
    requires
        x <= y,
    ensures
        rounded(kind, x) <= rounded(kind, y),
{
    if kind == Distance::Euclidean {
        lemma_ceil_sqrt(y);
        lemma_ceil_sqrt_least(x, ceil_sqrt(y));
    }
}

/// The running value is the same in both directions.
proof fn lemma_accumulate_symmetric(kind: Distance, a: Seq<int>, b: Seq<int>)
    requires
        a.len() == b.len(),
    ensures
        accumulate(kind, a, b) == accumulate(kind, b, a),
    decreases a.len(),
{
    if a.len() > 0 {
        lemma_accumulate_symmetric(kind, a.drop_last(), b.drop_last());
    }
}

/// The running value is zero exactly for the same point.
proof fn lemma_accumulate_zero(kind: Distance, a: Seq<int>, b: Seq<int>)
    requires
        a.len() == b.len(),
    ensures
        accumulate(kind, a, b) == 0 <==> a == b,
    decreases a.len(),
{
    if a.len() == 0 {
        assert(a =~= b);
    } else {
        lemma_accumulate_zero(kind, a.drop_last(), b.drop_last());
        let g = gap(a.last(), b.last());
        assert(g * g == 0 <==> g == 0) by (nonlinear_arith);
        if a == b {
            assert(a.drop_last() == b.drop_last());
        }
        if accumulate(kind, a, b) == 0 {
            assert(a.drop_last() == b.drop_last());
            assert(a.last() == b.last());
            assert(a =~= a.drop_last().push(a.last()));
            assert(b =~= b.drop_last().push(b.last()));
        }
    }
}

/// The sum over all coordinates of the products of the differences
/// from `a` to `b` and from `b` to `c`.
spec fn cross(a: Seq<int>, b: Seq<int>, c: Seq<int>) -> int
    decreases a.len(),
{
    if a.len() == 0 || b.len() == 0 || c.len() == 0 {
        0
    } else {
        cross(a.drop_last(), b.drop_last(), c.drop_last()) + (a.last() - b.last()) * (b.last()
            - c.last())
    }
}

/// The square of the gap is the square of the difference.
proof fn lemma_gap_square(x: int, y: int)
    ensures
        gap(x, y) * gap(x, y) == (x - y) * (x - y),
{
    assert(gap(x, y) * gap(x, y) == (x - y) * (x - y)) by (nonlinear_arith)
        requires
            gap(x, y) == x - y || gap(x, y) == -(x - y),
    ;
}

/// The sum of squares from `a` to `c` in terms of the sums by way of `b`.
proof fn lemma_squares_expand(a: Seq<int>, b: Seq<int>, c: Seq<int>)
    requires
        a.len() == b.len(),
        b.len() == c.len(),
    ensures
        accumulate(Distance::Euclidean, a, c) == accumulate(Distance::Euclidean, a, b) + 2 * cross(
            a,
            b,
            c,
        ) + accumulate(Distance::Euclidean, b, c),
    decreases a.len(),
{
    if a.len() > 0 {
        lemma_squares_expand(a.drop_last(), b.drop_last(), c.drop_last());
        let x = a.last() - b.last();
        let y = b.last() - c.last();
        lemma_gap_square(a.last(), b.last());
        lemma_gap_square(b.last(), c.last());
        lemma_gap_square(a.last(), c.last());
        assert((x + y) * (x + y) == x * x + 2 * (x * y) + y * y) by (nonlinear_arith);
    }
}

/// A number whose square is not larger is not larger, if the other is not
/// negative.
proof fn lemma_square_order(p: int, q: int)
    requires
        q >= 0,
        p * p <= q * q,
    ensures
        p <= q,
{
    if p > q {
        assert(p * p > q * q) by (nonlinear_arith)
            requires
                p > q,
                q >= 0,
        ;
    }
}

/// One more coordinate keeps the inequality of Cauchy and Schwarz.
proof fn lemma_cauchy_step(s: int, a: int, b: int, x: int, y: int)
    requires
        a >= 0,
        b >= 0,
        s * s <= a * b,
    ensures
        (s + x * y) * (s + x * y) <= (a + x * x) * (b + y * y),
{
    let u = a * (y * y);
    let w = b * (x * x);
    let t = s * (x * y);
    assert(u >= 0 && w >= 0) by (nonlinear_arith)
        requires
            a >= 0,
            b >= 0,
            u == a * (y * y),
            w == b * (x * x),
    ;
    assert(t * t == (s * s) * ((x * x) * (y * y))) by (nonlinear_arith)
        requires
            t == s * (x * y),
    ;
    assert(u * w == (a * b) * ((x * x) * (y * y))) by (nonlinear_arith)
        requires
            u == a * (y * y),
            w == b * (x * x),
    ;
    assert((x * x) * (y * y) >= 0) by (nonlinear_arith);
    assert(t * t <= u * w) by (nonlinear_arith)
        requires
            t * t == (s * s) * ((x * x) * (y * y)),
            u * w == (a * b) * ((x * x) * (y * y)),
            (x * x) * (y * y) >= 0,
            s * s <= a * b,
    ;
    assert((2 * t) * (2 * t) <= (u + w) * (u + w)) by (nonlinear_arith)
        requires
            t * t <= u * w,
    ;
    lemma_square_order(2 * t, u + w);
    assert((s + x * y) * (s + x * y) == s * s + 2 * t + (x * x) * (y * y)) by (nonlinear_arith)
        requires
            t == s * (x * y),
    ;
    assert((a + x * x) * (b + y * y) == a * b + u + w + (x * x) * (y * y)) by (nonlinear_arith)
        requires
            u == a * (y * y),
            w == b * (x * x),
    ;
}

/// The inequality of Cauchy and Schwarz for the differences by way of `b`.
proof fn lemma_cauchy(a: Seq<int>, b: Seq<int>, c: Seq<int>)
    requires
        a.len() == b.len(),
        b.len() == c.len(),
    ensures
        cross(a, b, c) * cross(a, b, c) <= accumulate(Distance::Euclidean, a, b) * accumulate(
            Distance::Euclidean,
            b,
            c,
        ),
    decreases a.len(),
{
    if a.len() == 0 {
        assert(cross(a, b, c) * cross(a, b, c) == 0) by (nonlinear_arith)
            requires
                cross(a, b, c) == 0,
        ;
        assert(accumulate(Distance::Euclidean, a, b) * accumulate(Distance::Euclidean, b, c) == 0)
            by (nonlinear_arith)
            requires
                accumulate(Distance::Euclidean, a, b) == 0,
        ;
    } else {
        lemma_cauchy(a.drop_last(), b.drop_last(), c.drop_last());
        let x = a.last() - b.last();
        let y = b.last() - c.last();
        lemma_gap_square(a.last(), b.last());
        lemma_gap_square(b.last(), c.last());
        lemma_cauchy_step(
            cross(a.drop_last(), b.drop_last(), c.drop_last()),
            accumulate(Distance::Euclidean, a.drop_last(), b.drop_last()) as int,
            accumulate(Distance::Euclidean, b.drop_last(), c.drop_last()) as int,
            x,
            y,
        );
    }
}

/// The triangle inequality of the rounded-up straight-line distance.
proof fn lemma_euclidean_triangle(a: Seq<int>, b: Seq<int>, c: Seq<int>)
    requires
        a.len() == b.len(),
        b.len() == c.len(),
    ensures
        dist(Distance::Euclidean, a, c) <= dist(Distance::Euclidean, a, b) + dist(
            Distance::Euclidean,
            b,
            c,
        ),
{
    let sab = accumulate(Distance::Euclidean, a, b) as int;
    let sbc = accumulate(Distance::Euclidean, b, c) as int;
    let sac = accumulate(Distance::Euclidean, a, c) as int;
    let p = ceil_sqrt(sab as nat) as int;
    let q = ceil_sqrt(sbc as nat) as int;
    let t = cross(a, b, c);
    lemma_ceil_sqrt(sab as nat);
    lemma_ceil_sqrt(sbc as nat);
    lemma_squares_expand(a, b, c);
    lemma_cauchy(a, b, c);
    assert(sab * sbc <= (p * p) * (q * q)) by (nonlinear_arith)
        requires
            0 <= sab <= p * p,
            0 <= sbc <= q * q,
    ;
    assert((p * p) * (q * q) == (p * q) * (p * q)) by (nonlinear_arith);
    assert(p * q >= 0) by (nonlinear_arith)
        requires
            p >= 0,
            q >= 0,
    ;
    lemma_square_order(t, p * q);
    assert((p + q) * (p + q) == p * p + 2 * (p * q) + q * q) by (nonlinear_arith);
    lemma_ceil_sqrt_least(sac as nat, (p + q) as nat);
}

/// The triangle inequality of the metrics that need no root.
proof fn lemma_accumulate_triangle(kind: Distance, a: Seq<int>, b: Seq<int>, c: Seq<int>)
    requires
        kind != Distance::Euclidean,
        a.len() == b.len(),
        b.len() == c.len(),
    ensures
        accumulate(kind, a, c) <= accumulate(kind, a, b) + accumulate(kind, b, c),
    decreases a.len(),
{
    if a.len() > 0 {
        lemma_accumulate_triangle(kind, a.drop_last(), b.drop_last(), c.drop_last());
    }
}

/// The distance from `a` to `b` is the distance from `b` to `a`.
pub proof fn lemma_dist_symmetric(kind: Distance, a: Seq<int>, b: Seq<int>)
    requires
        a.len() == b.len(),
    ensures
        dist(kind, a, b) == dist(kind, b, a),
{
    lemma_accumulate_symmetric(kind, a, b);
}

/// The distance between two points is zero exactly when they are the same point.
pub proof fn lemma_dist_identity(kind: Distance, a: Seq<int>, b: Seq<int>)
    requires
        a.len() == b.len(),
    ensures
        dist(kind, a, b) == 0 <==> a == b,
{
    lemma_accumulate_zero(kind, a, b);
    let s = accumulate(kind, a, b);
    lemma_ceil_sqrt(s);
    if s == 0 {
        assert(is_ceil_sqrt(0, 0));
    } else if ceil_sqrt(s) == 0 {
        assert(0 * 0 >= s);
    }
}

/// The way from `a` to `c` is never longer than the way over `b`.
pub proof fn lemma_dist_triangle(kind: Distance, a: Seq<int>, b: Seq<int>, c: Seq<int>)
    requires
        a.len() == b.len(),
        b.len() == c.len(),
    ensures
        dist(kind, a, c) <= dist(kind, a, b) + dist(kind, b, c),
{
    if kind == Distance::Euclidean {
        lemma_euclidean_triangle(a, b, c);
    } else {
        lemma_accumulate_triangle(kind, a, b, c);
    }
}

/// The running value of a metric over points stays below `len * 2^64`.
pub proof fn lemma_accumulate_bound(kind: Distance, a: Seq<int>, b: Seq<int>)
    requires
        is_point(a),
        is_point(b),
        a.len() == b.len(),
    ensures
        accumulate(kind, a, b) <= a.len() * 0x1_0000_0000_0000_0000,
    decreases a.len(),
{
    if a.len() > 0 {
        lemma_accumulate_bound(kind, a.drop_last(), b.drop_last());
        let g = gap(a.last(), b.last());
        assert(g <= 0xffff_ffff);
        assert(g * g <= 0x1_0000_0000_0000_0000) by (nonlinear_arith)
            requires
                g <= 0xffff_ffff,
        ;
        assert(a.len() * 0x1_0000_0000_0000_0000 == (a.len() - 1) * 0x1_0000_0000_0000_0000
            + 0x1_0000_0000_0000_0000) by (nonlinear_arith);
    }
}

/// Every distance between points fits in 128 bits.
pub proof fn lemma_dist_bound(kind: Distance, a: Seq<int>, b: Seq<int>)
    requires
        is_point(a),
        is_point(b),
        a.len() == b.len(),
    ensures
        dist(kind, a, b) <= u128::MAX,
{
    lemma_accumulate_bound(kind, a, b);
    let s = accumulate(kind, a, b);
    assert(a.len() * 0x1_0000_0000_0000_0000 <= 0xffff_ffff_ffff_ffff * 0x1_0000_0000_0000_0000)
        by (nonlinear_arith)
        requires
            a.len() <= 0xffff_ffff_ffff_ffff,
    ;
    if kind == Distance::Euclidean {
        assert(0x1_0000_0000_0000_0000nat * 0x1_0000_0000_0000_0000nat >= s) by (nonlinear_arith)
            requires
                s <= 0xffff_ffff_ffff_ffff * 0x1_0000_0000_0000_0000,
        ;
        lemma_ceil_sqrt_least(s, 0x1_0000_0000_0000_0000nat);
    }
}

/// The square root of `n`, rounded up.
pub fn ceil_sqrt_of(n: u128) -> (r: u128)
    ensures
        r == ceil_sqrt(n as nat),
        r <= 0x1_0000_0000_0000_0000,
{
    let mut lo: u128 = 0;
    let mut hi: u128 = 0x1_0000_0000_0000_0000;
    proof {
        assert(0x1_0000_0000_0000_0000int * 0x1_0000_0000_0000_0000int > u128::MAX) by (nonlinear_arith);
    }
    while lo < hi
        invariant
            lo <= hi <= 0x1_0000_0000_0000_0000,
            hi * hi >= n,
            lo == 0 || (lo - 1) * (lo - 1) < n,
        decreases hi - lo,
    {
        let mid: u128 = lo + (hi - lo) / 2;
        assert(mid * mid <= 0xffff_ffff_ffff_ffff * 0xffff_ffff_ffff_ffff) by (nonlinear_arith)
            requires
                mid <= 0xffff_ffff_ffff_ffff,
        ;
        assert(0xffff_ffff_ffff_ffffint * 0xffff_ffff_ffff_ffffint <= u128::MAX) by (nonlinear_arith);
        if mid * mid >= n {
            hi = mid;
        } else {
            lo = mid + 1;
        }
    }
    proof {
        assert(is_ceil_sqrt(n as nat, lo as nat));
        lemma_ceil_sqrt(n as nat);
    }
    lo
}

impl Vector {
    /// The coordinates of a vector are those of a point.
    pub proof fn lemma_is_point(&self)
        ensures
            is_point(self@),
    {
        match self {
            Vector::I32(v) => {
                assert(v@.len() == v.len());
            },
            Vector::I16(v) => {
                assert(v@.len() == v.len());
            },
        }
    }

    /// The number of coordinates.
    pub fn len(&self) -> (n: usize)
        ensures
            n == self@.len(),
    {
        match self {
            Vector::I32(v) => v.len(),
            Vector::I16(v) => v.len(),
        }
    }

    /// The coordinate at position `i`.
    pub fn coord(&self, i: usize) -> (x: i64)
        requires
            i < self@.len(),
        ensures
            x == self@[i as int],
    {
        match self {
            Vector::I32(v) => v[i] as i64,
            Vector::I16(v) => v[i] as i64,
        }
    }

    /// Whether the two vectors are the same point.
    pub fn same_point(&self, other: &Vector) -> (same: bool)
        ensures
            same == (self@ == other@),
    {
        let n: usize = self.len();
        if n != other.len() {
            return false;
        }
        let mut i: usize = 0;
        while i < n
            invariant
                n == self@.len(),
                n == other@.len(),
                i <= n,
                forall|j: int| 0 <= j < i ==> self@[j] == other@[j],
            decreases n - i,
        {
            if self.coord(i) != other.coord(i) {
                return false;
            }
            i = i + 1;
        }
        assert(self@ =~= other@);
        true
    }
}

impl Clone for Vector {
    /// A copy with the same coordinates, stored at the same width.
    fn clone(&self) -> (copy: Self)
        ensures
            copy@ == self@,
            copy is I32 <==> self is I32,
    {
        match self {
            Vector::I32(v) => {
                let mut out: Vec<i32> = Vec::new();
                let mut i: usize = 0;
                while i < v.len()
                    invariant
                        i <= v.len(),
                        out@ == v@.take(i as int),
                    decreases v.len() - i,
                {
                    out.push(v[i]);
                    assert(v@.take(i + 1) =~= v@.take(i as int).push(v@[i as int]));
                    i = i + 1;
                }
                assert(v@.take(v.len() as int) =~= v@);
                let copy = Vector::I32(out);
                assert(copy@ =~= self@);
                copy
            },
            Vector::I16(v) => {
                let mut out: Vec<i16> = Vec::new();
                let mut i: usize = 0;
                while i < v.len()
                    invariant
                        i <= v.len(),
                        out@ == v@.take(i as int),
                    decreases v.len() - i,
                {
                    out.push(v[i]);
                    assert(v@.take(i + 1) =~= v@.take(i as int).push(v@[i as int]));
                    i = i + 1;
                }
                assert(v@.take(v.len() as int) =~= v@);
                let copy = Vector::I16(out);
                assert(copy@ =~= self@);
                copy
            },
        }
    }
}

impl Distance {
    /// The exact measure of the distance between two vectors under this
    /// metric: the distance itself, and under the Euclidean metric its
    /// square. Vectors of different dimension have none.
    pub fn measure(&self, a: &Vector, b: &Vector) -> (r: Result<u128, IndexError>)
        ensures
            a@.len() != b@.len() ==> r == Err::<u128, IndexError>(IndexError::DimensionMismatch),
            a@.len() == b@.len() ==> r is Ok && r->Ok_0 == accumulate(*self, a@, b@),
    {
        let n: usize = a.len();
        if n != b.len() {
            return Err(IndexError::DimensionMismatch);
        }
        let mut acc: u128 = 0;
        let mut i: usize = 0;
        proof {
            a.lemma_is_point();
            b.lemma_is_point();
            lemma_accumulate_bound(*self, a@, b@);
        }
        while i < n
            invariant
                n == a@.len(),
                n == b@.len(),
                i <= n,
                is_point(a@),
                is_point(b@),
                acc == accumulate(*self, a@.take(i as int), b@.take(i as int)),
            decreases n - i,
        {
            let x: i64 = a.coord(i);
            let y: i64 = b.coord(i);
            let g: u128 = if x >= y { (x - y) as u128 } else { (y - x) as u128 };
            proof {
                let a1 = a@.take(i + 1);
                let b1 = b@.take(i + 1);
                assert(a1.drop_last() =~= a@.take(i as int));
                assert(b1.drop_last() =~= b@.take(i as int));
                assert(is_point(a1));
                assert(is_point(b1));
                lemma_accumulate_bound(*self, a1, b1);
                assert(a1.len() * 0x1_0000_0000_0000_0000 <= 0xffff_ffff_ffff_ffff
                    * 0x1_0000_0000_0000_0000) by (nonlinear_arith)
                    requires
                        a1.len() <= 0xffff_ffff_ffff_ffff,
                ;
                assert(g * g <= 0x1_0000_0000_0000_0000) by (nonlinear_arith)
                    requires
                        g <= 0xffff_ffff,
                ;
            }
            acc = match self {
                Distance::Euclidean => acc + g * g,
                Distance::Manhattan => acc + g,
                Distance::Chebyshev => if acc >= g { acc } else { g },
                Distance::Hamming => if x == y { acc } else { acc + 1 },
            };
            i = i + 1;
        }
        assert(a@.take(n as int) =~= a@);
        assert(b@.take(n as int) =~= b@);
        Ok(acc)
    }

    /// The distance that a measure stands for: the measure itself, and
    /// under the Euclidean metric its root, rounded up.
    pub fn round(&self, measure: u128) -> (d: u128)
        ensures
            d == rounded(*self, measure as nat),
    {
        match self {
            Distance::Euclidean => ceil_sqrt_of(measure),
            _ => measure,
        }
    }

    /// The distance between two vectors under this metric, which under the
    /// Euclidean metric is rounded up. Vectors of different dimension have
    /// none.
    pub fn compute(&self, a: &Vector, b: &Vector) -> (r: Result<u128, IndexError>)
        ensures
            a@.len() != b@.len() ==> r == Err::<u128, IndexError>(IndexError::DimensionMismatch),
            a@.len() == b@.len() ==> r is Ok && r->Ok_0 == dist(*self, a@, b@),
    {
        match self.measure(a, b) {
            Ok(measure) => Ok(self.round(measure)),
            Err(e) => Err(e),
        }
    }
}

} // verus!
