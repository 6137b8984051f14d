//! Nearest-centroid assignment and k-means clustering with exact integer
//! arithmetic.

use vstd::arithmetic::div_mod::{lemma_fundamental_div_mod, lemma_fundamental_div_mod_converse};
use vstd::prelude::*;

use crate::matrix::Matrix;

verus! {

/// The largest square of a difference of two coordinates.
pub const MAX_SQUARE: u128 = 18446744065119617025;

/// The sum of the squared coordinate differences of the first `n` coordinates.
pub open spec fn squared_distance_upto(a: Seq<i32>, b: Seq<i32>, n: nat) -> int
    decreases n,
{
    if n == 0 {
        0
    } else {
        squared_distance_upto(a, b, (n - 1) as nat) + (a[n - 1] - b[n - 1]) * (a[n - 1] - b[n - 1])
    }
}

/// The squared Euclidean distance of two points of equal dimension.
pub open spec fn squared_distance(a: Seq<i32>, b: Seq<i32>) -> int {
    squared_distance_upto(a, b, a.len())
}

/// `j` is the nearest centroid of `v`: no centroid is closer, and every
/// centroid before it is farther away.
pub open spec fn is_nearest(centroids: Seq<Seq<i32>>, v: Seq<i32>, j: int) -> bool {
    &&& 0 <= j < centroids.len()
    &&& forall|i: int|
        0 <= i < centroids.len() ==> squared_distance(centroids[j], v) <= squared_distance(
            #[trigger] centroids[i],
            v,
        )
    &&& forall|i: int|
        0 <= i < j ==> squared_distance(centroids[j], v) < squared_distance(#[trigger] centroids[i], v)
}

/// The nearest of the first `n` centroids, the first of several equally near.
pub open spec fn nearest_among(centroids: Seq<Seq<i32>>, v: Seq<i32>, n: nat) -> int
    decreases n,
{
    if n <= 1 {
        0
    } else {
        let p = nearest_among(centroids, v, (n - 1) as nat);
        if squared_distance(centroids[n - 1], v) < squared_distance(centroids[p], v) {
            n - 1
        } else {
            p
        }
    }
}

/// The index of the centroid nearest to `v`, the lowest of several equally near.
pub open spec fn nearest(centroids: Seq<Seq<i32>>, v: Seq<i32>) -> int {
    nearest_among(centroids, v, centroids.len())
}

/// [`nearest_among`] names the nearest of the first `n` centroids.
pub proof fn lemma_nearest_among(centroids: Seq<Seq<i32>>, v: Seq<i32>, n: nat)
    requires
        1 <= n <= centroids.len(),
    ensures
        is_nearest(centroids.take(n as int), v, nearest_among(centroids, v, n)),
    decreases n,
{
    let prefix = centroids.take(n as int);
    if n > 1 {
        lemma_nearest_among(centroids, v, (n - 1) as nat);
        let shorter = centroids.take(n - 1);
        let p = nearest_among(centroids, v, (n - 1) as nat);
        let j = nearest_among(centroids, v, n);
        assert forall|i: int| 0 <= i < prefix.len() implies squared_distance(prefix[j], v) <= squared_distance(
            #[trigger] prefix[i],
            v,
        ) by {
            if i < n - 1 {
                assert(shorter[i] == prefix[i]);
            }
        }
        assert forall|i: int| 0 <= i < j implies squared_distance(prefix[j], v) < squared_distance(
            #[trigger] prefix[i],
            v,
        ) by {
            assert(shorter[i] == prefix[i]);
        }
    }
}

/// [`nearest`] is the one index that [`is_nearest`] accepts.
pub proof fn lemma_nearest(centroids: Seq<Seq<i32>>, v: Seq<i32>, j: int)
    requires
        centroids.len() >= 1,
    ensures
        is_nearest(centroids, v, nearest(centroids, v)),
        is_nearest(centroids, v, j) ==> j == nearest(centroids, v),
{
    lemma_nearest_among(centroids, v, centroids.len());
    assert(centroids.take(centroids.len() as int) =~= centroids);
    let best = nearest(centroids, v);
    if is_nearest(centroids, v, j) {
        if j < best {
            assert(squared_distance(centroids[best], v) < squared_distance(centroids[j], v));
        } else if best < j {
            assert(squared_distance(centroids[j], v) < squared_distance(centroids[best], v));
        }
    }
}

/// A squared distance is bounded by the dimension.
pub proof fn lemma_squared_distance_bounds(a: Seq<i32>, b: Seq<i32>, n: nat)
    requires
        n <= a.len(),
        n <= b.len(),
    ensures
        0 <= squared_distance_upto(a, b, n) <= n * MAX_SQUARE,
    decreases n,
{
    if n > 0 {
        lemma_squared_distance_bounds(a, b, (n - 1) as nat);
        let d = a[n - 1] - b[n - 1];
        assert(0 <= d * d <= 18446744065119617025) by (nonlinear_arith)
            requires
                -4294967295 <= d <= 4294967295,
        ;
        assert(n * MAX_SQUARE == (n - 1) * MAX_SQUARE + MAX_SQUARE) by (nonlinear_arith);
    } else {
        assert(0 * MAX_SQUARE == 0);
    }
}

/// Two points of equal dimension are at distance zero exactly when they are
/// the same point.
pub proof fn lemma_distance_zero(a: Seq<i32>, b: Seq<i32>)
    requires
        a.len() == b.len(),
    ensures
        squared_distance(a, b) == 0 <==> a == b,
{
    lemma_distance_zero_upto(a, b, a.len());
    if squared_distance(a, b) == 0 {
        assert(a =~= b);
    }
}

proof fn lemma_distance_zero_upto(a: Seq<i32>, b: Seq<i32>, n: nat)
    requires
        n <= a.len(),
        n <= b.len(),
    ensures
        squared_distance_upto(a, b, n) == 0 <==> forall|i: int| 0 <= i < n ==> a[i] == b[i],
    decreases n,
{
    if n > 0 {
        lemma_distance_zero_upto(a, b, (n - 1) as nat);
        lemma_squared_distance_bounds(a, b, (n - 1) as nat);
        let d = a[n - 1] - b[n - 1];
        assert(d * d >= 0 && (d * d == 0 <==> d == 0)) by (nonlinear_arith);
    }
}

/// The square of the difference of two coordinates.
fn squared_difference(a: i32, b: i32) -> (s: u128)
    ensures
        s == (a - b) * (a - b),
        s <= MAX_SQUARE,
{
    let diff: i64 = (a as i64) - (b as i64);
    let magnitude: u64 = if diff < 0 {
        (-diff) as u64
    } else {
        diff as u64
    };
    assert(magnitude * magnitude == (a - b) * (a - b)) by (nonlinear_arith)
        requires
            magnitude == a - b || magnitude == -(a - b),
    ;
    assert(magnitude * magnitude <= 18446744065119617025) by (nonlinear_arith)
        requires
            0 <= magnitude <= 4294967295,
    ;
    (magnitude as u128) * (magnitude as u128)
}

/// The squared Euclidean distance between row `r` of `centroids` and `v`.
pub fn row_distance(centroids: &Matrix, r: usize, v: &Vec<i32>) -> (distance: u128)
    requires
        centroids.wf(),
        r < centroids.nrows(),
        v.len() == centroids.ncols(),
    ensures
        distance == squared_distance(centroids@[r as int], v@),
{
    let d = v.len();
    let mut distance: u128 = 0;
    let mut c: usize = 0;
    proof {
        centroids.lemma_view_shape();
    }
    while c < d
        invariant
            centroids.wf(),
            r < centroids.nrows(),
            d == v.len(),
            d == centroids.ncols(),
            centroids@[r as int].len() == d,
            c <= d,
            distance == squared_distance_upto(centroids@[r as int], v@, c as nat),
        decreases d - c,
    {
        proof {
            lemma_squared_distance_bounds(centroids@[r as int], v@, c as nat);
            lemma_squared_distance_bounds(centroids@[r as int], v@, (c + 1) as nat);
            assert((c + 1) * MAX_SQUARE <= u128::MAX) by (nonlinear_arith)
                requires
                    c + 1 <= 18446744073709551615,
                    MAX_SQUARE == 18446744065119617025,
            ;
        }
        let term = squared_difference(centroids.get(r, c), v[c]);
        distance = distance + term;
        c = c + 1;
    }
    distance
}

/// The index of the centroid (a row of `centroids`) nearest to `v`, the
/// lowest of several equally near, and the squared distance to it.
pub fn nearest_centroid(centroids: &Matrix, v: &Vec<i32>) -> (found: (usize, u128))
    requires
        centroids.wf(),
        centroids.nrows() >= 1,
        v.len() == centroids.ncols(),
    ensures
        found.0 == nearest(centroids@, v@),
        found.0 < centroids.nrows(),
        is_nearest(centroids@, v@, found.0 as int),
        found.1 == squared_distance(centroids@[found.0 as int], v@),
{
    let k = centroids.nrows();
    let mut best: usize = 0;
    let mut best_distance: u128 = row_distance(centroids, 0, v);
    let mut j: usize = 1;
    proof {
        centroids.lemma_view_shape();
    }
    while j < k
        invariant
            centroids.wf(),
            k == centroids.nrows(),
            k == centroids@.len(),
            v.len() == centroids.ncols(),
            1 <= j <= k,
            best < j,
            best == nearest_among(centroids@, v@, j as nat),
            best_distance == squared_distance(centroids@[best as int], v@),
        decreases k - j,
    {
        let distance = row_distance(centroids, j, v);
        if distance < best_distance {
            best = j;
            best_distance = distance;
        }
        j = j + 1;
    }
    proof {
        lemma_nearest(centroids@, v@, best as int);
    }
    (best, best_distance)
}

/// The index of the centroid (a row of `centroids`) nearest to `v`, the
/// lowest of several equally near.
pub fn cluster_assignment(centroids: &Matrix, v: &Vec<i32>) -> (index: usize)
    requires
        centroids.wf(),
        centroids.nrows() >= 1,
        v.len() == centroids.ncols(),
    ensures
        index == nearest(centroids@, v@),
        index < centroids.nrows(),
        is_nearest(centroids@, v@, index as int),
{
    nearest_centroid(centroids, v).0
}

/// For each row of `points` the index of the centroid nearest to it.
pub fn cluster_assignments(centroids: &Matrix, points: &Matrix) -> (indices: Vec<usize>)
    requires
        centroids.wf(),
        points.wf(),
        centroids.nrows() >= 1,
        points.ncols() == centroids.ncols(),
    ensures
        indices.len() == points.nrows(),
        forall|i: int| 0 <= i < points.nrows() ==> #[trigger] indices[i] == nearest(centroids@, points@[i]),
{
    let n = points.nrows();
    let mut indices: Vec<usize> = Vec::new();
    let mut i: usize = 0;
    while i < n
        invariant
            centroids.wf(),
            points.wf(),
            centroids.nrows() >= 1,
            points.ncols() == centroids.ncols(),
            n == points.nrows(),
            i <= n,
            indices.len() == i,
            forall|r: int| 0 <= r < i ==> #[trigger] indices[r] == nearest(centroids@, points@[r]),
        decreases n - i,
    {
        let row = points.row(i);
        proof {
            points.lemma_view_shape();
        }
        indices.push(cluster_assignment(centroids, &row));
        i = i + 1;
    }
    indices
}

/// How many of the first `n` points have centroid `j` as their nearest.
pub open spec fn cluster_size(points: Seq<Seq<i32>>, centroids: Seq<Seq<i32>>, j: int, n: nat) -> nat
    decreases n,
{
    if n == 0 {
        0
    } else {
        cluster_size(points, centroids, j, (n - 1) as nat) + if nearest(centroids, points[n - 1]) == j {
            1nat
        } else {
            0nat
        }
    }
}

/// The sum of coordinate `c` over those of the first `n` points that have
/// centroid `j` as their nearest.
pub open spec fn cluster_sum(points: Seq<Seq<i32>>, centroids: Seq<Seq<i32>>, j: int, c: int, n: nat) -> int
    decreases n,
{
    if n == 0 {
        0
    } else {
        cluster_sum(points, centroids, j, c, (n - 1) as nat) + if nearest(centroids, points[n - 1]) == j {
            points[n - 1][c] as int
        } else {
            0int
        }
    }
}

/// Coordinate `c` of centroid `j` after one round: the mean of that
/// coordinate over the points nearest to the centroid, rounded down, and
/// the old coordinate when no point is nearest to it.
pub open spec fn centroid_mean(points: Seq<Seq<i32>>, centroids: Seq<Seq<i32>>, j: int, c: int) -> int {
    let size = cluster_size(points, centroids, j, points.len());
    if size > 0 {
        cluster_sum(points, centroids, j, c, points.len()) / (size as int)
    } else {
        centroids[j][c] as int
    }
}

/// The centroids after one round of k-means: every point is assigned to
/// its nearest centroid, and every centroid moves to the mean of its points.
pub open spec fn updated_centroids(points: Seq<Seq<i32>>, centroids: Seq<Seq<i32>>) -> Seq<Seq<i32>> {
    Seq::new(
        centroids.len(),
        |j: int| Seq::new(centroids[j].len(), |c: int| centroid_mean(points, centroids, j, c) as i32),
    )
}

/// The centroids after `n_iterations` rounds of k-means.
pub open spec fn clustered(points: Seq<Seq<i32>>, centroids: Seq<Seq<i32>>, n_iterations: nat) -> Seq<Seq<i32>>
    decreases n_iterations,
{
    if n_iterations == 0 {
        centroids
    } else {
        updated_centroids(points, clustered(points, centroids, (n_iterations - 1) as nat))
    }
}

/// The sum, over the first `n` points, of the squared distance between the
/// point and its nearest centroid.
pub open spec fn distortion(points: Seq<Seq<i32>>, centroids: Seq<Seq<i32>>, n: nat) -> int
    decreases n,
{
    if n == 0 {
        0
    } else {
        distortion(points, centroids, (n - 1) as nat) + squared_distance(
            centroids[nearest(centroids, points[n - 1])],
            points[n - 1],
        )
    }
}

/// The offset that makes every coordinate non-negative.
pub const COORDINATE_OFFSET: u128 = 2147483648;

/// The largest coordinate after the offset was added.
pub const MAX_SHIFTED: u128 = 4294967295;

proof fn lemma_mean_of_shifted(sum: int, size: int)
    requires
        size > 0,
        0 <= sum + size * COORDINATE_OFFSET <= size * MAX_SHIFTED,
    ensures
        (sum + size * COORDINATE_OFFSET) / size == sum / size + COORDINATE_OFFSET,
        i32::MIN <= sum / size <= i32::MAX,
{
    lemma_fundamental_div_mod(sum, size);
    assert((sum / size + COORDINATE_OFFSET) * size + sum % size == sum + size * COORDINATE_OFFSET)
        by (nonlinear_arith)
        requires
            sum == size * (sum / size) + sum % size,
    ;
    lemma_fundamental_div_mod_converse(
        sum + size * COORDINATE_OFFSET,
        size,
        sum / size + COORDINATE_OFFSET,
        sum % size,
    );
    let q = (sum + size * COORDINATE_OFFSET) / size;
    lemma_fundamental_div_mod(sum + size * COORDINATE_OFFSET, size);
    assert(0 <= q <= MAX_SHIFTED) by (nonlinear_arith)
        requires
            size > 0,
            0 <= sum + size * COORDINATE_OFFSET <= size * MAX_SHIFTED,
            sum + size * COORDINATE_OFFSET == size * q + (sum + size * COORDINATE_OFFSET) % size,
            0 <= (sum + size * COORDINATE_OFFSET) % size < size,
    ;
}

/// The sizes of the clusters and, for each cluster and coordinate, the sum
/// of the coordinates of its points, each raised by `COORDINATE_OFFSET`.
fn cluster_totals(points: &Matrix, centroids: &Matrix) -> (totals: (Vec<usize>, Vec<Vec<u128>>))
    requires
        points.wf(),
        centroids.wf(),
        centroids.nrows() >= 1,
        points.ncols() == centroids.ncols(),
    ensures
        totals.0.len() == centroids.nrows(),
        totals.1.len() == centroids.nrows(),
        forall|j: int|
            0 <= j < centroids.nrows() ==> #[trigger] totals.0[j] == cluster_size(
                points@,
                centroids@,
                j,
                points.nrows() as nat,
            ),
        forall|j: int| 0 <= j < centroids.nrows() ==> (#[trigger] totals.1[j]).len() == centroids.ncols(),
        forall|j: int, c: int|
            0 <= j < centroids.nrows() && 0 <= c < centroids.ncols() ==> {
                &&& #[trigger] totals.1[j][c] == cluster_sum(points@, centroids@, j, c, points.nrows() as nat)
                    + totals.0[j] * COORDINATE_OFFSET
                &&& totals.1[j][c] <= totals.0[j] * MAX_SHIFTED
            },
{
    let n = points.nrows();
    let k = centroids.nrows();
    let d = centroids.ncols();
    let mut sizes: Vec<usize> = Vec::new();
    let mut sums: Vec<Vec<u128>> = Vec::new();
    let mut j: usize = 0;
    while j < k
        invariant
            j <= k,
            sizes.len() == j,
            sums.len() == j,
            forall|i: int| 0 <= i < j ==> #[trigger] sizes[i] == 0,
            forall|i: int| 0 <= i < j ==> (#[trigger] sums[i]).len() == d,
            forall|i: int, c: int| 0 <= i < j && 0 <= c < d ==> #[trigger] sums[i][c] == 0,
        decreases k - j,
    {
        sizes.push(0);
        sums.push(vec![0u128; d]);
        j = j + 1;
    }
    let mut i: usize = 0;
    proof {
        points.lemma_view_shape();
    }
    while i < n
        invariant
            points.wf(),
            centroids.wf(),
            k >= 1,
            n == points.nrows(),
            n == points@.len(),
            k == centroids.nrows(),
            d == centroids.ncols(),
            d == points.ncols(),
            i <= n,
            sizes.len() == k,
            sums.len() == k,
            forall|j: int| 0 <= j < k ==> #[trigger] sizes[j] == cluster_size(points@, centroids@, j, i as nat),
            forall|j: int| 0 <= j < k ==> (#[trigger] sizes[j]) <= i,
            forall|j: int| 0 <= j < k ==> (#[trigger] sums[j]).len() == d,
            forall|j: int, c: int|
                0 <= j < k && 0 <= c < d ==> {
                    &&& #[trigger] sums[j][c] == cluster_sum(points@, centroids@, j, c, i as nat) + sizes[j]
                        * COORDINATE_OFFSET
                    &&& sums[j][c] <= sizes[j] * MAX_SHIFTED
                },
        decreases n - i,
    {
        let row = points.row(i);
        proof {
            points.lemma_view_shape();
        }
        let a = cluster_assignment(centroids, &row);
        let ghost sizes_before = sizes@;
        let ghost sums_before = sums@;
        sizes.set(a, sizes[a] + 1);
        let mut c: usize = 0;
        while c < d
            invariant
                k == centroids.nrows(),
                d == centroids.ncols(),
                row.len() == d,
                a < k,
                c <= d,
                sizes_before.len() == k,
                sizes_before[a as int] < usize::MAX,
                sums.len() == k,
                sums_before.len() == k,
                forall|j: int| 0 <= j < k ==> (#[trigger] sums[j]).len() == d,
                forall|j: int| 0 <= j < k ==> (#[trigger] sums_before[j]).len() == d,
                forall|j: int| 0 <= j < k && j != a ==> #[trigger] sums[j] == sums_before[j],
                forall|e: int| c <= e < d ==> #[trigger] sums[a as int][e] == sums_before[a as int][e],
                forall|e: int|
                    0 <= e < c ==> #[trigger] sums[a as int][e] == sums_before[a as int][e] + row[e]
                        + COORDINATE_OFFSET,
                forall|e: int| 0 <= e < d ==> #[trigger] sums_before[a as int][e] <= sizes_before[a as int] * MAX_SHIFTED,
            decreases d - c,
        {
            let shifted: u128 = ((row[c] as i64) + 2147483648i64) as u128;
            assert(sums_before[a as int][c as int] + shifted <= (sizes_before[a as int] + 1) * MAX_SHIFTED)
                by (nonlinear_arith)
                requires
                    sums_before[a as int][c as int] <= sizes_before[a as int] * MAX_SHIFTED,
                    shifted <= MAX_SHIFTED,
            ;
            assert((sizes_before[a as int] + 1) * MAX_SHIFTED <= u128::MAX) by (nonlinear_arith)
                requires
                    sizes_before[a as int] + 1 <= 18446744073709551615,
                    MAX_SHIFTED == 4294967295,
            ;
            let total = sums[a][c] + shifted;
            sums[a].set(c, total);
            c = c + 1;
        }
        proof {
            assert forall|j: int, e: int| 0 <= j < k && 0 <= e < d implies {
                &&& #[trigger] sums[j][e] == cluster_sum(points@, centroids@, j, e, (i + 1) as nat) + sizes[j]
                    * COORDINATE_OFFSET
                &&& sums[j][e] <= sizes[j] * MAX_SHIFTED
            } by {
                assert(sums_before[j][e] == cluster_sum(points@, centroids@, j, e, i as nat) + sizes_before[j]
                    * COORDINATE_OFFSET);
                if j == a {
                    assert((sizes_before[j] + 1) * COORDINATE_OFFSET == sizes_before[j] * COORDINATE_OFFSET
                        + COORDINATE_OFFSET) by (nonlinear_arith);
                    assert((sizes_before[j] + 1) * MAX_SHIFTED == sizes_before[j] * MAX_SHIFTED + MAX_SHIFTED)
                        by (nonlinear_arith);
                }
            }
        }
        i = i + 1;
    }
    (sizes, sums)
}

/// Runs one round of k-means on `centroids`.
fn update_centroids(points: &Matrix, centroids: &mut Matrix)
    requires
        points.wf(),
        old(centroids).wf(),
        old(centroids).nrows() >= 1,
        points.ncols() == old(centroids).ncols(),
    ensures
        final(centroids).wf(),
        final(centroids).nrows() == old(centroids).nrows(),
        final(centroids).ncols() == old(centroids).ncols(),
        final(centroids)@ == updated_centroids(points@, old(centroids)@),
{
    let k = centroids.nrows();
    let d = centroids.ncols();
    let ghost before = centroids@;
    let ghost after = updated_centroids(points@, before);
    let (sizes, sums) = cluster_totals(points, centroids);
    let mut j: usize = 0;
    proof {
        centroids.lemma_view_shape();
        points.lemma_view_shape();
    }
    while j < k
        invariant
            points.wf(),
            centroids.wf(),
            k == centroids.nrows(),
            d == centroids.ncols(),
            k == before.len(),
            forall|i: int| 0 <= i < k ==> (#[trigger] before[i]).len() == d,
            after == updated_centroids(points@, before),
            j <= k,
            sizes.len() == k,
            sums.len() == k,
            forall|i: int|
                0 <= i < k ==> #[trigger] sizes[i] == cluster_size(points@, before, i, points@.len()),
            forall|i: int| 0 <= i < k ==> (#[trigger] sums[i]).len() == d,
            forall|i: int, c: int|
                0 <= i < k && 0 <= c < d ==> {
                    &&& #[trigger] sums[i][c] == cluster_sum(points@, before, i, c, points@.len()) + sizes[i]
                        * COORDINATE_OFFSET
                    &&& sums[i][c] <= sizes[i] * MAX_SHIFTED
                },
            centroids@.len() == k,
            forall|i: int| 0 <= i < j ==> #[trigger] centroids@[i] == after[i],
            forall|i: int| j <= i < k ==> #[trigger] centroids@[i] == before[i],
        decreases k - j,
    {
        if sizes[j] > 0 {
            let size: u128 = sizes[j] as u128;
            let mut cells: Vec<i32> = Vec::new();
            let mut c: usize = 0;
            while c < d
                invariant
                    j < k,
                    k == before.len(),
                    before[j as int].len() == d,
                    sizes.len() == k,
                    sums.len() == k,
                    size == sizes[j as int],
                    size > 0,
                    sizes[j as int] == cluster_size(points@, before, j as int, points@.len()),
                    sums[j as int].len() == d,
                    forall|e: int|
                        0 <= e < d ==> {
                            &&& #[trigger] sums[j as int][e] == cluster_sum(
                                points@,
                                before,
                                j as int,
                                e,
                                points@.len(),
                            ) + sizes[j as int] * COORDINATE_OFFSET
                            &&& sums[j as int][e] <= sizes[j as int] * MAX_SHIFTED
                        },
                    c <= d,
                    cells.len() == c,
                    forall|e: int|
                        0 <= e < c ==> #[trigger] cells[e] == centroid_mean(points@, before, j as int, e) as i32,
                decreases d - c,
            {
                proof {
                    assert(sums[j as int][c as int] == cluster_sum(
                        points@,
                        before,
                        j as int,
                        c as int,
                        points@.len(),
                    ) + size * COORDINATE_OFFSET);
                    lemma_mean_of_shifted(
                        cluster_sum(points@, before, j as int, c as int, points@.len()),
                        size as int,
                    );
                }
                let mean: u128 = sums[j][c] / size;
                let cell: i32 = ((mean as i64) - 2147483648i64) as i32;
                cells.push(cell);
                c = c + 1;
            }
            proof {
                assert(cells@ =~= after[j as int]);
            }
            centroids.set_row(j, &cells);
        } else {
            proof {
                assert(before[j as int] =~= after[j as int]);
            }
        }
        j = j + 1;
    }
    proof {
        assert(centroids@ =~= after);
    }
}


proof fn lemma_distortion_bounds(points: Seq<Seq<i32>>, centroids: Seq<Seq<i32>>, d: nat, n: nat)
    requires
        n <= points.len(),
        centroids.len() >= 1,
        forall|i: int| 0 <= i < points.len() ==> (#[trigger] points[i]).len() == d,
        forall|j: int| 0 <= j < centroids.len() ==> (#[trigger] centroids[j]).len() == d,
    ensures
        0 <= distortion(points, centroids, n) <= n * d * MAX_SQUARE,
    decreases n,
{
    if n > 0 {
        lemma_distortion_bounds(points, centroids, d, (n - 1) as nat);
        let a = nearest(centroids, points[n - 1]);
        lemma_nearest(centroids, points[n - 1], a);
        lemma_squared_distance_bounds(centroids[a], points[n - 1], d);
        assert(n * d * MAX_SQUARE == (n - 1) * d * MAX_SQUARE + d * MAX_SQUARE) by (nonlinear_arith);
    } else {
        assert(0 * d * MAX_SQUARE == 0) by (nonlinear_arith);
    }
}

/// The sum of the squared distances between the rows of `points` and their
/// nearest centroids.
pub fn clustering_loss(points: &Matrix, centroids: &Matrix) -> (loss: u128)
    requires
        points.wf(),
        centroids.wf(),
        centroids.nrows() >= 1,
        points.ncols() == centroids.ncols(),
    ensures
        loss == distortion(points@, centroids@, points.nrows() as nat),
{
    let n = points.nrows();
    let ghost d = points.ncols() as nat;
    let mut loss: u128 = 0;
    let mut i: usize = 0;
    proof {
        points.lemma_view_shape();
        centroids.lemma_view_shape();
    }
    while i < n
        invariant
            points.wf(),
            centroids.wf(),
            centroids.nrows() >= 1,
            points.ncols() == centroids.ncols(),
            d == points.ncols(),
            n == points.nrows(),
            n == points@.len(),
            n * d <= usize::MAX,
            centroids@.len() >= 1,
            forall|r: int| 0 <= r < points@.len() ==> (#[trigger] points@[r]).len() == d,
            forall|j: int| 0 <= j < centroids@.len() ==> (#[trigger] centroids@[j]).len() == d,
            i <= n,
            loss == distortion(points@, centroids@, i as nat),
        decreases n - i,
    {
        let row = points.row(i);
        let (_, distance) = nearest_centroid(centroids, &row);
        proof {
            lemma_distortion_bounds(points@, centroids@, d, (i + 1) as nat);
            assert((i + 1) * d <= n * d) by (nonlinear_arith)
                requires
                    i + 1 <= n,
            ;
            assert((i + 1) * d * MAX_SQUARE <= u128::MAX) by (nonlinear_arith)
                requires
                    (i + 1) * d <= n * d,
                    n * d <= 18446744073709551615,
                    MAX_SQUARE == 18446744065119617025,
            ;
        }
        loss = loss + distance;
        i = i + 1;
    }
    loss
}

/// Clusters the rows of `points`: starting from the given centroids, runs
/// `n_iterations` rounds of k-means. Returns the loss of the centroids it
/// ends with: the sum of the squared distances between the points and their
/// nearest centroids.
pub fn kmeans_with_centroids(points: &Matrix, centroids: &mut Matrix, n_iterations: usize) -> (loss: u128)
    requires
        points.wf(),
        old(centroids).wf(),
        old(centroids).nrows() >= 1,
        points.ncols() == old(centroids).ncols(),
    ensures
        final(centroids).wf(),
        final(centroids).nrows() == old(centroids).nrows(),
        final(centroids).ncols() == old(centroids).ncols(),
        final(centroids)@ == clustered(points@, old(centroids)@, n_iterations as nat),
        loss == distortion(points@, final(centroids)@, points.nrows() as nat),
{
    let mut round: usize = 0;
    while round < n_iterations
        invariant
            points.wf(),
            centroids.wf(),
            centroids.nrows() == old(centroids).nrows(),
            centroids.ncols() == old(centroids).ncols(),
            centroids.nrows() >= 1,
            points.ncols() == centroids.ncols(),
            round <= n_iterations,
            centroids@ == clustered(points@, old(centroids)@, round as nat),
        decreases n_iterations - round,
    {
        update_centroids(points, centroids);
        round = round + 1;
    }
    clustering_loss(points, centroids)
}

} // verus!
