//! The rotation of an optimized product quantizer.
//!
//! The rotation is a square matrix whose columns are the directions of an
//! eigenbasis, ordered bucket by bucket. Its cells are fractions in units of
//! `1 / ROTATION_ONE`.

use vstd::arithmetic::div_mod::{lemma_fundamental_div_mod, lemma_fundamental_div_mod_converse};
use vstd::prelude::*;

use crate::bucket::{bucket_eigenvalues, bucketing, buckets_divide, is_balanced_partition};
use crate::error::PqError;
use crate::matrix::Matrix;

verus! {

/// The cell of a rotation that stands for one.
pub const ROTATION_ONE: i64 = 1073741824;

/// The largest product of a coordinate and a cell of a rotation.
pub const MAX_PRODUCT: i128 = 4611686018427387904;

/// The sum of the products of the first `n` coordinates of `a` and `b`.
pub open spec fn dot_upto(a: Seq<i32>, b: Seq<i32>, n: nat) -> int
    decreases n,
{
    if n == 0 {
        0
    } else {
        dot_upto(a, b, (n - 1) as nat) + a[n - 1] * b[n - 1]
    }
}

/// The dot product of two vectors of equal dimension.
pub open spec fn dot(a: Seq<i32>, b: Seq<i32>) -> int {
    dot_upto(a, b, a.len())
}

/// Column `j` of a matrix.
pub open spec fn column(m: Seq<Seq<i32>>, j: int) -> Seq<i32> {
    Seq::new(m.len(), |i: int| m[i][j])
}

/// The coordinate that a sum of products stands for: the sum in units of
/// `ROTATION_ONE`, rounded to the nearest integer (a half is rounded up).
pub open spec fn rescaled(sum: int) -> int {
    (sum + ROTATION_ONE / 2) / (ROTATION_ONE as int)
}

/// The coordinate is one that a vector can hold.
pub open spec fn is_coordinate(v: int) -> bool {
    i32::MIN <= v <= i32::MAX
}

/// Every coordinate of `x` times the rotation is one that a vector can hold.
pub open spec fn rotates(x: Seq<i32>, rotation: Seq<Seq<i32>>) -> bool {
    forall|j: int| 0 <= j < x.len() ==> is_coordinate(#[trigger] rescaled(dot(x, column(rotation, j))))
}

/// The vector `x` times the rotation.
pub open spec fn rotated(x: Seq<i32>, rotation: Seq<Seq<i32>>) -> Seq<i32> {
    Seq::new(x.len(), |j: int| rescaled(dot(x, column(rotation, j))) as i32)
}

/// Every coordinate of `y` times the transpose of the rotation is one that
/// a vector can hold.
pub open spec fn rotates_back(y: Seq<i32>, rotation: Seq<Seq<i32>>) -> bool {
    forall|i: int| 0 <= i < y.len() ==> is_coordinate(#[trigger] rescaled(dot(y, rotation[i])))
}

/// The vector `y` times the transpose of the rotation, which undoes the
/// rotation as far as rounding allows when the rotation is orthonormal.
pub open spec fn rotated_back(y: Seq<i32>, rotation: Seq<Seq<i32>>) -> Seq<i32> {
    Seq::new(y.len(), |i: int| rescaled(dot(y, rotation[i])) as i32)
}

/// Every row of `rows` can be rotated.
pub open spec fn rows_rotate(rows: Seq<Seq<i32>>, rotation: Seq<Seq<i32>>) -> bool {
    forall|r: int| 0 <= r < rows.len() ==> rotates(#[trigger] rows[r], rotation)
}

/// The rows of `rows`, each times the rotation.
pub open spec fn rotated_rows(rows: Seq<Seq<i32>>, rotation: Seq<Seq<i32>>) -> Seq<Seq<i32>> {
    Seq::new(rows.len(), |r: int| rotated(rows[r], rotation))
}

/// How far the dot product of two columns of a rotation may lie from the
/// dot product of two columns of an orthonormal matrix: one part in 1024
/// of the square of `ROTATION_ONE`.
pub const ROTATION_TOLERANCE: i128 = 1125899906842624;

/// The dot product of the columns `a` and `b` is that of two columns of an
/// orthonormal matrix, within `ROTATION_TOLERANCE`: the square of
/// `ROTATION_ONE` for a column with itself, and zero for two columns.
pub open spec fn columns_agree(rotation: Seq<Seq<i32>>, a: int, b: int) -> bool {
    let product = dot(column(rotation, a), column(rotation, b));
    let expected = if a == b {
        ROTATION_ONE * ROTATION_ONE
    } else {
        0
    };
    expected - ROTATION_TOLERANCE <= product <= expected + ROTATION_TOLERANCE
}

/// The columns of the square matrix are orthonormal within
/// `ROTATION_TOLERANCE`.
pub open spec fn is_orthonormal(rotation: Seq<Seq<i32>>) -> bool {
    forall|a: int, b: int|
        0 <= a < rotation.len() && 0 <= b < rotation.len() ==> #[trigger] columns_agree(rotation, a, b)
}

proof fn lemma_dot_bounds(a: Seq<i32>, b: Seq<i32>, n: nat)
    requires
        n <= a.len(),
        n <= b.len(),
    ensures
        -n * MAX_PRODUCT <= dot_upto(a, b, n) <= n * MAX_PRODUCT,
    decreases n,
{
    if n > 0 {
        lemma_dot_bounds(a, b, (n - 1) as nat);
        let x = a[n - 1] as int;
        let y = b[n - 1] as int;
        assert(-4611686018427387904 <= x * y <= 4611686018427387904) by (nonlinear_arith)
            requires
                -2147483648 <= x <= 2147483647,
                -2147483648 <= y <= 2147483647,
        ;
        assert(n * MAX_PRODUCT == (n - 1) * MAX_PRODUCT + MAX_PRODUCT) by (nonlinear_arith);
        assert(-n * MAX_PRODUCT == -(n - 1) * MAX_PRODUCT - MAX_PRODUCT) by (nonlinear_arith);
    } else {
        assert(0 * MAX_PRODUCT == 0);
        assert(-0 * MAX_PRODUCT == 0);
    }
}

proof fn lemma_dot_fits(n: nat)
    requires
        n <= usize::MAX,
    ensures
        n * MAX_PRODUCT <= 0x3fff_ffff_ffff_ffff_c000_0000_0000_0000,
        -n * MAX_PRODUCT >= -0x3fff_ffff_ffff_ffff_c000_0000_0000_0000,
{
    assert(n * MAX_PRODUCT <= 0x3fff_ffff_ffff_ffff_c000_0000_0000_0000) by (nonlinear_arith)
        requires
            n <= 18446744073709551615,
            MAX_PRODUCT == 4611686018427387904,
    ;
    assert(-n * MAX_PRODUCT == -(n * MAX_PRODUCT)) by (nonlinear_arith);
}

/// Computes [`rescaled`], or nothing where it is no coordinate.
fn rescale(sum: i128) -> (v: Option<i32>)
    requires
        -0x3fff_ffff_ffff_ffff_c000_0000_0000_0000 <= sum <= 0x3fff_ffff_ffff_ffff_c000_0000_0000_0000,
    ensures
        v is Some <==> is_coordinate(rescaled(sum as int)),
        v matches Some(c) ==> c == rescaled(sum as int),
{
    // Lifting the sum by a multiple of the divisor keeps the dividend
    // non-negative and lifts the quotient by that multiple of one.
    let lifted: u128 = (sum + 0x4000_0000_0000_0000_0000_0000_2000_0000i128) as u128;
    let quotient: u128 = lifted / 1073741824u128;
    proof {
        let s = sum as int + 536870912;
        let d = 1073741824int;
        let lift = 0x1_0000_0000_0000_0000_0000_0000int;
        assert(lift * d == 0x4000_0000_0000_0000_0000_0000_0000_0000) by (nonlinear_arith)
            requires
                lift == 0x1_0000_0000_0000_0000_0000_0000int,
                d == 1073741824int,
        ;
        lemma_fundamental_div_mod(s, d);
        assert((s / d + lift) * d + s % d == s + lift * d) by (nonlinear_arith)
            requires
                s == d * (s / d) + s % d,
        ;
        lemma_fundamental_div_mod_converse(s + lift * d, d, s / d + lift, s % d);
        assert(quotient == s / d + lift);
    }
    let rounded: i128 = (quotient as i128) - 0x1_0000_0000_0000_0000_0000_0000i128;
    if rounded < -2147483648i128 || rounded > 2147483647i128 {
        None
    } else {
        Some(rounded as i32)
    }
}

/// The rotation is square with `dim` rows.
pub open spec fn is_square(rotation: &Matrix, dim: nat) -> bool {
    &&& rotation.wf()
    &&& rotation.nrows() == dim
    &&& rotation.ncols() == dim
}

/// The sum of the products of the cells of two columns of a square matrix.
fn column_dot(rotation: &Matrix, a: usize, b: usize) -> (product: i128)
    requires
        is_square(rotation, rotation.nrows() as nat),
        a < rotation.nrows(),
        b < rotation.nrows(),
    ensures
        product == dot(column(rotation@, a as int), column(rotation@, b as int)),
        -0x3fff_ffff_ffff_ffff_c000_0000_0000_0000 <= product <= 0x3fff_ffff_ffff_ffff_c000_0000_0000_0000,
{
    let n = rotation.nrows();
    let ghost first = column(rotation@, a as int);
    let ghost second = column(rotation@, b as int);
    let mut sum: i128 = 0;
    let mut r: usize = 0;
    proof {
        rotation.lemma_view_shape();
    }
    while r < n
        invariant
            is_square(rotation, n as nat),
            rotation@.len() == n,
            forall|i: int| 0 <= i < n ==> (#[trigger] rotation@[i]).len() == n,
            a < n,
            b < n,
            first == column(rotation@, a as int),
            second == column(rotation@, b as int),
            r <= n,
            sum == dot_upto(first, second, r as nat),
        decreases n - r,
    {
        proof {
            lemma_dot_bounds(first, second, r as nat);
            lemma_dot_bounds(first, second, (r + 1) as nat);
            lemma_dot_fits(r as nat);
            lemma_dot_fits((r + 1) as nat);
            assert(first[r as int] == rotation@[r as int][a as int]);
            assert(second[r as int] == rotation@[r as int][b as int]);
        }
        let x: i128 = rotation.get(r, a) as i128;
        let y: i128 = rotation.get(r, b) as i128;
        assert(-4611686018427387904 <= x * y <= 4611686018427387904) by (nonlinear_arith)
            requires
                -2147483648 <= x <= 2147483647,
                -2147483648 <= y <= 2147483647,
        ;
        sum = sum + x * y;
        r = r + 1;
    }
    proof {
        lemma_dot_bounds(first, second, n as nat);
        lemma_dot_fits(n as nat);
    }
    sum
}

/// Whether the columns of a square matrix are orthonormal within
/// `ROTATION_TOLERANCE`.
pub fn orthonormal(rotation: &Matrix) -> (holds: bool)
    requires
        is_square(rotation, rotation.nrows() as nat),
    ensures
        holds == is_orthonormal(rotation@),
{
    let n = rotation.nrows();
    let mut a: usize = 0;
    proof {
        rotation.lemma_view_shape();
    }
    while a < n
        invariant
            is_square(rotation, n as nat),
            rotation@.len() == n,
            a <= n,
            forall|i: int, j: int| 0 <= i < a && 0 <= j < n ==> #[trigger] columns_agree(rotation@, i, j),
        decreases n - a,
    {
        let mut b: usize = 0;
        while b < n
            invariant
                is_square(rotation, n as nat),
                rotation@.len() == n,
                a < n,
                b <= n,
                forall|i: int, j: int| 0 <= i < a && 0 <= j < n ==> #[trigger] columns_agree(rotation@, i, j),
                forall|j: int| 0 <= j < b ==> #[trigger] columns_agree(rotation@, a as int, j),
            decreases n - b,
        {
            let product = column_dot(rotation, a, b);
            let expected: i128 = if a == b {
                1152921504606846976
            } else {
                0
            };
            if product < expected - 1125899906842624 || product > expected + 1125899906842624 {
                assert(!columns_agree(rotation@, a as int, b as int));
                return false;
            }
            b = b + 1;
        }
        a = a + 1;
    }
    true
}

/// Rotates `x`: computes `x` times the rotation.
///
/// Fails with `NumericalError` when a coordinate of the result is beyond
/// the range of `i32`.
pub fn rotate(x: &Vec<i32>, rotation: &Matrix) -> (result: Result<Vec<i32>, PqError>)
    requires
        is_square(rotation, x.len() as nat),
    ensures
        result is Ok <==> rotates(x@, rotation@),
        result is Err ==> result == Err::<Vec<i32>, PqError>(PqError::NumericalError),
        result matches Ok(y) ==> y@ == rotated(x@, rotation@) && y.len() == x.len(),
{
    let n = x.len();
    let mut y: Vec<i32> = Vec::new();
    let mut j: usize = 0;
    proof {
        rotation.lemma_view_shape();
    }
    while j < n
        invariant
            is_square(rotation, n as nat),
            n == x.len(),
            rotation@.len() == n,
            forall|r: int| 0 <= r < n ==> (#[trigger] rotation@[r]).len() == n,
            j <= n,
            y.len() == j,
            forall|c: int| 0 <= c < j ==> is_coordinate(#[trigger] rescaled(dot(x@, column(rotation@, c)))),
            forall|c: int| 0 <= c < j ==> #[trigger] y[c] == rescaled(dot(x@, column(rotation@, c))),
        decreases n - j,
    {
        let ghost col = column(rotation@, j as int);
        let mut sum: i128 = 0;
        let mut i: usize = 0;
        while i < n
            invariant
                is_square(rotation, n as nat),
                n == x.len(),
                rotation@.len() == n,
                forall|r: int| 0 <= r < n ==> (#[trigger] rotation@[r]).len() == n,
                j < n,
                col == column(rotation@, j as int),
                i <= n,
                sum == dot_upto(x@, col, i as nat),
            decreases n - i,
        {
            proof {
                lemma_dot_bounds(x@, col, i as nat);
                lemma_dot_bounds(x@, col, (i + 1) as nat);
                lemma_dot_fits(i as nat);
                lemma_dot_fits((i + 1) as nat);
                assert(col[i as int] == rotation@[i as int][j as int]);
            }
            let a: i128 = x[i] as i128;
            let b: i128 = rotation.get(i, j) as i128;
            assert(-4611686018427387904 <= a * b <= 4611686018427387904) by (nonlinear_arith)
                requires
                    -2147483648 <= a <= 2147483647,
                    -2147483648 <= b <= 2147483647,
            ;
            sum = sum + a * b;
            i = i + 1;
        }
        proof {
            lemma_dot_bounds(x@, col, n as nat);
            lemma_dot_fits(n as nat);
        }
        match rescale(sum) {
            None => {
                assert(!is_coordinate(rescaled(dot(x@, column(rotation@, j as int)))));
                return Err(PqError::NumericalError);
            },
            Some(coordinate) => {
                y.push(coordinate);
            },
        }
        j = j + 1;
    }
    proof {
        assert(y@ =~= rotated(x@, rotation@));
    }
    Ok(y)
}

/// Rotates `y` back: computes `y` times the transpose of the rotation.
///
/// Fails with `NumericalError` when a coordinate of the result is beyond
/// the range of `i32`.
pub fn rotate_back(y: &Vec<i32>, rotation: &Matrix) -> (result: Result<Vec<i32>, PqError>)
    requires
        is_square(rotation, y.len() as nat),
    ensures
        result is Ok <==> rotates_back(y@, rotation@),
        result is Err ==> result == Err::<Vec<i32>, PqError>(PqError::NumericalError),
        result matches Ok(x) ==> x@ == rotated_back(y@, rotation@) && x.len() == y.len(),
{
    let n = y.len();
    let mut x: Vec<i32> = Vec::new();
    let mut i: usize = 0;
    proof {
        rotation.lemma_view_shape();
    }
    while i < n
        invariant
            is_square(rotation, n as nat),
            n == y.len(),
            rotation@.len() == n,
            forall|r: int| 0 <= r < n ==> (#[trigger] rotation@[r]).len() == n,
            i <= n,
            x.len() == i,
            forall|c: int| 0 <= c < i ==> is_coordinate(#[trigger] rescaled(dot(y@, rotation@[c]))),
            forall|c: int| 0 <= c < i ==> #[trigger] x[c] == rescaled(dot(y@, rotation@[c])),
        decreases n - i,
    {
        let ghost row = rotation@[i as int];
        let mut sum: i128 = 0;
        let mut j: usize = 0;
        while j < n
            invariant
                is_square(rotation, n as nat),
                n == y.len(),
                rotation@.len() == n,
                forall|r: int| 0 <= r < n ==> (#[trigger] rotation@[r]).len() == n,
                i < n,
                row == rotation@[i as int],
                j <= n,
                sum == dot_upto(y@, row, j as nat),
            decreases n - j,
        {
            proof {
                lemma_dot_bounds(y@, row, j as nat);
                lemma_dot_bounds(y@, row, (j + 1) as nat);
                lemma_dot_fits(j as nat);
                lemma_dot_fits((j + 1) as nat);
            }
            let a: i128 = y[j] as i128;
            let b: i128 = rotation.get(i, j) as i128;
            assert(-4611686018427387904 <= a * b <= 4611686018427387904) by (nonlinear_arith)
                requires
                    -2147483648 <= a <= 2147483647,
                    -2147483648 <= b <= 2147483647,
            ;
            sum = sum + a * b;
            j = j + 1;
        }
        proof {
            lemma_dot_bounds(y@, row, n as nat);
            lemma_dot_fits(n as nat);
        }
        match rescale(sum) {
            None => {
                assert(!is_coordinate(rescaled(dot(y@, rotation@[i as int]))));
                return Err(PqError::NumericalError);
            },
            Some(coordinate) => {
                x.push(coordinate);
            },
        }
        i = i + 1;
    }
    proof {
        assert(x@ =~= rotated_back(y@, rotation@));
    }
    Ok(x)
}

/// Rotates every row of `instances`.
///
/// Fails with `NumericalError` when a coordinate of a rotated row is beyond
/// the range of `i32`.
pub fn rotate_rows(instances: &Matrix, rotation: &Matrix) -> (result: Result<Matrix, PqError>)
    requires
        instances.wf(),
        is_square(rotation, instances.ncols() as nat),
    ensures
        result is Ok <==> rows_rotate(instances@, rotation@),
        result is Err ==> result == Err::<Matrix, PqError>(PqError::NumericalError),
        result matches Ok(rotated_instances) ==> {
            &&& rotated_instances.wf()
            &&& rotated_instances.nrows() == instances.nrows()
            &&& rotated_instances.ncols() == instances.ncols()
            &&& rotated_instances@ == rotated_rows(instances@, rotation@)
        },
{
    let n = instances.nrows();
    proof {
        instances.lemma_view_shape();
    }
    let mut rotated_instances = Matrix::zeros(n, instances.ncols()).unwrap();
    let mut r: usize = 0;
    proof {
        rotated_instances.lemma_view_shape();
    }
    while r < n
        invariant
            instances.wf(),
            is_square(rotation, instances.ncols() as nat),
            n == instances.nrows(),
            n == instances@.len(),
            rotated_instances.wf(),
            rotated_instances.nrows() == n,
            rotated_instances.ncols() == instances.ncols(),
            rotated_instances@.len() == n,
            r <= n,
            forall|i: int| 0 <= i < r ==> rotates(#[trigger] instances@[i], rotation@),
            forall|i: int| 0 <= i < r ==> #[trigger] rotated_instances@[i] == rotated(instances@[i], rotation@),
        decreases n - r,
    {
        let row = instances.row(r);
        proof {
            instances.lemma_view_shape();
        }
        match rotate(&row, rotation) {
            Err(_) => {
                return Err(PqError::NumericalError);
            },
            Ok(cells) => {
                rotated_instances.set_row(r, &cells);
            },
        }
        r = r + 1;
    }
    proof {
        assert(rotated_instances@ =~= rotated_rows(instances@, rotation@));
    }
    Ok(rotated_instances)
}

/// The members of the first `n` buckets, one bucket after the other.
pub open spec fn flattened_upto(buckets: Seq<Seq<usize>>, n: nat) -> Seq<usize>
    decreases n,
{
    if n == 0 {
        Seq::empty()
    } else {
        flattened_upto(buckets, (n - 1) as nat) + buckets[n - 1]
    }
}

/// The members of all buckets, one bucket after the other.
pub open spec fn flattened(buckets: Seq<Seq<usize>>) -> Seq<usize> {
    flattened_upto(buckets, buckets.len())
}

/// The matrix whose column `c` is column `picks[c]` of `m`.
pub open spec fn columns_picked(m: Seq<Seq<i32>>, picks: Seq<usize>) -> Seq<Seq<i32>> {
    Seq::new(m.len(), |r: int| Seq::new(picks.len(), |c: int| m[r][picks[c] as int]))
}

/// The members of the buckets, one bucket after the other.
fn flatten(buckets: &Vec<Vec<usize>>) -> (picks: Vec<usize>)
    ensures
        picks@ == flattened(buckets.deep_view()),
{
    let ghost members = buckets.deep_view();
    let mut picks: Vec<usize> = Vec::new();
    let mut b: usize = 0;
    while b < buckets.len()
        invariant
            members == buckets.deep_view(),
            b <= buckets.len(),
            picks@ == flattened_upto(members, b as nat),
        decreases buckets.len() - b,
    {
        let ghost before = picks@;
        let mut i: usize = 0;
        while i < buckets[b].len()
            invariant
                b < buckets.len(),
                i <= buckets[b as int].len(),
                picks@ == before + buckets[b as int]@.take(i as int),
            decreases buckets[b as int].len() - i,
        {
            picks.push(buckets[b][i]);
            i = i + 1;
            assert(picks@ =~= before + buckets[b as int]@.take(i as int));
        }
        proof {
            assert(buckets[b as int]@.take(buckets[b as int].len() as int) =~= buckets[b as int]@);
            assert(members[b as int] =~= buckets[b as int]@);
        }
        b = b + 1;
    }
    picks
}

/// There is one weight and one row and column of eigenvectors for every
/// direction, and the number of buckets divides the number of directions.
pub open spec fn decomposition_fits(n_weights: nat, eigenvectors: &Matrix, n_buckets: nat) -> bool {
    &&& buckets_divide(n_weights, n_buckets)
    &&& eigenvectors.nrows() == n_weights
    &&& eigenvectors.ncols() == n_weights
}

/// A matrix that has the columns of an orthonormal matrix, each once, is
/// orthonormal.
pub proof fn lemma_picked_columns_stay_orthonormal(m: Seq<Seq<i32>>, picks: Seq<usize>)
    requires
        is_orthonormal(m),
        is_permutation(picks, m.len()),
        forall|r: int| 0 <= r < m.len() ==> (#[trigger] m[r]).len() == m.len(),
    ensures
        is_orthonormal(columns_picked(m, picks)),
{
    let picked = columns_picked(m, picks);
    assert forall|a: int, b: int| 0 <= a < picked.len() && 0 <= b < picked.len() implies #[trigger] columns_agree(
        picked,
        a,
        b,
    ) by {
        assert(column(picked, a) =~= column(m, picks[a] as int));
        assert(column(picked, b) =~= column(m, picks[b] as int));
        assert(columns_agree(m, picks[a] as int, picks[b] as int));
        if a < b {
            assert(picks[a] != picks[b]);
        } else if b < a {
            assert(picks[b] != picks[a]);
        }
    }
}

/// Builds the rotation of an optimized product quantizer from the
/// eigendecomposition of the covariance of the instances.
///
/// `weights` holds the logarithm of every eigenvalue in steps of a grid,
/// and column `j` of `eigenvectors` is the direction of eigenvalue `j`. The
/// directions are spread over `n_subquantizers` buckets, and the columns of
/// the result are the directions of the first bucket, then those of the
/// second, and so on.
///
/// Fails with `InvalidConfiguration` when `n_subquantizers` is zero,
/// exceeds the number of weights or does not divide it, or when
/// `eigenvectors` is not a square matrix with one column per weight, and
/// otherwise with `NumericalError` when the columns of `eigenvectors` are
/// not orthonormal within `ROTATION_TOLERANCE`.
pub fn create_projection_matrix(weights: &Vec<i64>, eigenvectors: &Matrix, n_subquantizers: usize) -> (result:
    Result<Matrix, PqError>)
    requires
        eigenvectors.wf(),
    ensures
        result == Err::<Matrix, PqError>(PqError::InvalidConfiguration) <==> !decomposition_fits(
            weights.len() as nat,
            eigenvectors,
            n_subquantizers as nat,
        ),
        result == Err::<Matrix, PqError>(PqError::NumericalError) <==> decomposition_fits(
            weights.len() as nat,
            eigenvectors,
            n_subquantizers as nat,
        ) && !is_orthonormal(eigenvectors@),
        result is Err ==> result == Err::<Matrix, PqError>(PqError::InvalidConfiguration) || result == Err::<
            Matrix,
            PqError,
        >(PqError::NumericalError),
        result matches Ok(rotation) ==> {
            &&& is_square(&rotation, weights.len() as nat)
            &&& rotation@ == columns_picked(eigenvectors@, flattened(bucketing(weights@, n_subquantizers as nat)))
            &&& is_permutation(flattened(bucketing(weights@, n_subquantizers as nat)), weights.len() as nat)
            &&& is_orthonormal(rotation@)
        },
{
    let n = weights.len();
    if eigenvectors.nrows() != n || eigenvectors.ncols() != n {
        return Err(PqError::InvalidConfiguration);
    }
    let buckets = match bucket_eigenvalues(weights, n_subquantizers) {
        Err(_) => {
            return Err(PqError::InvalidConfiguration);
        },
        Ok(buckets) => buckets,
    };
    if !orthonormal(eigenvectors) {
        return Err(PqError::NumericalError);
    }
    let picks = flatten(&buckets);
    proof {
        lemma_flattened_permutes(buckets.deep_view(), n as nat, n_subquantizers as nat);
        eigenvectors.lemma_view_shape();
    }
    let mut rotation = Matrix::zeros(n, n).unwrap();
    let mut r: usize = 0;
    proof {
        rotation.lemma_view_shape();
    }
    while r < n
        invariant
            eigenvectors.wf(),
            eigenvectors.nrows() == n,
            eigenvectors.ncols() == n,
            eigenvectors@.len() == n,
            picks.len() == n,
            forall|c: int| 0 <= c < n ==> (#[trigger] picks[c]) < n,
            is_square(&rotation, n as nat),
            rotation@.len() == n,
            r <= n,
            forall|i: int| 0 <= i < r ==> #[trigger] rotation@[i] == columns_picked(eigenvectors@, picks@)[i],
        decreases n - r,
    {
        let mut cells: Vec<i32> = Vec::new();
        let mut c: usize = 0;
        while c < n
            invariant
                eigenvectors.wf(),
                eigenvectors.nrows() == n,
                eigenvectors.ncols() == n,
                picks.len() == n,
                forall|c: int| 0 <= c < n ==> (#[trigger] picks[c]) < n,
                r < n,
                c <= n,
                cells.len() == c,
                forall|e: int| 0 <= e < c ==> #[trigger] cells[e] == eigenvectors@[r as int][picks[e] as int],
            decreases n - c,
        {
            cells.push(eigenvectors.get(r, picks[c]));
            c = c + 1;
        }
        proof {
            assert(cells@ =~= columns_picked(eigenvectors@, picks@)[r as int]);
        }
        rotation.set_row(r, &cells);
        r = r + 1;
    }
    proof {
        assert(rotation@ =~= columns_picked(eigenvectors@, picks@));
        lemma_picked_columns_stay_orthonormal(eigenvectors@, picks@);
    }
    Ok(rotation)
}

/// `picks` lists every index below `n` exactly once.
pub open spec fn is_permutation(picks: Seq<usize>, n: nat) -> bool {
    &&& picks.len() == n
    &&& forall|k: int| 0 <= k < n ==> (#[trigger] picks[k]) < n
    &&& forall|a: int, b: int| 0 <= a < b < n ==> #[trigger] picks[a] != #[trigger] picks[b]
}

/// Entry `k` of `flat` is member `i` of bucket `b`, for buckets of `size`
/// members.
pub open spec fn placed(buckets: Seq<Seq<usize>>, flat: Seq<usize>, size: nat, k: int, b: int, i: int) -> bool {
    &&& 0 <= b < buckets.len()
    &&& 0 <= i < size
    &&& k == b * size + i
    &&& flat[k] == buckets[b][i]
}

/// Entry `k` of `flat` is a member of a bucket.
pub open spec fn has_place(buckets: Seq<Seq<usize>>, flat: Seq<usize>, size: nat, k: int) -> bool {
    exists|b: int, i: int| placed(buckets, flat, size, k, b, i)
}

proof fn lemma_flattened_places(buckets: Seq<Seq<usize>>, size: nat, n: nat)
    requires
        n <= buckets.len(),
        forall|b: int| 0 <= b < buckets.len() ==> (#[trigger] buckets[b]).len() == size,
    ensures
        flattened_upto(buckets, n).len() == n * size,
        forall|k: int|
            0 <= k < n * size ==> #[trigger] has_place(buckets, flattened_upto(buckets, n), size, k),
    decreases n,
{
    let flat = flattened_upto(buckets, n);
    if n == 0 {
        assert(0 * size == 0);
    } else {
        let shorter = flattened_upto(buckets, (n - 1) as nat);
        lemma_flattened_places(buckets, size, (n - 1) as nat);
        assert(n * size == (n - 1) * size + size) by (nonlinear_arith);
        assert forall|k: int| 0 <= k < n * size implies #[trigger] has_place(buckets, flat, size, k) by {
            if k < (n - 1) * size {
                assert(has_place(buckets, shorter, size, k));
                let (b, i) = choose|b: int, i: int| placed(buckets, shorter, size, k, b, i);
                assert(flat[k] == shorter[k]);
                assert(placed(buckets, flat, size, k, b, i));
            } else {
                assert(flat[k] == buckets[n - 1][k - (n - 1) * size]);
                assert(placed(buckets, flat, size, k, n - 1, k - (n - 1) * size));
            }
        }
    }
}

/// The members of the buckets of a balanced partition, one bucket after the
/// other, list every direction exactly once: the projection has the columns
/// of the eigenbasis, each once, in another order.
pub proof fn lemma_flattened_permutes(buckets: Seq<Seq<usize>>, n_directions: nat, n_buckets: nat)
    requires
        is_balanced_partition(buckets, n_directions, n_buckets),
        n_buckets > 0,
        n_directions % n_buckets == 0,
    ensures
        is_permutation(flattened(buckets), n_directions),
{
    let size = n_directions / n_buckets;
    let flat = flattened(buckets);
    lemma_flattened_places(buckets, size, n_buckets);
    assert(n_buckets * size == n_directions) by (nonlinear_arith)
        requires
            n_buckets > 0,
            n_directions % n_buckets == 0,
            size == n_directions / n_buckets,
    ;
    assert forall|k: int| 0 <= k < n_directions implies (#[trigger] flat[k]) < n_directions by {
        assert(has_place(buckets, flat, size, k));
    }
    assert forall|a: int, b: int| 0 <= a < b < n_directions implies #[trigger] flat[a] != #[trigger] flat[b] by {
        assert(has_place(buckets, flat, size, a));
        assert(has_place(buckets, flat, size, b));
        let (b1, i1) = choose|b1: int, i1: int| placed(buckets, flat, size, a, b1, i1);
        let (b2, i2) = choose|b2: int, i2: int| placed(buckets, flat, size, b, b2, i2);
        if flat[a] == flat[b] {
            assert(buckets[b1][i1] == buckets[b2][i2]);
        }
    }
}

} // verus!
