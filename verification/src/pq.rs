//! Product quantization.

use rand_xorshift::XorShiftRng;
use vstd::arithmetic::power2::{lemma2_to64, lemma_pow2_strictly_increases, lemma_pow2_unfold, pow2};
use vstd::prelude::*;

use crate::error::PqError;
use crate::kmeans::{
    cluster_assignment, clustered, distortion, is_nearest, kmeans_with_centroids, lemma_distance_zero,
    lemma_nearest, lemma_squared_distance_bounds, nearest, squared_distance, squared_distance_upto,
};
use crate::matrix::{shape_fits, Matrix};
use crate::rng::{random_index, random_indices, MAX_FULL_SAMPLE};

verus! {

/// What vector quantizers have in common.
pub trait Quantizer {
    /// The quantizer is well formed.
    spec fn valid(&self) -> bool;

    /// The number of coordinates of the vectors that are quantized.
    spec fn dim(&self) -> nat;

    /// The number of entries of a code.
    spec fn code_len(&self) -> nat;

    /// The number of centroids that an entry of a code chooses from.
    spec fn n_centroids(&self) -> nat;
}

/// Vector quantization.
pub trait QuantizeVector: Quantizer {
    /// The quantizer can hold what it makes of a vector of `dim`
    /// coordinates on the way to its code.
    spec fn accepts(&self, x: Seq<i32>) -> bool;

    /// The code of a vector of `dim` coordinates that the quantizer accepts.
    spec fn code_of(&self, x: Seq<i32>) -> Seq<usize>;

    /// Quantize a batch of vectors, the rows of `x`.
    ///
    /// Fails with `DimensionMismatch` when `x` does not have `dim` columns,
    /// and otherwise with `NumericalError` when the quantizer does not
    /// accept a row.
    fn quantize_batch(&self, x: &Matrix) -> (result: Result<Vec<Vec<usize>>, PqError>)
        requires
            self.valid(),
            x.wf(),
        ensures
            result == Err::<Vec<Vec<usize>>, PqError>(PqError::DimensionMismatch) <==> x.ncols() != self.dim(),
            result == Err::<Vec<Vec<usize>>, PqError>(PqError::NumericalError) <==> x.ncols() == self.dim()
                && exists|r: int| 0 <= r < x@.len() && !self.accepts(#[trigger] x@[r]),
            result is Err ==> result == Err::<Vec<Vec<usize>>, PqError>(PqError::DimensionMismatch) || result
                == Err::<Vec<Vec<usize>>, PqError>(PqError::NumericalError),
            result matches Ok(codes) ==> {
                &&& codes.len() == x.nrows()
                &&& forall|r: int|
                    0 <= r < codes.len() ==> {
                        &&& (#[trigger] codes[r])@ == self.code_of(x@[r])
                        &&& codes[r].len() == self.code_len()
                        &&& code_in_range(codes[r]@, self.n_centroids())
                    }
            },
    ;

    /// Quantize a vector.
    ///
    /// Fails with `DimensionMismatch` when `x` does not have `dim`
    /// coordinates, and otherwise with `NumericalError` when the quantizer
    /// does not accept `x`.
    fn quantize_vector(&self, x: &Vec<i32>) -> (result: Result<Vec<usize>, PqError>)
        requires
            self.valid(),
        ensures
            result == Err::<Vec<usize>, PqError>(PqError::DimensionMismatch) <==> x.len() != self.dim(),
            result == Err::<Vec<usize>, PqError>(PqError::NumericalError) <==> x.len() == self.dim()
                && !self.accepts(x@),
            result is Err ==> result == Err::<Vec<usize>, PqError>(PqError::DimensionMismatch) || result == Err::<
                Vec<usize>,
                PqError,
            >(PqError::NumericalError),
            result matches Ok(code) ==> {
                &&& code@ == self.code_of(x@)
                &&& code.len() == self.code_len()
                &&& code_in_range(code@, self.n_centroids())
            },
    ;
}

/// Vector reconstruction.
pub trait ReconstructVector: Quantizer {
    /// The quantizer can hold the vector that a code of `code_len` entries
    /// below `n_centroids` stands for.
    spec fn restores(&self, code: Seq<usize>) -> bool;

    /// The vector that a code of `code_len` entries below `n_centroids`
    /// stands for, where the quantizer can hold it.
    spec fn vector_of(&self, code: Seq<usize>) -> Seq<i32>;

    /// Reconstruct a batch of vectors from their codes.
    ///
    /// Fails with `DimensionMismatch` when a code does not have `code_len`
    /// entries, otherwise with `InvalidCode` when an entry of a code is not
    /// below `n_centroids`, and otherwise with `NumericalError` when the
    /// quantizer cannot hold the vector of a code.
    fn reconstruct_batch(&self, quantized: &Vec<Vec<usize>>) -> (result: Result<Vec<Vec<i32>>, PqError>)
        requires
            self.valid(),
        ensures
            result == Err::<Vec<Vec<i32>>, PqError>(PqError::DimensionMismatch) <==> !codes_have_len(
                quantized@,
                self.code_len(),
            ),
            result == Err::<Vec<Vec<i32>>, PqError>(PqError::InvalidCode) <==> codes_have_len(
                quantized@,
                self.code_len(),
            ) && !codes_in_range(quantized@, self.n_centroids()),
            result == Err::<Vec<Vec<i32>>, PqError>(PqError::NumericalError) <==> codes_have_len(
                quantized@,
                self.code_len(),
            ) && codes_in_range(quantized@, self.n_centroids()) && exists|r: int|
                0 <= r < quantized.len() && !self.restores((#[trigger] quantized[r])@),
            result is Err ==> result == Err::<Vec<Vec<i32>>, PqError>(PqError::DimensionMismatch) || result
                == Err::<Vec<Vec<i32>>, PqError>(PqError::InvalidCode) || result == Err::<
                Vec<Vec<i32>>,
                PqError,
            >(PqError::NumericalError),
            result matches Ok(rows) ==> {
                &&& rows.len() == quantized.len()
                &&& forall|r: int|
                    0 <= r < rows.len() ==> {
                        &&& (#[trigger] rows[r])@ == self.vector_of(quantized[r]@)
                        &&& rows[r].len() == self.dim()
                    }
            },
    ;

    /// Reconstruct a vector from its code.
    ///
    /// Fails with `DimensionMismatch` when the code does not have
    /// `code_len` entries, otherwise with `InvalidCode` when an entry is
    /// not below `n_centroids`, and otherwise with `NumericalError` when
    /// the quantizer cannot hold the vector of the code.
    fn reconstruct_vector(&self, quantized: &Vec<usize>) -> (result: Result<Vec<i32>, PqError>)
        requires
            self.valid(),
        ensures
            result == Err::<Vec<i32>, PqError>(PqError::DimensionMismatch) <==> quantized.len() != self.code_len(),
            result == Err::<Vec<i32>, PqError>(PqError::InvalidCode) <==> quantized.len() == self.code_len()
                && !code_in_range(quantized@, self.n_centroids()),
            result == Err::<Vec<i32>, PqError>(PqError::NumericalError) <==> quantized.len() == self.code_len()
                && code_in_range(quantized@, self.n_centroids()) && !self.restores(quantized@),
            result is Err ==> result == Err::<Vec<i32>, PqError>(PqError::DimensionMismatch) || result == Err::<
                Vec<i32>,
                PqError,
            >(PqError::InvalidCode) || result == Err::<Vec<i32>, PqError>(PqError::NumericalError),
            result matches Ok(x) ==> {
                &&& x@ == self.vector_of(quantized@)
                &&& x.len() == self.dim()
            },
    ;
}

/// The rows of each codebook.
pub open spec fn codebooks_view(quantizers: Seq<Matrix>) -> Seq<Seq<Seq<i32>>> {
    Seq::new(quantizers.len(), |m: int| quantizers[m]@)
}

/// There is at least one codebook, and all codebooks have the same number of
/// centroids and of columns, at least one of each.
pub open spec fn codebooks_wf(quantizers: Seq<Matrix>) -> bool {
    &&& quantizers.len() >= 1
    &&& quantizers[0].nrows() >= 1
    &&& quantizers[0].ncols() >= 1
    &&& forall|m: int|
        0 <= m < quantizers.len() ==> {
            &&& (#[trigger] quantizers[m]).wf()
            &&& quantizers[m].nrows() == quantizers[0].nrows()
            &&& quantizers[m].ncols() == quantizers[0].ncols()
        }
}

/// The part of `x` that subquantizer `m` sees, for slices of `slice_dim`
/// coordinates.
pub open spec fn slice_of(x: Seq<i32>, slice_dim: int, m: int) -> Seq<i32> {
    x.subrange(m * slice_dim, m * slice_dim + slice_dim)
}

/// The code of `x`: for each subquantizer the index of the centroid nearest
/// to its slice of `x`, the lowest of several equally near.
pub open spec fn quantized(codebooks: Seq<Seq<Seq<i32>>>, x: Seq<i32>) -> Seq<usize> {
    Seq::new(
        codebooks.len(),
        |m: int| nearest(codebooks[m], slice_of(x, codebooks[0][0].len() as int, m)) as usize,
    )
}

/// The centroids that the first `m` entries of `code` name, one after the other.
pub open spec fn reconstructed_upto(codebooks: Seq<Seq<Seq<i32>>>, code: Seq<usize>, m: nat) -> Seq<i32>
    decreases m,
{
    if m == 0 {
        Seq::empty()
    } else {
        reconstructed_upto(codebooks, code, (m - 1) as nat) + codebooks[m - 1][code[m - 1] as int]
    }
}

/// The vector that `code` stands for: the centroids that its entries name,
/// one after the other in the order of the subquantizers.
pub open spec fn reconstructed(codebooks: Seq<Seq<Seq<i32>>>, code: Seq<usize>) -> Seq<i32> {
    reconstructed_upto(codebooks, code, code.len())
}

/// Every entry of `code` names a centroid of a codebook with `codebook_len`
/// centroids.
pub open spec fn code_in_range(code: Seq<usize>, codebook_len: nat) -> bool {
    forall|m: int| 0 <= m < code.len() ==> (#[trigger] code[m]) < codebook_len
}

/// The start and the end of slice `m` lie inside a vector of
/// `n * slice_dim` coordinates.
pub proof fn lemma_slice_bounds(n: int, slice_dim: int, m: int)
    requires
        0 <= m < n,
        0 <= slice_dim,
    ensures
        0 <= m * slice_dim,
        m * slice_dim + slice_dim <= n * slice_dim,
        (m + 1) * slice_dim == m * slice_dim + slice_dim,
{
    assert(0 <= m * slice_dim) by (nonlinear_arith)
        requires
            0 <= m,
            0 <= slice_dim,
    ;
    assert(m * slice_dim + slice_dim <= n * slice_dim) by (nonlinear_arith)
        requires
            m < n,
            0 <= slice_dim,
    ;
    assert((m + 1) * slice_dim == m * slice_dim + slice_dim) by (nonlinear_arith);
}

/// The reconstruction from the first `m` entries has `m` slices, and slice
/// `j` of it is the centroid that entry `j` names.
pub proof fn lemma_reconstructed_upto(codebooks: Seq<Seq<Seq<i32>>>, code: Seq<usize>, slice_dim: nat, m: nat)
    requires
        m <= code.len(),
        m <= codebooks.len(),
        forall|j: int| 0 <= j < m ==> (#[trigger] code[j]) < codebooks[j].len(),
        forall|j: int, r: int|
            0 <= j < m && 0 <= r < codebooks[j].len() ==> (#[trigger] codebooks[j][r]).len() == slice_dim,
    ensures
        reconstructed_upto(codebooks, code, m).len() == m * slice_dim,
        forall|j: int|
            0 <= j < m ==> #[trigger] slice_of(reconstructed_upto(codebooks, code, m), slice_dim as int, j)
                == codebooks[j][code[j] as int],
    decreases m,
{
    if m == 0 {
        assert(0 * slice_dim == 0);
    } else {
        let shorter = reconstructed_upto(codebooks, code, (m - 1) as nat);
        let longer = reconstructed_upto(codebooks, code, m);
        let centroid = codebooks[m - 1][code[m - 1] as int];
        lemma_reconstructed_upto(codebooks, code, slice_dim, (m - 1) as nat);
        lemma_slice_bounds(m as int, slice_dim as int, m - 1);
        assert(centroid.len() == slice_dim);
        assert forall|j: int| 0 <= j < m implies #[trigger] slice_of(longer, slice_dim as int, j)
            == codebooks[j][code[j] as int] by {
            lemma_slice_bounds(m as int, slice_dim as int, j);
            if j < m - 1 {
                lemma_slice_bounds(m - 1, slice_dim as int, j);
                assert(slice_of(longer, slice_dim as int, j) =~= slice_of(shorter, slice_dim as int, j));
            } else {
                assert(slice_of(longer, slice_dim as int, j) =~= centroid);
            }
        }
    }
}

/// A copy of `len` coordinates of `x`, starting at `start`.
fn copy_range(x: &Vec<i32>, start: usize, len: usize) -> (part: Vec<i32>)
    requires
        start + len <= x.len(),
    ensures
        part@ == x@.subrange(start as int, start + len),
{
    let mut part: Vec<i32> = Vec::new();
    let mut c: usize = 0;
    while c < len
        invariant
            start + len <= x.len(),
            c <= len,
            part@ == x@.subrange(start as int, start + c),
        decreases len - c,
    {
        part.push(x[start + c]);
        c = c + 1;
        assert(part@ =~= x@.subrange(start as int, start + c));
    }
    part
}

/// Quantizes a vector: entry `m` of the result is the index of the centroid
/// of codebook `m` that is nearest to slice `m` of `x`.
///
/// Fails with `DimensionMismatch` when `x` does not have `quantizer_len`
/// coordinates.
pub fn quantize(quantizers: &Vec<Matrix>, quantizer_len: usize, x: &Vec<i32>) -> (result: Result<
    Vec<usize>,
    PqError,
>)
    requires
        codebooks_wf(quantizers@),
        quantizer_len == quantizers.len() * quantizers[0].ncols(),
    ensures
        result is Err <==> x.len() != quantizer_len,
        result is Err ==> result == Err::<Vec<usize>, PqError>(PqError::DimensionMismatch),
        result matches Ok(code) ==> {
            &&& code@ == quantized(codebooks_view(quantizers@), x@)
            &&& code.len() == quantizers.len()
            &&& code_in_range(code@, quantizers[0].nrows() as nat)
            &&& forall|m: int|
                0 <= m < quantizers.len() ==> is_nearest(
                    quantizers[m]@,
                    slice_of(x@, quantizers[0].ncols() as int, m),
                    #[trigger] code[m] as int,
                )
        },
{
    if x.len() != quantizer_len {
        return Err(PqError::DimensionMismatch);
    }
    let n = quantizers.len();
    let slice_dim = quantizers[0].ncols();
    let ghost codebooks = codebooks_view(quantizers@);
    proof {
        quantizers[0].lemma_view_shape();
    }
    let mut code: Vec<usize> = Vec::new();
    let mut offset: usize = 0;
    let mut m: usize = 0;
    while m < n
        invariant
            codebooks_wf(quantizers@),
            n == quantizers.len(),
            slice_dim == quantizers[0].ncols(),
            x.len() == n * slice_dim,
            m <= n,
            offset == m * slice_dim,
            code.len() == m,
            forall|j: int|
                0 <= j < m ==> is_nearest(quantizers[j]@, slice_of(x@, slice_dim as int, j), #[trigger] code[j] as int),
            forall|j: int|
                0 <= j < m ==> #[trigger] code[j] == nearest(quantizers[j]@, slice_of(x@, slice_dim as int, j)),
        decreases n - m,
    {
        proof {
            lemma_slice_bounds(n as int, slice_dim as int, m as int);
        }
        let part = copy_range(x, offset, slice_dim);
        let index = cluster_assignment(&quantizers[m], &part);
        code.push(index);
        offset = offset + slice_dim;
        m = m + 1;
    }
    proof {
        assert(code@ =~= quantized(codebooks, x@));
        assert forall|j: int| 0 <= j < code@.len() implies (#[trigger] code@[j]) < quantizers[0].nrows() by {
            quantizers[j].lemma_view_shape();
        }
    }
    Ok(code)
}

/// Reconstructs a vector from its code: the centroids that the entries of
/// the code name, one after the other.
///
/// Fails with `DimensionMismatch` when the code does not have one entry for
/// each codebook, and otherwise with `InvalidCode` when an entry names no
/// centroid.
pub fn reconstruct(quantizers: &Vec<Matrix>, quantized: &Vec<usize>) -> (result: Result<Vec<i32>, PqError>)
    requires
        codebooks_wf(quantizers@),
    ensures
        result == Err::<Vec<i32>, PqError>(PqError::DimensionMismatch) <==> quantized.len() != quantizers.len(),
        result == Err::<Vec<i32>, PqError>(PqError::InvalidCode) <==> quantized.len() == quantizers.len()
            && !code_in_range(quantized@, quantizers[0].nrows() as nat),
        result is Err ==> result == Err::<Vec<i32>, PqError>(PqError::DimensionMismatch) || result == Err::<
            Vec<i32>,
            PqError,
        >(PqError::InvalidCode),
        result matches Ok(x) ==> {
            &&& x@ == reconstructed(codebooks_view(quantizers@), quantized@)
            &&& x.len() == quantizers.len() * quantizers[0].ncols()
        },
{
    let n = quantizers.len();
    if quantized.len() != n {
        return Err(PqError::DimensionMismatch);
    }
    let codebook_len = quantizers[0].nrows();
    let slice_dim = quantizers[0].ncols();
    let ghost codebooks = codebooks_view(quantizers@);
    let mut x: Vec<i32> = Vec::new();
    let mut m: usize = 0;
    while m < n
        invariant
            codebooks_wf(quantizers@),
            codebooks == codebooks_view(quantizers@),
            n == quantizers.len(),
            n == quantized.len(),
            codebook_len == quantizers[0].nrows(),
            slice_dim == quantizers[0].ncols(),
            m <= n,
            forall|j: int| 0 <= j < m ==> (#[trigger] quantized[j]) < codebook_len,
            x@ == reconstructed_upto(codebooks, quantized@, m as nat),
        decreases n - m,
    {
        let centroid = quantized[m];
        if centroid >= codebook_len {
            return Err(PqError::InvalidCode);
        }
        let ghost before = x@;
        proof {
            quantizers[m as int].lemma_view_shape();
        }
        let mut c: usize = 0;
        while c < slice_dim
            invariant
                quantizers[m as int].wf(),
                m < n,
                n == quantizers.len(),
                centroid < quantizers[m as int].nrows(),
                slice_dim == quantizers[m as int].ncols(),
                quantizers[m as int]@[centroid as int].len() == slice_dim,
                c <= slice_dim,
                x@ == before + quantizers[m as int]@[centroid as int].take(c as int),
            decreases slice_dim - c,
        {
            let v = quantizers[m].get(centroid, c);
            x.push(v);
            c = c + 1;
            assert(x@ =~= before + quantizers[m as int]@[centroid as int].take(c as int));
        }
        proof {
            let row = quantizers[m as int]@[centroid as int];
            assert(row.take(slice_dim as int) =~= row);
            assert(codebooks[m as int] == quantizers[m as int]@);
        }
        m = m + 1;
    }
    proof {
        assert forall|j: int, r: int| 0 <= j < n && 0 <= r < codebooks[j].len() implies (
        #[trigger] codebooks[j][r]).len() == slice_dim by {
            quantizers[j].lemma_view_shape();
        }
        assert forall|j: int| 0 <= j < n implies (#[trigger] quantized[j]) < codebooks[j].len() by {
            quantizers[j].lemma_view_shape();
        }
        lemma_reconstructed_upto(codebooks, quantized@, slice_dim as nat, n as nat);
    }
    Ok(x)
}


/// The codes of the rows of a batch, each quantized on its own.
pub open spec fn quantized_batch(codebooks: Seq<Seq<Seq<i32>>>, rows: Seq<Seq<i32>>) -> Seq<Seq<usize>> {
    Seq::new(rows.len(), |r: int| quantized(codebooks, rows[r]))
}

/// The vectors that the codes of a batch stand for, each reconstructed on
/// its own.
pub open spec fn reconstructed_batch(codebooks: Seq<Seq<Seq<i32>>>, codes: Seq<Seq<usize>>) -> Seq<Seq<i32>> {
    Seq::new(codes.len(), |r: int| reconstructed(codebooks, codes[r]))
}

/// Quantizes the rows of `x`, each as [`quantize`] does.
///
/// Fails with `DimensionMismatch` when `x` does not have `quantizer_len`
/// columns.
pub fn quantize_batch(quantizers: &Vec<Matrix>, quantizer_len: usize, x: &Matrix) -> (result: Result<
    Vec<Vec<usize>>,
    PqError,
>)
    requires
        codebooks_wf(quantizers@),
        quantizer_len == quantizers.len() * quantizers[0].ncols(),
        x.wf(),
    ensures
        result is Err <==> x.ncols() != quantizer_len,
        result is Err ==> result == Err::<Vec<Vec<usize>>, PqError>(PqError::DimensionMismatch),
        result matches Ok(codes) ==> {
            &&& codes.deep_view() == quantized_batch(codebooks_view(quantizers@), x@)
            &&& codes.len() == x.nrows()
            &&& forall|r: int|
                0 <= r < codes.len() ==> (#[trigger] codes[r]).len() == quantizers.len() && code_in_range(
                    codes[r]@,
                    quantizers[0].nrows() as nat,
                )
        },
{
    if x.ncols() != quantizer_len {
        return Err(PqError::DimensionMismatch);
    }
    let n = x.nrows();
    let mut codes: Vec<Vec<usize>> = Vec::new();
    let mut r: usize = 0;
    proof {
        x.lemma_view_shape();
    }
    while r < n
        invariant
            codebooks_wf(quantizers@),
            quantizer_len == quantizers.len() * quantizers[0].ncols(),
            x.wf(),
            x.ncols() == quantizer_len,
            n == x.nrows(),
            n == x@.len(),
            r <= n,
            codes.len() == r,
            forall|i: int|
                0 <= i < r ==> (#[trigger] codes[i])@ == quantized(codebooks_view(quantizers@), x@[i]),
            forall|i: int|
                0 <= i < r ==> (#[trigger] codes[i]).len() == quantizers.len() && code_in_range(
                    codes[i]@,
                    quantizers[0].nrows() as nat,
                ),
        decreases n - r,
    {
        let row = x.row(r);
        proof {
            x.lemma_view_shape();
        }
        match quantize(quantizers, quantizer_len, &row) {
            Ok(code) => {
                codes.push(code);
            },
            Err(_) => {
                assert(false);
            },
        }
        r = r + 1;
    }
    proof {
        assert(codes.deep_view() =~~= quantized_batch(codebooks_view(quantizers@), x@));
    }
    Ok(codes)
}

/// Every code of the batch has `n` entries.
pub open spec fn codes_have_len(codes: Seq<Vec<usize>>, n: nat) -> bool {
    forall|r: int| 0 <= r < codes.len() ==> (#[trigger] codes[r]).len() == n
}

/// Every entry of every code of the batch names a centroid.
pub open spec fn codes_in_range(codes: Seq<Vec<usize>>, codebook_len: nat) -> bool {
    forall|r: int| 0 <= r < codes.len() ==> code_in_range((#[trigger] codes[r])@, codebook_len)
}

/// Reconstructs the vectors of a batch of codes, each as [`reconstruct`]
/// does.
///
/// Fails with `DimensionMismatch` when a code does not have one entry for
/// each codebook, and otherwise with `InvalidCode` when an entry of a code
/// names no centroid.
pub fn reconstruct_batch(quantizers: &Vec<Matrix>, quantized: &Vec<Vec<usize>>) -> (result: Result<
    Vec<Vec<i32>>,
    PqError,
>)
    requires
        codebooks_wf(quantizers@),
    ensures
        result == Err::<Vec<Vec<i32>>, PqError>(PqError::DimensionMismatch) <==> !codes_have_len(
            quantized@,
            quantizers.len() as nat,
        ),
        result == Err::<Vec<Vec<i32>>, PqError>(PqError::InvalidCode) <==> codes_have_len(
            quantized@,
            quantizers.len() as nat,
        ) && !codes_in_range(quantized@, quantizers[0].nrows() as nat),
        result is Err ==> result == Err::<Vec<Vec<i32>>, PqError>(PqError::DimensionMismatch) || result == Err::<
            Vec<Vec<i32>>,
            PqError,
        >(PqError::InvalidCode),
        result matches Ok(rows) ==> {
            &&& rows.deep_view() == reconstructed_batch(codebooks_view(quantizers@), quantized.deep_view())
            &&& rows.len() == quantized.len()
            &&& forall|r: int|
                0 <= r < rows.len() ==> (#[trigger] rows[r]).len() == quantizers.len() * quantizers[0].ncols()
        },
{
    let n = quantized.len();
    let n_quantizers = quantizers.len();
    let mut r: usize = 0;
    while r < n
        invariant
            n == quantized.len(),
            n_quantizers == quantizers.len(),
            r <= n,
            forall|i: int| 0 <= i < r ==> (#[trigger] quantized[i]).len() == n_quantizers,
        decreases n - r,
    {
        if quantized[r].len() != n_quantizers {
            return Err(PqError::DimensionMismatch);
        }
        r = r + 1;
    }
    let mut rows: Vec<Vec<i32>> = Vec::new();
    let mut r: usize = 0;
    while r < n
        invariant
            codebooks_wf(quantizers@),
            n == quantized.len(),
            n_quantizers == quantizers.len(),
            codes_have_len(quantized@, n_quantizers as nat),
            r <= n,
            rows.len() == r,
            forall|i: int| 0 <= i < r ==> code_in_range((#[trigger] quantized[i])@, quantizers[0].nrows() as nat),
            forall|i: int|
                0 <= i < r ==> (#[trigger] rows[i])@ == reconstructed(codebooks_view(quantizers@), quantized[i]@),
            forall|i: int|
                0 <= i < r ==> (#[trigger] rows[i]).len() == quantizers.len() * quantizers[0].ncols(),
        decreases n - r,
    {
        match reconstruct(quantizers, &quantized[r]) {
            Ok(row) => {
                rows.push(row);
            },
            Err(error) => {
                return Err(PqError::InvalidCode);
            },
        }
        r = r + 1;
    }
    proof {
        let expected = reconstructed_batch(codebooks_view(quantizers@), quantized.deep_view());
        assert forall|i: int| 0 <= i < n implies #[trigger] rows.deep_view()[i] == expected[i] by {
            assert(quantized.deep_view()[i] =~= quantized[i]@);
            assert(rows.deep_view()[i] =~= rows[i]@);
        }
        assert(rows.deep_view() =~= expected);
    }
    Ok(rows)
}

/// Every codebook has `codebook_len` centroids of `slice_dim` coordinates.
pub open spec fn codebooks_shaped(codebooks: Seq<Seq<Seq<i32>>>, codebook_len: nat, slice_dim: nat) -> bool {
    &&& codebooks.len() >= 1
    &&& codebook_len >= 1
    &&& forall|m: int| 0 <= m < codebooks.len() ==> (#[trigger] codebooks[m]).len() == codebook_len
    &&& forall|m: int, r: int|
        0 <= m < codebooks.len() && 0 <= r < codebook_len ==> (#[trigger] codebooks[m][r]).len() == slice_dim
}

/// No centroid in front of the one that `code` names for a subquantizer is
/// a copy of it.
pub open spec fn names_first_copies(codebooks: Seq<Seq<Seq<i32>>>, code: Seq<usize>) -> bool {
    forall|m: int, r: int|
        0 <= m < code.len() && 0 <= r < code[m] ==> #[trigger] codebooks[m][r] != codebooks[m][code[m] as int]
}

/// Quantizing the reconstruction of a code gives the code back, as long as
/// each entry names the first of the centroids that are equal to the one
/// it names: a centroid is at distance zero from itself and from nothing
/// else.
pub proof fn lemma_requantization(
    codebooks: Seq<Seq<Seq<i32>>>,
    codebook_len: nat,
    slice_dim: nat,
    code: Seq<usize>,
)
    requires
        codebooks_shaped(codebooks, codebook_len, slice_dim),
        code.len() == codebooks.len(),
        code_in_range(code, codebook_len),
        names_first_copies(codebooks, code),
    ensures
        quantized(codebooks, reconstructed(codebooks, code)) == code,
{
    let x = reconstructed(codebooks, code);
    lemma_reconstructed_upto(codebooks, code, slice_dim, code.len());
    assert forall|m: int| 0 <= m < codebooks.len() implies #[trigger] quantized(codebooks, x)[m] == code[m] by {
        let centroid = codebooks[m][code[m] as int];
        assert(slice_of(x, slice_dim as int, m) == centroid);
        assert(codebooks[0][0].len() == slice_dim);
        lemma_distance_zero(centroid, centroid);
        assert forall|i: int| 0 <= i < codebooks[m].len() implies squared_distance(centroid, centroid)
            <= squared_distance(#[trigger] codebooks[m][i], centroid) by {
            lemma_squared_distance_bounds(codebooks[m][i], centroid, slice_dim);
        }
        assert forall|i: int| 0 <= i < code[m] implies squared_distance(centroid, centroid) < squared_distance(
            #[trigger] codebooks[m][i],
            centroid,
        ) by {
            lemma_squared_distance_bounds(codebooks[m][i], centroid, slice_dim);
            lemma_distance_zero(codebooks[m][i], centroid);
        }
        assert(is_nearest(codebooks[m], centroid, code[m] as int));
        lemma_nearest(codebooks[m], centroid, code[m] as int);
    }
    assert(quantized(codebooks, x) =~= code);
}

/// The sum, over the first `m` slices, of the squared distances between
/// the slices of `a` and of `b`.
pub open spec fn sliced_distance_upto(a: Seq<i32>, b: Seq<i32>, slice_dim: int, m: nat) -> int
    decreases m,
{
    if m == 0 {
        0
    } else {
        sliced_distance_upto(a, b, slice_dim, (m - 1) as nat) + squared_distance(
            slice_of(a, slice_dim, m - 1),
            slice_of(b, slice_dim, m - 1),
        )
    }
}

proof fn lemma_distance_of_appended(a: Seq<i32>, b: Seq<i32>, start: int, n: nat)
    requires
        0 <= start,
        start + n <= a.len(),
        start + n <= b.len(),
    ensures
        squared_distance_upto(a, b, (start + n) as nat) == squared_distance_upto(a, b, start as nat)
            + squared_distance_upto(a.subrange(start, start + n), b.subrange(start, start + n), n),
    decreases n,
{
    if n > 0 {
        lemma_distance_of_appended(a, b, start, (n - 1) as nat);
        lemma_distance_of_prefix(
            a.subrange(start, start + n),
            a.subrange(start, start + n - 1),
            b.subrange(start, start + n),
            b.subrange(start, start + n - 1),
            (n - 1) as nat,
        );
    }
}

proof fn lemma_distance_of_prefix(a1: Seq<i32>, a2: Seq<i32>, b1: Seq<i32>, b2: Seq<i32>, n: nat)
    requires
        n <= a1.len(),
        n <= a2.len(),
        n <= b1.len(),
        n <= b2.len(),
        forall|i: int| 0 <= i < n ==> a1[i] == a2[i] && b1[i] == b2[i],
    ensures
        squared_distance_upto(a1, b1, n) == squared_distance_upto(a2, b2, n),
    decreases n,
{
    if n > 0 {
        lemma_distance_of_prefix(a1, a2, b1, b2, (n - 1) as nat);
    }
}

/// The squared distance of two vectors is the sum of the squared distances
/// of their slices.
pub proof fn lemma_distance_by_slices(a: Seq<i32>, b: Seq<i32>, slice_dim: nat, m: nat)
    requires
        m * slice_dim <= a.len(),
        m * slice_dim <= b.len(),
    ensures
        squared_distance_upto(a, b, m * slice_dim) == sliced_distance_upto(a, b, slice_dim as int, m),
    decreases m,
{
    if m == 0 {
        assert(0 * slice_dim == 0);
    } else {
        lemma_slice_bounds(m as int, slice_dim as int, m - 1);
        assert((m - 1) * slice_dim + slice_dim == m * slice_dim) by (nonlinear_arith);
        lemma_distance_by_slices(a, b, slice_dim, (m - 1) as nat);
        lemma_distance_of_appended(a, b, (m - 1) * slice_dim, slice_dim);
    }
}

/// No code stands for a vector that is nearer to `x` than the vector that
/// the code of `x` stands for.
pub proof fn lemma_quantization_is_nearest(
    codebooks: Seq<Seq<Seq<i32>>>,
    codebook_len: nat,
    slice_dim: nat,
    x: Seq<i32>,
    code: Seq<usize>,
)
    requires
        codebooks_shaped(codebooks, codebook_len, slice_dim),
        codebook_len <= usize::MAX,
        x.len() == codebooks.len() * slice_dim,
        code.len() == codebooks.len(),
        code_in_range(code, codebook_len),
    ensures
        squared_distance(reconstructed(codebooks, quantized(codebooks, x)), x) <= squared_distance(
            reconstructed(codebooks, code),
            x,
        ),
{
    let n = codebooks.len();
    let best = quantized(codebooks, x);
    assert(codebooks[0][0].len() == slice_dim);
    assert forall|m: int| 0 <= m < n implies (#[trigger] best[m]) < codebook_len by {
        lemma_nearest(codebooks[m], slice_of(x, slice_dim as int, m), 0);
    }
    lemma_reconstructed_upto(codebooks, best, slice_dim, n);
    lemma_reconstructed_upto(codebooks, code, slice_dim, n);
    let nearest_x = reconstructed(codebooks, best);
    let other_x = reconstructed(codebooks, code);
    lemma_distance_by_slices(nearest_x, x, slice_dim, n);
    lemma_distance_by_slices(other_x, x, slice_dim, n);
    lemma_sliced_distance_ordered(codebooks, codebook_len, slice_dim, x, code, n);
}

proof fn lemma_sliced_distance_ordered(
    codebooks: Seq<Seq<Seq<i32>>>,
    codebook_len: nat,
    slice_dim: nat,
    x: Seq<i32>,
    code: Seq<usize>,
    m: nat,
)
    requires
        codebooks_shaped(codebooks, codebook_len, slice_dim),
        codebook_len <= usize::MAX,
        code.len() == codebooks.len(),
        code_in_range(code, codebook_len),
        m <= codebooks.len(),
        forall|j: int|
            0 <= j < codebooks.len() ==> #[trigger] slice_of(
                reconstructed(codebooks, quantized(codebooks, x)),
                slice_dim as int,
                j,
            ) == codebooks[j][quantized(codebooks, x)[j] as int],
        forall|j: int|
            0 <= j < codebooks.len() ==> #[trigger] slice_of(reconstructed(codebooks, code), slice_dim as int, j)
                == codebooks[j][code[j] as int],
    ensures
        sliced_distance_upto(reconstructed(codebooks, quantized(codebooks, x)), x, slice_dim as int, m)
            <= sliced_distance_upto(reconstructed(codebooks, code), x, slice_dim as int, m),
    decreases m,
{
    if m > 0 {
        lemma_sliced_distance_ordered(codebooks, codebook_len, slice_dim, x, code, (m - 1) as nat);
        let part = slice_of(x, slice_dim as int, m - 1);
        assert(codebooks[0][0].len() == slice_dim);
        lemma_nearest(codebooks[m - 1], part, 0);
        let best = quantized(codebooks, x)[m - 1] as int;
        assert(best == nearest(codebooks[m - 1], part));
        assert(slice_of(reconstructed(codebooks, quantized(codebooks, x)), slice_dim as int, m - 1)
            == codebooks[m - 1][best]);
        assert(slice_of(reconstructed(codebooks, code), slice_dim as int, m - 1) == codebooks[m - 1][code[m
            - 1] as int]);
        assert(squared_distance(codebooks[m - 1][best], part) <= squared_distance(
            codebooks[m - 1][code[m - 1] as int],
            part,
        ));
    }
}

/// Quantizing a batch gives, row for row, what quantizing each row alone
/// gives, and so does reconstructing a batch.
pub proof fn lemma_batches_agree_with_single_calls(
    codebooks: Seq<Seq<Seq<i32>>>,
    rows: Seq<Seq<i32>>,
    codes: Seq<Seq<usize>>,
)
    ensures
        quantized_batch(codebooks, rows).len() == rows.len(),
        forall|r: int|
            0 <= r < rows.len() ==> #[trigger] quantized_batch(codebooks, rows)[r] == quantized(codebooks, rows[r]),
        reconstructed_batch(codebooks, codes).len() == codes.len(),
        forall|r: int|
            0 <= r < codes.len() ==> #[trigger] reconstructed_batch(codebooks, codes)[r] == reconstructed(
                codebooks,
                codes[r],
            ),
{
}


/// The sizes fit together: between one subquantizer and one per dimension,
/// their number divides the dimensionality, and there is at least one bit,
/// one iteration and one attempt.
pub open spec fn valid_configuration(
    n_subquantizers: nat,
    n_subquantizer_bits: nat,
    n_iterations: nat,
    n_attempts: nat,
    n_dims: nat,
) -> bool {
    &&& 1 <= n_subquantizers <= n_dims
    &&& n_dims % n_subquantizers == 0
    &&& n_subquantizer_bits >= 1
    &&& n_iterations >= 1
    &&& n_attempts >= 1
}

/// A codebook of `2^n_subquantizer_bits` centroids of `slice_dim`
/// coordinates is a matrix that can be built.
pub open spec fn codebook_fits(n_subquantizer_bits: nat, slice_dim: nat) -> bool {
    shape_fits(pow2(n_subquantizer_bits), slice_dim)
}

/// Two to the power of `bits`, or `None` when that does not fit in `usize`.
pub fn checked_pow2(bits: u32) -> (power: Option<usize>)
    ensures
        power is Some <==> pow2(bits as nat) <= usize::MAX,
        power matches Some(v) ==> v == pow2(bits as nat),
{
    let mut power: usize = 1;
    let mut i: u32 = 0;
    proof {
        lemma2_to64();
    }
    while i < bits
        invariant
            i <= bits,
            power == pow2(i as nat),
        decreases bits - i,
    {
        proof {
            lemma_pow2_unfold((i + 1) as nat);
            if i + 1 < bits {
                lemma_pow2_strictly_increases((i + 1) as nat, bits as nat);
            }
        }
        match power.checked_mul(2) {
            None => {
                return None;
            },
            Some(doubled) => {
                power = doubled;
            },
        }
        i = i + 1;
    }
    Some(power)
}

/// The part of the rows of `instances` that subquantizer `m` sees.
pub open spec fn instance_slices(instances: Seq<Seq<i32>>, slice_dim: int, m: int) -> Seq<Seq<i32>> {
    Seq::new(instances.len(), |i: int| slice_of(instances[i], slice_dim, m))
}

/// The loss that clustering ends with when it starts from `candidate`.
pub open spec fn attempt_loss(points: Seq<Seq<i32>>, candidate: Seq<Seq<i32>>, n_iterations: nat) -> int {
    distortion(points, clustered(points, candidate, n_iterations), points.len())
}

/// The best of the first `n` attempts: the one with the lowest loss, and the
/// first of several with the same loss.
pub open spec fn best_attempt_among(
    points: Seq<Seq<i32>>,
    candidates: Seq<Seq<Seq<i32>>>,
    n_iterations: nat,
    n: nat,
) -> int
    decreases n,
{
    if n <= 1 {
        0
    } else {
        let p = best_attempt_among(points, candidates, n_iterations, (n - 1) as nat);
        if attempt_loss(points, candidates[n - 1], n_iterations) < attempt_loss(points, candidates[p], n_iterations) {
            n - 1
        } else {
            p
        }
    }
}

/// The codebook of a subquantizer: each candidate is the start of one
/// attempt, every attempt clusters the points for `n_iterations` rounds, and
/// the result of the attempt with the lowest loss is kept, of several such
/// the first.
pub open spec fn trained_codebook(
    points: Seq<Seq<i32>>,
    candidates: Seq<Seq<Seq<i32>>>,
    n_iterations: nat,
) -> Seq<Seq<i32>> {
    clustered(
        points,
        candidates[best_attempt_among(points, candidates, n_iterations, candidates.len())],
        n_iterations,
    )
}

/// The best attempt has the strictly lowest loss of all attempts before it
/// and no attempt after it has a lower one.
pub proof fn lemma_best_attempt(points: Seq<Seq<i32>>, candidates: Seq<Seq<Seq<i32>>>, n_iterations: nat, n: nat)
    requires
        1 <= n <= candidates.len(),
    ensures
        ({
            let best = best_attempt_among(points, candidates, n_iterations, n);
            &&& 0 <= best < n
            &&& forall|a: int|
                0 <= a < n ==> attempt_loss(points, candidates[best], n_iterations) <= attempt_loss(
                    points,
                    #[trigger] candidates[a],
                    n_iterations,
                )
            &&& forall|a: int|
                0 <= a < best ==> attempt_loss(points, candidates[best], n_iterations) < attempt_loss(
                    points,
                    #[trigger] candidates[a],
                    n_iterations,
                )
        }),
    decreases n,
{
    if n > 1 {
        lemma_best_attempt(points, candidates, n_iterations, (n - 1) as nat);
    }
}

/// The views of the candidates.
pub open spec fn candidates_view(candidates: Seq<Matrix>) -> Seq<Seq<Seq<i32>>> {
    Seq::new(candidates.len(), |a: int| candidates[a]@)
}

/// Row `r` of `candidate` is point `picks[r]`, for every row; and no point
/// is picked twice as long as there are as many points as rows.
pub open spec fn picked(candidate: Seq<Seq<i32>>, points: Seq<Seq<i32>>, picks: Seq<int>) -> bool {
    &&& picks.len() == candidate.len()
    &&& forall|r: int|
        0 <= r < candidate.len() ==> 0 <= #[trigger] picks[r] < points.len() && candidate[r] == points[picks[r]]
    &&& candidate.len() <= points.len() ==> forall|a: int, b: int|
        0 <= a < b < candidate.len() ==> #[trigger] picks[a] != #[trigger] picks[b]
}

/// Every cell of `candidate` is zero.
pub open spec fn all_zero(candidate: Seq<Seq<i32>>) -> bool {
    forall|r: int, c: int| 0 <= r < candidate.len() && 0 <= c < candidate[r].len() ==> #[trigger] candidate[r][c] == 0
}

/// `candidate` has `codebook_len` centroids, each of them one of `points`,
/// and no two of them the same point as long as there are enough points.
/// When there is no point, every centroid is zero.
pub open spec fn drawn_from(candidate: Seq<Seq<i32>>, points: Seq<Seq<i32>>, codebook_len: nat) -> bool {
    &&& candidate.len() == codebook_len
    &&& if points.len() > 0 {
        exists|picks: Seq<int>| picked(candidate, points, picks)
    } else {
        all_zero(candidate)
    }
}

/// `codebook` is what training gives for some `n_attempts` candidates drawn
/// from `points`.
pub open spec fn trained_from_draws(
    codebook: Seq<Seq<i32>>,
    points: Seq<Seq<i32>>,
    codebook_len: nat,
    n_iterations: nat,
    n_attempts: nat,
) -> bool {
    exists|candidates: Seq<Seq<Seq<i32>>>|
        {
            &&& candidates.len() == n_attempts
            &&& forall|a: int| 0 <= a < n_attempts ==> drawn_from(#[trigger] candidates[a], points, codebook_len)
            &&& codebook == trained_codebook(points, candidates, n_iterations)
        }
}

/// `quantizers` holds, for each subquantizer, `codebook_len` first
/// centroids of `sq_dims` coordinates that were drawn from its slice of the
/// instances.
pub open spec fn first_centroids(
    quantizers: Seq<Matrix>,
    instances: Seq<Seq<i32>>,
    n_subquantizers: nat,
    codebook_len: nat,
    sq_dims: nat,
) -> bool {
    &&& quantizers.len() == n_subquantizers
    &&& forall|m: int|
        0 <= m < n_subquantizers ==> {
            &&& (#[trigger] quantizers[m]).wf()
            &&& quantizers[m].nrows() == codebook_len
            &&& quantizers[m].ncols() == sq_dims
            &&& drawn_from(quantizers[m]@, instance_slices(instances, sq_dims as int, m), codebook_len)
        }
}

/// Draws the first centroids of every subquantizer: `codebook_len` rows of
/// `instances`, cut to the slice of the subquantizer. No row is drawn twice
/// for one subquantizer unless there are fewer rows than centroids. Where
/// there are more rows than can be sampled from, the first rows are taken
/// in their order. Without instances the centroids are zero.
pub fn initial_centroids(
    n_subquantizers: usize,
    codebook_len: usize,
    instances: &Matrix,
    rng: &mut XorShiftRng,
) -> (quantizers: Vec<Matrix>)
    requires
        instances.wf(),
        n_subquantizers >= 1,
        instances.ncols() % n_subquantizers == 0,
        shape_fits(codebook_len as nat, (instances.ncols() / n_subquantizers) as nat),
    ensures
        first_centroids(
            quantizers@,
            instances@,
            n_subquantizers as nat,
            codebook_len as nat,
            (instances.ncols() / n_subquantizers) as nat,
        ),
{
    let n = instances.nrows();
    let sq_dims = instances.ncols() / n_subquantizers;
    proof {
        assert(instances.ncols() == n_subquantizers * sq_dims) by (nonlinear_arith)
            requires
                n_subquantizers > 0,
                instances.ncols() % n_subquantizers == 0,
                sq_dims == instances.ncols() / n_subquantizers,
        ;
        instances.lemma_view_shape();
    }
    let mut quantizers: Vec<Matrix> = Vec::new();
    let mut sq: usize = 0;
    while sq < n_subquantizers
        invariant
            instances.wf(),
            n == instances.nrows(),
            n == instances@.len(),
            instances.ncols() == n_subquantizers * sq_dims,
            sq_dims == instances.ncols() / n_subquantizers,
            shape_fits(codebook_len as nat, sq_dims as nat),
            sq <= n_subquantizers,
            quantizers.len() == sq,
            forall|m: int|
                0 <= m < sq ==> {
                    &&& (#[trigger] quantizers[m]).wf()
                    &&& quantizers[m].nrows() == codebook_len
                    &&& quantizers[m].ncols() == sq_dims
                    &&& drawn_from(quantizers[m]@, instance_slices(instances@, sq_dims as int, m), codebook_len as nat)
                },
        decreases n_subquantizers - sq,
    {
        proof {
            lemma_slice_bounds(n_subquantizers as int, sq_dims as int, sq as int);
        }
        let offset = sq * sq_dims;
        let ghost points = instance_slices(instances@, sq_dims as int, sq as int);
        let mut centroids = Matrix::zeros(codebook_len, sq_dims).unwrap();
        proof {
            centroids.lemma_view_shape();
        }
        if n > 0 {
            // As long as there are enough instances, no instance is drawn
            // twice for one subquantizer. Where there are more instances
            // than can be sampled from, the first ones are taken in their
            // order.
            let sampled = n <= usize::MAX / 64 && (codebook_len < n || (codebook_len == n && n
                <= MAX_FULL_SAMPLE));
            let in_order = codebook_len <= n && !sampled;
            let indices = if sampled {
                random_indices(rng, n, codebook_len)
            } else {
                Vec::new()
            };
            let ghost mut picks: Seq<int> = Seq::empty();
            let mut r: usize = 0;
            while r < codebook_len
                invariant
                    instances.wf(),
                    n == instances.nrows(),
                    n == instances@.len(),
                    n > 0,
                    offset == sq * sq_dims,
                    offset + sq_dims <= instances.ncols(),
                    points == instance_slices(instances@, sq_dims as int, sq as int),
                    centroids.wf(),
                    centroids.nrows() == codebook_len,
                    centroids.ncols() == sq_dims,
                    centroids@.len() == codebook_len,
                    codebook_len <= n ==> sampled || in_order,
                    in_order ==> codebook_len <= n && !sampled,
                    sampled ==> indices.len() == codebook_len,
                    forall|k: int| 0 <= k < indices.len() ==> (#[trigger] indices[k]) < n,
                    forall|a: int, b: int|
                        0 <= a < b < indices.len() ==> #[trigger] indices[a] != #[trigger] indices[b],
                    r <= codebook_len,
                    picks.len() == r,
                    forall|j: int|
                        0 <= j < r ==> 0 <= #[trigger] picks[j] < n && centroids@[j] == points[picks[j]],
                    sampled ==> forall|j: int| 0 <= j < r ==> #[trigger] picks[j] == indices[j],
                    in_order ==> forall|j: int| 0 <= j < r ==> #[trigger] picks[j] == j,
                decreases codebook_len - r,
            {
                let i = if sampled {
                    indices[r]
                } else if in_order {
                    r
                } else {
                    random_index(rng, n)
                };
                let cells = instances.row_slice(i, offset, sq_dims);
                proof {
                    instances.lemma_view_shape();
                }
                let ghost before = centroids@;
                let ghost picks_before = picks;
                centroids.set_row(r, &cells);
                proof {
                    picks = picks.push(i as int);
                    assert(points[i as int] == cells@);
                    assert forall|j: int| 0 <= j < r + 1 implies 0 <= #[trigger] picks[j] < n && centroids@[j]
                        == points[picks[j]] by {
                        if j < r {
                            assert(picks[j] == picks_before[j]);
                            assert(centroids@[j] == before[j]);
                        }
                    }
                    if sampled {
                        assert forall|j: int| 0 <= j < r + 1 implies #[trigger] picks[j] == indices[j] by {
                            if j < r {
                                assert(picks[j] == picks_before[j]);
                            }
                        }
                    }
                    if in_order {
                        assert forall|j: int| 0 <= j < r + 1 implies #[trigger] picks[j] == j by {
                            if j < r {
                                assert(picks[j] == picks_before[j]);
                            }
                        }
                    }
                }
                r = r + 1;
            }
            proof {
                assert(picked(centroids@, points, picks));
            }
        } else {
            proof {
                assert(all_zero(centroids@));
            }
        }
        quantizers.push(centroids);
        sq = sq + 1;
    }
    quantizers
}

/// Product quantizer.
///
/// A product quantizer slices a vector and assigns to slice `m` the index of
/// the nearest centroid of subquantizer `m`. A vector is reconstructed by
/// putting the centroids that its code names one after the other.
#[derive(Debug)]
pub struct PQ {
    quantizer_len: usize,
    quantizers: Vec<Matrix>,
}

impl PQ {
    /// The codebooks have a common shape, and the vectors are as long as
    /// the slices of all subquantizers together.
    pub closed spec fn wf(&self) -> bool {
        &&& codebooks_wf(self.quantizers@)
        &&& self.quantizer_len == self.quantizers.len() * self.quantizers[0].ncols()
    }

    /// The codebooks, one per subquantizer: each a sequence of centroids.
    pub closed spec fn codebooks(&self) -> Seq<Seq<Seq<i32>>> {
        codebooks_view(self.quantizers@)
    }

    /// The number of subquantizers.
    pub closed spec fn n_subquantizers(&self) -> nat {
        self.quantizers.len() as nat
    }

    /// The number of centroids of each subquantizer.
    pub closed spec fn codebook_len(&self) -> nat {
        self.quantizers[0].nrows() as nat
    }

    /// The number of coordinates that each subquantizer sees.
    pub closed spec fn slice_dim(&self) -> nat {
        self.quantizers[0].ncols() as nat
    }

    /// The number of coordinates of the vectors that are quantized.
    pub closed spec fn vector_dim(&self) -> nat {
        self.quantizer_len as nat
    }

    /// The shape of the codebooks of a well-formed quantizer.
    pub proof fn lemma_shape(&self)
        requires
            self.wf(),
        ensures
            codebooks_shaped(self.codebooks(), self.codebook_len(), self.slice_dim()),
            self.codebooks().len() == self.n_subquantizers(),
            self.vector_dim() == self.n_subquantizers() * self.slice_dim(),
            self.n_subquantizers() >= 1,
            self.slice_dim() >= 1,
    {
        assert forall|m: int| 0 <= m < self.codebooks().len() implies (#[trigger] self.codebooks()[m]).len()
            == self.codebook_len() by {
            self.quantizers[m].lemma_view_shape();
        }
        assert forall|m: int, r: int|
            0 <= m < self.codebooks().len() && 0 <= r < self.codebook_len() implies (
        #[trigger] self.codebooks()[m][r]).len() == self.slice_dim() by {
            self.quantizers[m].lemma_view_shape();
        }
    }

    /// Checks that the sizes of a training request fit together.
    ///
    /// Fails with `InvalidConfiguration` when they do not.
    pub fn check_quantizer_invariants(
        n_subquantizers: usize,
        n_subquantizer_bits: u32,
        n_iterations: usize,
        n_attempts: usize,
        instances: &Matrix,
    ) -> (result: Result<(), PqError>)
        ensures
            result is Ok <==> valid_configuration(
                n_subquantizers as nat,
                n_subquantizer_bits as nat,
                n_iterations as nat,
                n_attempts as nat,
                instances.ncols() as nat,
            ),
            result is Err ==> result == Err::<(), PqError>(PqError::InvalidConfiguration),
    {
        if n_subquantizers == 0 || n_subquantizers > instances.ncols() {
            return Err(PqError::InvalidConfiguration);
        }
        if n_subquantizer_bits == 0 {
            return Err(PqError::InvalidConfiguration);
        }
        if instances.ncols() % n_subquantizers != 0 {
            return Err(PqError::InvalidConfiguration);
        }
        if n_iterations == 0 {
            return Err(PqError::InvalidConfiguration);
        }
        if n_attempts == 0 {
            return Err(PqError::InvalidConfiguration);
        }
        Ok(())
    }

    /// The number of centroids of a codebook of `n_subquantizer_bits` bits,
    /// or `None` when a codebook of that many centroids of `sq_dims`
    /// coordinates does not fit.
    pub fn codebook_len_for(n_subquantizer_bits: u32, sq_dims: usize) -> (len: Option<usize>)
        ensures
            len is Some <==> codebook_fits(n_subquantizer_bits as nat, sq_dims as nat),
            len matches Some(k) ==> k == pow2(n_subquantizer_bits as nat),
    {
        match checked_pow2(n_subquantizer_bits) {
            None => None,
            Some(codebook_len) => {
                if Matrix::fits(codebook_len, sq_dims) {
                    Some(codebook_len)
                } else {
                    None
                }
            },
        }
    }

    /// Trains one subquantizer.
    ///
    /// `idx` is the index of the subquantizer, and each of `candidates` holds
    /// the first centroids of one attempt. Every attempt clusters slice `idx` of
    /// the instances for `n_iterations` rounds. The centroids of the attempt
    /// with the lowest loss are returned, of several such those of the first.
    pub fn train_subquantizer(idx: usize, candidates: &Vec<Matrix>, n_iterations: usize, instances: &Matrix) -> (quantizer:
        Matrix)
        requires
            instances.wf(),
            candidates.len() >= 1,
            candidates[0].nrows() >= 1,
            forall|a: int|
                0 <= a < candidates.len() ==> {
                    &&& (#[trigger] candidates[a]).wf()
                    &&& candidates[a].nrows() == candidates[0].nrows()
                    &&& candidates[a].ncols() == candidates[0].ncols()
                },
            (idx + 1) * candidates[0].ncols() <= instances.ncols(),
        ensures
            quantizer.wf(),
            quantizer.nrows() == candidates[0].nrows(),
            quantizer.ncols() == candidates[0].ncols(),
            quantizer@ == trained_codebook(
                instance_slices(instances@, candidates[0].ncols() as int, idx as int),
                candidates_view(candidates@),
                n_iterations as nat,
            ),
    {
        let sq_dims = candidates[0].ncols();
        proof {
            lemma_slice_bounds(idx + 1, sq_dims as int, idx as int);
        }
        let offset = idx * sq_dims;
        let sq_instances = instances.columns(offset, sq_dims);
        let ghost points = instance_slices(instances@, sq_dims as int, idx as int);
        let ghost starts = candidates_view(candidates@);
        proof {
            sq_instances.lemma_view_shape();
            instances.lemma_view_shape();
            assert(sq_instances@ =~= points);
        }
        let mut best = candidates[0].clone();
        let mut best_loss = kmeans_with_centroids(&sq_instances, &mut best, n_iterations);
        let mut attempt: usize = 1;
        while attempt < candidates.len()
            invariant
                sq_instances.wf(),
                sq_instances@ == points,
                sq_instances.ncols() == sq_dims,
                sq_dims == candidates[0].ncols(),
                candidates[0].nrows() >= 1,
                forall|a: int|
                    0 <= a < candidates.len() ==> {
                        &&& (#[trigger] candidates[a]).wf()
                        &&& candidates[a].nrows() == candidates[0].nrows()
                        &&& candidates[a].ncols() == candidates[0].ncols()
                    },
                starts == candidates_view(candidates@),
                1 <= attempt <= candidates.len(),
                best.wf(),
                best.nrows() == candidates[0].nrows(),
                best.ncols() == sq_dims,
                best@ == clustered(
                    points,
                    starts[best_attempt_among(points, starts, n_iterations as nat, attempt as nat)],
                    n_iterations as nat,
                ),
                best_loss == attempt_loss(
                    points,
                    starts[best_attempt_among(points, starts, n_iterations as nat, attempt as nat)],
                    n_iterations as nat,
                ),
                0 <= best_attempt_among(points, starts, n_iterations as nat, attempt as nat) < attempt,
            decreases candidates.len() - attempt,
        {
            let mut quantizer = candidates[attempt].clone();
            let loss = kmeans_with_centroids(&sq_instances, &mut quantizer, n_iterations);
            proof {
                sq_instances.lemma_view_shape();
                assert(starts[attempt as int] == candidates[attempt as int]@);
            }
            if loss < best_loss {
                best = quantizer;
                best_loss = loss;
            }
            attempt = attempt + 1;
        }
        best
    }

    /// Trains a product quantizer.
    ///
    /// Trains a product quantizer with `n_subquantizers` subquantizers on
    /// the rows of `instances`. Each subquantizer has
    /// `2^n_subquantizer_bits` centroids. Each subquantizer is trained in
    /// `n_attempts` attempts of `n_iterations` rounds of k-means, of which
    /// the best is kept.
    ///
    /// `rng` picks the first centroids of every attempt among the
    /// instances: first those of all subquantizers for the first attempt,
    /// then those for the second, and so on.
    ///
    /// Fails with `InvalidConfiguration` when the sizes do not fit together
    /// or a codebook would be a matrix too large to build. Nothing
    /// is drawn from `rng` then.
    pub fn train_using(
        n_subquantizers: usize,
        n_subquantizer_bits: u32,
        n_iterations: usize,
        n_attempts: usize,
        instances: &Matrix,
        rng: &mut XorShiftRng,
    ) -> (result: Result<PQ, PqError>)
        requires
            instances.wf(),
        ensures
            result is Ok <==> valid_configuration(
                n_subquantizers as nat,
                n_subquantizer_bits as nat,
                n_iterations as nat,
                n_attempts as nat,
                instances.ncols() as nat,
            ) && codebook_fits(n_subquantizer_bits as nat, (instances.ncols() / n_subquantizers) as nat),
            result is Err ==> result == Err::<PQ, PqError>(PqError::InvalidConfiguration),
            result is Err ==> *final(rng) == *old(rng),
            result matches Ok(pq) ==> {
                &&& pq.wf()
                &&& pq.n_subquantizers() == n_subquantizers
                &&& pq.codebook_len() == pow2(n_subquantizer_bits as nat)
                &&& pq.slice_dim() == instances.ncols() / n_subquantizers
                &&& pq.vector_dim() == instances.ncols()
                &&& forall|m: int|
                    0 <= m < n_subquantizers ==> trained_from_draws(
                        #[trigger] pq.codebooks()[m],
                        instance_slices(instances@, (instances.ncols() / n_subquantizers) as int, m),
                        pow2(n_subquantizer_bits as nat),
                        n_iterations as nat,
                        n_attempts as nat,
                    )
            },
    {
        if Self::check_quantizer_invariants(
            n_subquantizers,
            n_subquantizer_bits,
            n_iterations,
            n_attempts,
            instances,
        ).is_err() {
            return Err(PqError::InvalidConfiguration);
        }
        let n_dims = instances.ncols();
        let sq_dims = n_dims / n_subquantizers;
        proof {
            assert(n_dims == n_subquantizers * sq_dims && sq_dims >= 1) by (nonlinear_arith)
                requires
                    1 <= n_subquantizers <= n_dims,
                    n_dims % n_subquantizers == 0,
                    sq_dims == n_dims / n_subquantizers,
            ;
        }
        let codebook_len = match Self::codebook_len_for(n_subquantizer_bits, sq_dims) {
            None => {
                return Err(PqError::InvalidConfiguration);
            },
            Some(codebook_len) => codebook_len,
        };
        proof {
            lemma2_to64();
            if n_subquantizer_bits > 0 {
                lemma_pow2_strictly_increases(0, n_subquantizer_bits as nat);
            }
        }
        let mut initial: Vec<Vec<Matrix>> = Vec::new();
        let mut attempt: usize = 0;
        while attempt < n_attempts
            invariant
                instances.wf(),
                n_subquantizers >= 1,
                n_dims == instances.ncols(),
                n_dims % n_subquantizers == 0,
                sq_dims == n_dims / n_subquantizers,
                shape_fits(codebook_len as nat, sq_dims as nat),
                attempt <= n_attempts,
                initial.len() == attempt,
                forall|a: int|
                    0 <= a < attempt ==> first_centroids(
                        (#[trigger] initial[a])@,
                        instances@,
                        n_subquantizers as nat,
                        codebook_len as nat,
                        sq_dims as nat,
                    ),
            decreases n_attempts - attempt,
        {
            let drawn = initial_centroids(n_subquantizers, codebook_len, instances, rng);
            initial.push(drawn);
            attempt = attempt + 1;
        }
        let mut quantizers: Vec<Matrix> = Vec::new();
        let mut idx: usize = 0;
        while idx < n_subquantizers
            invariant
                instances.wf(),
                n_subquantizers >= 1,
                n_attempts >= 1,
                codebook_len >= 1,
                sq_dims >= 1,
                n_dims == instances.ncols(),
                n_dims == n_subquantizers * sq_dims,
                initial.len() == n_attempts,
                forall|a: int|
                    0 <= a < n_attempts ==> first_centroids(
                        (#[trigger] initial[a])@,
                        instances@,
                        n_subquantizers as nat,
                        codebook_len as nat,
                        sq_dims as nat,
                    ),
                idx <= n_subquantizers,
                quantizers.len() == idx,
                forall|m: int|
                    0 <= m < idx ==> {
                        &&& (#[trigger] quantizers[m]).wf()
                        &&& quantizers[m].nrows() == codebook_len
                        &&& quantizers[m].ncols() == sq_dims
                        &&& trained_from_draws(
                            quantizers[m]@,
                            instance_slices(instances@, sq_dims as int, m),
                            codebook_len as nat,
                            n_iterations as nat,
                            n_attempts as nat,
                        )
                    },
            decreases n_subquantizers - idx,
        {
            let mut candidates: Vec<Matrix> = Vec::new();
            let mut a: usize = 0;
            while a < n_attempts
                invariant
                    idx < n_subquantizers,
                    initial.len() == n_attempts,
                    forall|a: int|
                        0 <= a < n_attempts ==> first_centroids(
                            (#[trigger] initial[a])@,
                            instances@,
                            n_subquantizers as nat,
                            codebook_len as nat,
                            sq_dims as nat,
                        ),
                    a <= n_attempts,
                    candidates.len() == a,
                    forall|b: int|
                        0 <= b < a ==> {
                            &&& (#[trigger] candidates[b]).wf()
                            &&& candidates[b].nrows() == codebook_len
                            &&& candidates[b].ncols() == sq_dims
                            &&& candidates[b]@ == initial[b][idx as int]@
                        },
                decreases n_attempts - a,
            {
                assert(first_centroids(
                    initial[a as int]@,
                    instances@,
                    n_subquantizers as nat,
                    codebook_len as nat,
                    sq_dims as nat,
                ));
                candidates.push(initial[a][idx].clone());
                a = a + 1;
            }
            proof {
                lemma_slice_bounds(n_subquantizers as int, sq_dims as int, idx as int);
            }
            let quantizer = Self::train_subquantizer(idx, &candidates, n_iterations, instances);
            proof {
                let starts = candidates_view(candidates@);
                let points = instance_slices(instances@, sq_dims as int, idx as int);
                assert forall|b: int| 0 <= b < n_attempts implies drawn_from(
                    #[trigger] starts[b],
                    points,
                    codebook_len as nat,
                ) by {
                    assert(starts[b] == candidates[b]@);
                    assert(first_centroids(
                        initial[b]@,
                        instances@,
                        n_subquantizers as nat,
                        codebook_len as nat,
                        sq_dims as nat,
                    ));
                }
                assert(trained_from_draws(
                    quantizer@,
                    points,
                    codebook_len as nat,
                    n_iterations as nat,
                    n_attempts as nat,
                ));
            }
            quantizers.push(quantizer);
            idx = idx + 1;
        }
        let pq = PQ { quantizer_len: n_dims, quantizers };
        proof {
            assert forall|m: int| 0 <= m < n_subquantizers implies trained_from_draws(
                #[trigger] pq.codebooks()[m],
                instance_slices(instances@, sq_dims as int, m),
                codebook_len as nat,
                n_iterations as nat,
                n_attempts as nat,
            ) by {
                assert(pq.codebooks()[m] == pq.quantizers[m]@);
            }
        }
        Ok(pq)
    }

    /// A quantizer with the given codebooks, one per subquantizer.
    ///
    /// Fails with `InvalidConfiguration` when there is no codebook, when a
    /// codebook has no centroid or no column, or when the codebooks differ
    /// in shape.
    pub fn new(quantizers: Vec<Matrix>) -> (result: Result<PQ, PqError>)
        requires
            forall|m: int| 0 <= m < quantizers.len() ==> (#[trigger] quantizers[m]).wf(),
        ensures
            result is Ok <==> codebooks_wf(quantizers@) && quantizers.len() * quantizers[0].ncols() <= usize::MAX,
            result is Err ==> result == Err::<PQ, PqError>(PqError::InvalidConfiguration),
            result matches Ok(pq) ==> {
                &&& pq.wf()
                &&& pq.codebooks() == codebooks_view(quantizers@)
                &&& pq.n_subquantizers() == quantizers.len()
                &&& pq.codebook_len() == quantizers[0].nrows()
                &&& pq.slice_dim() == quantizers[0].ncols()
                &&& pq.vector_dim() == quantizers.len() * quantizers[0].ncols()
            },
    {
        let n = quantizers.len();
        if n == 0 {
            return Err(PqError::InvalidConfiguration);
        }
        let codebook_len = quantizers[0].nrows();
        let slice_dim = quantizers[0].ncols();
        if codebook_len == 0 || slice_dim == 0 {
            return Err(PqError::InvalidConfiguration);
        }
        let mut m: usize = 1;
        while m < n
            invariant
                n == quantizers.len(),
                codebook_len == quantizers[0].nrows(),
                slice_dim == quantizers[0].ncols(),
                1 <= m <= n,
                forall|j: int|
                    0 <= j < m ==> (#[trigger] quantizers[j]).nrows() == codebook_len && quantizers[j].ncols()
                        == slice_dim,
            decreases n - m,
        {
            if quantizers[m].nrows() != codebook_len || quantizers[m].ncols() != slice_dim {
                return Err(PqError::InvalidConfiguration);
            }
            m = m + 1;
        }
        match n.checked_mul(slice_dim) {
            None => Err(PqError::InvalidConfiguration),
            Some(quantizer_len) => Ok(PQ { quantizer_len, quantizers }),
        }
    }

    /// The number of coordinates of the vectors that are quantized.
    pub fn quantizer_len(&self) -> (len: usize)
        ensures
            len == self.vector_dim(),
    {
        self.quantizer_len
    }

    /// The subquantizer centroids: one matrix per subquantizer, with one
    /// centroid per row.
    pub fn subquantizers(&self) -> (quantizers: &Vec<Matrix>)
        requires
            self.wf(),
        ensures
            codebooks_wf(quantizers@),
            codebooks_view(quantizers@) == self.codebooks(),
            quantizers.len() == self.n_subquantizers(),
    {
        &self.quantizers
    }
}


impl Quantizer for PQ {
    open spec fn valid(&self) -> bool {
        self.wf()
    }

    open spec fn dim(&self) -> nat {
        self.vector_dim()
    }

    open spec fn code_len(&self) -> nat {
        self.n_subquantizers()
    }

    open spec fn n_centroids(&self) -> nat {
        self.codebook_len()
    }
}

impl QuantizeVector for PQ {
    /// A product quantizer accepts every vector.
    open spec fn accepts(&self, x: Seq<i32>) -> bool {
        true
    }

    /// For each subquantizer the index of the centroid nearest to its slice
    /// of `x`.
    open spec fn code_of(&self, x: Seq<i32>) -> Seq<usize> {
        quantized(self.codebooks(), x)
    }

    fn quantize_batch(&self, x: &Matrix) -> (result: Result<Vec<Vec<usize>>, PqError>) {
        let result = quantize_batch(&self.quantizers, self.quantizer_len, x);
        proof {
            if result is Ok {
                let codes = result->Ok_0;
                x.lemma_view_shape();
                assert forall|r: int| 0 <= r < codes.len() implies (#[trigger] codes[r])@ == self.code_of(x@[r]) by {
                    assert(codes.deep_view()[r] =~= codes[r]@);
                }
            }
        }
        result
    }

    fn quantize_vector(&self, x: &Vec<i32>) -> (result: Result<Vec<usize>, PqError>) {
        quantize(&self.quantizers, self.quantizer_len, x)
    }
}

impl ReconstructVector for PQ {
    /// A product quantizer holds the vector of every code.
    open spec fn restores(&self, code: Seq<usize>) -> bool {
        true
    }

    /// The centroids that the entries of `code` name, one after the other.
    open spec fn vector_of(&self, code: Seq<usize>) -> Seq<i32> {
        reconstructed(self.codebooks(), code)
    }

    fn reconstruct_batch(&self, quantized: &Vec<Vec<usize>>) -> (result: Result<Vec<Vec<i32>>, PqError>) {
        let result = reconstruct_batch(&self.quantizers, quantized);
        proof {
            if result is Ok {
                let rows = result->Ok_0;
                assert forall|r: int| 0 <= r < rows.len() implies (#[trigger] rows[r])@ == self.vector_of(
                    quantized[r]@,
                ) by {
                    assert(rows.deep_view()[r] =~= rows[r]@);
                    assert(quantized.deep_view()[r] =~= quantized[r]@);
                }
            }
        }
        result
    }

    fn reconstruct_vector(&self, quantized: &Vec<usize>) -> (result: Result<Vec<i32>, PqError>) {
        reconstruct(&self.quantizers, quantized)
    }
}

} // verus!
