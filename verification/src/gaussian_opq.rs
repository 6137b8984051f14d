//! Optimized product quantization for Gaussian variables.

use rand_xorshift::XorShiftRng;
use vstd::arithmetic::power2::pow2;
use vstd::prelude::*;

use crate::bucket::bucketing;
use crate::error::PqError;
use crate::matrix::Matrix;
use crate::pq::{
    code_in_range, codebook_fits, codebooks_shaped, codes_have_len, codes_in_range, instance_slices, lemma_requantization, names_first_copies,
    quantized, reconstructed, trained_from_draws, valid_configuration, QuantizeVector, Quantizer,
    ReconstructVector, PQ,
};
use crate::projection::{
    columns_picked, create_projection_matrix, flattened, is_orthonormal, is_permutation, is_square, orthonormal,
    rotate, rotate_back, rotate_rows, rotated, rotated_back, rotated_rows, rotates, rotates_back, rows_rotate,
};

verus! {

/// Optimized product quantizer for Gaussian variables (Ge et al., 2013).
///
/// A product quantizer slices a vector and assigns to slice `m` the index of
/// the nearest centroid of subquantizer `m`. A vector is reconstructed by
/// putting the centroids that its code names one after the other.
///
/// This quantizer rotates the input space before it quantizes, in order to
/// balance the variances over the subquantizers. The rotation is built from
/// the eigendecomposition of the covariance of the training instances,
/// which suits variables with a Gaussian distribution.
#[derive(Debug)]
pub struct GaussianOPQ {
    projection: Matrix,
    pq: PQ,
}

/// The request can be trained: the sizes fit together, a codebook fits, and
/// the eigendecomposition has one weight and one column and row of
/// eigenvectors for every dimension.
pub open spec fn valid_request(
    n_subquantizers: nat,
    n_subquantizer_bits: nat,
    n_iterations: nat,
    n_attempts: nat,
    n_dims: nat,
    n_weights: nat,
    eigenvectors: &Matrix,
) -> bool {
    &&& valid_configuration(n_subquantizers, n_subquantizer_bits, n_iterations, n_attempts, n_dims)
    &&& codebook_fits(n_subquantizer_bits, n_dims / n_subquantizers)
    &&& n_weights == n_dims
    &&& eigenvectors.nrows() == n_dims
    &&& eigenvectors.ncols() == n_dims
}

/// The rotation that training builds: the columns of the eigenvectors in
/// the order of the buckets of their weights.
pub open spec fn trained_rotation(weights: Seq<i64>, eigenvectors: Seq<Seq<i32>>, n_subquantizers: nat) -> Seq<
    Seq<i32>,
> {
    columns_picked(eigenvectors, flattened(bucketing(weights, n_subquantizers)))
}

impl GaussianOPQ {
    /// The product quantizer is well formed, and the rotation is square
    /// with one row for each coordinate of the vectors and has orthonormal
    /// columns within `ROTATION_TOLERANCE`.
    pub closed spec fn wf(&self) -> bool {
        &&& self.pq.wf()
        &&& is_square(&self.projection, self.pq.vector_dim())
        &&& is_orthonormal(self.projection@)
    }

    /// The rows of the rotation.
    pub closed spec fn rotation(&self) -> Seq<Seq<i32>> {
        self.projection@
    }

    /// The product quantizer that quantizes the rotated vectors.
    pub closed spec fn quantizer(&self) -> PQ {
        self.pq
    }

    /// The rotation of a well-formed quantizer is orthonormal.
    pub proof fn lemma_rotation_is_orthonormal(&self)
        requires
            self.wf(),
        ensures
            is_orthonormal(self.rotation()),
            self.rotation().len() == self.quantizer().vector_dim(),
    {
        self.projection.lemma_view_shape();
    }

    /// An optimized product quantizer with the given rotation and
    /// codebooks.
    ///
    /// Fails with `InvalidConfiguration` when the rotation is not square or
    /// does not have one row for each coordinate that `pq` quantizes, and
    /// otherwise with `NumericalError` when the columns of the rotation are
    /// not orthonormal within `ROTATION_TOLERANCE`.
    pub fn new(projection: Matrix, pq: PQ) -> (result: Result<GaussianOPQ, PqError>)
        requires
            projection.wf(),
            pq.wf(),
        ensures
            result == Err::<GaussianOPQ, PqError>(PqError::InvalidConfiguration) <==> !is_square(
                &projection,
                pq.vector_dim(),
            ),
            result == Err::<GaussianOPQ, PqError>(PqError::NumericalError) <==> is_square(
                &projection,
                pq.vector_dim(),
            ) && !is_orthonormal(projection@),
            result is Err ==> result == Err::<GaussianOPQ, PqError>(PqError::InvalidConfiguration) || result
                == Err::<GaussianOPQ, PqError>(PqError::NumericalError),
            result matches Ok(opq) ==> {
                &&& opq.wf()
                &&& opq.rotation() == projection@
                &&& opq.quantizer() == pq
            },
    {
        if projection.nrows() != pq.quantizer_len() || projection.ncols() != pq.quantizer_len() {
            return Err(PqError::InvalidConfiguration);
        }
        if !orthonormal(&projection) {
            return Err(PqError::NumericalError);
        }
        Ok(GaussianOPQ { projection, pq })
    }

    /// Trains an optimized product quantizer.
    ///
    /// Trains a product quantizer with `n_subquantizers` subquantizers on
    /// the rotated rows of `instances`. Each subquantizer has
    /// `2^n_subquantizer_bits` centroids. Each subquantizer is trained in
    /// `n_attempts` attempts of `n_iterations` rounds of k-means, of which
    /// the best is kept.
    ///
    /// `weights` and `eigenvectors` are the eigendecomposition of the
    /// covariance of the instances: `weights` holds the logarithm of every
    /// eigenvalue in steps of a grid, and column `j` of `eigenvectors` is
    /// the direction of eigenvalue `j`, with cells in units of
    /// `1 / ROTATION_ONE`. `rng` picks the first centroids of every attempt.
    ///
    /// Fails with `InvalidConfiguration` when the sizes do not fit
    /// together, when a codebook would be a matrix too large to build, or
    /// when the eigendecomposition does not have the dimension of the
    /// instances. Fails with `NumericalError` when all of these are in
    /// order and the columns of `eigenvectors` are not orthonormal within
    /// `ROTATION_TOLERANCE`, or a coordinate of a rotated instance is beyond
    /// the range of `i32`. Nothing is clustered or drawn from `rng` when it
    /// fails.
    pub fn train_using(
        n_subquantizers: usize,
        n_subquantizer_bits: u32,
        n_iterations: usize,
        n_attempts: usize,
        instances: &Matrix,
        weights: &Vec<i64>,
        eigenvectors: &Matrix,
        rng: &mut XorShiftRng,
    ) -> (result: Result<GaussianOPQ, PqError>)
        requires
            instances.wf(),
            eigenvectors.wf(),
        ensures
            result == Err::<GaussianOPQ, PqError>(PqError::InvalidConfiguration) <==> !valid_request(
                n_subquantizers as nat,
                n_subquantizer_bits as nat,
                n_iterations as nat,
                n_attempts as nat,
                instances.ncols() as nat,
                weights.len() as nat,
                eigenvectors,
            ),
            result == Err::<GaussianOPQ, PqError>(PqError::NumericalError) <==> valid_request(
                n_subquantizers as nat,
                n_subquantizer_bits as nat,
                n_iterations as nat,
                n_attempts as nat,
                instances.ncols() as nat,
                weights.len() as nat,
                eigenvectors,
            ) && !(is_orthonormal(eigenvectors@) && rows_rotate(
                instances@,
                trained_rotation(weights@, eigenvectors@, n_subquantizers as nat),
            )),
            result is Err ==> result == Err::<GaussianOPQ, PqError>(PqError::InvalidConfiguration) || result
                == Err::<GaussianOPQ, PqError>(PqError::NumericalError),
            result is Err ==> *final(rng) == *old(rng),
            result matches Ok(opq) ==> {
                &&& opq.wf()
                &&& opq.rotation() == trained_rotation(weights@, eigenvectors@, n_subquantizers as nat)
                &&& is_permutation(
                    flattened(bucketing(weights@, n_subquantizers as nat)),
                    instances.ncols() as nat,
                )
                &&& opq.quantizer().n_subquantizers() == n_subquantizers
                &&& opq.quantizer().codebook_len() == pow2(n_subquantizer_bits as nat)
                &&& opq.quantizer().slice_dim() == instances.ncols() / n_subquantizers
                &&& opq.quantizer().vector_dim() == instances.ncols()
                &&& forall|m: int|
                    0 <= m < n_subquantizers ==> trained_from_draws(
                        #[trigger] opq.quantizer().codebooks()[m],
                        instance_slices(
                            rotated_rows(instances@, opq.rotation()),
                            (instances.ncols() / n_subquantizers) as int,
                            m,
                        ),
                        pow2(n_subquantizer_bits as nat),
                        n_iterations as nat,
                        n_attempts as nat,
                    )
            },
    {
        if PQ::check_quantizer_invariants(
            n_subquantizers,
            n_subquantizer_bits,
            n_iterations,
            n_attempts,
            instances,
        ).is_err() {
            return Err(PqError::InvalidConfiguration);
        }
        let n_dims = instances.ncols();
        let sq_dims = n_dims / n_subquantizers;
        if PQ::codebook_len_for(n_subquantizer_bits, sq_dims).is_none() {
            return Err(PqError::InvalidConfiguration);
        }
        if weights.len() != n_dims {
            return Err(PqError::InvalidConfiguration);
        }
        let projection = match create_projection_matrix(weights, eigenvectors, n_subquantizers) {
            Err(PqError::NumericalError) => {
                return Err(PqError::NumericalError);
            },
            Err(_) => {
                return Err(PqError::InvalidConfiguration);
            },
            Ok(projection) => projection,
        };
        let rx = match rotate_rows(instances, &projection) {
            Err(_) => {
                return Err(PqError::NumericalError);
            },
            Ok(rx) => rx,
        };
        match PQ::train_using(n_subquantizers, n_subquantizer_bits, n_iterations, n_attempts, &rx, rng) {
            Err(_) => {
                assert(false);
                Err(PqError::InvalidConfiguration)
            },
            Ok(pq) => Ok(GaussianOPQ { projection, pq }),
        }
    }

    /// The rotation: a square matrix with cells in units of
    /// `1 / ROTATION_ONE`.
    pub fn projection(&self) -> (projection: &Matrix)
        requires
            self.wf(),
        ensures
            projection@ == self.rotation(),
            is_square(projection, self.quantizer().vector_dim()),
    {
        &self.projection
    }

    /// The product quantizer that quantizes the rotated vectors.
    pub fn pq(&self) -> (pq: &PQ)
        requires
            self.wf(),
        ensures
            *pq == self.quantizer(),
            pq.wf(),
    {
        &self.pq
    }
}

impl Quantizer for GaussianOPQ {
    open spec fn valid(&self) -> bool {
        self.wf()
    }

    open spec fn dim(&self) -> nat {
        self.quantizer().vector_dim()
    }

    open spec fn code_len(&self) -> nat {
        self.quantizer().n_subquantizers()
    }

    open spec fn n_centroids(&self) -> nat {
        self.quantizer().codebook_len()
    }
}

impl QuantizeVector for GaussianOPQ {
    /// The rotated vector has coordinates that a vector can hold.
    open spec fn accepts(&self, x: Seq<i32>) -> bool {
        rotates(x, self.rotation())
    }

    /// The code that the product quantizer gives to the rotated vector.
    open spec fn code_of(&self, x: Seq<i32>) -> Seq<usize> {
        quantized(self.quantizer().codebooks(), rotated(x, self.rotation()))
    }

    fn quantize_batch(&self, x: &Matrix) -> (result: Result<Vec<Vec<usize>>, PqError>) {
        if x.ncols() != self.pq.quantizer_len() {
            return Err(PqError::DimensionMismatch);
        }
        proof {
            x.lemma_view_shape();
        }
        let rx = match rotate_rows(x, &self.projection) {
            Err(_) => {
                return Err(PqError::NumericalError);
            },
            Ok(rx) => rx,
        };
        proof {
            rx.lemma_view_shape();
        }
        self.pq.quantize_batch(&rx)
    }

    fn quantize_vector(&self, x: &Vec<i32>) -> (result: Result<Vec<usize>, PqError>) {
        if x.len() != self.pq.quantizer_len() {
            return Err(PqError::DimensionMismatch);
        }
        match rotate(x, &self.projection) {
            Err(_) => Err(PqError::NumericalError),
            Ok(rx) => self.pq.quantize_vector(&rx),
        }
    }
}

impl ReconstructVector for GaussianOPQ {
    /// The vector that the product quantizer reconstructs can be rotated
    /// back.
    open spec fn restores(&self, code: Seq<usize>) -> bool {
        rotates_back(reconstructed(self.quantizer().codebooks(), code), self.rotation())
    }

    /// The vector that the product quantizer reconstructs, rotated back.
    open spec fn vector_of(&self, code: Seq<usize>) -> Seq<i32> {
        rotated_back(reconstructed(self.quantizer().codebooks(), code), self.rotation())
    }

    fn reconstruct_batch(&self, quantized: &Vec<Vec<usize>>) -> (result: Result<Vec<Vec<i32>>, PqError>) {
        let rows = match self.pq.reconstruct_batch(quantized) {
            Err(error) => {
                return Err(error);
            },
            Ok(rows) => rows,
        };
        let mut rotated_rows: Vec<Vec<i32>> = Vec::new();
        let mut r: usize = 0;
        while r < rows.len()
            invariant
                self.wf(),
                rows.len() == quantized.len(),
                forall|i: int|
                    0 <= i < rows.len() ==> {
                        &&& (#[trigger] rows[i])@ == self.quantizer().vector_of(quantized[i]@)
                        &&& rows[i].len() == self.quantizer().dim()
                    },
                codes_have_len(quantized@, self.code_len()),
                codes_in_range(quantized@, self.n_centroids()),
                r <= rows.len(),
                rotated_rows.len() == r,
                forall|i: int| 0 <= i < r ==> self.restores((#[trigger] quantized[i])@),
                forall|i: int|
                    0 <= i < r ==> {
                        &&& (#[trigger] rotated_rows[i])@ == self.vector_of(quantized[i]@)
                        &&& rotated_rows[i].len() == self.dim()
                    },
            decreases rows.len() - r,
        {
            match rotate_back(&rows[r], &self.projection) {
                Err(_) => {
                    assert(!self.restores(quantized[r as int]@));
                    return Err(PqError::NumericalError);
                },
                Ok(row) => {
                    rotated_rows.push(row);
                },
            }
            r = r + 1;
        }
        Ok(rotated_rows)
    }

    fn reconstruct_vector(&self, quantized: &Vec<usize>) -> (result: Result<Vec<i32>, PqError>) {
        match self.pq.reconstruct_vector(quantized) {
            Err(error) => Err(error),
            Ok(x) => rotate_back(&x, &self.projection),
        }
    }
}

/// Quantizing the reconstruction of a code with a rotated quantizer gives
/// the code back, as long as each entry names the first of the centroids
/// that are equal to the one it names, and as long as the rotation takes
/// what it rotated back to where it was. Rounding may keep a rotation from
/// doing so.
pub proof fn lemma_requantization_rotated(
    codebooks: Seq<Seq<Seq<i32>>>,
    codebook_len: nat,
    slice_dim: nat,
    rotation: Seq<Seq<i32>>,
    code: Seq<usize>,
)
    requires
        codebooks_shaped(codebooks, codebook_len, slice_dim),
        code.len() == codebooks.len(),
        code_in_range(code, codebook_len),
        names_first_copies(codebooks, code),
        rotates_back(reconstructed(codebooks, code), rotation),
        rotates(rotated_back(reconstructed(codebooks, code), rotation), rotation),
        rotated(rotated_back(reconstructed(codebooks, code), rotation), rotation) == reconstructed(
            codebooks,
            code,
        ),
    ensures
        quantized(codebooks, rotated(rotated_back(reconstructed(codebooks, code), rotation), rotation)) == code,
{
    lemma_requantization(codebooks, codebook_len, slice_dim, code);
}

} // verus!
