use product_quantizer::error::PqError;
use product_quantizer::gaussian_opq::GaussianOPQ;
use product_quantizer::matrix::Matrix;
use product_quantizer::pq::{QuantizeVector, ReconstructVector, PQ};
use product_quantizer::projection::ROTATION_ONE;
use rand::{Rng, SeedableRng};
use rand_xorshift::XorShiftRng;

const ONE: i32 = ROTATION_ONE as i32;

/// The value on the grid of 1/65536 that is nearest to `v`.
fn fixed(v: f64) -> i32 {
    (v * 65536.0).round() as i32
}

fn matrix(rows: Vec<Vec<i32>>) -> Matrix {
    Matrix::from_rows(&rows).unwrap()
}

fn identity(n: usize) -> Matrix {
    matrix((0..n).map(|r| (0..n).map(|c| if r == c { ONE } else { 0 }).collect()).collect())
}

/// The covariance of the columns of `instances`.
fn covariance(instances: &[Vec<f64>]) -> Vec<Vec<f64>> {
    let n = instances.len() as f64;
    let dims = instances[0].len();
    let means: Vec<f64> = (0..dims).map(|c| instances.iter().map(|row| row[c]).sum::<f64>() / n).collect();
    let mut cov = vec![vec![0f64; dims]; dims];
    for a in 0..dims {
        for b in 0..dims {
            cov[a][b] =
                instances.iter().map(|row| (row[a] - means[a]) * (row[b] - means[b])).sum::<f64>() / (n - 1.0);
        }
    }
    cov
}

/// The eigenvalues of a symmetric matrix and its eigenvectors, as the
/// columns of a matrix, by Jacobi's method.
fn eigh(matrix: &[Vec<f64>]) -> (Vec<f64>, Vec<Vec<f64>>) {
    let n = matrix.len();
    let mut a: Vec<Vec<f64>> = matrix.to_vec();
    let mut v = vec![vec![0f64; n]; n];
    for i in 0..n {
        v[i][i] = 1.0;
    }
    for _sweep in 0..100 {
        let mut off = 0f64;
        for p in 0..n {
            for q in (p + 1)..n {
                off += a[p][q] * a[p][q];
            }
        }
        if off < 1e-22 {
            break;
        }
        for p in 0..n {
            for q in (p + 1)..n {
                if a[p][q].abs() < 1e-300 {
                    continue;
                }
                let theta = (a[q][q] - a[p][p]) / (2.0 * a[p][q]);
                let t = theta.signum() / (theta.abs() + (theta * theta + 1.0).sqrt());
                let c = 1.0 / (t * t + 1.0).sqrt();
                let s = t * c;
                for k in 0..n {
                    let (akp, akq) = (a[k][p], a[k][q]);
                    a[k][p] = c * akp - s * akq;
                    a[k][q] = s * akp + c * akq;
                }
                for k in 0..n {
                    let (apk, aqk) = (a[p][k], a[q][k]);
                    a[p][k] = c * apk - s * aqk;
                    a[q][k] = s * apk + c * aqk;
                }
                for k in 0..n {
                    let (vkp, vkq) = (v[k][p], v[k][q]);
                    v[k][p] = c * vkp - s * vkq;
                    v[k][q] = s * vkp + c * vkq;
                }
            }
        }
    }
    ((0..n).map(|i| a[i][i]).collect(), v)
}

/// Calculate the average euclidean distances between the the given
/// instances and the instances returned by quantizing and then
/// reconstructing the instances.
fn avg_euclidean_loss(instances: &Matrix, quantizer: &GaussianOPQ) -> f64 {
    let mut euclidean_loss = 0f64;

    let quantized = quantizer.quantize_batch(instances).unwrap();
    let reconstructions = quantizer.reconstruct_batch(&quantized).unwrap();

    for (r, reconstruction) in reconstructions.iter().enumerate() {
        let instance = instances.row(r);
        let squared: f64 = instance
            .iter()
            .zip(reconstruction.iter())
            .map(|(&a, &b)| {
                let diff = (a as f64 - b as f64) / 65536.0;
                diff * diff
            })
            .sum();
        euclidean_loss += squared.sqrt();
    }

    euclidean_loss / instances.nrows() as f64
}

#[test]
fn quantize_with_gaussian_opq() {
    let mut rng = XorShiftRng::seed_from_u64(2013);
    let uniform: Vec<Vec<f64>> = (0..256).map(|_| (0..20).map(|_| rng.gen_range(0f64..1f64)).collect()).collect();
    let instances = matrix(uniform.iter().map(|row| row.iter().map(|&v| fixed(v)).collect()).collect());
    let (eigenvalues, eigenvectors) = eigh(&covariance(&uniform));
    // The logarithms of the eigenvalues in steps of 2^-52.
    let weights: Vec<i64> =
        eigenvalues.iter().map(|&v| ((v.max(0.0) + f64::EPSILON).ln() * 4503599627370496.0).round() as i64).collect();
    let eigenvectors = matrix(
        eigenvectors.iter().map(|row| row.iter().map(|&v| (v * ROTATION_ONE as f64).round() as i32).collect()).collect(),
    );
    let pq = GaussianOPQ::train_using(10, 7, 10, 1, &instances, &weights, &eigenvectors, &mut rng).unwrap();
    let loss = avg_euclidean_loss(&instances, &pq);
    // Loss is around 0.1.
    assert!(loss < 0.12);
}

fn golden_pq() -> PQ {
    PQ::new(vec![
        matrix(vec![vec![10, 0, 0], vec![0, 10, 0]]),
        matrix(vec![vec![10, -10, 0], vec![0, 10, 0]]),
    ])
    .unwrap()
}

#[test]
fn with_the_identity_the_product_quantizer_decides() {
    let pq = golden_pq();
    let opq = GaussianOPQ::new(identity(6), golden_pq()).unwrap();
    let vectors = vec![
        vec![0, 20, 0, -5, 0, 0],
        vec![10, -2, 0, 5, 5, 0],
        vec![-2, 2, 0, 0, -20, 0],
        vec![10, 2, 0, 0, -20, 0],
    ];
    let codes = vec![vec![1, 1], vec![0, 1], vec![1, 0], vec![0, 0]];
    for (vector, code) in vectors.iter().zip(codes.iter()) {
        assert_eq!(opq.quantize_vector(vector).as_ref(), Ok(code));
        assert_eq!(opq.reconstruct_vector(code), pq.reconstruct_vector(code));
    }
    assert_eq!(opq.quantize_batch(&matrix(vectors)), Ok(codes.clone()));
    assert_eq!(opq.reconstruct_batch(&codes), pq.reconstruct_batch(&codes));
}

#[test]
fn vectors_are_rotated_before_they_are_quantized() {
    // The rotation moves coordinate `i` to coordinate `i + 1`.
    let shift = matrix((0..6).map(|r| (0..6).map(|c| if (r + 1) % 6 == c { ONE } else { 0 }).collect()).collect());
    let opq = GaussianOPQ::new(shift, golden_pq()).unwrap();
    // Rotated, this is the vector 10, -2, 0, 5, 5, 0.
    assert_eq!(opq.quantize_vector(&vec![-2, 0, 5, 5, 0, 10]), Ok(vec![0, 1]));
    // The reconstruction 10, 0, 0, 0, 10, 0 is rotated back.
    assert_eq!(opq.reconstruct_vector(&vec![0, 1]), Ok(vec![0, 0, 0, 10, 0, 10]));
    assert_eq!(
        opq.reconstruct_batch(&vec![vec![0, 1], vec![1, 0]]),
        Ok(vec![vec![0, 0, 0, 10, 0, 10], vec![10, 0, 10, -10, 0, 0]])
    );
    assert_eq!(opq.projection().row(5), vec![ONE, 0, 0, 0, 0, 0]);
    assert_eq!(opq.pq().quantizer_len(), 6);
}

#[test]
fn the_rotation_is_orthonormal() {
    let skewed = matrix((0..6).map(|r| (0..6).map(|c| 10 * r + c).collect()).collect());
    assert!(matches!(GaussianOPQ::new(skewed, golden_pq()), Err(PqError::NumericalError)));
    assert!(matches!(
        GaussianOPQ::new(Matrix::zeros(6, 6).unwrap(), golden_pq()),
        Err(PqError::NumericalError)
    ));
    let nearly = matrix((0..6).map(|r| (0..6).map(|c| if r == c { ONE + 2 } else { 3 }).collect()).collect());
    assert!(GaussianOPQ::new(nearly, golden_pq()).is_ok());
    let stretched = matrix((0..6).map(|r| (0..6).map(|c| if r == c { ONE + ONE / 1024 } else { 0 }).collect()).collect());
    assert!(matches!(GaussianOPQ::new(stretched, golden_pq()), Err(PqError::NumericalError)));
}

/// A turn by 45 degrees in the plane of the first two coordinates.
fn half_turn() -> Matrix {
    let c = 759250125;
    matrix(vec![vec![c, -c], vec![c, c]])
}

#[test]
fn coordinates_beyond_the_range_are_refused() {
    let pq = PQ::new(vec![matrix(vec![vec![0, 0], vec![i32::MAX, i32::MAX], vec![1 << 30, 0]])]).unwrap();
    let opq = GaussianOPQ::new(half_turn(), pq).unwrap();
    // Turned, the diagonal is longer than a coordinate can be.
    assert_eq!(opq.quantize_vector(&vec![i32::MAX, i32::MAX]), Err(PqError::NumericalError));
    assert_eq!(opq.quantize_vector(&vec![i32::MAX, 0]), Ok(vec![2]));
    assert_eq!(
        opq.quantize_batch(&matrix(vec![vec![1, 1], vec![i32::MIN, i32::MIN]])),
        Err(PqError::NumericalError)
    );
    assert_eq!(opq.reconstruct_vector(&vec![1]), Err(PqError::NumericalError));
    assert_eq!(opq.reconstruct_vector(&vec![0]), Ok(vec![0, 0]));
    assert_eq!(opq.reconstruct_batch(&vec![vec![0], vec![1]]), Err(PqError::NumericalError));
    // Lengths and entries are looked at first.
    assert_eq!(opq.reconstruct_batch(&vec![vec![1], vec![3]]), Err(PqError::InvalidCode));
    assert_eq!(opq.reconstruct_batch(&vec![vec![1], vec![]]), Err(PqError::DimensionMismatch));
    assert_eq!(opq.quantize_vector(&vec![i32::MAX; 3]), Err(PqError::DimensionMismatch));
}

#[test]
fn instances_beyond_the_range_are_refused() {
    let instances = matrix(vec![vec![1, 2], vec![i32::MAX, i32::MAX], vec![3, 4], vec![5, 6]]);
    let mut rng = XorShiftRng::seed_from_u64(9);
    let untouched = rng.clone();
    let trained = GaussianOPQ::train_using(1, 1, 3, 1, &instances, &vec![5, 7], &half_turn(), &mut rng);
    assert!(matches!(trained, Err(PqError::NumericalError)));
    assert!(rng == untouched);
    let instances = matrix(vec![vec![1, 2], vec![i32::MAX, 0], vec![3, 4], vec![5, 6]]);
    assert!(GaussianOPQ::train_using(1, 1, 3, 1, &instances, &vec![5, 7], &half_turn(), &mut rng).is_ok());
}

#[test]
fn the_rotation_has_the_dimension_of_the_vectors() {
    assert!(matches!(GaussianOPQ::new(identity(5), golden_pq()), Err(PqError::InvalidConfiguration)));
    assert!(matches!(
        GaussianOPQ::new(Matrix::zeros(6, 5).unwrap(), golden_pq()),
        Err(PqError::InvalidConfiguration)
    ));
    assert!(GaussianOPQ::new(identity(6), golden_pq()).is_ok());
}

#[test]
fn the_optimized_quantizer_checks_lengths_and_entries() {
    let opq = GaussianOPQ::new(identity(6), golden_pq()).unwrap();
    assert_eq!(opq.quantize_vector(&vec![0; 5]), Err(PqError::DimensionMismatch));
    assert_eq!(opq.quantize_batch(&Matrix::zeros(3, 7).unwrap()), Err(PqError::DimensionMismatch));
    assert_eq!(opq.reconstruct_vector(&vec![0]), Err(PqError::DimensionMismatch));
    assert_eq!(opq.reconstruct_vector(&vec![0, 2]), Err(PqError::InvalidCode));
    assert_eq!(opq.reconstruct_batch(&vec![vec![0, 1], vec![1]]), Err(PqError::DimensionMismatch));
    assert_eq!(opq.reconstruct_batch(&vec![vec![0, 1], vec![1, 9]]), Err(PqError::InvalidCode));
}

#[test]
fn optimized_training_checks_the_sizes() {
    let instances = matrix((0..16).map(|i| vec![i, 2 * i, 3 * i, 16 - i]).collect());
    let eigenvalues = vec![4i64, 3, 2, 1];
    let mut rng = XorShiftRng::seed_from_u64(9);
    let mut train = |n_subquantizers, bits, iterations, attempts, eigenvalues: &Vec<i64>, eigenvectors: &Matrix| {
        GaussianOPQ::train_using(
            n_subquantizers,
            bits,
            iterations,
            attempts,
            &instances,
            eigenvalues,
            eigenvectors,
            &mut rng,
        )
        .map(|_| ())
    };
    assert_eq!(train(2, 2, 3, 1, &eigenvalues, &identity(4)), Ok(()));
    assert_eq!(train(3, 2, 3, 1, &eigenvalues, &identity(4)), Err(PqError::InvalidConfiguration));
    assert_eq!(train(2, 0, 3, 1, &eigenvalues, &identity(4)), Err(PqError::InvalidConfiguration));
    assert_eq!(train(2, 2, 0, 1, &eigenvalues, &identity(4)), Err(PqError::InvalidConfiguration));
    assert_eq!(train(2, 2, 3, 0, &eigenvalues, &identity(4)), Err(PqError::InvalidConfiguration));
    assert_eq!(train(2, usize::BITS, 3, 1, &eigenvalues, &identity(4)), Err(PqError::InvalidConfiguration));
    assert_eq!(train(2, 2, 3, 1, &vec![4, 3, 2], &identity(4)), Err(PqError::InvalidConfiguration));
    assert_eq!(train(2, 2, 3, 1, &eigenvalues, &identity(3)), Err(PqError::InvalidConfiguration));
    // Weights may be negative: they are logarithms.
    assert_eq!(train(2, 2, 3, 1, &vec![4, -3, 2, 1], &identity(4)), Ok(()));
    let skewed = matrix((0..4).map(|r| (0..4).map(|c| 10 * r + c).collect()).collect());
    assert_eq!(train(2, 2, 3, 1, &eigenvalues, &skewed), Err(PqError::NumericalError));
    assert_eq!(train(2, 2, 3, 1, &eigenvalues, &Matrix::zeros(4, 4).unwrap()), Err(PqError::NumericalError));
    // The sizes are looked at first.
    assert_eq!(train(3, 2, 3, 1, &eigenvalues, &skewed), Err(PqError::InvalidConfiguration));
}

#[test]
fn optimized_training_orders_the_directions_by_bucket() {
    let instances = matrix((0..16).map(|i| vec![i, 2 * i, 3 * i, 16 - i]).collect());
    let mut rng = XorShiftRng::seed_from_u64(9);
    // The buckets are {0, 3} and {1, 2}.
    let opq =
        GaussianOPQ::train_using(2, 2, 3, 2, &instances, &vec![8, 4, 2, 1], &identity(4), &mut rng).unwrap();
    assert_eq!(opq.projection().row(0), vec![ONE, 0, 0, 0]);
    assert_eq!(opq.projection().row(1), vec![0, 0, ONE, 0]);
    assert_eq!(opq.projection().row(2), vec![0, 0, 0, ONE]);
    assert_eq!(opq.projection().row(3), vec![0, ONE, 0, 0]);
    assert_eq!(opq.pq().subquantizers().len(), 2);
    let code = opq.quantize_vector(&vec![3, 6, 9, 13]).unwrap();
    assert_eq!(code.len(), 2);
    assert!(code.iter().all(|&entry| entry < 4));
    assert_eq!(opq.reconstruct_vector(&code).unwrap().len(), 4);
}

#[test]
fn optimized_training_that_fails_draws_nothing() {
    let instances = matrix((0..16).map(|i| vec![i, 2 * i, 3 * i, 16 - i]).collect());
    let mut rng = XorShiftRng::seed_from_u64(9);
    let untouched = rng.clone();
    let eigenvalues = vec![4i64, 3, 2, 1];
    let requests: Vec<(usize, u32, Vec<i64>, Matrix)> = vec![
        (3, 2, eigenvalues.clone(), identity(4)),
        (2, 0, eigenvalues.clone(), identity(4)),
        (2, usize::BITS, eigenvalues.clone(), identity(4)),
        (2, 2, vec![4, 3, 2], identity(4)),
        (2, 2, eigenvalues.clone(), identity(3)),
        (2, 2, eigenvalues.clone(), Matrix::zeros(4, 4).unwrap()),
    ];
    for (n_subquantizers, bits, eigenvalues, eigenvectors) in &requests {
        let trained =
            GaussianOPQ::train_using(*n_subquantizers, *bits, 3, 1, &instances, eigenvalues, eigenvectors, &mut rng);
        assert!(trained.is_err());
        assert!(rng == untouched);
    }
    assert!(GaussianOPQ::train_using(2, 2, 3, 1, &instances, &eigenvalues, &identity(4), &mut rng).is_ok());
    assert!(rng != untouched);
}
