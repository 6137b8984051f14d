use product_quantizer::error::PqError;
use product_quantizer::matrix::Matrix;
use product_quantizer::pq::{QuantizeVector, ReconstructVector, PQ};

/// The value on the grid of 1/65536 that is nearest to `v`.
fn fixed(v: f64) -> i32 {
    (v * 65536.0).round() as i32
}

fn matrix(rows: &[Vec<f64>]) -> Matrix {
    let rows: Vec<Vec<i32>> = rows.iter().map(|row| row.iter().map(|&v| fixed(v)).collect()).collect();
    Matrix::from_rows(&rows).unwrap()
}

fn rows(rows: &[Vec<f64>]) -> Vec<Vec<i32>> {
    rows.iter().map(|row| row.iter().map(|&v| fixed(v)).collect()).collect()
}

fn test_vectors() -> Vec<Vec<f64>> {
    vec![
        vec![0., 2., 0., -0.5, 0., 0.],
        vec![1., -0.2, 0., 0.5, 0.5, 0.],
        vec![-0.2, 0.2, 0., 0., -2., 0.],
        vec![1., 0.2, 0., 0., -2., 0.],
    ]
}

fn test_quantizations() -> Vec<Vec<usize>> {
    vec![vec![1, 1], vec![0, 1], vec![1, 0], vec![0, 0]]
}

fn test_reconstructions() -> Vec<Vec<f64>> {
    vec![
        vec![0., 1., 0., 0., 1., 0.],
        vec![1., 0., 0., 0., 1., 0.],
        vec![0., 1., 0., 1., -1., 0.],
        vec![1., 0., 0., 1., -1., 0.],
    ]
}

fn test_pq() -> PQ {
    let quantizers = vec![
        matrix(&[vec![1., 0., 0.], vec![0., 1., 0.]]),
        matrix(&[vec![1., -1., 0.], vec![0., 1., 0.]]),
    ];

    PQ::new(quantizers).unwrap()
}

#[test]
fn quantize_batch_with_predefined_codebook() {
    let pq = test_pq();

    assert_eq!(pq.quantize_batch(&matrix(&test_vectors())), Ok(test_quantizations()));
}

#[test]
fn quantize_with_predefined_codebook() {
    let pq = test_pq();

    for (vector, quantization) in rows(&test_vectors()).iter().zip(test_quantizations().iter()) {
        assert_eq!(pq.quantize_vector(vector).as_ref(), Ok(quantization));
    }
}

#[test]
fn reconstruct_batch_with_predefined_codebook() {
    let pq = test_pq();
    assert_eq!(
        pq.reconstruct_batch(&test_quantizations()),
        Ok(rows(&test_reconstructions()))
    );
}

#[test]
fn reconstruct_with_predefined_codebook() {
    let pq = test_pq();

    for (quantization, reconstruction) in test_quantizations().iter().zip(rows(&test_reconstructions()).iter()) {
        assert_eq!(pq.reconstruct_vector(quantization).as_ref(), Ok(reconstruction));
    }
}

#[test]
fn quantize_rejects_vectors_of_another_length() {
    let pq = test_pq();
    assert_eq!(pq.quantize_vector(&vec![0; 5]), Err(PqError::DimensionMismatch));
    assert_eq!(pq.quantize_vector(&vec![0; 7]), Err(PqError::DimensionMismatch));
    assert_eq!(pq.quantize_vector(&Vec::new()), Err(PqError::DimensionMismatch));
    let narrow = Matrix::from_rows(&vec![vec![0; 5], vec![0; 5]]).unwrap();
    assert_eq!(pq.quantize_batch(&narrow), Err(PqError::DimensionMismatch));
}

#[test]
fn reconstruct_rejects_codes_of_another_length() {
    let pq = test_pq();
    assert_eq!(pq.reconstruct_vector(&vec![0]), Err(PqError::DimensionMismatch));
    assert_eq!(pq.reconstruct_vector(&vec![0, 1, 0]), Err(PqError::DimensionMismatch));
    assert_eq!(
        pq.reconstruct_batch(&vec![vec![0, 1], vec![0]]),
        Err(PqError::DimensionMismatch)
    );
}

#[test]
fn reconstruct_rejects_entries_that_name_no_centroid() {
    let pq = test_pq();
    assert_eq!(pq.reconstruct_vector(&vec![0, 2]), Err(PqError::InvalidCode));
    assert_eq!(pq.reconstruct_vector(&vec![usize::MAX, 0]), Err(PqError::InvalidCode));
    assert_eq!(
        pq.reconstruct_batch(&vec![vec![0, 1], vec![2, 0]]),
        Err(PqError::InvalidCode)
    );
    // The lengths are looked at first.
    assert_eq!(
        pq.reconstruct_batch(&vec![vec![0, 2], vec![0]]),
        Err(PqError::DimensionMismatch)
    );
}

#[test]
fn codes_have_one_entry_per_subquantizer() {
    let pq = test_pq();
    for vector in rows(&test_vectors()) {
        let code = pq.quantize_vector(&vector).unwrap();
        assert_eq!(code.len(), 2);
        assert!(code.iter().all(|&entry| entry < 2));
        assert_eq!(pq.reconstruct_vector(&code).unwrap().len(), 6);
    }
}

#[test]
fn requantizing_a_reconstruction_gives_the_code() {
    let pq = test_pq();
    for first in 0..2 {
        for second in 0..2 {
            let code = vec![first, second];
            let vector = pq.reconstruct_vector(&code).unwrap();
            assert_eq!(pq.quantize_vector(&vector), Ok(code));
        }
    }
}

#[test]
fn equally_near_centroids_give_the_lower_index() {
    let quantizers = vec![Matrix::from_rows(&vec![vec![2], vec![-2], vec![2]]).unwrap()];
    let pq = PQ::new(quantizers).unwrap();
    assert_eq!(pq.quantize_vector(&vec![0]), Ok(vec![0]));
    assert_eq!(pq.quantize_vector(&vec![-1]), Ok(vec![1]));
    // A copy of an earlier centroid is never the nearest.
    assert_eq!(pq.quantize_vector(&pq.reconstruct_vector(&vec![2]).unwrap()), Ok(vec![0]));
}

#[test]
fn distances_of_extreme_coordinates_do_not_overflow() {
    let quantizers = vec![Matrix::from_rows(&vec![vec![i32::MIN, i32::MIN], vec![i32::MAX, i32::MAX]]).unwrap()];
    let pq = PQ::new(quantizers).unwrap();
    assert_eq!(pq.quantize_vector(&vec![i32::MAX, i32::MAX]), Ok(vec![1]));
    assert_eq!(pq.quantize_vector(&vec![i32::MIN, -1]), Ok(vec![0]));
    assert_eq!(pq.quantize_vector(&vec![0, 0]), Ok(vec![1]));
}

#[test]
fn batches_agree_with_single_calls() {
    let pq = test_pq();
    let vectors = rows(&test_vectors());
    let codes = pq.quantize_batch(&Matrix::from_rows(&vectors).unwrap()).unwrap();
    let reconstructions = pq.reconstruct_batch(&codes).unwrap();
    for ((vector, code), reconstruction) in vectors.iter().zip(codes.iter()).zip(reconstructions.iter()) {
        assert_eq!(pq.quantize_vector(vector).as_ref(), Ok(code));
        assert_eq!(pq.reconstruct_vector(code).as_ref(), Ok(reconstruction));
    }
}

#[test]
fn codebooks_must_have_a_common_shape() {
    assert!(matches!(PQ::new(Vec::new()), Err(PqError::InvalidConfiguration)));
    let ragged = vec![
        Matrix::from_rows(&vec![vec![1, 2], vec![3, 4]]).unwrap(),
        Matrix::from_rows(&vec![vec![1, 2, 3], vec![4, 5, 6]]).unwrap(),
    ];
    assert!(matches!(PQ::new(ragged), Err(PqError::InvalidConfiguration)));
    let uneven = vec![
        Matrix::from_rows(&vec![vec![1, 2], vec![3, 4]]).unwrap(),
        Matrix::from_rows(&vec![vec![1, 2]]).unwrap(),
    ];
    assert!(matches!(PQ::new(uneven), Err(PqError::InvalidConfiguration)));
    let empty = vec![Matrix::from_rows(&Vec::new()).unwrap()];
    assert!(matches!(PQ::new(empty), Err(PqError::InvalidConfiguration)));
}

#[test]
fn no_code_stands_for_a_nearer_vector() {
    let pq = test_pq();
    let distance = |a: &Vec<i32>, b: &Vec<i32>| -> i128 {
        a.iter().zip(b.iter()).map(|(&x, &y)| (x as i128 - y as i128) * (x as i128 - y as i128)).sum()
    };
    for vector in rows(&test_vectors()) {
        let code = pq.quantize_vector(&vector).unwrap();
        let nearest = distance(&pq.reconstruct_vector(&code).unwrap(), &vector);
        for first in 0..2 {
            for second in 0..2 {
                let other = pq.reconstruct_vector(&vec![first, second]).unwrap();
                assert!(nearest <= distance(&other, &vector));
            }
        }
    }
}
