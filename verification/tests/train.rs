use product_quantizer::error::PqError;
use product_quantizer::matrix::Matrix;
use product_quantizer::pq::{checked_pow2, initial_centroids, QuantizeVector, ReconstructVector, PQ};
use rand::{Rng, SeedableRng};
use rand_xorshift::XorShiftRng;

fn matrix(rows: Vec<Vec<i32>>) -> Matrix {
    Matrix::from_rows(&rows).unwrap()
}

/// Four well separated clouds of points in the first two dimensions, and
/// two in the last two.
fn clouds() -> Matrix {
    let mut rng = XorShiftRng::seed_from_u64(7);
    let mut rows = Vec::new();
    for i in 0..64 {
        let front = [(0, 0), (1000, 0), (0, 1000), (1000, 1000)][i % 4];
        let back = [(-500, -500), (500, 500)][i % 2];
        rows.push(vec![
            front.0 + rng.gen_range(-20..=20),
            front.1 + rng.gen_range(-20..=20),
            back.0 + rng.gen_range(-20..=20),
            back.1 + rng.gen_range(-20..=20),
        ]);
    }
    matrix(rows)
}

#[test]
fn training_checks_the_sizes() {
    let instances = clouds();
    let check = |n_subquantizers, bits, iterations, attempts| {
        PQ::check_quantizer_invariants(n_subquantizers, bits, iterations, attempts, &instances)
    };
    assert_eq!(check(2, 2, 10, 1), Ok(()));
    assert_eq!(check(1, 1, 1, 1), Ok(()));
    assert_eq!(check(4, 8, 1, 3), Ok(()));
    assert_eq!(check(0, 2, 10, 1), Err(PqError::InvalidConfiguration));
    assert_eq!(check(5, 2, 10, 1), Err(PqError::InvalidConfiguration));
    assert_eq!(check(3, 2, 10, 1), Err(PqError::InvalidConfiguration));
    assert_eq!(check(2, 0, 10, 1), Err(PqError::InvalidConfiguration));
    assert_eq!(check(2, 2, 0, 1), Err(PqError::InvalidConfiguration));
    assert_eq!(check(2, 2, 10, 0), Err(PqError::InvalidConfiguration));
}

#[test]
fn training_fails_on_sizes_that_do_not_fit() {
    let instances = clouds();
    let mut rng = XorShiftRng::seed_from_u64(1);
    let mut train = |n_subquantizers, bits, iterations, attempts| {
        PQ::train_using(n_subquantizers, bits, iterations, attempts, &instances, &mut rng).map(|_| ())
    };
    assert_eq!(train(0, 2, 10, 1), Err(PqError::InvalidConfiguration));
    assert_eq!(train(3, 2, 10, 1), Err(PqError::InvalidConfiguration));
    assert_eq!(train(8, 2, 10, 1), Err(PqError::InvalidConfiguration));
    assert_eq!(train(2, 0, 10, 1), Err(PqError::InvalidConfiguration));
    assert_eq!(train(2, 2, 0, 1), Err(PqError::InvalidConfiguration));
    assert_eq!(train(2, 2, 10, 0), Err(PqError::InvalidConfiguration));
    // A codebook of so many centroids cannot be built.
    assert_eq!(train(2, usize::BITS, 10, 1), Err(PqError::InvalidConfiguration));
    assert_eq!(train(2, usize::BITS - 4, 10, 1), Err(PqError::InvalidConfiguration));
    assert_eq!(train(2, u32::MAX, 10, 1), Err(PqError::InvalidConfiguration));
    assert_eq!(train(2, 2, 1, 1), Ok(()));
}

#[test]
fn powers_of_two_that_fit_are_computed() {
    assert_eq!(checked_pow2(0), Some(1));
    assert_eq!(checked_pow2(7), Some(128));
    assert_eq!(checked_pow2(usize::BITS - 1), Some(1 << (usize::BITS - 1)));
    assert_eq!(checked_pow2(usize::BITS), None);
    assert_eq!(PQ::codebook_len_for(3, 5), Some(8));
    assert_eq!(PQ::codebook_len_for(usize::BITS - 1, 2), None);
    // The cells of a codebook take four bytes each.
    assert_eq!(PQ::codebook_len_for(usize::BITS - 4, 1), Some(1 << (usize::BITS - 4)));
    assert_eq!(PQ::codebook_len_for(usize::BITS - 4, 2), None);
    assert_eq!(PQ::codebook_len_for(usize::BITS - 3, 1), None);
}

#[test]
fn a_trained_quantizer_has_the_sizes_asked_for() {
    let instances = clouds();
    let mut rng = XorShiftRng::seed_from_u64(42);
    let pq = PQ::train_using(2, 3, 5, 2, &instances, &mut rng).unwrap();
    assert_eq!(pq.quantizer_len(), 4);
    assert_eq!(pq.subquantizers().len(), 2);
    for quantizer in pq.subquantizers() {
        assert_eq!((quantizer.nrows(), quantizer.ncols()), (8, 2));
    }
    for r in 0..instances.nrows() {
        let code = pq.quantize_vector(&instances.row(r)).unwrap();
        assert_eq!(code.len(), 2);
        assert!(code.iter().all(|&entry| entry < 8));
        assert_eq!(pq.reconstruct_vector(&code).unwrap().len(), 4);
    }
}

#[test]
fn training_is_reproducible_for_a_seed() {
    let instances = clouds();
    let train = |seed| {
        let mut rng = XorShiftRng::seed_from_u64(seed);
        let pq = PQ::train_using(2, 2, 10, 3, &instances, &mut rng).unwrap();
        let rows: Vec<Vec<i32>> =
            pq.subquantizers().iter().flat_map(|q| (0..q.nrows()).map(|r| q.row(r)).collect::<Vec<_>>()).collect();
        rows
    };
    assert_eq!(train(5), train(5));
}

#[test]
fn a_trained_quantizer_finds_the_clouds() {
    let instances = clouds();
    let mut rng = XorShiftRng::seed_from_u64(3);
    // With several attempts each of the four clouds gets a centroid.
    let pq = PQ::train_using(2, 2, 10, 8, &instances, &mut rng).unwrap();
    let codes = pq.quantize_batch(&instances).unwrap();
    let reconstructions = pq.reconstruct_batch(&codes).unwrap();
    for r in 0..instances.nrows() {
        let instance = instances.row(r);
        for c in 0..2 {
            assert!((instance[c] - reconstructions[r][c]).abs() <= 40);
        }
    }
}

#[test]
fn first_centroids_are_instances() {
    let instances = clouds();
    let mut rng = XorShiftRng::seed_from_u64(11);
    let quantizers = initial_centroids(2, 16, &instances, &mut rng);
    assert_eq!(quantizers.len(), 2);
    for (sq, quantizer) in quantizers.iter().enumerate() {
        assert_eq!((quantizer.nrows(), quantizer.ncols()), (16, 2));
        for r in 0..quantizer.nrows() {
            let centroid = quantizer.row(r);
            assert!((0..instances.nrows()).any(|i| instances.row_slice(i, 2 * sq, 2) == centroid));
        }
    }
}

#[test]
fn more_first_centroids_than_instances_are_drawn_too() {
    let instances = matrix(vec![vec![1, 2], vec![3, 4]]);
    let mut rng = XorShiftRng::seed_from_u64(11);
    let quantizers = initial_centroids(1, 8, &instances, &mut rng);
    assert_eq!((quantizers[0].nrows(), quantizers[0].ncols()), (8, 2));
    for r in 0..8 {
        let centroid = quantizers[0].row(r);
        assert!(centroid == vec![1, 2] || centroid == vec![3, 4]);
    }
    let pq = PQ::train_using(1, 3, 2, 1, &instances, &mut rng).unwrap();
    assert_eq!(pq.reconstruct_vector(&pq.quantize_vector(&vec![3, 4]).unwrap()), Ok(vec![3, 4]));
}

#[test]
fn without_instances_the_first_centroids_are_zero() {
    let instances = Matrix::zeros(0, 4).unwrap();
    let mut rng = XorShiftRng::seed_from_u64(11);
    let quantizers = initial_centroids(2, 4, &instances, &mut rng);
    for quantizer in &quantizers {
        for r in 0..4 {
            assert_eq!(quantizer.row(r), vec![0, 0]);
        }
    }
    let pq = PQ::train_using(2, 2, 3, 2, &instances, &mut rng).unwrap();
    assert_eq!(pq.quantize_vector(&vec![5, 5, 5, 5]), Ok(vec![0, 0]));
}

#[test]
fn the_attempt_with_the_lowest_loss_is_kept() {
    let instances = matrix(vec![vec![9, 0], vec![9, 2], vec![9, 10], vec![9, 12]]);
    // The first attempt never leaves its one cluster; the second finds both.
    let poor = matrix(vec![vec![6], vec![100]]);
    let good = matrix(vec![vec![0], vec![10]]);
    let trained = PQ::train_subquantizer(1, &vec![poor.clone(), good.clone()], 2, &instances);
    assert_eq!((trained.row(0), trained.row(1)), (vec![1], vec![11]));
    let trained = PQ::train_subquantizer(1, &vec![good.clone(), poor.clone()], 2, &instances);
    assert_eq!((trained.row(0), trained.row(1)), (vec![1], vec![11]));
    let trained = PQ::train_subquantizer(1, &vec![poor], 2, &instances);
    assert_eq!((trained.row(0), trained.row(1)), (vec![6], vec![100]));
}

#[test]
fn of_attempts_with_the_same_loss_the_first_is_kept() {
    let instances = matrix(vec![vec![0], vec![2], vec![10], vec![12]]);
    // Both attempts end with the loss 4, with the centroids in another order.
    let first = matrix(vec![vec![10], vec![0]]);
    let second = matrix(vec![vec![0], vec![10]]);
    let trained = PQ::train_subquantizer(0, &vec![first, second], 1, &instances);
    assert_eq!((trained.row(0), trained.row(1)), (vec![11], vec![1]));
}

#[test]
fn fewer_first_centroids_than_instances_are_all_different() {
    // No two rows of these instances are equal.
    let instances = matrix((0..40).map(|i| vec![i, 100 - i, 7 * i, -i]).collect());
    for seed in 0..8 {
        let mut rng = XorShiftRng::seed_from_u64(seed);
        let quantizers = initial_centroids(2, 16, &instances, &mut rng);
        for quantizer in &quantizers {
            let mut rows: Vec<Vec<i32>> = (0..quantizer.nrows()).map(|r| quantizer.row(r)).collect();
            rows.sort();
            rows.dedup();
            assert_eq!(rows.len(), 16);
        }
    }
}

#[test]
fn as_many_first_centroids_as_instances_take_each_once() {
    let instances = matrix((0..8).map(|i| vec![i, 10 * i]).collect());
    for seed in 0..8 {
        let mut rng = XorShiftRng::seed_from_u64(seed);
        let quantizers = initial_centroids(1, 8, &instances, &mut rng);
        let mut rows: Vec<Vec<i32>> = (0..8).map(|r| quantizers[0].row(r)).collect();
        rows.sort();
        let mut expected: Vec<Vec<i32>> = (0..8).map(|r| instances.row(r)).collect();
        expected.sort();
        assert_eq!(rows, expected);
    }
}

#[test]
fn training_that_fails_draws_nothing() {
    let instances = clouds();
    let mut rng = XorShiftRng::seed_from_u64(1);
    let untouched = rng.clone();
    for (n_subquantizers, bits, iterations, attempts) in
        [(0, 2, 10, 1), (3, 2, 10, 1), (2, 0, 10, 1), (2, 2, 0, 1), (2, 2, 10, 0), (2, usize::BITS, 10, 1)]
    {
        assert!(PQ::train_using(n_subquantizers, bits, iterations, attempts, &instances, &mut rng).is_err());
        assert!(rng == untouched);
    }
    assert!(PQ::train_using(2, 2, 1, 1, &instances, &mut rng).is_ok());
    assert!(rng != untouched);
}

#[test]
fn of_too_many_instances_the_first_are_taken() {
    // So many rows cannot be sampled from; without columns they take no room.
    let n = usize::MAX / 64 + 1;
    let instances = Matrix::zeros(n, 0).unwrap();
    let mut rng = XorShiftRng::seed_from_u64(5);
    let untouched = rng.clone();
    let quantizers = initial_centroids(1, 3, &instances, &mut rng);
    assert_eq!(quantizers.len(), 1);
    assert_eq!((quantizers[0].nrows(), quantizers[0].ncols()), (3, 0));
    assert!(rng == untouched);
    // One row fewer, and the rows are sampled.
    let instances = Matrix::zeros(n - 1, 0).unwrap();
    let quantizers = initial_centroids(1, 3, &instances, &mut rng);
    assert_eq!((quantizers[0].nrows(), quantizers[0].ncols()), (3, 0));
    assert!(rng != untouched);
}
