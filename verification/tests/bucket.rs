use product_quantizer::bucket;
use product_quantizer::bucket::sort_directions;
use product_quantizer::error::PqError;

/// The logarithms of the eigenvalues, each raised by the smallest step
/// between floats, in steps of 2^-52.
fn weights(eigenvalues: &[f64]) -> Vec<i64> {
    eigenvalues.iter().map(|&v| ((v + f64::EPSILON).ln() * 4503599627370496.0).round() as i64).collect()
}

fn fake_eigenvalues() -> Vec<i64> {
    weights(&[0.2, 0.6, 0.4, 0.1, 0.3, 0.5])
}

#[test]
fn bucket_eigenvalues() {
    // Some fake eigenvalues.
    let eigenvalues = fake_eigenvalues();
    assert_eq!(
        bucket::bucket_eigenvalues(&eigenvalues, 3),
        Ok(vec![vec![1, 3], vec![5, 0], vec![2, 4]])
    );
}

#[test]
fn bucket_large_eigenvalues() {
    let eigenvalues = weights(&[11174., 23450., 30835., 1557., 32425., 5154.]);
    assert_eq!(
        bucket::bucket_eigenvalues(&eigenvalues, 3),
        Ok(vec![vec![4, 3], vec![2, 5], vec![1, 0]])
    );
}

#[test]
#[should_panic]
fn bucket_eigenvalues_uneven() {
    // Some fake eigenvalues.
    let eigenvalues = fake_eigenvalues();
    bucket::bucket_eigenvalues(&eigenvalues, 4).unwrap();
}

#[test]
fn bucket_rejects_bucket_counts_that_do_not_divide() {
    let eigenvalues = fake_eigenvalues();
    assert_eq!(bucket::bucket_eigenvalues(&eigenvalues, 4), Err(PqError::InvalidConfiguration));
    assert_eq!(bucket::bucket_eigenvalues(&eigenvalues, 0), Err(PqError::InvalidConfiguration));
    assert_eq!(bucket::bucket_eigenvalues(&eigenvalues, 12), Err(PqError::InvalidConfiguration));
    assert_eq!(bucket::bucket_eigenvalues(&Vec::new(), 1), Err(PqError::InvalidConfiguration));
}

#[test]
fn buckets_partition_the_directions() {
    let eigenvalues: Vec<i64> = (0..24).map(|i| (i * 7919) % 1000 - 500).collect();
    for n_buckets in [1usize, 2, 3, 4, 6, 8, 12, 24] {
        let buckets = bucket::bucket_eigenvalues(&eigenvalues, n_buckets).unwrap();
        assert_eq!(buckets.len(), n_buckets);
        let mut seen = vec![false; eigenvalues.len()];
        for bucket in &buckets {
            assert_eq!(bucket.len(), eigenvalues.len() / n_buckets);
            for &direction in bucket {
                assert!(!seen[direction]);
                seen[direction] = true;
            }
        }
        assert!(seen.iter().all(|&s| s));
    }
}

#[test]
fn equal_weights_go_to_buckets_by_index() {
    // All weights are equal: the directions are handed out from the
    // highest index down, each to the first bucket with room, since no sum
    // ever differs from zero.
    assert_eq!(
        bucket::bucket_eigenvalues(&vec![5, 5, 5, 5], 2),
        Ok(vec![vec![3, 2], vec![1, 0]])
    );
}

#[test]
fn larger_sums_wait_for_smaller_ones() {
    // The largest direction goes to the first bucket, which from then on
    // has the largest sum: the second and the third bucket are filled
    // before it gets its second direction.
    assert_eq!(
        bucket::bucket_eigenvalues(&vec![0, 10, 0, 0, 0, 0], 3),
        Ok(vec![vec![1, 0], vec![5, 4], vec![3, 2]])
    );
    // With weights that differ, the bucket with the smallest sum is next.
    assert_eq!(
        bucket::bucket_eigenvalues(&vec![1, 2, 3, 4, 5, 6], 2),
        Ok(vec![vec![5, 2, 1], vec![4, 3, 0]])
    );
}

#[test]
fn weights_are_taken_above_the_smallest() {
    // Above the smallest the weights are 0, 1, 2 and 4: the second bucket
    // has the sum 2 when the first has 4, and takes the next direction.
    // Taken as they are, the sums would be -6 and -8, and the first bucket
    // would take it.
    assert_eq!(
        bucket::bucket_eigenvalues(&vec![-10, -9, -8, -6], 2),
        Ok(vec![vec![3, 0], vec![2, 1]])
    );
    // The widest weights: above the smallest they are 0, 2^64 - 1, 2^63 and
    // 2^63 - 1.
    assert_eq!(
        bucket::bucket_eigenvalues(&vec![i64::MIN, i64::MAX, 0, -1], 2),
        Ok(vec![vec![1, 0], vec![2, 3]])
    );
}

#[test]
fn the_largest_directions_lead_the_buckets() {
    // The logarithms of these eigenvalues differ by less than 2^-34.
    let base = (1u64 << 35) as f64;
    let eigenvalues = weights(&[base + 3., base + 2., base + 1., base]);
    assert_eq!(
        bucket::bucket_eigenvalues(&eigenvalues, 2),
        Ok(vec![vec![0, 3], vec![1, 2]])
    );
}

#[test]
fn sums_of_logarithms_are_balanced() {
    let eigenvalues = weights(&[3., 13., 1., 16., 2., 4.]);
    assert_eq!(
        bucket::bucket_eigenvalues(&eigenvalues, 2),
        Ok(vec![vec![3, 0, 4], vec![1, 5, 2]])
    );
}

#[test]
fn directions_are_sorted_by_weight_then_index() {
    assert_eq!(sort_directions(&vec![3, 1, 2, 1, 3, 0]), vec![5, 1, 3, 2, 0, 4]);
    assert_eq!(sort_directions(&vec![0, -1, i64::MAX, i64::MIN]), vec![3, 1, 0, 2]);
    assert_eq!(sort_directions(&Vec::new()), Vec::<usize>::new());
}
