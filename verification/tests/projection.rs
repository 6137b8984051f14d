use product_quantizer::error::PqError;
use product_quantizer::matrix::Matrix;
use product_quantizer::projection::{
    create_projection_matrix, orthonormal, rotate, rotate_back, rotate_rows, ROTATION_ONE,
};

const ONE: i32 = ROTATION_ONE as i32;

fn matrix(rows: Vec<Vec<i32>>) -> Matrix {
    Matrix::from_rows(&rows).unwrap()
}

fn identity(n: usize) -> Matrix {
    matrix((0..n).map(|r| (0..n).map(|c| if r == c { ONE } else { 0 }).collect()).collect())
}

/// The matrix that moves coordinate `i` to coordinate `i + 1`.
fn shift(n: usize) -> Matrix {
    matrix((0..n).map(|r| (0..n).map(|c| if (r + 1) % n == c { ONE } else { 0 }).collect()).collect())
}

#[test]
fn the_identity_rotates_nothing() {
    let x = vec![3, -4, 0, i32::MAX, i32::MIN];
    assert_eq!(rotate(&x, &identity(5)), Ok(x.clone()));
    assert_eq!(rotate_back(&x, &identity(5)), Ok(x));
    assert_eq!(rotate(&Vec::new(), &identity(0)), Ok(Vec::new()));
}

#[test]
fn a_quarter_turn_swaps_the_axes() {
    let turn = matrix(vec![vec![0, ONE], vec![-ONE, 0]]);
    assert_eq!(rotate(&vec![3, 5], &turn), Ok(vec![-5, 3]));
    assert_eq!(rotate_back(&vec![-5, 3], &turn), Ok(vec![3, 5]));
    assert_eq!(rotate_back(&vec![3, 5], &turn), Ok(vec![5, -3]));
}

#[test]
fn rotating_multiplies_with_the_columns() {
    // The cells stand for 1/2, 1/4, 1 and -1.
    let m = matrix(vec![vec![ONE / 2, ONE / 4], vec![ONE, -ONE]]);
    // x times m: 8/2 + 4 * 1 and 8/4 - 4.
    assert_eq!(rotate(&vec![8, 4], &m), Ok(vec![8, -2]));
    // y times the transpose of m: 8/2 + 4/4 and 8 - 4.
    assert_eq!(rotate_back(&vec![8, 4], &m), Ok(vec![5, 4]));
}

#[test]
fn halves_are_rounded_up() {
    let half = matrix(vec![vec![ONE / 2]]);
    assert_eq!(rotate(&vec![1], &half), Ok(vec![1]));
    assert_eq!(rotate(&vec![3], &half), Ok(vec![2]));
    assert_eq!(rotate(&vec![-1], &half), Ok(vec![0]));
    assert_eq!(rotate(&vec![-3], &half), Ok(vec![-1]));
    let third = matrix(vec![vec![ONE / 3]]);
    assert_eq!(rotate(&vec![1], &third), Ok(vec![0]));
    assert_eq!(rotate(&vec![2], &third), Ok(vec![1]));
    assert_eq!(rotate(&vec![-2], &third), Ok(vec![-1]));
}

#[test]
fn sums_beyond_the_range_are_refused() {
    let sum = matrix(vec![vec![ONE, -ONE], vec![ONE, -ONE]]);
    assert_eq!(rotate(&vec![i32::MAX, i32::MAX], &sum), Err(PqError::NumericalError));
    assert_eq!(rotate(&vec![i32::MIN, i32::MIN], &sum), Err(PqError::NumericalError));
    // The sums 2^31 - 1 and -2^31 are the last that are taken.
    assert_eq!(rotate(&vec![i32::MAX, 0], &sum), Ok(vec![i32::MAX, -i32::MAX]));
    assert_eq!(rotate(&vec![i32::MAX, 1], &sum), Err(PqError::NumericalError));
    assert_eq!(rotate(&vec![-i32::MAX, -1], &sum), Err(PqError::NumericalError));
    let large = matrix(vec![vec![i32::MAX, i32::MIN], vec![i32::MAX, i32::MIN]]);
    // The products of a row cancel but for 2^31, which stands for two.
    assert_eq!(rotate_back(&vec![i32::MIN, i32::MIN], &large), Ok(vec![2, 2]));
    assert_eq!(rotate_back(&vec![i32::MIN, i32::MAX], &large), Err(PqError::NumericalError));
    let instances = matrix(vec![vec![1, 2], vec![i32::MAX, i32::MAX]]);
    assert!(matches!(rotate_rows(&instances, &sum), Err(PqError::NumericalError)));
}

#[test]
fn rows_are_rotated_one_by_one() {
    let turn = matrix(vec![vec![0, ONE], vec![-ONE, 0]]);
    let instances = matrix(vec![vec![1, 2], vec![3, 4], vec![-5, 6]]);
    let rotated = rotate_rows(&instances, &turn).unwrap();
    assert_eq!((rotated.nrows(), rotated.ncols()), (3, 2));
    for r in 0..3 {
        assert_eq!(Ok(rotated.row(r)), rotate(&instances.row(r), &turn));
    }
    assert_eq!(rotated.row(2), vec![-6, -5]);
}

#[test]
fn orthonormal_columns_are_told_from_others() {
    assert!(orthonormal(&identity(4)));
    assert!(orthonormal(&shift(5)));
    assert!(orthonormal(&identity(0)));
    assert!(orthonormal(&matrix(vec![vec![0, ONE], vec![-ONE, 0]])));
    // A turn by 30 degrees, rounded to the grid.
    let (sin, cos) = (ONE / 2, 929887697);
    assert!(orthonormal(&matrix(vec![vec![cos, sin], vec![-sin, cos]])));
    // Columns that are too long, too short, or not at right angles.
    assert!(!orthonormal(&matrix(vec![vec![ONE, 0], vec![0, ONE + ONE / 2]])));
    assert!(!orthonormal(&matrix(vec![vec![ONE, 0], vec![0, 0]])));
    assert!(!orthonormal(&matrix(vec![vec![cos, cos], vec![-sin, sin]])));
    assert!(!orthonormal(&Matrix::zeros(3, 3).unwrap()));
}

#[test]
fn columns_are_orthonormal_within_one_part_in_1024() {
    // The largest and the smallest cell whose square lies within one part
    // in 1024 of the square of one.
    assert!(orthonormal(&matrix(vec![vec![1074265984]])));
    assert!(!orthonormal(&matrix(vec![vec![1074265985]])));
    assert!(orthonormal(&matrix(vec![vec![1073217408]])));
    assert!(!orthonormal(&matrix(vec![vec![1073217407]])));
    assert!(orthonormal(&matrix(vec![vec![-1073217408]])));
    // The product of the two columns is one part in 1024 of the square of
    // one, and a little more.
    assert!(orthonormal(&matrix(vec![vec![ONE, ONE / 1024], vec![0, ONE]])));
    assert!(!orthonormal(&matrix(vec![vec![ONE, ONE / 1024 + 1], vec![0, ONE]])));
    assert!(orthonormal(&matrix(vec![vec![ONE, -ONE / 1024], vec![0, ONE]])));
    assert!(!orthonormal(&matrix(vec![vec![ONE, -ONE / 1024 - 1], vec![0, ONE]])));
}

#[test]
fn the_columns_of_the_projection_walk_the_buckets() {
    // The buckets of these weights are {1, 3}, {5, 0} and {2, 4}.
    let weights = vec![2, 6, 4, 1, 3, 5];
    // Column `c` of the eigenvectors has its one in row `c - 1`.
    let projection = create_projection_matrix(&weights, &shift(6), 3).unwrap();
    assert_eq!((projection.nrows(), projection.ncols()), (6, 6));
    for (c, direction) in [1usize, 3, 5, 0, 2, 4].iter().enumerate() {
        for r in 0..6 {
            assert_eq!(projection.get(r, c), if (r + 1) % 6 == *direction { ONE } else { 0 });
        }
    }
}

#[test]
fn the_projection_of_an_eigenbasis_undoes_itself() {
    let weights = vec![2, 6, 4, 1, 3, 5];
    let projection = create_projection_matrix(&weights, &identity(6), 3).unwrap();
    let x = vec![10, 11, 12, 13, 14, 15];
    let y = rotate(&x, &projection).unwrap();
    assert_eq!(y, vec![11, 13, 15, 10, 12, 14]);
    assert_eq!(rotate_back(&y, &projection), Ok(x));
}

#[test]
fn a_projection_needs_sizes_that_fit() {
    let weights = vec![2, 6, 4, 1, 3, 5];
    let fails = |weights: &Vec<i64>, eigenvectors: &Matrix, n: usize| {
        create_projection_matrix(weights, eigenvectors, n).map(|_| ())
    };
    assert_eq!(fails(&weights, &identity(6), 4), Err(PqError::InvalidConfiguration));
    assert_eq!(fails(&weights, &identity(6), 0), Err(PqError::InvalidConfiguration));
    assert_eq!(fails(&weights, &identity(5), 3), Err(PqError::InvalidConfiguration));
    assert_eq!(fails(&weights, &Matrix::zeros(6, 5).unwrap(), 3), Err(PqError::InvalidConfiguration));
    assert_eq!(fails(&weights, &identity(6), 3), Ok(()));
}

#[test]
fn a_projection_needs_orthonormal_eigenvectors() {
    let weights = vec![2, 6, 4, 1, 3, 5];
    let skewed = matrix((0..6).map(|r| (0..6).map(|c| 10 * r + c).collect()).collect());
    assert_eq!(create_projection_matrix(&weights, &skewed, 3).map(|_| ()), Err(PqError::NumericalError));
    assert_eq!(
        create_projection_matrix(&weights, &Matrix::zeros(6, 6).unwrap(), 3).map(|_| ()),
        Err(PqError::NumericalError)
    );
    // The sizes are looked at first.
    assert_eq!(
        create_projection_matrix(&weights, &skewed, 4).map(|_| ()),
        Err(PqError::InvalidConfiguration)
    );
}
