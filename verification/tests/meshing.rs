use gridiron::meshing::{block_dims, integer_square_root, prime_factors};

#[test]
fn integer_square_root_works() {
    assert_eq!(integer_square_root(0), 0);
    assert_eq!(integer_square_root(1), 1);
    assert_eq!(integer_square_root(2), 1);
    assert_eq!(integer_square_root(4), 2);
    assert_eq!(integer_square_root(35), 5);
    assert_eq!(integer_square_root(36), 6);
}

#[test]
fn prime_factors_works() {
    assert_eq!(prime_factors(1), vec![]);
    assert_eq!(prime_factors(2), vec![2]);
    assert_eq!(prime_factors(3), vec![3]);
    assert_eq!(prime_factors(4), vec![2, 2]);
    assert_eq!(prime_factors(5), vec![5]);
    assert_eq!(prime_factors(6), vec![2, 3]);
    assert_eq!(prime_factors(9), vec![3, 3]);
    assert_eq!(prime_factors(12), vec![2, 2, 3]);
    assert_eq!(prime_factors(100), vec![2, 2, 5, 5]);
}

#[test]
fn block_dims_works() {
    assert_eq!(block_dims(1, 2), vec![1, 1]);
    assert_eq!(block_dims(1, 3), vec![1, 1, 1]);
    assert_eq!(block_dims(4, 2), vec![2, 2]);
    assert_eq!(block_dims(5, 2), vec![5, 1]);
    assert_eq!(block_dims(10, 2), vec![2, 5]);
    assert_eq!(block_dims(16, 2), vec![4, 4]);
    assert_eq!(block_dims(200, 2), vec![20, 10]);
    assert_eq!(block_dims(200, 3), vec![10, 10, 2]);
    assert_eq!(block_dims(1000, 3), vec![10, 10, 10]);
    assert_eq!(block_dims(2000, 3), vec![20, 10, 10]);
}
