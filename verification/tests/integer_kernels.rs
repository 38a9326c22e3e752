use par_matmul::generate::random_matrix;
use par_matmul::generate::square_len;
use par_matmul::mat_mul_parallel;
use par_matmul::mat_mul_serial;
use par_matmul::mat_mul_workers;
use par_matmul::verify_result;
use par_matmul::Scalar;
use par_matmul::Verdict;
use std::cell::Cell;

#[test]
fn integer_product_is_exact() {
    let a: Vec<i64> = vec![1, 2, 3, 4];
    let b: Vec<i64> = vec![5, 6, 7, 8];
    let mut s = vec![0i64; 4];
    mat_mul_serial(&a, &b, &mut s, 2);
    assert_eq!(s, vec![19, 22, 43, 50]);
    let mut p = vec![0i64; 4];
    mat_mul_parallel(&a, &b, &mut p, 2);
    assert_eq!(p, vec![19, 22, 43, 50]);
    let mut w = vec![1i64; 4];
    mat_mul_workers(&a, &b, &mut w, 2, 2);
    assert_eq!(w, vec![20, 23, 44, 51]);
}

#[test]
fn integer_ones_times_twos() {
    let a = vec![1i64; 9];
    let b = vec![2i64; 9];
    let mut c = vec![0i64; 9];
    mat_mul_serial(&a, &b, &mut c, 3);
    assert_eq!(c, vec![6i64; 9]);
}

#[test]
fn integer_arithmetic_wraps() {
    assert_eq!(<i64 as Scalar>::accumulate(i64::MAX, 1, 1), i64::MIN);
    assert_eq!(<i64 as Scalar>::accumulate(0, i64::MAX, 2), -2);
    assert_eq!(<i64 as Scalar>::accumulate(5, -3, 4), -7);
    assert!(<i64 as Scalar>::differs(1, 2));
    assert!(!<i64 as Scalar>::differs(7, 7));
    let a = vec![i64::MAX];
    let b = vec![2i64];
    let mut c = vec![3i64];
    mat_mul_parallel(&a, &b, &mut c, 1);
    assert_eq!(c, vec![1]);
}

#[test]
fn every_worker_count_gives_the_serial_result() {
    for n in 0usize..10 {
        let next = Cell::new(0i64);
        let a = random_matrix(n, || {
            next.set(next.get() + 3);
            next.get() % 11 - 5
        });
        let b = random_matrix(n, || {
            next.set(next.get() + 7);
            next.get() % 13 - 6
        });
        let mut s = vec![1i64; n * n];
        mat_mul_serial(&a, &b, &mut s, n);
        for workers in 1..=(2 * n + 2) {
            let mut w = vec![1i64; n * n];
            mat_mul_workers(&a, &b, &mut w, n, workers);
            assert_eq!(w, s);
            assert_eq!(verify_result(&s, &w, n), Verdict::Match);
        }
        let mut p = vec![1i64; n * n];
        mat_mul_parallel(&a, &b, &mut p, n);
        assert_eq!(p, s);
    }
}

#[test]
fn parallel_kernel_changes_the_output() {
    let a = vec![1i64, 0, 0, 1];
    let b = vec![2i64, 3, 4, 5];
    let mut c = vec![0i64; 4];
    mat_mul_parallel(&a, &b, &mut c, 2);
    assert_ne!(c, vec![0i64; 4]);
    assert_eq!(c, b);
}

#[test]
fn integers_differ_when_unequal() {
    let a = vec![1i64, 2, 3, 4];
    let b = vec![1i64, 2, 3, 5];
    assert_eq!(verify_result(&a, &a, 2), Verdict::Match);
    assert_eq!(verify_result(&a, &b, 2), Verdict::Mismatch { row: 1, col: 1, left: 4, right: 5 });
    assert!(verify_result(&a, &a, 2).is_match());
    assert!(!verify_result(&a, &b, 2).is_match());
}

#[test]
fn matrix_is_filled_first_to_last() {
    let next = Cell::new(0u32);
    let m = random_matrix(3, || {
        next.set(next.get() + 1);
        next.get()
    });
    assert_eq!(m, vec![1, 2, 3, 4, 5, 6, 7, 8, 9]);
    assert_eq!(next.get(), 9);
    let empty: Vec<u32> = random_matrix(0, || 1);
    assert!(empty.is_empty());
}

#[test]
fn square_len_checks_the_word_size() {
    assert_eq!(square_len(0), Some(0));
    assert_eq!(square_len(1), Some(1));
    assert_eq!(square_len(1024), Some(1_048_576));
    assert_eq!(square_len(usize::MAX), None);
    assert_eq!(square_len(1 << (usize::BITS / 2)), None);
    let largest = (1usize << (usize::BITS / 2)) - 1;
    assert_eq!(square_len(largest), Some(largest * largest));
}
