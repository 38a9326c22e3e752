use par_matmul::partition::row_owner;
use par_matmul::partition::rows_per_worker;
use par_matmul::partition::worker_rows;

#[test]
fn rows_per_worker_rounds_up() {
    assert_eq!(rows_per_worker(10, 4), 3);
    assert_eq!(rows_per_worker(12, 4), 3);
    assert_eq!(rows_per_worker(13, 4), 4);
    assert_eq!(rows_per_worker(0, 5), 0);
    assert_eq!(rows_per_worker(3, 8), 1);
    assert_eq!(rows_per_worker(7, 1), 7);
    assert_eq!(rows_per_worker(usize::MAX, 2), usize::MAX / 2 + 1);
    assert_eq!(rows_per_worker(usize::MAX, usize::MAX), 1);
}

#[test]
fn worker_rows_known_values() {
    assert_eq!(worker_rows(10, 4, 0), (0, 3));
    assert_eq!(worker_rows(10, 4, 1), (3, 6));
    assert_eq!(worker_rows(10, 4, 2), (6, 9));
    assert_eq!(worker_rows(10, 4, 3), (9, 10));
    assert_eq!(worker_rows(10, 3, 0), (0, 4));
    assert_eq!(worker_rows(10, 3, 2), (8, 10));
    assert_eq!(worker_rows(2, 4, 1), (1, 2));
    assert_eq!(worker_rows(2, 4, 2), (2, 2));
    assert_eq!(worker_rows(2, 4, 3), (2, 2));
    assert_eq!(worker_rows(0, 4, 2), (0, 0));
    assert_eq!(worker_rows(9, 4, 3), (9, 9));
}

#[test]
fn worker_rows_do_not_overflow() {
    let workers = usize::MAX / 2 + 2;
    assert_eq!(rows_per_worker(usize::MAX, workers), 2);
    assert_eq!(worker_rows(usize::MAX, workers, 0), (0, 2));
    assert_eq!(worker_rows(usize::MAX, workers, usize::MAX / 2), (usize::MAX - 1, usize::MAX));
    assert_eq!(worker_rows(usize::MAX, workers, workers - 1), (usize::MAX, usize::MAX));
    assert_eq!(worker_rows(usize::MAX, 1, 0), (0, usize::MAX));
    assert_eq!(worker_rows(usize::MAX, 1, usize::MAX), (usize::MAX, usize::MAX));
}

#[test]
fn every_row_is_tagged_by_exactly_one_worker() {
    for n in 0usize..40 {
        for workers in 1usize..50 {
            let mut tag: Vec<Option<usize>> = vec![None; n];
            let mut next = 0;
            for w in 0..workers {
                let (first, end) = worker_rows(n, workers, w);
                assert_eq!(first, next);
                assert!(first <= end && end <= n);
                for row in first..end {
                    assert_eq!(tag[row], None);
                    tag[row] = Some(w);
                }
                next = end;
            }
            assert_eq!(next, n);
            for row in 0..n {
                assert_eq!(tag[row], Some(row_owner(n, workers, row)));
            }
        }
    }
}

#[test]
fn row_owner_known_values() {
    assert_eq!(row_owner(10, 4, 0), 0);
    assert_eq!(row_owner(10, 4, 2), 0);
    assert_eq!(row_owner(10, 4, 3), 1);
    assert_eq!(row_owner(10, 4, 8), 2);
    assert_eq!(row_owner(10, 4, 9), 3);
    assert_eq!(row_owner(5, 100, 4), 4);
    assert_eq!(row_owner(5, 1, 4), 0);
}
