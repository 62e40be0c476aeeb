use katas::concurrency::{
    calculate_squares, chunk_size, parallel_factorials, parallel_prime_check, run_work_queue,
    worker_step, BankAccount, SharedCounter, WorkerAction,
};

#[test]
fn test_calculate_squares_in_order() {
    assert_eq!(calculate_squares(vec![1, -2, 3, 0]), vec![1, 4, 9, 0]);
}

#[test]
fn test_calculate_squares_empty() {
    assert_eq!(calculate_squares(Vec::new()), Vec::<i32>::new());
}

#[test]
fn test_chunk_size_ceiling() {
    assert_eq!(chunk_size(10, 3), 4);
    assert_eq!(chunk_size(9, 3), 3);
    assert_eq!(chunk_size(1, 5), 1);
    assert_eq!(chunk_size(0, 4), 0);
}

#[test]
fn test_parallel_prime_check_pairs() {
    let r = parallel_prime_check(vec![2, 4, 7, 9, 11], 2);
    assert_eq!(r, vec![(2, true), (4, false), (7, true), (9, false), (11, true)]);
}

#[test]
fn test_parallel_prime_check_one_worker() {
    let r = parallel_prime_check(vec![1, 13], 1);
    assert_eq!(r, vec![(1, false), (13, true)]);
}

#[test]
fn test_parallel_factorials_multiset() {
    let mut r = parallel_factorials(vec![3, 5, 0, 1]);
    r.sort();
    assert_eq!(r, vec![1, 1, 6, 120]);
}

#[test]
fn test_counter_increments() {
    let mut c = SharedCounter::new(0);
    for _ in 0..1000 {
        c.increment();
    }
    assert_eq!(c.get_value(), 1000);
}

#[test]
fn test_counter_from_initial() {
    let mut c = SharedCounter::new(41);
    c.increment();
    assert_eq!(c.get_value(), 42);
}

#[test]
fn test_bank_account_deposit_withdraw() {
    let mut a = BankAccount::new(50);
    a.deposit(25);
    assert_eq!(a.get_balance(), 75);
    assert!(a.withdraw(70));
    assert_eq!(a.get_balance(), 5);
    assert!(!a.withdraw(6));
    assert_eq!(a.get_balance(), 5);
}

#[test]
fn test_bank_account_overdraw_bounded() {
    let mut a = BankAccount::new(100);
    let mut successes = 0;
    for _ in 0..10 {
        if a.withdraw(15) {
            successes += 1;
        }
    }
    assert_eq!(successes, 6);
    assert_eq!(a.get_balance(), 10);
}

#[test]
fn test_worker_step_computes() {
    assert_eq!(worker_step(3, Some(5)), WorkerAction::Deliver(3, 25));
    assert_eq!(worker_step(0, None), WorkerAction::Exit);
}

#[test]
fn test_run_work_queue_complete() {
    let r = run_work_queue(vec![2, 3, 4], 2);
    assert_eq!(r.len(), 3);
    let mut outputs: Vec<i32> = r.iter().map(|p| p.1).collect();
    outputs.sort();
    assert_eq!(outputs, vec![4, 9, 16]);
    assert!(r.iter().all(|p| p.0 < 2));
}

#[test]
fn test_run_work_queue_no_workers() {
    assert_eq!(run_work_queue(vec![1, 2], 0), Vec::new());
}
