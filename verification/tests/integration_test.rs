use prime_calculator_rs::PrimeCalculator;

fn brute_force_is_prime(n: u64) -> bool {
    if n < 2 {
        return false;
    }
    let mut d: u64 = 2;
    while d * d <= n {
        if n % d == 0 {
            return false;
        }
        d += 1;
    }
    true
}

#[test]
fn test_prime_calculator() {
    let max_number = 100;
    let mut calculator = PrimeCalculator::new(4);
    calculator.calculate_up_to(max_number);

    let primes = calculator.get_primes();
    let expected_primes: Vec<u64> = vec![
        2, 3, 5, 7, 11, 13, 17, 19, 23, 29, 31, 37, 41, 43, 47, 53, 59, 61, 67, 71, 73, 79, 83,
        89, 97,
    ];

    assert_eq!(primes, expected_primes);
}

#[test]
fn test_no_primes_below_two() {
    let mut calculator = PrimeCalculator::new(4);
    calculator.calculate_up_to(1);

    let primes = calculator.get_primes();
    assert!(primes.is_empty());
}

#[test]
fn test_large_prime_calculation() {
    let max_number = 1_000_000;
    let mut calculator = PrimeCalculator::new(8);
    calculator.calculate_up_to(max_number);

    let primes = calculator.get_primes();
    assert!(primes.len() > 0);
    assert!(primes.iter().all(|&p| brute_force_is_prime(p)));
}

#[test]
fn test_large_prime_calculation_finds_every_prime() {
    let mut calculator = PrimeCalculator::new(8);
    calculator.calculate_up_to(1_000_000);
    let primes = calculator.get_primes();
    assert_eq!(primes.len(), 78498);
    assert_eq!(primes[0], 2);
    assert_eq!(primes[78497], 999983);
    assert!(primes.windows(2).all(|pair| pair[0] < pair[1]));
}

#[test]
fn test_no_primes_for_zero() {
    let mut calculator = PrimeCalculator::new(1);
    calculator.calculate_up_to(0);
    assert!(calculator.get_primes().is_empty());
    assert!(calculator.get_detailed_results().is_empty());
    assert_eq!(calculator.total_calculated(), 0);
    assert_eq!(calculator.limit(), 0);
}

#[test]
fn test_new_calculator_is_empty() {
    let calculator = PrimeCalculator::new(3);
    assert!(calculator.get_primes().is_empty());
    assert!(calculator.get_detailed_results().is_empty());
    assert_eq!(calculator.total_calculated(), 0);
    assert_eq!(calculator.worker_count(), 3);
}

#[test]
fn test_zero_workers_count_as_one() {
    let calculator = PrimeCalculator::new(0);
    assert_eq!(calculator.worker_count(), 1);
}

#[test]
fn test_sweep_up_to_two() {
    let mut calculator = PrimeCalculator::new(2);
    calculator.calculate_up_to(2);
    assert_eq!(calculator.get_primes(), vec![2]);
    assert!(calculator.get_detailed_results().is_empty());
    assert_eq!(calculator.limit(), 2);
}

#[test]
fn test_sweep_up_to_three_and_four() {
    let mut three = PrimeCalculator::new(2);
    three.calculate_up_to(3);
    assert_eq!(three.get_primes(), vec![2, 3]);
    assert_eq!(three.get_detailed_results().len(), 1);

    let mut four = PrimeCalculator::new(2);
    four.calculate_up_to(4);
    assert_eq!(four.get_primes(), vec![2, 3]);
    assert_eq!(four.get_detailed_results().len(), 1);
    assert_eq!(four.limit(), 4);
}

#[test]
fn test_one_result_per_odd_candidate() {
    let mut calculator = PrimeCalculator::new(4);
    calculator.calculate_up_to(101);
    let results = calculator.get_detailed_results();
    assert_eq!(results.len(), 50);
    assert_eq!(calculator.total_calculated(), 50);
    for (i, result) in results.iter().enumerate() {
        assert_eq!(result.number, 3 + 2 * i as u64);
        assert_eq!(result.is_prime, brute_force_is_prime(result.number));
    }
}

#[test]
fn test_result_count_for_even_bound() {
    let mut calculator = PrimeCalculator::new(4);
    calculator.calculate_up_to(100);
    assert_eq!(calculator.get_detailed_results().len(), 49);
}

#[test]
fn test_get_primes_is_idempotent() {
    let mut calculator = PrimeCalculator::new(4);
    calculator.calculate_up_to(500);
    let first = calculator.get_primes();
    let second = calculator.get_primes();
    assert_eq!(first, second);
    assert_eq!(first.len(), 95);
}

#[test]
fn test_second_sweep_keeps_list_ascending() {
    let mut calculator = PrimeCalculator::new(4);
    calculator.calculate_up_to(50);
    calculator.calculate_up_to(30);
    assert_eq!(
        calculator.get_primes(),
        vec![2, 3, 5, 7, 11, 13, 17, 19, 23, 29, 31, 37, 41, 43, 47]
    );
    assert_eq!(calculator.limit(), 50);
    assert_eq!(calculator.total_calculated(), 24 + 14);
    calculator.calculate_up_to(60);
    assert_eq!(
        calculator.get_primes(),
        vec![2, 3, 5, 7, 11, 13, 17, 19, 23, 29, 31, 37, 41, 43, 47, 53, 59]
    );
    assert_eq!(calculator.total_calculated(), 24 + 14 + 29);
}

#[test]
fn test_sweep_below_two_after_a_sweep_changes_nothing() {
    let mut calculator = PrimeCalculator::new(4);
    calculator.calculate_up_to(10);
    calculator.calculate_up_to(1);
    assert_eq!(calculator.get_primes(), vec![2, 3, 5, 7]);
    assert_eq!(calculator.total_calculated(), 4);
}

#[test]
fn test_is_prime_by_trial_division() {
    let primes: Vec<u64> = vec![2, 3, 5, 7];
    assert!(!PrimeCalculator::is_prime(0, &primes));
    assert!(!PrimeCalculator::is_prime(1, &primes));
    assert!(PrimeCalculator::is_prime(2, &primes));
    assert!(PrimeCalculator::is_prime(3, &primes));
    assert!(!PrimeCalculator::is_prime(4, &primes));
    assert!(!PrimeCalculator::is_prime(9, &primes));
    assert!(!PrimeCalculator::is_prime(49, &primes));
    assert!(PrimeCalculator::is_prime(97, &primes));
    assert!(PrimeCalculator::is_prime(113, &primes));
    assert!(!PrimeCalculator::is_prime(119, &primes));
}

#[test]
fn test_is_prime_sees_only_the_list() {
    let empty: Vec<u64> = Vec::new();
    assert!(PrimeCalculator::is_prime(9, &empty));
    assert!(!PrimeCalculator::is_prime(10, &empty));
    let short: Vec<u64> = vec![2, 3];
    assert!(PrimeCalculator::is_prime(25, &short));
    let unordered: Vec<u64> = vec![2, 11, 3];
    assert!(PrimeCalculator::is_prime(9, &unordered));
}

#[test]
fn test_record_and_advance_by_hand() {
    let mut calculator = PrimeCalculator::new(1);
    assert_eq!(calculator.horizon(), 8);
    calculator.advance_limit(2);
    assert_eq!(calculator.get_primes(), vec![2]);
    calculator.record(3, true, 11);
    calculator.record(5, true, 12);
    calculator.record(7, true, 13);
    assert_eq!(calculator.limit(), 7);
    assert_eq!(calculator.horizon(), 63);
    calculator.record(9, false, 14);
    calculator.advance_limit(10);
    assert_eq!(calculator.get_primes(), vec![2, 3, 5, 7]);
    assert_eq!(calculator.limit(), 10);
    assert_eq!(calculator.horizon(), 120);
    assert_eq!(calculator.total_calculated(), 4);
    let results = calculator.get_detailed_results();
    assert_eq!(results.len(), 4);
    assert_eq!(results[3].number, 9);
    assert!(!results[3].is_prime);
    assert_eq!(results[3].calculation_time_micros, 14);
}

#[test]
fn test_record_on_a_new_calculator_seeds_two() {
    let mut calculator = PrimeCalculator::new(1);
    calculator.record(3, true, 1);
    assert_eq!(calculator.get_primes(), vec![2, 3]);
}

#[test]
fn test_equal_results_are_held_once() {
    let mut calculator = PrimeCalculator::new(1);
    calculator.record(3, true, 5);
    calculator.record(3, true, 5);
    calculator.record(3, true, 6);
    assert_eq!(calculator.get_detailed_results().len(), 2);
    assert_eq!(calculator.total_calculated(), 3);
    assert_eq!(calculator.get_primes(), vec![2, 3]);
}
