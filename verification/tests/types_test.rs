use prime_calculator_rs::primality::integer_sqrt;
use prime_calculator_rs::result_set::ResultSet;
use prime_calculator_rs::types::PrimeResult;

#[test]
fn test_prime_result_new_keeps_fields() {
    let result = PrimeResult::new(97, true, 12);
    assert_eq!(result.number, 97);
    assert!(result.is_prime);
    assert_eq!(result.calculation_time_micros, 12);
    assert_eq!(
        result,
        PrimeResult {
            number: 97,
            is_prime: true,
            calculation_time_micros: 12
        }
    );
}

#[test]
fn test_prime_result_equality_is_structural() {
    let a = PrimeResult::new(9, false, 3);
    assert_eq!(a, PrimeResult::new(9, false, 3));
    assert_ne!(a, PrimeResult::new(9, false, 4));
    assert_ne!(a, PrimeResult::new(9, true, 3));
    assert_ne!(a, PrimeResult::new(11, false, 3));
}

#[test]
fn test_to_string_prime() {
    let result = PrimeResult::new(97, true, 5);
    assert_eq!(result.to_string(), "97 is prime (calculated in 5 µs)");
}

#[test]
fn test_to_string_not_prime() {
    let result = PrimeResult::new(1001, false, 120);
    assert_eq!(result.to_string(), "1001 is not prime (calculated in 120 µs)");
}

#[test]
fn test_to_string_extremes() {
    let zero = PrimeResult::new(0, false, 0);
    assert_eq!(zero.to_string(), "0 is not prime (calculated in 0 µs)");
    let top = PrimeResult::new(u64::MAX, false, u64::MAX);
    assert_eq!(
        top.to_string(),
        "18446744073709551615 is not prime (calculated in 18446744073709551615 µs)"
    );
    let ten = PrimeResult::new(10, false, 100);
    assert_eq!(ten.to_string(), "10 is not prime (calculated in 100 µs)");
}

#[test]
fn test_to_string_agrees_with_std() {
    for n in [1u64, 9, 10, 99, 100, 12345, 1_000_000, 9_007_199_254_740_993] {
        let result = PrimeResult::new(n, true, n);
        assert_eq!(
            result.to_string(),
            format!("{} is prime (calculated in {} µs)", n, n)
        );
    }
}

#[test]
fn test_integer_sqrt() {
    assert_eq!(integer_sqrt(0), 0);
    assert_eq!(integer_sqrt(1), 1);
    assert_eq!(integer_sqrt(2), 1);
    assert_eq!(integer_sqrt(3), 1);
    assert_eq!(integer_sqrt(4), 2);
    assert_eq!(integer_sqrt(8), 2);
    assert_eq!(integer_sqrt(9), 3);
    assert_eq!(integer_sqrt(99), 9);
    assert_eq!(integer_sqrt(100), 10);
    assert_eq!(integer_sqrt(1_000_000), 1000);
    assert_eq!(integer_sqrt(999_999), 999);
    assert_eq!(integer_sqrt(u64::MAX), 4_294_967_295);
    assert_eq!(integer_sqrt(18_446_744_065_119_617_025), 4_294_967_295);
    assert_eq!(integer_sqrt(18_446_744_065_119_617_024), 4_294_967_294);
    assert_eq!(integer_sqrt(9_007_199_254_740_993), 94_906_265);
}

#[test]
fn test_result_set_insert() {
    let mut set = ResultSet::new();
    assert_eq!(set.len(), 0);
    assert!(set.insert(PrimeResult::new(7, true, 3)));
    assert!(set.insert(PrimeResult::new(3, true, 9)));
    assert!(set.insert(PrimeResult::new(5, true, 1)));
    assert!(!set.insert(PrimeResult::new(7, true, 3)));
    assert!(set.insert(PrimeResult::new(7, true, 2)));
    assert!(set.insert(PrimeResult::new(7, false, 2)));
    assert_eq!(set.len(), 5);
    let listed = set.to_vec();
    assert_eq!(
        listed,
        vec![
            PrimeResult::new(3, true, 9),
            PrimeResult::new(5, true, 1),
            PrimeResult::new(7, false, 2),
            PrimeResult::new(7, true, 2),
            PrimeResult::new(7, true, 3),
        ]
    );
}
