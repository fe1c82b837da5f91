use miura::decimal::{append_decimal, append_decimal_nat};
use miura::euclid;
use miura::vec_helper::{
    check_unique_in_1_to_n, remove_trailing_zeros, scale_vector, shift_vector,
};

fn trimmed(coefficients: &[i32], modulus: Option<i32>) -> Vec<i32> {
    let mut vec = coefficients.to_vec();
    remove_trailing_zeros(&mut vec, modulus);
    vec
}

#[test]
fn trailing_zeros_are_removed() {
    assert_eq!(trimmed(&[2, 3, 0, 0], None), vec![2, 3]);
    assert_eq!(trimmed(&[2, 4, 5, 5], Some(5)), vec![2, 4]);
    assert_eq!(trimmed(&[0, 0, 1], None), vec![0, 0, 1]);
    assert_eq!(trimmed(&[0, 5, 0, 1], None), vec![0, 5, 0, 1]);
    assert_eq!(trimmed(&[5, 0], None), vec![5]);
    assert_eq!(trimmed(&[5, 10, -10, 0], Some(5)), Vec::<i32>::new());
    assert_eq!(trimmed(&[-5, -6, -10], Some(5)), vec![-5, -6]);
    assert_eq!(trimmed(&[1, 2, 3], Some(1)), Vec::<i32>::new());
    assert_eq!(trimmed(&[i32::MIN, i32::MAX], Some(i32::MAX)), vec![i32::MIN]);
}

#[test]
fn trimming_stops_at_the_empty_vector() {
    assert_eq!(trimmed(&[], None), Vec::<i32>::new());
    assert_eq!(trimmed(&[], Some(5)), Vec::<i32>::new());
    assert_eq!(trimmed(&[0], None), Vec::<i32>::new());
    assert_eq!(trimmed(&[0, 0, 0], None), Vec::<i32>::new());
    assert_eq!(trimmed(&[7], Some(7)), Vec::<i32>::new());
}

#[test]
fn shifting_puts_zeros_in_front() {
    assert_eq!(shift_vector(&vec![1, 1, 426], 2), vec![0, 0, 1, 1, 426]);
    assert_eq!(shift_vector(&vec![], 3), vec![0, 0, 0]);
    assert_eq!(shift_vector(&vec![], 0), Vec::<i32>::new());
    assert_eq!(shift_vector(&vec![-4], 1), vec![0, -4]);
}

#[test]
fn scaling_multiplies_every_element() {
    assert_eq!(scale_vector(&vec![3, 2, 1], 2), vec![6, 4, 2]);
    assert_eq!(scale_vector(&Vec::<i32>::new(), 2), Vec::<i32>::new());
    assert_eq!(scale_vector(&vec![3u64, 2, 1], 1 << 40), vec![3 << 40, 2 << 40, 1 << 40]);
    assert_eq!(scale_vector(&vec![-3i64, 0, 7], -3), vec![9, 0, -21]);
    assert_eq!(scale_vector(&vec![1.5f64, -2.0], 2.0), vec![3.0, -4.0]);
}

#[test]
fn uniqueness_in_range() {
    assert!(check_unique_in_1_to_n(&vec![5, 3, 2, 1, 4], 5));
    assert!(check_unique_in_1_to_n(&vec![], 0));
    assert!(check_unique_in_1_to_n(&vec![], 5));
    assert!(check_unique_in_1_to_n(&vec![3], 5));
    assert!(check_unique_in_1_to_n(&vec![2, 5], 5));
    assert!(!check_unique_in_1_to_n(&vec![2, 6], 5));
    assert!(!check_unique_in_1_to_n(&vec![0, 1], 5));
    assert!(!check_unique_in_1_to_n(&vec![1, 2, 1], 5));
    assert!(!check_unique_in_1_to_n(&vec![1], 0));
    assert!(!check_unique_in_1_to_n(&vec![1, 2, 3, 3], 3));
}

#[test]
fn greatest_common_divisors() {
    assert_eq!(euclid(0, 0), 0);
    assert_eq!(euclid(1, 1), 1);
    assert_eq!(euclid(12, 18), 6);
    assert_eq!(euclid(18, 12), 6);
    assert_eq!(euclid(17, 5), 1);
    assert_eq!(euclid(u32::MAX, u32::MAX), u32::MAX);
    assert_eq!(euclid(u32::MAX, 1), 1);
    assert_eq!(euclid(1 << 31, 1 << 20), 1 << 20);
}

#[test]
fn decimal_notation() {
    let mut text = String::from("n = ");
    append_decimal_nat(&mut text, 0);
    assert_eq!(text, "n = 0");
    append_decimal_nat(&mut text, 9);
    append_decimal_nat(&mut text, 10);
    append_decimal_nat(&mut text, 1234567890);
    assert_eq!(text, "n = 09101234567890");

    let mut text = String::new();
    append_decimal_nat(&mut text, u64::MAX);
    assert_eq!(text, "18446744073709551615");

    let mut text = String::new();
    append_decimal(&mut text, 0);
    append_decimal(&mut text, -1);
    append_decimal(&mut text, 100);
    append_decimal(&mut text, -2050);
    assert_eq!(text, "0-1100-2050");

    let mut text = String::new();
    append_decimal(&mut text, i32::MIN);
    append_decimal(&mut text, i32::MAX);
    assert_eq!(text, "-21474836482147483647");
}
