use palindrome_products::palindrome_products;
use palindrome_products::Palindrome;

#[test]
fn reverse_multi_digit() {
    assert_eq!(palindrome_products::reverse(123), 321);
}

#[test]
fn reverse_trailing_zero() {
    assert_eq!(palindrome_products::reverse(120), 21);
}

#[test]
fn reverse_single_digit() {
    assert_eq!(palindrome_products::reverse(7), 7);
}

#[test]
fn reverse_zero() {
    assert_eq!(palindrome_products::reverse(0), 0);
}

#[test]
fn palindrome_check_single_digit() {
    assert!(palindrome_products::is_palindrome(1, 9));
}

#[test]
fn palindrome_check_square() {
    assert!(palindrome_products::is_palindrome(11, 11));
}

#[test]
fn palindrome_check_trailing_zero_product() {
    assert!(!palindrome_products::is_palindrome(12, 10));
}

#[test]
fn palindrome_check_zero() {
    assert!(palindrome_products::is_palindrome(0, 0));
}

#[test]
fn group_keeps_value() {
    let p = Palindrome::new(2, 3);
    assert_eq!(p.value(), 6);
}

#[test]
fn group_insert_ignores_duplicate() {
    let mut p = Palindrome::new(3, 3);
    p.insert(3, 3);
    assert_eq!(p.factors().len(), 1);
    assert!(p.factors().contains(&(3, 3)));
}

#[test]
fn group_insert_adds_new_pair() {
    let mut p = Palindrome::new(3, 3);
    p.insert(1, 9);
    assert_eq!(p.factors().len(), 2);
    assert!(p.factors().contains(&(3, 3)));
    assert!(p.factors().contains(&(1, 9)));
}

#[test]
fn single_digit_range() {
    let (lo, hi) = palindrome_products(1, 9).expect("palindromes exist below ten");
    assert_eq!(lo.value(), 1);
    assert_eq!(lo.factors().as_slice(), &[(1, 1)]);
    assert_eq!(hi.value(), 9);
    assert_eq!(hi.factors().len(), 2);
    assert!(hi.factors().contains(&(1, 9)));
    assert!(hi.factors().contains(&(3, 3)));
}

#[test]
fn double_digit_range() {
    let (lo, hi) = palindrome_products(10, 99).expect("palindromes exist in this range");
    assert_eq!(lo.value(), 121);
    assert!(lo.factors().contains(&(11, 11)));
    assert_eq!(hi.value(), 9009);
    assert!(hi.factors().contains(&(91, 99)));
}

#[test]
fn single_element_range() {
    let (lo, hi) = palindrome_products(1, 1).expect("one squared is a palindrome");
    assert_eq!(lo.value(), 1);
    assert_eq!(hi.value(), 1);
    assert_eq!(lo.factors().as_slice(), &[(1, 1)]);
    assert_eq!(hi.factors().as_slice(), &[(1, 1)]);
}

#[test]
fn reversed_range_is_empty() {
    assert_eq!(palindrome_products(5, 3), None);
}

#[test]
fn zero_range() {
    let (lo, hi) = palindrome_products(0, 0).expect("zero is a palindrome");
    assert_eq!(lo.value(), 0);
    assert_eq!(hi.value(), 0);
    assert_eq!(lo.factors().as_slice(), &[(0, 0)]);
}

#[test]
fn extremes_are_ordered() {
    let (lo, hi) = palindrome_products(1, 9).expect("palindromes exist below ten");
    assert!(lo.value() <= hi.value());
    assert_ne!(lo.value(), hi.value());
}

#[test]
fn repeated_calls_agree() {
    let first = palindrome_products(10, 99);
    let second = palindrome_products(10, 99);
    assert_eq!(first, second);
}

#[test]
fn fold_step_starts_both_groups() {
    let mut state = None;
    palindrome_products::check_palindrom(&mut state, 3, 3);
    let (lo, hi) = state.expect("nine is a palindrome");
    assert_eq!(lo.value(), 9);
    assert_eq!(hi.value(), 9);
    assert_eq!(lo.factors().as_slice(), &[(3, 3)]);
    assert_eq!(hi.factors().as_slice(), &[(3, 3)]);
}

#[test]
fn fold_step_extends_matching_group() {
    let mut state = None;
    palindrome_products::check_palindrom(&mut state, 3, 3);
    palindrome_products::check_palindrom(&mut state, 1, 9);
    let (lo, hi) = state.expect("nine is a palindrome");
    assert_eq!(lo.value(), 9);
    assert_eq!(hi.value(), 9);
    assert_eq!(lo.factors().len(), 2);
    assert!(lo.factors().contains(&(1, 9)));
    assert!(hi.factors().contains(&(1, 9)));
}

#[test]
fn fold_step_skips_non_palindrome() {
    let mut state = None;
    palindrome_products::check_palindrom(&mut state, 10, 12);
    assert_eq!(state, None);
}
