use lib::cli::{check, has_flag};
use lib::text::{decimal_string, json_usize_array};

#[test]
fn json_arrays_of_numbers() {
    assert_eq!(json_usize_array(&[]), "[]");
    assert_eq!(json_usize_array(&[7]), "[7]");
    assert_eq!(json_usize_array(&[1, 22, 333]), "[1, 22, 333]");
    assert_eq!(json_usize_array(&[0, 10, usize::MAX]), format!("[0, 10, {}]", usize::MAX));
}

#[test]
fn decimal_notation() {
    assert_eq!(decimal_string(0), "0");
    assert_eq!(decimal_string(9), "9");
    assert_eq!(decimal_string(10), "10");
    assert_eq!(decimal_string(1_000_000_000_000_000_000_100_000_000), "1000000000000000000100000000");
    assert_eq!(decimal_string(u128::MAX), u128::MAX.to_string());
}

#[test]
fn flags_are_found_among_the_arguments() {
    let args = vec!["verify".to_string(), "all".to_string(), "--progress".to_string()];
    assert!(has_flag(&args, "--progress"));
    assert!(!has_flag(&args, "--quiet"));
    assert!(!has_flag(&[], "--progress"));
}

#[test]
fn check_passes_or_reports_its_message() {
    assert_eq!(check(true, "never shown".to_string()), Ok(()));
    assert_eq!(check(false, "bad sieve limit 1".to_string()), Err("bad sieve limit 1".to_string()));
}
