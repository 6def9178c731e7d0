use dlx_rs::label::{decimal, numbers};

#[test]
fn decimal_writes_numbers_without_leading_zeros() {
    assert_eq!(decimal(0), "0");
    assert_eq!(decimal(7), "7");
    assert_eq!(decimal(10), "10");
    assert_eq!(decimal(12345), "12345");
    assert_eq!(decimal(usize::MAX), usize::MAX.to_string());
}

#[test]
fn numbers_reads_every_run_of_digits() {
    assert_eq!(numbers("R3C15"), Some(vec![3, 15]));
    assert_eq!(numbers("R12C4#9"), Some(vec![12, 4, 9]));
    assert_eq!(numbers("H7#8"), Some(vec![7, 8]));
    assert_eq!(numbers(""), Some(vec![]));
    assert_eq!(numbers("abc"), Some(vec![]));
    assert_eq!(numbers("007"), Some(vec![7]));
    assert_eq!(numbers("1,2,,3"), Some(vec![1, 2, 3]));
}

#[test]
fn numbers_gives_up_on_a_number_that_is_too_large() {
    let max = usize::MAX.to_string();
    assert_eq!(numbers(&max), Some(vec![usize::MAX]));
    let too_large = format!("{}0", max);
    assert_eq!(numbers(&too_large), None);
    let one_more = format!("x{}9", &max[..max.len() - 1]);
    assert_eq!(numbers(&one_more), None);
}
