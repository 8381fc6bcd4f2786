use sudoku::text::{decimal_text, digit_text};
use sudoku::DigitOptions;

#[test]
fn init_keeps_the_digits() {
    let options = DigitOptions::init(vec![1, 2, 3, 4, 5, 6, 7, 8, 9]);
    assert_eq!(vec![1, 2, 3, 4, 5, 6, 7, 8, 9], *options.values());
    let options = DigitOptions::init(vec![]);
    assert_eq!(Vec::<u8>::new(), *options.values());
}

#[test]
fn remove_option_takes_the_digit_out() {
    let mut options = DigitOptions::init(vec![1, 2, 3, 4, 5, 6, 7, 8, 9]);
    options.remove_option(4);
    assert_eq!(vec![1, 2, 3, 5, 6, 7, 8, 9], *options.values());
    options.remove_option(1);
    options.remove_option(9);
    assert_eq!(vec![2, 3, 5, 6, 7, 8], *options.values());
}

#[test]
fn remove_option_of_an_absent_digit_changes_nothing() {
    let mut options = DigitOptions::init(vec![2, 5, 7]);
    options.remove_option(3);
    assert_eq!(vec![2, 5, 7], *options.values());
    options.remove_option(5);
    options.remove_option(5);
    assert_eq!(vec![2, 7], *options.values());
}

#[test]
fn remove_option_takes_every_occurrence() {
    let mut options = DigitOptions::init(vec![3, 1, 3, 2, 3]);
    options.remove_option(3);
    assert_eq!(vec![1, 2], *options.values());
}

#[test]
fn contains_tells_the_candidates() {
    let options = DigitOptions::init(vec![2, 5, 7]);
    assert!(options.contains(&2));
    assert!(options.contains(&5));
    assert!(options.contains(&7));
    assert!(!options.contains(&1));
    assert!(!options.contains(&0));
    assert!(!DigitOptions::init(vec![]).contains(&1));
}

#[test]
fn other_than_lists_the_rest() {
    let options = DigitOptions::init(vec![2, 5, 7]);
    assert_eq!(vec![2, 7], options.other_than(5));
    assert_eq!(vec![2, 5, 7], options.other_than(4));
    assert_eq!(vec![2, 5, 7], *options.values());
    assert_eq!(Vec::<u8>::new(), DigitOptions::init(vec![6]).other_than(6));
}

#[test]
fn one_option_needs_exactly_one() {
    assert_eq!(Some(6), DigitOptions::init(vec![6]).one_option());
    assert_eq!(None, DigitOptions::init(vec![6, 7]).one_option());
    assert_eq!(None, DigitOptions::init(vec![]).one_option());
}

#[test]
fn no_options_means_empty() {
    assert!(DigitOptions::init(vec![]).no_options());
    assert!(!DigitOptions::init(vec![6]).no_options());
    let mut options = DigitOptions::init(vec![6]);
    options.remove_option(6);
    assert!(options.no_options());
}

#[test]
fn clone_of_options_is_independent() {
    let options = DigitOptions::init(vec![1, 2]);
    let mut copy = options.clone();
    copy.remove_option(1);
    assert_eq!(vec![2], *copy.values());
    assert_eq!(vec![1, 2], *options.values());
}

#[test]
fn digits_as_text() {
    assert_eq!("0", digit_text(0));
    assert_eq!("5", digit_text(5));
    assert_eq!("9", digit_text(9));
}

#[test]
fn numbers_in_decimal() {
    assert_eq!("0", decimal_text(0));
    assert_eq!("7", decimal_text(7));
    assert_eq!("10", decimal_text(10));
    assert_eq!("81", decimal_text(81));
    assert_eq!("1234567890", decimal_text(1234567890));
    assert_eq!(format!("{}", usize::MAX), decimal_text(usize::MAX));
}
