use grid_games::numbers::closest_to_zero;
use grid_games::numbers::is_div;
use grid_games::numbers::is_leap_year;

#[test]
fn finds_closest_to_zero() {
    assert_eq!(closest_to_zero(vec![]), 0);
    assert_eq!(closest_to_zero(vec![1, 2, 3, 4]), 1);
    assert_eq!(closest_to_zero(vec![4, 3, 1, 2]), 1);
}

#[test]
fn test_is_div() {
    assert!(is_div(12, 3));
    assert!(is_div(30, 5));
    assert!(!is_div(11, 3));
}

#[test]
fn test_leap_year() {
    assert!(is_leap_year(2000));
    assert!(!is_leap_year(2001));
    assert!(is_leap_year(1996));
    assert!(!is_leap_year(1900));
}
