use k0i::bounds::{Bound, SearchError};

#[test]
fn lower_bound_finds_first_not_less() {
    let v: Vec<i64> = vec![1, 2, 4, 6];
    assert_eq!(v.lower_bound(4), Ok(2));
    assert_eq!(v.lower_bound(3), Ok(2));
    assert_eq!(v.lower_bound(0), Ok(0));
    assert_eq!(v.lower_bound(1), Ok(0));
}

#[test]
fn lower_bound_clamps_past_end() {
    let v: Vec<i64> = vec![1, 2, 4, 6];
    assert_eq!(v.lower_bound(1000), Ok(3));
    assert_eq!(v.lower_bound(7), Ok(3));
}

#[test]
fn upper_bound_finds_first_greater() {
    let v: Vec<i64> = vec![1, 2, 4, 6];
    assert_eq!(v.upper_bound(4), Ok(3));
    assert_eq!(v.upper_bound(0), Ok(0));
    assert_eq!(v.upper_bound(1), Ok(1));
}

#[test]
fn upper_bound_clamps_past_end() {
    let v: Vec<i64> = vec![2, 2, 4, 6];
    assert_eq!(v.upper_bound(1000), Ok(3));
    assert_eq!(v.upper_bound(6), Ok(3));
    assert_eq!(v.upper_bound(2), Ok(2));
}

#[test]
fn clamped_bounds_reject_empty_input() {
    let v: Vec<i64> = Vec::new();
    assert_eq!(v.lower_bound(5), Err(SearchError::EmptyInput));
    assert_eq!(v.upper_bound(5), Err(SearchError::EmptyInput));
}

#[test]
fn b_search_on_empty_input_is_zero() {
    let v: Vec<i64> = Vec::new();
    assert_eq!(v.b_search(5), 0);
}

#[test]
fn b_search_boundaries() {
    let v: Vec<i64> = vec![1, 14, 32, 51, 51, 51, 243, 419, 750, 910];
    assert_eq!(v.b_search(51), 3);
    assert_eq!(v.b_search(1), 0);
    assert_eq!(v.b_search(0), 0);
    assert_eq!(v.b_search(910), v.len() - 1);
    assert_eq!(v.b_search(1000), v.len());
}

#[test]
fn b_search_finds_first_occurrence() {
    let v: Vec<i64> = vec![-4, 3, 3, 3, 8, 8];
    assert_eq!(v.b_search(3), 1);
    assert_eq!(v.b_search(8), 4);
    assert_eq!(v.b_search(-4), 0);
}

#[test]
fn b_search_and_lower_bound_differ_only_past_end() {
    let v: Vec<i64> = vec![1, 2, 4, 6];
    assert_eq!(v.b_search(4), 2);
    assert_eq!(v.lower_bound(4), Ok(2));
    assert_eq!(v.b_search(1000), 4);
    assert_eq!(v.lower_bound(1000), Ok(3));
}

#[test]
fn lower_bound_never_exceeds_upper_bound() {
    let v: Vec<i64> = vec![-3, 0, 0, 2, 2, 2, 9];
    for x in -5..12 {
        let lo = v.lower_bound(x).unwrap();
        let hi = v.upper_bound(x).unwrap();
        assert!(lo <= hi);
        assert!(v.b_search(x) <= v.b_search(x + 1));
    }
}
