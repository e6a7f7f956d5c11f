use k0i::multi_set::MultiSet;

fn sample() -> MultiSet {
    let mut m = MultiSet::new();
    m.insert(5);
    m.insert(3);
    m.insert(5);
    m.insert(1);
    m
}

#[test]
fn upper_rank_is_none_at_full_size() {
    let m = sample();
    assert_eq!(m.upper_bound(5), None);
    assert_eq!(m.upper_bound(3), Some(2));
    assert_eq!(m.upper_bound(4), Some(2));
    assert_eq!(m.upper_bound(0), Some(0));
    assert_eq!(m.upper_bound(1), Some(1));
}

#[test]
fn lower_rank_counts_strictly_smaller() {
    let m = sample();
    assert_eq!(m.lower_bound(5), Some(2));
    assert_eq!(m.lower_bound(3), Some(1));
    assert_eq!(m.lower_bound(1), Some(0));
    assert_eq!(m.lower_bound(-7), Some(0));
    assert_eq!(m.lower_bound(6), None);
}

#[test]
fn ranks_of_empty_set_are_none() {
    let m = MultiSet::new();
    assert_eq!(m.lower_bound(0), None);
    assert_eq!(m.upper_bound(0), None);
    assert_eq!(m.lower_kth(0, 0), None);
    assert_eq!(m.higer_kth(0, 0), None);
}

#[test]
fn duplicates_come_out_in_insertion_order() {
    let mut m = MultiSet::new();
    m.insert(7);
    m.insert(7);
    assert_eq!(m.higer_kth(7, 0), Some(&(7, 0)));
    assert_eq!(m.higer_kth(7, 1), Some(&(7, 1)));
    assert_eq!(m.higer_kth(7, 2), None);
}

#[test]
fn new_duplicates_follow_older_copies() {
    let mut m = MultiSet::new();
    m.insert(7);
    m.insert(3);
    m.insert(7);
    m.insert(7);
    assert_eq!(m.higer_kth(7, 0), Some(&(7, 0)));
    assert_eq!(m.higer_kth(7, 1), Some(&(7, 2)));
    assert_eq!(m.higer_kth(7, 2), Some(&(7, 3)));
    assert_eq!(m.higer_kth(4, 0), Some(&(7, 0)));
}

#[test]
fn lower_kth_counts_down_from_the_largest() {
    let m = sample();
    assert_eq!(m.lower_kth(5, 0), Some(&(5, 2)));
    assert_eq!(m.lower_kth(5, 1), Some(&(5, 0)));
    assert_eq!(m.lower_kth(5, 2), Some(&(3, 1)));
    assert_eq!(m.lower_kth(5, 3), Some(&(1, 3)));
    assert_eq!(m.lower_kth(5, 4), None);
    assert_eq!(m.lower_kth(4, 0), Some(&(3, 1)));
    assert_eq!(m.lower_kth(0, 0), None);
}

#[test]
fn higer_kth_counts_up_from_the_smallest() {
    let m = sample();
    assert_eq!(m.higer_kth(2, 0), Some(&(3, 1)));
    assert_eq!(m.higer_kth(2, 1), Some(&(5, 0)));
    assert_eq!(m.higer_kth(2, 2), Some(&(5, 2)));
    assert_eq!(m.higer_kth(2, 3), None);
    assert_eq!(m.higer_kth(-10, 0), Some(&(1, 3)));
    assert_eq!(m.higer_kth(6, 0), None);
}

#[test]
fn queries_repeat_without_insertions() {
    let m = sample();
    for x in -1..7 {
        assert_eq!(m.lower_bound(x), m.lower_bound(x));
        assert_eq!(m.upper_bound(x), m.upper_bound(x));
        for k in 0..5 {
            assert_eq!(m.lower_kth(x, k), m.lower_kth(x, k));
            assert_eq!(m.higer_kth(x, k), m.higer_kth(x, k));
        }
    }
}

#[test]
fn upper_rank_grows_with_the_value() {
    let mut m = sample();
    m.insert(9);
    let mut last = 0;
    for x in -2..9 {
        if let Some(r) = m.upper_bound(x) {
            assert!(last <= r);
            last = r;
        }
    }
    assert_eq!(last, 4);
}

#[test]
fn is_empty_until_first_insert() {
    let mut m = MultiSet::new();
    assert!(m.is_empty());
    m.insert(-2);
    assert!(!m.is_empty());
}
