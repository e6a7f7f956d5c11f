use k0i::cumsum::CumSum;

#[test]
fn cumsum_table() {
    let x: Vec<i64> = vec![1, 2, 3];
    let cs = CumSum::new(&x);
    assert_eq!(cs.sec_ref(), &vec![0, 1, 3, 6]);
}

#[test]
fn cumsum_sec_is_a_copy_of_the_table() {
    let x: Vec<i64> = vec![4, -1, 10];
    let cs = CumSum::new(&x);
    assert_eq!(cs.sec(), vec![0, 4, 3, 13]);
}

#[test]
fn cumsum_section_sums() {
    let x: Vec<i64> = vec![1, 2, 3, 4, 5];
    let cs = CumSum::new(&x);
    assert_eq!(cs.sum(2, 4), x[2] + x[3]);
    assert_eq!(cs.sum(0, 4), x.iter().take(4).sum::<i64>());
    assert_eq!(cs.sum(0, 5), 15);
    assert_eq!(cs.sum(3, 3), 0);
}

#[test]
fn cumsum_reversed_range_is_negated() {
    let x: Vec<i64> = vec![5, -3, 2];
    let cs = CumSum::new(&x);
    assert_eq!(cs.sum(1, 3), -1);
    assert_eq!(cs.sum(3, 1), 1);
}

#[test]
fn cumsum_of_empty_input() {
    let x: Vec<i64> = Vec::new();
    let cs = CumSum::new(&x);
    assert_eq!(cs.sec(), vec![0]);
    assert_eq!(cs.sum(0, 0), 0);
}
