use prime_bench::verification::verify;

#[test]
fn verify_same_set_is_clean() {
    let s = vec![2, 3, 5, 7, 11];
    let report = verify(&s, &s);
    assert!(report.missing.is_empty());
    assert!(report.spurious.is_empty());
    assert!(report.is_clean());
    assert!(verify(&Vec::new(), &Vec::new()).is_clean());
}

#[test]
fn verify_reports_missing() {
    let report = verify(&vec![2, 3, 5], &vec![2, 3]);
    assert_eq!(report.missing, vec![5]);
    assert!(report.spurious.is_empty());
    assert!(!report.is_clean());
}

#[test]
fn verify_reports_spurious() {
    let report = verify(&vec![2, 3], &vec![2, 3, 4]);
    assert!(report.missing.is_empty());
    assert_eq!(report.spurious, vec![4]);
    assert!(!report.is_clean());
}

#[test]
fn verify_reports_both_in_order() {
    let report = verify(&vec![2, 3, 5, 7, 11], &vec![2, 4, 7, 9, 11]);
    assert_eq!(report.missing, vec![3, 5]);
    assert_eq!(report.spurious, vec![4, 9]);
}
