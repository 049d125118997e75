use ipchess::crypto::bytes_eq;

#[test]
fn bytes_eq_agrees_with_equality() {
    assert!(bytes_eq(&vec![], &vec![]));
    assert!(bytes_eq(&vec![1, 2, 3], &vec![1, 2, 3]));
    assert!(!bytes_eq(&vec![1, 2, 3], &vec![1, 2]));
    assert!(!bytes_eq(&vec![1, 2, 3], &vec![1, 2, 4]));
    // A difference in the first byte counts as much as one in the last.
    assert!(!bytes_eq(&vec![0, 2, 3], &vec![1, 2, 3]));
}

#[test]
fn secret_len_is_32() {
    assert_eq!(ipchess::crypto::SECRET_LEN, 32);
}
