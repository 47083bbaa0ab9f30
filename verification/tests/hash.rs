use bucket_storage::auth::ArgonHash;

#[test]
fn hash_1() {
    let hash = ArgonHash::hash("abc").unwrap();
    let is_valid = ArgonHash::verify("abc", &hash).unwrap();
    assert!(is_valid)
}

#[test]
fn hash_2() {
    let hash = ArgonHash::hash("ab").unwrap();
    let is_valid = ArgonHash::verify("abc", &hash).unwrap();
    assert!(!is_valid)
}

#[test]
fn hash_is_salted() {
    let h1 = ArgonHash::hash("abc").unwrap();
    let h2 = ArgonHash::hash("abc").unwrap();
    assert_ne!(h1, h2);
    assert!(ArgonHash::verify("abc", &h1).unwrap());
    assert!(ArgonHash::verify("abc", &h2).unwrap());
}

#[test]
fn verify_rejects_corrupt_hash() {
    let res = ArgonHash::verify("abc", "not a phc string");
    let err = res.unwrap_err();
    assert!(!err.expected());
    assert_eq!(err.status(), 500);
}
