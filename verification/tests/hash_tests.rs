use perspective_diff_sync::utils::generate_diff_hash;

#[test]
fn diff_hash_of_empty_input() {
    assert_eq!(generate_diff_hash(&[]), "47DEQpj8HBSa+/TImW+5JCeuQeRkm5NMpJWZG3hSuFU=");
}

#[test]
fn diff_hash_of_abc() {
    assert_eq!(generate_diff_hash(b"abc"), "ungWv48Bz+pBQUDeXa4iI7ADYaOWF3qctBD/YfIAFa0=");
}

#[test]
fn diff_hash_is_44_characters() {
    assert_eq!(generate_diff_hash(&[7u8; 100]).len(), 44);
}
