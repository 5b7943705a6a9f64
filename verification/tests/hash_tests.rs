use tabol::hash::table_hash;
use tabol::text::u64_to_string;

#[test]
fn table_hash_known_digest_test() {
    assert_eq!(
        table_hash("hello"),
        "2cf24dba5fb0a30e26e83b2ac5b9e29e1b161e5c1fa7425e73043362938b9824"
    );
}

#[test]
fn table_hash_distinguishes_inputs_test() {
    assert_ne!(table_hash("a"), table_hash("b"));
    assert_eq!(table_hash(""), table_hash(""));
    assert_eq!(table_hash("abc").len(), 64);
}

#[test]
fn decimal_rendering_test() {
    assert_eq!(u64_to_string(0), "0");
    assert_eq!(u64_to_string(7), "7");
    assert_eq!(u64_to_string(10), "10");
    assert_eq!(u64_to_string(12345), "12345");
    assert_eq!(u64_to_string(18446744073709551615), "18446744073709551615");
}
