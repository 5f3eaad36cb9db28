use talos::key::{key_from_digest, KeyArgument};

#[test]
fn numeric_key_is_used_as_is() {
    assert_eq!(KeyArgument::Num(5).get(), 5);
    assert_eq!(KeyArgument::Num(u32::MAX).get(), u32::MAX);
}

#[test]
fn string_key_is_sha256_prefix() {
    // SHA-256("abc") begins ba 78 16 bf
    assert_eq!(KeyArgument::String("abc".to_string()).get(), 0xbf16_78ba);
    // SHA-256("") begins e3 b0 c4 42
    assert_eq!(KeyArgument::String(String::new()).get(), 0x42c4_b0e3);
}

#[test]
fn digest_prefix_is_little_endian() {
    assert_eq!(key_from_digest(&vec![0x01, 0x02, 0x03, 0x04, 0xff]), 0x0403_0201);
}

#[test]
fn random_key_is_a_key() {
    let _ = KeyArgument::Random.get();
}
