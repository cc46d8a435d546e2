use static_website_search::murmur3::murmurhash3_x86_32;

#[test]
fn murmur3_test_empty_string() {
    assert!(murmurhash3_x86_32("".as_bytes(), 0) == 0);
}

#[test]
fn murmur3_test_tail_lengths() {
    assert!(murmurhash3_x86_32("1".as_bytes(), 0) == 2484513939);
    assert!(murmurhash3_x86_32("12".as_bytes(), 0) == 4191350549);
    assert!(murmurhash3_x86_32("123".as_bytes(), 0) == 2662625771);
    assert!(murmurhash3_x86_32("1234".as_bytes(), 0) == 1914461635);
}

#[test]
fn murmur3_test_large_data() {
    assert!(murmurhash3_x86_32("Lorem ipsum dolor sit amet, consectetur adipiscing elit. Etiam at consequat massa. Cras eleifend pellentesque ex, at dignissim libero maximus ut. Sed eget nulla felis".as_bytes(), 0)
        == 1004899618);
}

#[test]
fn murmur3_empty_input_is_zero_for_every_seed() {
    for seed in [0u32, 1, 14, 161, 0xffff_ffff] {
        assert_eq!(murmurhash3_x86_32(&[], seed), 0);
    }
}

#[test]
fn murmur3_is_deterministic() {
    let a = murmurhash3_x86_32("same bytes".as_bytes(), 7);
    let b = murmurhash3_x86_32("same bytes".as_bytes(), 7);
    assert_eq!(a, b);
    assert_ne!(
        murmurhash3_x86_32("same bytes".as_bytes(), 7),
        murmurhash3_x86_32("same bytes".as_bytes(), 8)
    );
}
