use conduit::order::{common_elements, compare, KeyOrder};
use conduit::utils::{
    after_first_field_of, be_decode, be_encode, before_last_field_of, bytes_eq, calculate_hash,
    first_field_of, increment, last_field_of, millis_since_unix_epoch, random_string, starts_with,
    str_eq, string_from_bytes, u32_to_be_bytes, u64_from_bytes, u64_to_be_bytes,
};

#[test]
fn increment_starts_at_one() {
    assert_eq!(increment(None), Some(vec![0, 0, 0, 0, 0, 0, 0, 1]));
}

#[test]
fn increment_adds_one() {
    let old = 41_u64.to_be_bytes();
    assert_eq!(increment(Some(&old)), Some(42_u64.to_be_bytes().to_vec()));
}

#[test]
fn increment_restarts_on_unreadable_value() {
    assert_eq!(increment(Some(&[1, 2, 3])), Some(1_u64.to_be_bytes().to_vec()));
}

#[test]
fn u64_round_trip() {
    let bytes = u64_to_be_bytes(0x0102030405060708);
    assert_eq!(bytes, vec![1, 2, 3, 4, 5, 6, 7, 8]);
    assert_eq!(u64_from_bytes(&bytes).unwrap(), 0x0102030405060708);
    assert!(u64_from_bytes(&bytes[..7]).is_err());
    assert!(u64_from_bytes(&[0; 9]).is_err());
}

#[test]
fn big_endian_matches_std() {
    for x in [0_u64, 1, 255, 256, 65_535, u64::MAX - 1, u64::MAX] {
        assert_eq!(u64_to_be_bytes(x), x.to_be_bytes().to_vec());
        assert_eq!(u64_from_bytes(&x.to_be_bytes()).unwrap(), x);
    }
    assert_eq!(u32_to_be_bytes(0x01020304), vec![1, 2, 3, 4]);
    assert_eq!(be_encode(u128::MAX, 16), vec![0xff; 16]);
    assert_eq!(be_decode(&[1, 0]), 256);
    assert_eq!(be_decode(&[]), 0);
}

#[test]
fn big_endian_order_is_numeric_order() {
    let values = [0_u64, 1, 2, 255, 256, 257, 1 << 32, u64::MAX];
    for a in values {
        for b in values {
            let order = compare(&u64_to_be_bytes(a), &u64_to_be_bytes(b));
            if a < b {
                assert_eq!(order, KeyOrder::Less);
            } else if a == b {
                assert_eq!(order, KeyOrder::Equal);
            } else {
                assert_eq!(order, KeyOrder::Greater);
            }
        }
    }
}

#[test]
fn compare_orders_prefixes_first() {
    assert_eq!(compare(b"", b""), KeyOrder::Equal);
    assert_eq!(compare(b"", b"a"), KeyOrder::Less);
    assert_eq!(compare(b"ab", b"abc"), KeyOrder::Less);
    assert_eq!(compare(b"abd", b"abc"), KeyOrder::Greater);
    assert_eq!(compare(b"b", b"abc"), KeyOrder::Greater);
}

#[test]
fn fields_are_split_at_the_separator() {
    let key = b"room\xffuser\xff\x00\x00\x00\x00\x00\x00\x00\x07\xffm.type";
    assert_eq!(first_field_of(key), b"room".to_vec());
    assert_eq!(
        after_first_field_of(key),
        Some(b"user\xff\x00\x00\x00\x00\x00\x00\x00\x07\xffm.type".to_vec())
    );
    assert_eq!(last_field_of(key), b"m.type".to_vec());
    assert_eq!(
        before_last_field_of(key),
        Some(b"room\xffuser\xff\x00\x00\x00\x00\x00\x00\x00\x07".to_vec())
    );
}

#[test]
fn a_key_without_separator_is_one_field() {
    assert_eq!(first_field_of(b"abc"), b"abc".to_vec());
    assert_eq!(last_field_of(b"abc"), b"abc".to_vec());
    assert_eq!(after_first_field_of(b"abc"), None);
    assert_eq!(before_last_field_of(b"abc"), None);
    assert_eq!(first_field_of(b""), Vec::<u8>::new());
    assert_eq!(last_field_of(b"\xff"), Vec::<u8>::new());
    assert_eq!(after_first_field_of(b"\xff"), Some(Vec::new()));
}

#[test]
fn byte_strings_compare() {
    assert!(bytes_eq(b"abc", b"abc"));
    assert!(!bytes_eq(b"abc", b"abd"));
    assert!(!bytes_eq(b"abc", b"ab"));
    assert!(starts_with(b"abc", b"ab"));
    assert!(starts_with(b"abc", b""));
    assert!(!starts_with(b"ab", b"abc"));
    assert!(str_eq("m.login.dummy", "m.login.dummy"));
    assert!(!str_eq("m.login.dummy", "m.login.password"));
}

#[test]
fn string_from_bytes_wants_utf8() {
    assert_eq!(string_from_bytes("grüße".as_bytes()).unwrap(), "grüße");
    assert!(string_from_bytes(&[0x66, 0xff]).is_err());
}

#[test]
fn random_strings_are_alphanumeric() {
    for length in [0_usize, 1, 10, 32, 256] {
        let s = random_string(length);
        assert_eq!(s.chars().count(), length);
        assert!(s.chars().all(|c| c.is_ascii_alphanumeric()));
    }
    assert_ne!(random_string(32), random_string(32));
}

#[test]
fn the_clock_reads_after_the_epoch() {
    assert!(millis_since_unix_epoch() > 1_500_000_000_000);
}

#[test]
fn hashes_are_argon2id_and_salted() {
    let first = calculate_hash("s3cret").unwrap();
    let second = calculate_hash("s3cret").unwrap();
    assert!(first.starts_with("$argon2id$"));
    assert_ne!(first, second);
    assert!(argon2::verify_encoded(&first, b"s3cret").unwrap());
    assert!(!argon2::verify_encoded(&first, b"wrong").unwrap());
}

#[test]
fn common_elements_of_no_list() {
    assert_eq!(common_elements(Vec::new()), None);
}

#[test]
fn common_elements_of_one_list() {
    let list = vec![b"a".to_vec(), b"b".to_vec()];
    assert_eq!(common_elements(vec![list.clone()]), Some(list));
}

#[test]
fn common_elements_of_sorted_lists() {
    let first = vec![b"a".to_vec(), b"c".to_vec(), b"e".to_vec(), b"g".to_vec()];
    let second = vec![b"b".to_vec(), b"c".to_vec(), b"d".to_vec(), b"g".to_vec()];
    let third = vec![b"c".to_vec(), b"g".to_vec(), b"h".to_vec()];
    assert_eq!(
        common_elements(vec![first, second, third]),
        Some(vec![b"c".to_vec(), b"g".to_vec()])
    );
}

#[test]
fn common_elements_with_an_empty_list() {
    let first = vec![b"a".to_vec()];
    assert_eq!(common_elements(vec![first, Vec::new()]), Some(Vec::new()));
}
