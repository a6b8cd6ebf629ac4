use pasta::hash::HashLengthError;

const EMPTY_SHA256: [u8; 32] = [
    0xe3, 0xb0, 0xc4, 0x42, 0x98, 0xfc, 0x1c, 0x14, 0x9a, 0xfb, 0xf4, 0xc8, 0x99, 0x6f, 0xb9, 0x24,
    0x27, 0xae, 0x41, 0xe4, 0x64, 0x9b, 0x93, 0x4c, 0xa4, 0x95, 0x99, 0x1b, 0x78, 0x52, 0xb8, 0x55,
];

#[test]
fn of_content_is_sha256() {
    let h = pasta::hash::Hash::of_content(b"");
    assert_eq!(h.as_bytes(), &EMPTY_SHA256[..]);
    assert_eq!(h, pasta::hash::Hash::new(EMPTY_SHA256));
    let abc = pasta::hash::Hash::of_content(b"abc");
    assert_eq!(
        abc.as_base64(),
        "ungWv48Bz+pBQUDeXa4iI7ADYaOWF3qctBD/YfIAFa0="
    );
}

#[test]
fn base64_and_header_of_hash() {
    let h = pasta::hash::Hash::new(EMPTY_SHA256);
    assert_eq!(h.as_base64(), "47DEQpj8HBSa+/TImW+5JCeuQeRkm5NMpJWZG3hSuFU=");
    assert_eq!(
        h.header_text(),
        "sha256=:47DEQpj8HBSa+/TImW+5JCeuQeRkm5NMpJWZG3hSuFU=:"
    );
    let header = h.to_header();
    assert_eq!(
        header.to_str().unwrap(),
        "sha256=:47DEQpj8HBSa+/TImW+5JCeuQeRkm5NMpJWZG3hSuFU=:"
    );
}

#[test]
fn from_stored_checks_the_length() {
    let h = pasta::hash::Hash::from_stored(&EMPTY_SHA256).unwrap();
    assert_eq!(h, pasta::hash::Hash::new(EMPTY_SHA256));
    assert_eq!(pasta::hash::Hash::from_stored(&[0u8; 31]), Err(HashLengthError));
    assert_eq!(pasta::hash::Hash::from_stored(&[0u8; 33]), Err(HashLengthError));
    assert_eq!(HashLengthError.message(), "Invalid length for hash");
}

#[test]
fn hashes_order_by_bytes() {
    let low = pasta::hash::Hash::new([0u8; 32]);
    let high = pasta::hash::Hash::new([1u8; 32]);
    assert!(low < high);
}

#[test]
fn stored_bytes_read_back_as_the_same_hash() {
    let h = pasta::hash::Hash::of_content(b"some paste");
    assert_eq!(h.as_bytes().len(), 32);
    let again = pasta::hash::Hash::from_stored(h.as_bytes()).unwrap();
    assert!(again == h);
}

#[test]
fn hashes_compare_by_their_bytes() {
    let mut a = [0u8; 32];
    let mut b = [0u8; 32];
    a[31] = 2;
    b[0] = 1;
    let ha = pasta::hash::Hash::new(a);
    let hb = pasta::hash::Hash::new(b);
    assert!(ha < hb);
    assert!(hb > ha);
    assert!(ha != hb);
    assert_eq!(ha.partial_cmp(&hb), Some(std::cmp::Ordering::Less));
    assert_eq!(ha.cmp(&hb), std::cmp::Ordering::Less);
    assert_eq!(ha.partial_cmp(&ha), Some(std::cmp::Ordering::Equal));
    assert!(pasta::hash::Hash::new(a) == ha);
    let mut c = a;
    c[31] = 3;
    assert!(ha < pasta::hash::Hash::new(c));
    assert!(pasta::hash::Hash::new(c) < hb);
}
