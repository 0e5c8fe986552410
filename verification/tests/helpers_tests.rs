use dhaar_torrent::helpers::{
    generate_random_peer_id, hex_string, hex_string_info_hash, peer_id_with, url_encode_bytes,
    url_safe_string_info_hash,
};

#[test]
fn test_hex_string_info_hash() {
    let mut hash = [0u8; 20];
    hash[0] = 0x2b;
    hash[19] = 0xff;
    assert_eq!(hex_string_info_hash(&hash), "2b000000000000000000000000000000000000ff");
}

#[test]
fn test_url_safe_string_info_hash() {
    let mut hash = [0u8; 20];
    hash[0] = b'a';
    hash[1] = 0x12;
    hash[2] = b'~';
    assert_eq!(
        url_safe_string_info_hash(&hash),
        "a%12~%00%00%00%00%00%00%00%00%00%00%00%00%00%00%00%00%00"
    );
}

#[test]
fn hex_uses_lowercase_two_digits_per_byte() {
    assert_eq!(hex_string(&[0x00, 0x0a, 0xab, 0xff]), "000aabff");
    assert_eq!(hex_string(&[]), "");
}

#[test]
fn url_encoding_keeps_unreserved_bytes() {
    assert_eq!(url_encode_bytes(b"AZaz09-_.~"), "AZaz09-_.~");
    assert_eq!(url_encode_bytes(b" /%"), "%20%2F%25");
    assert_eq!(url_encode_bytes(&[0xff]), "%FF");
}

#[test]
fn peer_ids_start_with_our_prefix() {
    let id = peer_id_with([7u8; 14]);
    assert_eq!(&id[..6], b"-DH01-");
    assert_eq!(&id[6..], &[7u8; 14]);
    let random = generate_random_peer_id();
    assert_eq!(&random[..6], b"-DH01-");
}
