use dhaar_torrent::bencode::{dict_get, encode, from_bytes, parse_value, to_bytes, Bencode, BencodeError, Raw};

fn integer(v: &Bencode) -> i64 {
    match v {
        Bencode::Integer(i) => *i,
        other => panic!("expected an integer, got {other:?}"),
    }
}

fn bytes(v: &Bencode) -> &[u8] {
    match v {
        Bencode::Bytes(b) => b.as_slice(),
        other => panic!("expected a byte string, got {other:?}"),
    }
}

fn list(v: &Bencode) -> &Vec<Bencode> {
    match v {
        Bencode::List(items) => items,
        other => panic!("expected a list, got {other:?}"),
    }
}

fn dict(v: &Bencode) -> &Vec<(Vec<u8>, Bencode)> {
    match v {
        Bencode::Dict(entries) => entries,
        other => panic!("expected a dictionary, got {other:?}"),
    }
}

#[test]
fn test_parse_integer() {
    assert_eq!(integer(&from_bytes(b"i345e").unwrap()), 345);
}

#[test]
fn test_parse_negative_integer() {
    assert_eq!(integer(&from_bytes(b"i-345e").unwrap()), -345);
}

#[test]
fn test_parse_string() {
    assert_eq!(bytes(&from_bytes(b"4:spam").unwrap()), b"spam");
}

#[test]
fn test_parse_bytes() {
    assert_eq!(bytes(&from_bytes(b"4:spam").unwrap()), b"spam");
}

#[test]
fn test_parse_list() {
    let v = from_bytes(b"li345ei4ee").unwrap();
    let items: Vec<i64> = list(&v).iter().map(integer).collect();
    assert_eq!(items, vec![345, 4]);
}

#[test]
fn test_parse_tuple() {
    let v = from_bytes(b"li345e5:helloe").unwrap();
    let items = list(&v);
    assert_eq!((integer(&items[0]), bytes(&items[1])), (345, &b"hello"[..]));
}

#[test]
fn test_parse_dict() {
    let v = from_bytes(b"d4:spami345ee").unwrap();
    let entries = dict(&v);
    assert_eq!(entries.len(), 1);
    assert_eq!(entries[0].0, b"spam".to_vec());
    assert_eq!(integer(&entries[0].1), 345);
}

#[test]
fn test_parse_any() {
    assert_eq!(integer(&from_bytes(b"i345e").unwrap()), 345);
    assert_eq!(bytes(&from_bytes(b"4:spam").unwrap()), b"spam");
    let v = from_bytes(b"li345e4:spame").unwrap();
    assert_eq!(integer(&list(&v)[0]), 345);
    assert_eq!(bytes(&list(&v)[1]), b"spam");
    let v = from_bytes(b"d4:spamli345eee").unwrap();
    let inner = dict_get(dict(&v), b"spam").unwrap();
    assert_eq!(integer(&list(inner)[0]), 345);
}

#[test]
fn test_parse_ignored_any() {
    let v = from_bytes(b"ld1:ai1eei7ee").unwrap();
    assert_eq!(integer(&list(&v)[1]), 7);
}

#[test]
fn test_parse_raw() {
    // The raw span must be the exact original bytes, unknown key `y` included.
    let outer = from_bytes(b"d1:ad1:xi5e1:yli1ei2eee1:bi7ee").unwrap();
    let a = dict_get(dict(&outer), b"a").unwrap();
    assert_eq!(encode(a), b"d1:xi5e1:yli1ei2eee".to_vec());
    assert_eq!(integer(dict_get(dict(&outer), b"b").unwrap()), 7);
}

#[test]
fn test_serialize_integer() {
    assert_eq!(to_bytes(&345u32).unwrap(), b"i345e");
}

#[test]
fn test_serialize_negative_integer() {
    assert_eq!(to_bytes(&-345i32).unwrap(), b"i-345e");
}

#[test]
fn test_serialize_string() {
    assert_eq!(to_bytes(&"spam").unwrap(), b"4:spam");
}

#[test]
fn test_serialize_bytes() {
    assert_eq!(encode(&Bencode::Bytes(b"spam".to_vec())), b"4:spam");
}

#[test]
fn test_serialize_list() {
    assert_eq!(to_bytes(&vec![345u32, 4]).unwrap(), b"li345ei4ee");
}

#[test]
fn test_serialize_tuple() {
    assert_eq!(to_bytes(&(345, "hello")).unwrap(), b"li345e5:helloe");
}

#[test]
fn test_serialize_dict() {
    let value = Bencode::Dict(vec![(b"spam".to_vec(), Bencode::Integer(345))]);
    assert_eq!(encode(&value), b"d4:spami345ee");
}

#[test]
fn test_roundtrip_dict() {
    let original = Bencode::Dict(vec![(b"spam".to_vec(), Bencode::Integer(345))]);
    let encoded = encode(&original);
    let decoded = from_bytes(&encoded).unwrap();
    assert_eq!(dict(&decoded)[0].0, b"spam".to_vec());
    assert_eq!(integer(&dict(&decoded)[0].1), 345);
}

#[test]
fn integers_out_of_range_cannot_be_written() {
    assert_eq!(to_bytes(&u64::MAX).unwrap_err(), BencodeError::IntegerOutOfRange);
    assert_eq!(to_bytes(&(i64::MAX as u64)).unwrap(), b"i9223372036854775807e");
}

#[test]
fn extreme_integers_round_trip() {
    assert_eq!(integer(&from_bytes(b"i-9223372036854775808e").unwrap()), i64::MIN);
    assert!(from_bytes(b"i9223372036854775808e").is_none());
    assert!(from_bytes(b"i-9223372036854775809e").is_none());
}

#[test]
fn non_canonical_numbers_are_refused() {
    assert!(from_bytes(b"i03e").is_none());
    assert!(from_bytes(b"i-0e").is_none());
    assert!(from_bytes(b"ie").is_none());
    assert!(from_bytes(b"04:spam").is_none());
    assert_eq!(integer(&from_bytes(b"i0e").unwrap()), 0);
}

#[test]
fn truncated_and_trailing_input_is_refused() {
    assert!(from_bytes(b"").is_none());
    assert!(from_bytes(b"5:spam").is_none());
    assert!(from_bytes(b"li1e").is_none());
    assert!(from_bytes(b"i1ei2e").is_none());
    assert!(from_bytes(b"x").is_none());
}

#[test]
fn parse_value_reports_where_a_value_ends() {
    let (v, end) = parse_value(b"i1ei2e", 0).unwrap();
    assert_eq!(integer(&v), 1);
    assert_eq!(end, 3);
    let (v, end) = parse_value(b"i1ei2e", end).unwrap();
    assert_eq!(integer(&v), 2);
    assert_eq!(end, 6);
}

#[test]
fn writing_what_was_read_gives_back_the_bytes() {
    let input = b"d3:zzzi1e3:aaal4:spami-2eee";
    let v = from_bytes(input).unwrap();
    assert_eq!(encode(&v), input.to_vec());
}

#[test]
fn raw_pairs_a_value_with_its_bytes() {
    let raw = Raw::of(Bencode::List(vec![Bencode::Integer(1), Bencode::Bytes(b"ab".to_vec())]));
    assert_eq!(raw.bytes, b"li1e2:abe".to_vec());
}

#[test]
fn dict_get_finds_the_first_entry() {
    let entries = vec![
        (b"a".to_vec(), Bencode::Integer(1)),
        (b"b".to_vec(), Bencode::Integer(2)),
        (b"a".to_vec(), Bencode::Integer(3)),
    ];
    assert_eq!(integer(dict_get(&entries, b"a").unwrap()), 1);
    assert_eq!(integer(dict_get(&entries, b"b").unwrap()), 2);
    assert!(dict_get(&entries, b"c").is_none());
}
