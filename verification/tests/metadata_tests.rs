use dhaar_torrent::bencode::{encode, from_bytes, Bencode};
use dhaar_torrent::metadata::{info_hash, MetadataError, Torrent, TorrentFileParser};

fn sha1(data: &[u8]) -> [u8; 20] {
    <sha1::Sha1 as sha1::Digest>::digest(data).into()
}

const SINGLE: &[u8] = b"d8:announce18:http://t.example/113:announce-listll18:http://t.example/1el18:http://t.example/218:http://t.example/1ee7:comment2:hi13:creation datei1700000000e4:infod6:lengthi25e4:name5:a.txt12:piece lengthi10e6:pieces60:aaaaaaaaaaaaaaaaaaaabbbbbbbbbbbbbbbbbbbbcccccccccccccccccccc7:privatei1eee";

#[test]
fn a_single_file_torrent_is_read() {
    let t = TorrentFileParser::parse_from_bytes(SINGLE).unwrap();
    assert_eq!(t.announce.as_deref(), Some("http://t.example/1"));
    assert_eq!(t.info.name, "a.txt");
    assert_eq!(t.info.piece_length, 10);
    assert_eq!(t.info.length, Some(25));
    assert_eq!(t.info.pieces.len(), 60);
    assert_eq!(t.info.private, Some(1));
    assert_eq!(t.creation_date, Some(1_700_000_000));
    assert_eq!(t.comment.as_deref(), Some("hi"));
    assert!(t.created_by.is_none());
    assert_eq!(t.info.total_length(), 25);
}

#[test]
fn the_info_hash_covers_the_info_bytes_as_written() {
    let t = Torrent::parse_from_bytes(SINGLE).unwrap();
    let start = SINGLE.windows(6).position(|w| w == b"4:info").unwrap() + 6;
    let info_bytes = &SINGLE[start..SINGLE.len() - 1];
    assert_eq!(t.info_hash, sha1(info_bytes));
    assert_eq!(info_hash(SINGLE), t.info_hash);
}

#[test]
fn announce_urls_put_the_primary_first_and_drop_repeats() {
    let t = Torrent::parse_from_bytes(SINGLE).unwrap();
    assert_eq!(t.announce_urls(), vec!["http://t.example/1".to_string(), "http://t.example/2".to_string()]);
}

#[test]
fn announce_is_optional_and_a_list_alone_is_enough() {
    let data = b"d13:announce-listll5:http:ee13:creation datei0e4:infod4:name1:x12:piece lengthi1e6:pieces0:ee";
    let t = Torrent::parse_from_bytes(data).unwrap();
    assert!(t.announce.is_none());
    assert_eq!(t.announce_urls(), vec!["http:".to_string()]);
}

#[test]
fn a_torrent_without_a_creation_date_is_accepted() {
    let data = b"d4:infod4:name1:x12:piece lengthi1e6:pieces0:ee";
    let t = Torrent::parse_from_bytes(data).unwrap();
    assert!(t.creation_date.is_none());
    let dated = b"d13:creation datei0e4:infod4:name1:x12:piece lengthi1e6:pieces0:ee";
    let t = Torrent::parse_from_bytes(dated).unwrap();
    assert_eq!(t.creation_date, Some(0));
    assert!(t.announce_urls().is_empty());
}

#[test]
fn a_creation_date_past_what_a_calendar_holds_is_refused() {
    let data = b"d13:creation datei9223372036854775807e4:infod4:name1:x12:piece lengthi1e6:pieces0:ee";
    assert_eq!(Torrent::parse_from_bytes(data).unwrap_err(), MetadataError::NotATorrent);
    let text = b"d13:creation date3:now4:infod4:name1:x12:piece lengthi1e6:pieces0:ee";
    assert_eq!(Torrent::parse_from_bytes(text).unwrap_err(), MetadataError::NotATorrent);
}

#[test]
fn a_multi_file_torrent_adds_up_its_files() {
    let data = b"d13:creation datei1e4:infod5:filesld6:lengthi3e4:pathl1:a1:beed6:lengthi4e6:md5sum2:ff4:pathl1:ceee4:name3:dir12:piece lengthi4e6:pieces40:aaaaaaaaaaaaaaaaaaaabbbbbbbbbbbbbbbbbbbbee";
    let t = Torrent::parse_from_bytes(data).unwrap();
    let files = t.info.files.as_ref().unwrap();
    assert_eq!(files.len(), 2);
    assert_eq!(files[0].path, vec!["a".to_string(), "b".to_string()]);
    assert_eq!(files[1].md5sum.as_deref(), Some("ff"));
    assert_eq!(t.info.total_length(), 7);
}

#[test]
fn broken_input_is_malformed() {
    assert_eq!(Torrent::parse_from_bytes(b"d4:info").unwrap_err(), MetadataError::Malformed);
    assert_eq!(Torrent::parse_from_bytes(b"").unwrap_err(), MetadataError::Malformed);
}

#[test]
fn a_value_of_the_wrong_shape_is_not_a_torrent() {
    assert_eq!(Torrent::parse_from_bytes(b"i1e").unwrap_err(), MetadataError::NotATorrent);
    assert_eq!(Torrent::parse_from_bytes(b"de").unwrap_err(), MetadataError::NotATorrent);
    let bad_name = b"d13:creation datei1e4:infod4:name2:\xff\xfe12:piece lengthi1e6:pieces0:ee";
    assert_eq!(Torrent::parse_from_bytes(bad_name).unwrap_err(), MetadataError::NotATorrent);
    let negative = b"d13:creation datei1e4:infod4:name1:x12:piece lengthi-1e6:pieces0:ee";
    assert_eq!(Torrent::parse_from_bytes(negative).unwrap_err(), MetadataError::NotATorrent);
    let bad_private = b"d13:creation datei1e4:infod4:name1:x12:piece lengthi1e6:pieces0:7:privatei256eee";
    assert_eq!(Torrent::parse_from_bytes(bad_private).unwrap_err(), MetadataError::NotATorrent);
}

#[test]
fn unknown_keys_are_ignored_but_kept_in_the_hash() {
    let data = b"d13:creation datei1e4:infod4:name1:x12:piece lengthi1e6:pieces0:5:zzzzzi9ee3:fooi1ee";
    let t = Torrent::parse_from_bytes(data).unwrap();
    let doc = from_bytes(data).unwrap();
    let info = match &doc {
        Bencode::Dict(entries) => encode(&entries.iter().find(|(k, _)| k == b"info").unwrap().1),
        _ => unreachable!(),
    };
    assert_eq!(info, b"d4:name1:x12:piece lengthi1e6:pieces0:5:zzzzzi9ee".to_vec());
    assert_eq!(t.info_hash, sha1(&info));
    assert_ne!(t.info_hash[..], info[..20]);
}

fn dated(secs: i64) -> Vec<u8> {
    let mut d = format!("d13:creation datei{secs}e").into_bytes();
    d.extend_from_slice(b"4:infod4:name1:x12:piece lengthi1e6:pieces0:ee");
    d
}

#[test]
fn creation_dates_are_taken_up_to_the_last_second_a_calendar_holds() {
    assert_eq!(Torrent::parse_from_bytes(&dated(8210266876799)).unwrap().creation_date, Some(8210266876799));
    assert_eq!(Torrent::parse_from_bytes(&dated(8210266876800)).unwrap_err(), MetadataError::NotATorrent);
    assert_eq!(Torrent::parse_from_bytes(&dated(-8334601228800)).unwrap().creation_date, Some(-8334601228800));
    assert_eq!(Torrent::parse_from_bytes(&dated(-8334601228801)).unwrap_err(), MetadataError::NotATorrent);
}

#[test]
fn a_length_that_cannot_be_counted_is_found_out() {
    let data = b"d13:creation datei1e4:infod5:filesld6:lengthi9223372036854775807e4:pathl1:aeed6:lengthi9223372036854775807e4:pathl1:beed6:lengthi2e4:pathl1:ceee4:name3:dir12:piece lengthi4e6:pieces0:ee";
    let t = Torrent::parse_from_bytes(data).unwrap();
    assert!(!t.info.total_length_fits());
    let t = Torrent::parse_from_bytes(SINGLE).unwrap();
    assert!(t.info.total_length_fits());
}
