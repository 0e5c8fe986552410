use dhaar_torrent::store::{recheck_piece, resume_verdict, Recheck, Resume, StoreFlags, StoreLayout};
use dhaar_torrent::wire_protocol::Bitfield;

fn layout() -> StoreLayout {
    StoreLayout { payload_length: 25, piece_length: 10 }
}

#[test]
fn the_store_is_payload_then_bitfield_then_hash_then_flags() {
    let l = layout();
    assert_eq!(l.piece_count(), 3);
    assert_eq!(l.bitfield_length(), 1);
    assert_eq!(l.bitfield_at(), 25);
    assert_eq!(l.info_hash_at(), 26);
    assert_eq!(l.flags_at(), 46);
    assert_eq!(l.file_length(), 47);
}

#[test]
fn pieces_are_strided_and_the_last_is_short() {
    let l = layout();
    assert_eq!(l.piece_at(2, 3), 23);
    assert_eq!(l.piece_size(0), 10);
    assert_eq!(l.piece_size(2), 5);
    assert_eq!(l.piece_size(3), 0);
}

#[test]
fn an_even_payload_has_no_short_piece() {
    let l = StoreLayout { payload_length: 40, piece_length: 10 };
    assert_eq!(l.piece_count(), 4);
    assert_eq!(l.piece_size(3), 10);
    let many = StoreLayout { payload_length: 90, piece_length: 10 };
    assert_eq!(many.bitfield_length(), 2);
}

#[test]
fn the_clean_bit_is_the_only_one_touched() {
    let flags = StoreFlags::from_byte(0b1010_0000);
    assert!(!flags.is_clean());
    let clean = flags.with_clean(true);
    assert_eq!(clean.to_byte(), 0b1010_0001);
    assert!(clean.is_clean());
    assert_eq!(clean.with_clean(false).to_byte(), 0b1010_0000);
    assert!(!StoreFlags::default().is_clean());
}

#[test]
fn a_store_is_resumed_only_at_its_exact_length() {
    let l = layout();
    assert!(l.is_resumable(true, 47));
    assert!(!l.is_resumable(true, 46));
    assert!(!l.is_resumable(false, 47));
}

#[test]
fn a_fresh_trailer_claims_nothing() {
    let trailer = layout().fresh_trailer(&[9u8; 20]);
    assert_eq!(trailer.len(), 22);
    assert_eq!(trailer[0], 0);
    assert_eq!(&trailer[1..21], &[9u8; 20]);
    assert_eq!(trailer[21], 0);
}

#[test]
fn resume_depends_on_identity_then_the_clean_bit() {
    let ours = [1u8; 20];
    assert_eq!(resume_verdict(&ours, &[2u8; 20], StoreFlags(1)), Resume::Foreign);
    assert_eq!(resume_verdict(&ours, &ours, StoreFlags(1)), Resume::Trusted);
    assert_eq!(resume_verdict(&ours, &ours, StoreFlags(0)), Resume::Recheck);
}

#[test]
fn a_piece_whose_bytes_do_not_hash_right_is_disowned() {
    let data = b"hello";
    let good: [u8; 20] = <sha1::Sha1 as sha1::Digest>::digest(data).into();
    let mut bitfield = Bitfield(vec![0b1100_0000]);
    recheck_piece(&mut bitfield, 0, data, &good);
    assert!(bitfield.has_piece(0));
    recheck_piece(&mut bitfield, 1, data, &[0u8; 20]);
    assert!(!bitfield.has_piece(1));
    assert!(bitfield.has_piece(0));
}

fn sha1_of(data: &[u8]) -> [u8; 20] {
    <sha1::Sha1 as sha1::Digest>::digest(data).into()
}

#[test]
fn a_crashed_store_is_rechecked_piece_by_piece() {
    let l = layout();
    let payload: Vec<u8> = (0..25u8).collect();
    let mut hashes = vec![sha1_of(&payload[0..10]), sha1_of(&payload[10..20]), sha1_of(&payload[20..25])];
    hashes[2][0] ^= 1; // the last piece on disk no longer matches
    assert!(l.holds_hashes(3));
    assert!(!l.holds_hashes(2));
    // Pieces 0 and 2 claimed, piece 1 not, and a padding bit set.
    let mut r = Recheck::new(l, Bitfield(vec![0b1010_0001]), hashes);
    let mut reads = Vec::new();
    while let Some((index, offset, length)) = r.next_read() {
        reads.push((index, offset, length));
        r.absorb(&payload[offset as usize..(offset + length) as usize]);
    }
    assert_eq!(reads, vec![(0, 0, 10), (2, 20, 5)]);
    let b = r.finish();
    assert!(b.has_piece(0));
    assert!(!b.has_piece(1));
    assert!(!b.has_piece(2));
    assert!(b.has_piece(7), "bits past the last piece are kept");
    assert_eq!(b.0, vec![0b1000_0001]);
}

#[test]
fn a_store_that_claims_nothing_reads_nothing() {
    let l = layout();
    let mut r = Recheck::new(l, Bitfield(vec![0]), vec![[0u8; 20]; 3]);
    assert!(r.next_read().is_none());
    assert_eq!(r.finish().0, vec![0]);
}

#[test]
fn a_layout_is_usable_only_with_pieces_and_offsets_that_fit() {
    assert!(layout().offsets_fit());
    assert!(!StoreLayout { payload_length: 10, piece_length: 0 }.offsets_fit());
    assert!(!StoreLayout { payload_length: u64::MAX - 10, piece_length: 1 << 40 }.offsets_fit());
    assert!(StoreLayout { payload_length: u64::MAX - 22, piece_length: u64::MAX }.offsets_fit());
    assert!(!StoreLayout { payload_length: u64::MAX - 21, piece_length: u64::MAX }.offsets_fit());
}
