use dhaar_torrent::status::{DownloadState, DownloadStats, DownloadStatus, PieceProgress};

#[test]
fn counters_start_at_zero_and_add_up() {
    let mut s = DownloadStats::new();
    assert_eq!(s.downloaded_bytes(), 0);
    s.add_downloaded(10);
    s.add_downloaded(5);
    s.add_uploaded(3);
    s.add_wasted(2);
    assert_eq!((s.downloaded_bytes(), s.uploaded_bytes(), s.wasted_bytes()), (15, 3, 2));
}

#[test]
fn held_counts_resumed_and_verified_pieces() {
    let mut s = DownloadStats::new();
    s.set_totals(4, 40);
    s.set_resumed(1, 10);
    s.piece_verified(10);
    assert_eq!(s.held_bytes(), 20);
    assert_eq!(s.held_pieces(), 2);
    assert_eq!(s.remaining_bytes(), 20);
    assert_eq!(s.verified_bytes(), 10);
    assert!(!s.is_complete());
    s.piece_verified(10);
    s.piece_verified(10);
    assert!(s.is_complete());
    assert_eq!(s.remaining_bytes(), 0);
}

#[test]
fn an_empty_torrent_is_never_complete_before_its_totals() {
    let s = DownloadStats::new();
    assert!(!s.is_complete());
}

#[test]
fn releases_and_disconnects_saturate_at_zero() {
    let mut s = DownloadStats::new();
    s.piece_released();
    s.peer_disconnected();
    assert_eq!((s.in_flight_pieces(), s.active_peers()), (0, 0));
    s.piece_claimed();
    s.peer_connected();
    s.piece_failed_hash();
    assert_eq!((s.in_flight_pieces(), s.active_peers(), s.hash_failures()), (1, 1, 1));
}

fn progress(completed: u32, extracted: bool) -> PieceProgress {
    let mut p = PieceProgress::default();
    p.completed_pieces = completed;
    p.extracted = extracted;
    p
}

#[test]
fn a_sample_reports_state_and_rates() {
    let mut s = DownloadStats::new();
    s.set_totals(2, 20);
    let first = DownloadStatus::sample(&s, progress(0, false), 0, 0, 1);
    assert_eq!(first.state, DownloadState::Starting);
    s.add_downloaded(3000);
    s.piece_verified(10);
    let second = DownloadStatus::sample(&s, progress(1, false), 1000, 0, 2);
    assert_eq!(second.state, DownloadState::Downloading);
    assert_eq!(second.download_rate, 1000);
    s.piece_verified(10);
    assert_eq!(DownloadStatus::sample(&s, progress(2, false), 0, 0, 0).state, DownloadState::Finalizing);
    let done = DownloadStatus::sample(&s, progress(2, true), 5000, 0, 0);
    assert_eq!(done.state, DownloadState::Seeding);
    assert_eq!(done.download_rate, 0);
}

#[test]
fn held_bytes_are_resumed_plus_every_verified_piece_over_a_run() {
    let mut s = DownloadStats::new();
    s.set_resumed(3, 300);
    s.add_downloaded(50);
    s.piece_verified(40);
    s.piece_claimed();
    s.set_totals(10, 1000);
    s.piece_verified(25);
    s.piece_failed_hash();
    s.peer_connected();
    s.piece_verified(35);
    s.piece_released();
    assert_eq!(s.verified_bytes(), 100);
    assert_eq!(s.held_bytes(), 400);
    assert_eq!(s.held_bytes(), s.verified_bytes() + 300);
}
