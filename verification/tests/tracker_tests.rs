use dhaar_torrent::swarm::{
    absorb_announce, announce_params, prepare_announce_list, AnnounceLoop, LoopAction, SwarmState, TorrentEvent,
};
use dhaar_torrent::tracker::{
    announce_url, decode_compact_peers, parse_announce_response, AnnounceError, Peer, ScheduledTracker,
    TcpTrackerClient, Tracker, TrackerAnnounceQuery, TrackerEvent, TrackerManager, TrackerResponse,
    TrackerResponseBase, TrackerSchedule,
};

fn query() -> TrackerAnnounceQuery {
    let mut hash = [0u8; 20];
    hash[0] = b'a';
    hash[1] = 0x12;
    TrackerAnnounceQuery::new(&hash, &[b'x'; 20])
}

#[test]
fn a_first_announce_has_the_defaults() {
    let q = query();
    assert_eq!(q.port, 6889);
    assert!(q.compact && !q.no_peer_id);
    assert_eq!((q.uploaded, q.downloaded, q.left), (0, 0, 0));
    assert!(q.event.is_none());
}

#[test]
fn the_announce_url_carries_the_query() {
    let url = announce_url("http://t/a", &query());
    assert_eq!(
        url,
        "http://t/a?info_hash=a%12%00%00%00%00%00%00%00%00%00%00%00%00%00%00%00%00%00%00&peer_id=xxxxxxxxxxxxxxxxxxxx&port=6889&uploaded=0&downloaded=0&left=0&compact=1&no_peer_id=0"
    );
    let mut q = query();
    q.event = Some(TrackerEvent::Started);
    q.num_want = Some(50);
    q.key = Some("k".to_string());
    q.left = 1234;
    let url = TcpTrackerClient::new("http://t/a").announce_url(&q);
    assert!(url.contains("&left=1234&"));
    assert!(url.ends_with("&no_peer_id=0&event=started&numwant=50&key=k"));
}

#[test]
fn compact_peers_are_six_bytes_each() {
    let peers = decode_compact_peers(&[10, 0, 0, 1, 0x1a, 0xe1, 192, 168, 1, 255, 0, 80, 9]);
    assert_eq!(peers.len(), 2);
    assert_eq!((peers[0].ip.as_str(), peers[0].port), ("10.0.0.1", 6881));
    assert_eq!((peers[1].ip.as_str(), peers[1].port), ("192.168.1.255", 80));
}

#[test]
fn responses_with_either_kind_of_peer_list_are_read() {
    let compact = parse_announce_response(b"d8:intervali900e5:peers6:\x0a\x00\x00\x01\x1a\xe1e").unwrap();
    assert_eq!(compact.base.interval, Some(900));
    assert_eq!(compact.peers.as_ref().unwrap()[0].ip, "10.0.0.1");
    let listed = parse_announce_response(b"d5:peersld2:ip3:::14:porti1e7:peer id20:aaaaaaaaaaaaaaaaaaaaeee").unwrap();
    let p = &listed.peers.as_ref().unwrap()[0];
    assert_eq!((p.ip.as_str(), p.port, p.peer_id), ("::1", 1, Some([b'a'; 20])));
    let none = parse_announce_response(b"d14:failure reason4:nopee").unwrap();
    assert!(none.peers.is_none());
    assert_eq!(none.base.failure_reason.as_deref(), Some("nope"));
}

#[test]
fn bad_responses_are_errors() {
    assert_eq!(parse_announce_response(b"<html>").unwrap_err(), AnnounceError::Malformed);
    assert_eq!(parse_announce_response(b"li1ee").unwrap_err(), AnnounceError::NotAResponse);
    assert_eq!(parse_announce_response(b"d5:peersi3ee").unwrap_err(), AnnounceError::NotAResponse);
    assert_eq!(parse_announce_response(b"d8:intervali-1ee").unwrap_err(), AnnounceError::NotAResponse);
}

#[test]
fn rotating_cycles_through_every_url() {
    let mut t = Tracker::new("a", vec!["b".to_string(), "c".to_string()], 0);
    t.rotate_url();
    assert_eq!(t.announce_url, "b");
    assert_eq!(t.backup_urls, vec!["c".to_string(), "a".to_string()]);
    t.rotate_url();
    t.rotate_url();
    assert_eq!(t.announce_url, "a");
    assert_eq!(t.backup_urls, vec!["b".to_string(), "c".to_string()]);
}

#[test]
fn the_schedule_hands_out_the_earliest_tracker() {
    let mut s = TrackerSchedule::new(&vec!["a".to_string(), "b".to_string()], 100);
    let first = s.pop_next().unwrap();
    assert_eq!(first.announce_url, "a");
    s.push(first.after_failure(100));
    let next = s.pop_next().unwrap();
    assert_eq!(next.announce_url, "b");
    let retried = s.pop_next().unwrap();
    assert_eq!((retried.failure_count, retried.next_instance), (1, 5100));
    let ok = retried.after_success(200, None);
    assert_eq!((ok.failure_count, ok.next_instance), (0, 60200));
    let ok = ScheduledTracker { announce_url: "c".to_string(), next_instance: 0, failure_count: 3 }.after_success(0, Some(2));
    assert_eq!(ok.next_instance, 2000);
    assert!(s.pop_next().is_none());
}

#[test]
fn the_manager_queries_with_our_identity() {
    let m = TrackerManager::new(vec!["a".to_string()], &[1u8; 20], &[2u8; 20]);
    let q = m.query();
    assert_eq!((q.info_hash, q.peer_id), ([1u8; 20], [2u8; 20]));
    assert_eq!(m.schedule(7).trackers[0].next_instance, 7);
}

#[test]
fn tiers_become_trackers() {
    let list = Some(vec![vec!["a".to_string(), "b".to_string()], vec!["c".to_string()]]);
    let trackers = prepare_announce_list(&list, 5);
    assert_eq!(trackers.len(), 2);
    assert_eq!(trackers[0].announce_url, "a");
    assert_eq!(trackers[0].backup_urls, vec!["b".to_string()]);
    assert!(trackers[1].backup_urls.is_empty());
    assert!(prepare_announce_list(&None, 5).is_empty());
}

#[test]
fn an_announce_reports_what_is_left() {
    let q = announce_params(&query(), 10, 3, 25);
    assert_eq!((q.downloaded, q.uploaded, q.left), (10, 3, 15));
}

fn base() -> TrackerResponseBase {
    TrackerResponseBase {
        failure_reason: None,
        warning_message: None,
        interval: None,
        min_interval: None,
        tracker_id: None,
        complete: None,
        incomplete: None,
    }
}

#[test]
fn an_answer_with_peers_resets_the_tracker() {
    let mut t = Tracker::new("a", vec!["b".to_string()], 0);
    t.failed_count = 2;
    let mut b = base();
    b.warning_message = Some("slow down".to_string());
    b.interval = Some(30);
    b.tracker_id = Some("id".to_string());
    let peers = vec![Peer { peer_id: None, ip: "1.2.3.4".to_string(), port: 1 }];
    let round = absorb_announce(&mut t, Ok(TrackerResponse { base: b, peers: Some(peers) }), 1000);
    assert!(round.succeeded);
    assert!(matches!(&round.events[0], TorrentEvent::TrackerWarning(w) if w == "slow down"));
    assert!(matches!(round.events[1], TorrentEvent::PeersFound(1)));
    assert_eq!((t.failed_count, t.next_run), (0, 31000));
    assert_eq!(t.tracker_id.as_deref(), Some("id"));
    assert_eq!(t.announce_url, "a");
}

#[test]
fn a_failed_announce_backs_off_and_rotates() {
    let mut t = Tracker::new("a", vec!["b".to_string()], 0);
    let round = absorb_announce(&mut t, Err("refused".to_string()), 1000);
    assert!(!round.succeeded && round.peers.is_none());
    assert!(matches!(&round.events[0], TorrentEvent::TrackerError(e) if e == "refused"));
    assert_eq!((t.failed_count, t.next_run), (1, 11000));
    assert_eq!(t.announce_url, "b");
    let mut b = base();
    b.failure_reason = Some("banned".to_string());
    let round = absorb_announce(&mut t, Ok(TrackerResponse { base: b, peers: None }), 2000);
    assert!(matches!(&round.events[0], TorrentEvent::TrackerFailure(f) if f == "banned"));
    assert_eq!((t.failed_count, t.next_run), (2, 22000));
    assert_eq!(t.announce_url, "a");
}

fn peer(ip: &str, port: u16) -> Peer {
    Peer { peer_id: None, ip: ip.to_string(), port }
}

#[test]
fn the_swarm_dials_each_reported_peer_once_until_it_dies() {
    let mut swarm = SwarmState::new();
    swarm.add_available(vec![peer("1.1.1.1", 1), peer("1.1.1.1", 1), peer("2.2.2.2", 2)]);
    assert_eq!(swarm.available.len(), 2);
    let first = swarm.get_random_peer().unwrap();
    swarm.mark_seen(first.clone());
    let second = swarm.get_random_peer().unwrap();
    assert!(!second.same_peer(&first));
    swarm.mark_seen(second.clone());
    assert!(swarm.get_random_peer().is_none());
    swarm.peer_died(&first);
    assert!(swarm.get_random_peer().unwrap().same_peer(&first));
}

#[test]
fn a_round_tries_each_url_once_then_waits_again() {
    let mut early = Tracker::new("x1", vec!["x2".to_string()], 500);
    early.failed_count = 0;
    let late = Tracker::new("y1", vec![], 900);
    let mut l = AnnounceLoop::new(vec![late, early]);
    match l.next_action() {
        LoopAction::Announce { url, not_before } => assert_eq!((url.as_str(), not_before), ("x1", 500)),
        other => panic!("expected an announce, got {other:?}"),
    }
    assert_eq!(l.waiting.len(), 1);
    let r = l.take_outcome(Err("down".to_string()), 600);
    assert!(!r.succeeded);
    match l.next_action() {
        LoopAction::Announce { url, not_before } => assert_eq!((url.as_str(), not_before), ("x2", 0)),
        other => panic!("expected a retry, got {other:?}"),
    }
    let r = l.take_outcome(Err("down".to_string()), 700);
    assert!(!r.succeeded);
    assert!(l.current.is_none());
    assert_eq!(l.waiting.len(), 2);
    let back = &l.waiting[1];
    assert_eq!((back.failed_count, back.next_run, back.announce_url.as_str()), (2, 20700, "x1"));
    // The other tracker is now due first.
    match l.next_action() {
        LoopAction::Announce { url, not_before } => assert_eq!((url.as_str(), not_before), ("y1", 900)),
        other => panic!("expected an announce, got {other:?}"),
    }
    let mut b = base();
    b.interval = Some(5);
    let r = l.take_outcome(Ok(TrackerResponse { base: b, peers: Some(vec![]) }), 1000);
    assert!(r.succeeded);
    assert!(l.current.is_none());
    assert_eq!(l.waiting[1].next_run, 6000);
}

#[test]
fn with_no_tracker_announcing_stops() {
    let mut l = AnnounceLoop::new(vec![]);
    assert!(matches!(l.next_action(), LoopAction::Stop));
}

#[test]
fn left_is_what_was_not_verified_this_session() {
    let mut q = query();
    q.record_progress(40, 7, 100, 30);
    assert_eq!((q.downloaded, q.uploaded, q.left), (40, 7, 70));
    q.record_progress(0, 0, 10, 30);
    assert_eq!(q.left, 0);
}

#[test]
fn the_announce_params_are_the_announce_query() {
    let p: dhaar_torrent::tracker::TrackerAnnounceParams = dhaar_torrent::tracker::TrackerAnnounceParams::new(&[1; 20], &[2; 20]);
    let q = TrackerAnnounceQuery::new(&[1; 20], &[2; 20]);
    assert_eq!((p.port, p.compact, p.left), (q.port, q.compact, q.left));
}
