use vstd::prelude::*;

use crate::helpers::choose_peer;
use crate::tracker::{
    peers_view, ring_of, rotate_ring, Peer, PeerView, Tracker, TrackerAnnounceQuery, TrackerResponse,
};

verus! {

broadcast use vstd::std_specs::vec::group_vec_axioms, vstd::seq::group_seq_axioms;

/// Something a torrent reports while it runs.
#[derive(Clone, Debug)]
pub enum TorrentEvent {
    PeersFound(usize),
    TrackerWarning(String),
    TrackerFailure(String),
    TrackerError(String),
    PeerConnected,
    PeerDisconnected,
    Downloaded(u64),
    PieceComplete(u32),
}

/// One tracker per tier of an `announce-list`: the tier's first URL in use,
/// the rest to fall back on, every one due at `now`. Nothing when there is
/// no list or it is empty.
pub fn prepare_announce_list(announce_list: &Option<Vec<Vec<String>>>, now: u64) -> (r: Vec<Tracker>)
    requires
        announce_list matches Some(l) ==> forall|i: int| 0 <= i < l@.len() ==> (#[trigger] l@[i])@.len() > 0,
    ensures
        announce_list is None ==> r@.len() == 0,
        announce_list matches Some(l) ==> {
            &&& r@.len() == l@.len()
            &&& forall|i: int|
                0 <= i < l@.len() ==> {
                    &&& (#[trigger] r@[i]).announce_url@ == l@[i]@[0]@
                    &&& r@[i].backup_urls@ == l@[i]@.drop_first()
                    &&& r@[i].next_run == now
                    &&& r@[i].failed_count == 0
                    &&& r@[i].tracker_id is None
                }
        },
{
    let mut trackers: Vec<Tracker> = Vec::new();
    match announce_list {
        Some(tiers) => {
            let mut t: usize = 0;
            while t < tiers.len()
                invariant
                    t <= tiers@.len(),
                    forall|i: int| 0 <= i < tiers@.len() ==> (#[trigger] tiers@[i])@.len() > 0,
                    trackers@.len() == t,
                    forall|i: int|
                        0 <= i < t ==> {
                            &&& (#[trigger] trackers@[i]).announce_url@ == tiers@[i]@[0]@
                            &&& trackers@[i].backup_urls@ == tiers@[i]@.drop_first()
                            &&& trackers@[i].next_run == now
                            &&& trackers@[i].failed_count == 0
                            &&& trackers@[i].tracker_id is None
                        },
                decreases tiers@.len() - t,
            {
                let tier = &tiers[t];
                assert(tier@.len() > 0);
                let mut rest: Vec<String> = Vec::new();
                let mut u: usize = 1;
                while u < tier.len()
                    invariant
                        1 <= u <= tier@.len(),
                        rest@ == tier@.subrange(1, u as int),
                    decreases tier@.len() - u,
                {
                    rest.push(tier[u].clone());
                    u = u + 1;
                    assert(rest@ =~= tier@.subrange(1, u as int));
                }
                assert(rest@ =~= tier@.drop_first());
                trackers.push(Tracker::new(tier[0].as_str(), rest, now));
                t = t + 1;
            }
        },
        None => {},
    }
    trackers
}

/// The query for one round of announcing: the defaults, with what was
/// transferred so far and what is left.
pub fn announce_params(defaults: &TrackerAnnounceQuery, downloaded: u64, uploaded: u64, total_length: u64) -> (r:
    TrackerAnnounceQuery)
    requires
        downloaded <= total_length,
    ensures
        r == (TrackerAnnounceQuery {
            downloaded,
            uploaded,
            left: (total_length - downloaded) as u64,
            ..*defaults
        }),
{
    TrackerAnnounceQuery {
        downloaded,
        uploaded,
        left: total_length - downloaded,
        info_hash: defaults.info_hash,
        peer_id: defaults.peer_id,
        port: defaults.port,
        compact: defaults.compact,
        no_peer_id: defaults.no_peer_id,
        event: defaults.event,
        ip: clone_text(&defaults.ip),
        num_want: defaults.num_want,
        key: clone_text(&defaults.key),
        tracker_id: clone_text(&defaults.tracker_id),
    }
}

/// A copy of an optional string.
pub fn clone_text(s: &Option<String>) -> (r: Option<String>)
    ensures
        r == *s,
{
    match s {
        Some(t) => Some(t.clone()),
        None => None,
    }
}

/// What one announce attempt came to.
#[derive(Debug)]
pub struct AnnounceRound {
    /// What to report, in order.
    pub events: Vec<TorrentEvent>,
    /// The peers found, when the tracker gave any.
    pub peers: Option<Vec<Peer>>,
    /// Whether the tracker answered with peers; otherwise try again with
    /// the next URL.
    pub succeeded: bool,
}

/// The interval used when a tracker sets none, in seconds.
pub const DEFAULT_INTERVAL_SECS: u32 = 10;

/// How long a failing tracker waits per failure so far, in milliseconds.
pub const BACKOFF_STEP_MS: u64 = 10_000;

/// What an attempt reports: a tracker's warning, then how many peers it
/// gave, or else its failure reason; an error that stopped the announce.
pub open spec fn round_events(outcome: Result<TrackerResponse, String>) -> Seq<TorrentEvent> {
    match outcome {
        Ok(r) => (match r.base.warning_message {
            Some(w) => seq![TorrentEvent::TrackerWarning(w)],
            None => Seq::empty(),
        }) + (match r.peers {
            Some(p) => seq![TorrentEvent::PeersFound(p@.len() as usize)],
            None => match r.base.failure_reason {
                Some(f) => seq![TorrentEvent::TrackerFailure(f)],
                None => Seq::empty(),
            },
        }),
        Err(e) => seq![TorrentEvent::TrackerError(e)],
    }
}

/// Whether an attempt found peers.
pub open spec fn round_succeeded(outcome: Result<TrackerResponse, String>) -> bool {
    outcome matches Ok(r) && r.peers is Some
}

/// What one announce attempt does to a tracker, and what it reports: see
/// [`absorb_announce`].
pub open spec fn announce_absorbed(
    before: Tracker,
    after: Tracker,
    outcome: Result<TrackerResponse, String>,
    now: u64,
    r: AnnounceRound,
) -> bool {
    &&& r.events@ == round_events(outcome)
    &&& r.succeeded == round_succeeded(outcome)
    &&& after.tracker_id == (match outcome {
        Ok(resp) => resp.base.tracker_id,
        Err(_) => before.tracker_id,
    })
    &&& r.succeeded ==> {
        &&& r.peers == outcome->Ok_0.peers
        &&& after.failed_count == 0
        &&& after.next_run == now + 1000 * (match outcome->Ok_0.base.interval {
            Some(s) => s,
            None => DEFAULT_INTERVAL_SECS,
        })
        &&& after.announce_url == before.announce_url
        &&& after.backup_urls == before.backup_urls
    }
    &&& !r.succeeded ==> {
        &&& r.peers is None
        &&& after.failed_count == before.failed_count + 1
        &&& after.next_run == now + BACKOFF_STEP_MS * (before.failed_count + 1)
        &&& ring_of(after.announce_url@, after.backup_urls@) == rotate_ring(
            ring_of(before.announce_url@, before.backup_urls@),
        )
    }
}

/// Takes in one announce attempt. An answer with peers resets the failures
/// and schedules the next announce after the tracker's interval (ten
/// seconds if it sets none). Anything else counts a failure, backs off ten
/// seconds per failure so far, and moves on to the tracker's next URL. An
/// answer always updates the tracker id.
pub fn absorb_announce(tracker: &mut Tracker, outcome: Result<TrackerResponse, String>, now: u64) -> (r:
    AnnounceRound)
    requires
        old(tracker).failed_count < u32::MAX,
        now + BACKOFF_STEP_MS * (old(tracker).failed_count + 1) <= u64::MAX,
        outcome matches Ok(resp) ==> now + 1000 * (match resp.base.interval {
            Some(s) => s,
            None => DEFAULT_INTERVAL_SECS,
        }) <= u64::MAX,
    ensures
        announce_absorbed(*old(tracker), *final(tracker), outcome, now, r),
{
    let mut events: Vec<TorrentEvent> = Vec::new();
    match outcome {
        Ok(response) => {
            let TrackerResponse { base, peers } = response;
            tracker.tracker_id = base.tracker_id;
            match base.warning_message {
                Some(w) => {
                    events.push(TorrentEvent::TrackerWarning(w));
                },
                None => {},
            }
            match peers {
                Some(p) => {
                    events.push(TorrentEvent::PeersFound(p.len()));
                    let secs: u32 = match base.interval {
                        Some(s) => s,
                        None => DEFAULT_INTERVAL_SECS,
                    };
                    tracker.next_run = now + 1000 * (secs as u64);
                    tracker.failed_count = 0;
                    proof {
                        assert(events@ =~= round_events(outcome));
                    }
                    return AnnounceRound { events, peers: Some(p), succeeded: true };
                },
                None => match base.failure_reason {
                    Some(f) => {
                        events.push(TorrentEvent::TrackerFailure(f));
                    },
                    None => {},
                },
            }
            proof {
                assert(events@ =~= round_events(outcome));
            }
        },
        Err(e) => {
            events.push(TorrentEvent::TrackerError(e));
            proof {
                assert(events@ =~= round_events(outcome));
            }
        },
    }
    tracker.failed_count = tracker.failed_count + 1;
    tracker.next_run = now + BACKOFF_STEP_MS * (tracker.failed_count as u64);
    tracker.rotate_url();
    AnnounceRound { events, peers: None, succeeded: false }
}

/// What a connection tells the swarm about itself.
#[derive(Clone, Copy, Debug, PartialEq, Eq, Structural)]
pub enum OrchestratePeersMessage {
    /// The connection is over; its peer may be dialled again.
    PeerDying,
}

/// How many peers the swarm connects to at once.
pub const SWARM_MAX_PEERS: usize = 20;

/// Whether `s` has an entry for the same address and port as `p`.
pub open spec fn known(s: Seq<PeerView>, p: PeerView) -> bool {
    exists|i: int| 0 <= i < s.len() && #[trigger] s[i].ip == p.ip && s[i].port == p.port
}

/// `a` with each of `new` added, unless an entry for its address and port
/// is already there.
pub open spec fn absorb(a: Seq<PeerView>, new: Seq<PeerView>) -> Seq<PeerView>
    decreases new.len(),
{
    if new.len() == 0 {
        a
    } else {
        let b = absorb(a, new.drop_last());
        if known(b, new.last()) {
            b
        } else {
            b.push(new.last())
        }
    }
}

/// The peers the trackers reported, and those already dialled.
pub struct SwarmState {
    pub available: Vec<Peer>,
    pub seen: Vec<Peer>,
}

/// Whether `list` has an entry for the same address and port as `p`.
fn knows(list: &Vec<Peer>, p: &Peer) -> (r: bool)
    ensures
        r == known(peers_view(list@), p@),
{
    let mut k: usize = 0;
    while k < list.len()
        invariant
            k <= list@.len(),
            forall|j: int| 0 <= j < k ==> !(list@[j]@.ip == p@.ip && list@[j]@.port == p@.port),
        decreases list@.len() - k,
    {
        if list[k].same_peer(p) {
            assert(peers_view(list@)[k as int].ip == p@.ip);
            return true;
        }
        k = k + 1;
    }
    assert forall|j: int| 0 <= j < peers_view(list@).len() implies !(#[trigger] peers_view(list@)[j].ip == p@.ip
        && peers_view(list@)[j].port == p@.port) by {
        assert(peers_view(list@)[j] == list@[j]@);
    }
    false
}

impl SwarmState {
    pub fn new() -> (r: Self)
        ensures
            r.available@.len() == 0,
            r.seen@.len() == 0,
    {
        SwarmState { available: Vec::new(), seen: Vec::new() }
    }

    /// Adds what a tracker reported; a peer already known keeps its entry.
    pub fn add_available(&mut self, peers: Vec<Peer>)
        ensures
            peers_view(final(self).available@) == absorb(peers_view(old(self).available@), peers_view(peers@)),
            final(self).seen == old(self).seen,
    {
        let ghost start = peers_view(self.available@);
        let ghost nv = peers_view(peers@);
        let mut k: usize = 0;
        while k < peers.len()
            invariant
                k <= peers@.len(),
                nv == peers_view(peers@),
                peers_view(self.available@) == absorb(start, nv.take(k as int)),
                self.seen == old(self).seen,
            decreases peers@.len() - k,
        {
            proof {
                assert(nv.take(k + 1).drop_last() =~= nv.take(k as int));
                assert(nv.take(k + 1).last() == peers@[k as int]@);
            }
            if !knows(&self.available, &peers[k]) {
                let ghost prev = self.available@;
                self.available.push(peers[k].clone());
                assert(peers_view(self.available@) =~= peers_view(prev).push(peers@[k as int]@));
            }
            k = k + 1;
        }
        assert(nv.take(k as int) =~= nv);
    }

    /// The reported peers not dialled yet, in order.
    pub fn unseen(&self) -> (r: Vec<Peer>)
        ensures
            peers_view(r@) == peers_view(self.available@).filter(|v: PeerView| !known(peers_view(self.seen@), v)),
    {
        let ghost sv = peers_view(self.seen@);
        let ghost av = peers_view(self.available@);
        let mut out: Vec<Peer> = Vec::new();
        let mut k: usize = 0;
        while k < self.available.len()
            invariant
                k <= self.available@.len(),
                sv == peers_view(self.seen@),
                av == peers_view(self.available@),
                peers_view(out@) == av.take(k as int).filter(|v: PeerView| !known(sv, v)),
            decreases self.available@.len() - k,
        {
            proof {
                let pred = |v: PeerView| !known(sv, v);
                assert(av.take(k + 1) =~= av.take(k as int).push(av[k as int]));
                av.take(k as int).lemma_filter_push(av[k as int], pred);
            }
            if !knows(&self.seen, &self.available[k]) {
                let ghost prev = out@;
                out.push(self.available[k].clone());
                assert(peers_view(out@) =~= peers_view(prev).push(av[k as int]));
            }
            k = k + 1;
        }
        assert(av.take(k as int) =~= av);
        out
    }

    /// A reported peer not dialled yet, picked at random; `None` when every
    /// one has been dialled.
    pub fn get_random_peer(&self) -> (r: Option<Peer>)
        ensures
            peers_view(self.available@).filter(|v: PeerView| !known(peers_view(self.seen@), v)).len() == 0
                ==> r is None,
            r matches Some(p) ==> known(peers_view(self.available@), p@) && !known(peers_view(self.seen@), p@),
            peers_view(self.available@).filter(|v: PeerView| !known(peers_view(self.seen@), v)).len() > 0
                ==> r is Some,
    {
        let candidates = self.unseen();
        let r = choose_peer(candidates.as_slice());
        proof {
            broadcast use vstd::seq_lib::group_filter_ensures;

            let pred = |v: PeerView| !known(peers_view(self.seen@), v);
            let av = peers_view(self.available@);
            if r is Some {
                let p = r->0;
                let i = choose|i: int| 0 <= i < candidates@.len() && p == candidates@[i];
                assert(peers_view(candidates@)[i] == p@);
                assert(av.filter(pred).contains(p@));
                av.lemma_filter_contains_rev(pred, p@);
                let j = choose|j: int| 0 <= j < av.len() && av[j] == p@;
                assert(av[j].ip == p@.ip);
            }
        }
        r
    }

    /// Records that a peer was dialled.
    pub fn mark_seen(&mut self, p: Peer)
        ensures
            peers_view(final(self).seen@) == (if known(peers_view(old(self).seen@), p@) {
                peers_view(old(self).seen@)
            } else {
                peers_view(old(self).seen@).push(p@)
            }),
            final(self).available == old(self).available,
    {
        if !knows(&self.seen, &p) {
            let ghost prev = self.seen@;
            self.seen.push(p);
            assert(peers_view(self.seen@) =~= peers_view(prev).push(p@));
        }
    }

    /// Takes a connection's report about its peer.
    pub fn orchestrate(&mut self, p: &Peer, message: OrchestratePeersMessage)
        ensures
            !known(peers_view(final(self).seen@), p@),
            final(self).available == old(self).available,
    {
        match message {
            OrchestratePeersMessage::PeerDying => self.peer_died(p),
        }
    }

    /// A dialled peer went away: it may be dialled again.
    pub fn peer_died(&mut self, p: &Peer)
        ensures
            peers_view(final(self).seen@) == peers_view(old(self).seen@).filter(
                |v: PeerView| !(v.ip == p@.ip && v.port == p@.port),
            ),
            !known(peers_view(final(self).seen@), p@),
            final(self).available == old(self).available,
    {
        let ghost sv = peers_view(self.seen@);
        let mut kept: Vec<Peer> = Vec::new();
        let mut k: usize = 0;
        while k < self.seen.len()
            invariant
                k <= self.seen@.len(),
                sv == peers_view(self.seen@),
                peers_view(kept@) == sv.take(k as int).filter(|v: PeerView| !(v.ip == p@.ip && v.port == p@.port)),
            decreases self.seen@.len() - k,
        {
            proof {
                let pred = |v: PeerView| !(v.ip == p@.ip && v.port == p@.port);
                assert(sv.take(k + 1) =~= sv.take(k as int).push(sv[k as int]));
                sv.take(k as int).lemma_filter_push(sv[k as int], pred);
            }
            if !self.seen[k].same_peer(p) {
                let ghost prev = kept@;
                kept.push(self.seen[k].clone());
                assert(peers_view(kept@) =~= peers_view(prev).push(sv[k as int]));
            }
            k = k + 1;
        }
        assert(sv.take(k as int) =~= sv);
        self.seen = kept;
        proof {
            broadcast use vstd::seq_lib::group_filter_ensures;

            let pred = |v: PeerView| !(v.ip == p@.ip && v.port == p@.port);
            let f = sv.filter(pred);
            if known(f, p@) {
                let i = choose|i: int| 0 <= i < f.len() && #[trigger] f[i].ip == p@.ip && f[i].port == p@.port;
                assert(pred(f[i]));
            }
        }
    }
}

/// Whether `k` is the first of the trackers due soonest.
pub open spec fn first_due(s: Seq<Tracker>, k: int) -> bool {
    &&& 0 <= k < s.len()
    &&& forall|j: int| 0 <= j < s.len() ==> s[k].next_run <= #[trigger] s[j].next_run
    &&& forall|j: int| 0 <= j < k ==> s[k].next_run < #[trigger] s[j].next_run
}

/// The rounds of announcing to a torrent's trackers. Each round takes the
/// tracker due soonest, waits until it is due, and announces to it once per
/// URL it has at most, stopping at the first answer with peers; then the
/// tracker waits again with the others. With no tracker at all, announcing
/// stops.
pub struct AnnounceLoop {
    pub waiting: Vec<Tracker>,
    /// The tracker of the round under way.
    pub current: Option<Tracker>,
    /// Attempts the round under way may still make after the next one.
    pub retries_left: usize,
}

/// What the announcing does next.
#[derive(Debug)]
pub enum LoopAction {
    /// No tracker is left to announce to.
    Stop,
    /// Announce to `url` once the clock reads `not_before`.
    Announce { url: String, not_before: u64 },
}

impl AnnounceLoop {
    /// Every tracker waiting, no round under way.
    pub fn new(trackers: Vec<Tracker>) -> (r: Self)
        ensures
            r.waiting@ == trackers@,
            r.current is None,
            r.retries_left == 0,
    {
        AnnounceLoop { waiting: trackers, current: None, retries_left: 0 }
    }

    /// Starts a round when none is under way: the tracker due soonest is
    /// taken out of those waiting, with one attempt for each of its URLs, and
    /// announced to once it is due. Within a round, the next attempt goes to
    /// the tracker's URL in use at once.
    pub fn next_action(&mut self) -> (r: LoopAction)
        ensures
            old(self).current matches Some(t) ==> {
                &&& *final(self) == *old(self)
                &&& r matches LoopAction::Announce { url, not_before } && url@ == t.announce_url@ && not_before == 0
            },
            old(self).current is None && old(self).waiting@.len() == 0 ==> {
                &&& *final(self) == *old(self)
                &&& r is Stop
            },
            old(self).current is None && old(self).waiting@.len() > 0 ==> exists|k: int|
                {
                    &&& first_due(old(self).waiting@, k)
                    &&& final(self).current == Some(old(self).waiting@[k])
                    &&& final(self).waiting@ == old(self).waiting@.remove(k)
                    &&& final(self).retries_left == old(self).waiting@[k].backup_urls@.len()
                    &&& r matches LoopAction::Announce { url, not_before } && url@ == old(self).waiting@[k].announce_url@
                        && not_before == old(self).waiting@[k].next_run
                },
    {
        match &self.current {
            Some(t) => {
                return LoopAction::Announce { url: t.announce_url.clone(), not_before: 0 };
            },
            None => {},
        }
        if self.waiting.len() == 0 {
            return LoopAction::Stop;
        }
        let mut best: usize = 0;
        let mut k: usize = 1;
        while k < self.waiting.len()
            invariant
                self.waiting@ == old(self).waiting@,
                self.current is None,
                1 <= k <= self.waiting@.len(),
                best < k,
                forall|j: int| 0 <= j < k ==> self.waiting@[best as int].next_run <= #[trigger] self.waiting@[j].next_run,
                forall|j: int| 0 <= j < best ==> self.waiting@[best as int].next_run < #[trigger] self.waiting@[j].next_run,
            decreases self.waiting@.len() - k,
        {
            if !self.waiting[best].runs_before(&self.waiting[k]) {
                best = k;
            }
            k = k + 1;
        }
        let ghost before = self.waiting@;
        let t = self.waiting.remove(best);
        assert(first_due(before, best as int));
        let url = t.announce_url.clone();
        let not_before = t.next_run;
        self.retries_left = t.backup_urls.len();
        self.current = Some(t);
        LoopAction::Announce { url, not_before }
    }

    /// Takes in what the attempt under way came to. The round ends at an
    /// answer with peers or once the tracker's last URL was tried; the
    /// tracker then waits with the others.
    pub fn take_outcome(&mut self, outcome: Result<TrackerResponse, String>, now: u64) -> (r: AnnounceRound)
        requires
            old(self).current matches Some(t) && {
                &&& t.failed_count < u32::MAX
                &&& now + BACKOFF_STEP_MS * (t.failed_count + 1) <= u64::MAX
            },
            outcome matches Ok(resp) ==> now + 1000 * (match resp.base.interval {
                Some(s) => s,
                None => DEFAULT_INTERVAL_SECS,
            }) <= u64::MAX,
        ensures
            (r.succeeded || old(self).retries_left == 0) ==> {
                &&& final(self).current is None
                &&& final(self).retries_left == 0
                &&& final(self).waiting@.len() == old(self).waiting@.len() + 1
                &&& final(self).waiting@.drop_last() == old(self).waiting@
                &&& announce_absorbed(old(self).current->0, final(self).waiting@.last(), outcome, now, r)
            },
            !(r.succeeded || old(self).retries_left == 0) ==> {
                &&& final(self).current matches Some(t) && announce_absorbed(
                    old(self).current->0,
                    t,
                    outcome,
                    now,
                    r,
                )
                &&& final(self).retries_left == old(self).retries_left - 1
                &&& final(self).waiting@ == old(self).waiting@
            },
    {
        let mut t = match self.current.take() {
            Some(t) => t,
            None => {
                return AnnounceRound { events: Vec::new(), peers: None, succeeded: false };
            },
        };
        let r = absorb_announce(&mut t, outcome, now);
        if r.succeeded || self.retries_left == 0 {
            self.waiting.push(t);
            self.retries_left = 0;
        } else {
            self.retries_left = self.retries_left - 1;
            self.current = Some(t);
        }
        r
    }
}

} // verus!
