use vstd::prelude::*;

use crate::peer::{Peer, PeerAddress};

verus! {

broadcast use vstd::std_specs::vec::group_vec_axioms, vstd::seq::group_seq_axioms;

/// How long a peer whose connection failed waits before it is tried again.
pub const RETRY_DELAY_MS: u64 = 5000;

/// How many connections may be open at once.
pub const MAX_PEERS: usize = 50;

/// A peer handed out to dial, tagged with whether it is back after a failed
/// attempt.
#[derive(Clone, Copy, Debug)]
pub struct PeerAttempt {
    pub peer: Peer,
    pub is_retry: bool,
}

/// A peer waiting to be dialled, and from when.
#[derive(Clone, Copy, Debug)]
pub struct PeerCandiate {
    pub peer: Peer,
    /// When it may be dialled, in milliseconds of the caller's clock.
    pub next_instance: u64,
    pub is_retry: bool,
}

/// The candidates not at `address`, order kept.
pub open spec fn without_address(s: Seq<PeerCandiate>, address: PeerAddress) -> Seq<PeerCandiate> {
    s.filter(|c: PeerCandiate| c.peer.address != address)
}

/// Whether the candidate at `i` is due no later than any other, and is the
/// first such.
pub open spec fn is_earliest(s: Seq<PeerCandiate>, i: int) -> bool {
    &&& 0 <= i < s.len()
    &&& forall|j: int| 0 <= j < s.len() ==> s[i].next_instance <= #[trigger] s[j].next_instance
    &&& forall|j: int| 0 <= j < i ==> s[i].next_instance < #[trigger] s[j].next_instance
}

/// Whether no address appears twice.
pub open spec fn distinct_addresses(s: Seq<PeerCandiate>) -> bool {
    forall|i: int, j: int| 0 <= i < j < s.len() ==> s[i].peer.address != s[j].peer.address
}

/// Dials fresh peers at once and retries failed ones after a delay. A peer
/// is queued at most once: queueing it again replaces the earlier entry.
pub struct RetryAfterDelayPeerSelectionStrategy {
    pub candidates: Vec<PeerCandiate>,
}

impl RetryAfterDelayPeerSelectionStrategy {
    pub fn new() -> (r: Self)
        ensures
            r.candidates@.len() == 0,
    {
        RetryAfterDelayPeerSelectionStrategy { candidates: Vec::new() }
    }

    /// Queues a peer: due now if fresh, after the retry delay if it just
    /// failed. Any earlier entry for the same address is dropped.
    pub fn push(&mut self, peer: Peer, failed: bool, now: u64)
        requires
            now + RETRY_DELAY_MS <= u64::MAX,
        ensures
            final(self).candidates@ == without_address(old(self).candidates@, peer.address).push(
                PeerCandiate { peer, next_instance: if failed { (now + RETRY_DELAY_MS) as u64 } else { now }, is_retry: failed },
            ),
    {
        let mut kept: Vec<PeerCandiate> = Vec::new();
        let mut k: usize = 0;
        while k < self.candidates.len()
            invariant
                k <= self.candidates@.len(),
                kept@ == without_address(self.candidates@.take(k as int), peer.address),
            decreases self.candidates@.len() - k,
        {
            proof {
                let pred = |c: PeerCandiate| c.peer.address != peer.address;
                assert(self.candidates@.take(k + 1) =~= self.candidates@.take(k as int).push(self.candidates@[k as int]));
                self.candidates@.take(k as int).lemma_filter_push(self.candidates@[k as int], pred);
            }
            if self.candidates[k].peer.address != peer.address {
                kept.push(self.candidates[k]);
            }
            k = k + 1;
        }
        assert(self.candidates@.take(k as int) =~= self.candidates@);
        let next_instance = if failed {
            now + RETRY_DELAY_MS
        } else {
            now
        };
        kept.push(PeerCandiate { peer, next_instance, is_retry: failed });
        self.candidates = kept;
    }

    fn earliest(&self) -> (r: Option<usize>)
        ensures
            self.candidates@.len() == 0 ==> r is None,
            self.candidates@.len() > 0 ==> (r matches Some(i) && is_earliest(self.candidates@, i as int)),
    {
        if self.candidates.len() == 0 {
            return None;
        }
        let mut best: usize = 0;
        let mut k: usize = 1;
        while k < self.candidates.len()
            invariant
                1 <= k <= self.candidates@.len(),
                best < k,
                forall|j: int|
                    0 <= j < k ==> self.candidates@[best as int].next_instance <= #[trigger] self.candidates@[j].next_instance,
                forall|j: int|
                    0 <= j < best ==> self.candidates@[best as int].next_instance < #[trigger] self.candidates@[j].next_instance,
            decreases self.candidates@.len() - k,
        {
            if self.candidates[k].next_instance < self.candidates[best].next_instance {
                best = k;
            }
            k = k + 1;
        }
        Some(best)
    }

    /// The peer due next, without removing it.
    pub fn peek(&self) -> (r: Option<Peer>)
        ensures
            self.candidates@.len() == 0 ==> r is None,
            self.candidates@.len() > 0 ==> exists|i: int|
                #![trigger self.candidates@[i]]
                is_earliest(self.candidates@, i) && r == Some(self.candidates@[i].peer),
    {
        match self.earliest() {
            Some(i) => Some(self.candidates[i].peer),
            None => None,
        }
    }

    /// When the peer due next may be dialled.
    pub fn next_due(&self) -> (r: Option<u64>)
        ensures
            self.candidates@.len() == 0 ==> r is None,
            self.candidates@.len() > 0 ==> exists|i: int|
                #![trigger self.candidates@[i]]
                is_earliest(self.candidates@, i) && r == Some(self.candidates@[i].next_instance),
    {
        match self.earliest() {
            Some(i) => Some(self.candidates[i].next_instance),
            None => None,
        }
    }

    /// Removes the peer due next, once its time has come.
    pub fn pop(&mut self) -> (r: Option<PeerAttempt>)
        ensures
            old(self).candidates@.len() == 0 ==> r is None && final(self).candidates@ == old(self).candidates@,
            old(self).candidates@.len() > 0 ==> exists|i: int|
                #![trigger old(self).candidates@[i]]
                is_earliest(old(self).candidates@, i) && r == Some(
                    PeerAttempt { peer: old(self).candidates@[i].peer, is_retry: old(self).candidates@[i].is_retry },
                ) && final(self).candidates@ == old(self).candidates@.remove(i),
    {
        match self.earliest() {
            Some(i) => {
                let c = self.candidates.remove(i);
                Some(PeerAttempt { peer: c.peer, is_retry: c.is_retry })
            },
            None => None,
        }
    }
}

/// Queueing a peer leaves it queued exactly once, and no address is ever
/// queued twice.
pub proof fn law_push_keeps_peers_distinct(s: Seq<PeerCandiate>, c: PeerCandiate)
    requires
        distinct_addresses(s),
    ensures
        distinct_addresses(without_address(s, c.peer.address).push(c)),
        forall|i: int|
            0 <= i < without_address(s, c.peer.address).len() ==> (#[trigger] without_address(s, c.peer.address)[i]).peer.address
                != c.peer.address,
{
    broadcast use vstd::seq_lib::group_filter_ensures;

    let pred = |x: PeerCandiate| x.peer.address != c.peer.address;
    let w = s.filter(pred);
    assert forall|i: int, j: int| 0 <= i < j < w.len() implies w[i].peer.address != w[j].peer.address by {
        lemma_filter_distinct(s, pred, i, j);
    }
}

proof fn lemma_filter_distinct(s: Seq<PeerCandiate>, pred: spec_fn(PeerCandiate) -> bool, i: int, j: int)
    requires
        distinct_addresses(s),
        0 <= i < j < s.filter(pred).len(),
    ensures
        s.filter(pred)[i].peer.address != s.filter(pred)[j].peer.address,
    decreases s.len(),
{
    broadcast use vstd::seq_lib::group_filter_ensures;

    reveal(Seq::filter);
    if s.len() > 0 {
        let p = s.drop_last();
        assert(distinct_addresses(p));
        let f = p.filter(pred);
        if pred(s.last()) {
            assert(s.filter(pred) == f.push(s.last()));
            if j < f.len() {
                lemma_filter_distinct(p, pred, i, j);
            } else {
                assert(f.contains(f[i]));
                p.lemma_filter_contains_rev(pred, f[i]);
                assert(p.contains(f[i]));
                let k = choose|k: int| 0 <= k < p.len() && p[k] == f[i];
                assert(s[k] == f[i]);
            }
        } else {
            assert(s.filter(pred) == f);
            lemma_filter_distinct(p, pred, i, j);
        }
    }
}

/// Decides when to dial: a cap on connections, and nothing once the
/// download is complete.
pub struct PeerManager<S> {
    pub peer_selection_strategy: S,
    pub info_hash: [u8; 20],
    pub peer_id: [u8; 20],
    /// Cached once true: the answer only ever goes from false to true.
    pub download_completed: bool,
}

impl<S> PeerManager<S> {
    pub fn new(peer_selection_strategy: S, info_hash: &[u8; 20], peer_id: &[u8; 20]) -> (r: Self)
        ensures
            r.peer_selection_strategy == peer_selection_strategy,
            r.info_hash == *info_hash,
            r.peer_id == *peer_id,
            !r.download_completed,
    {
        PeerManager { peer_selection_strategy, info_hash: *info_hash, peer_id: *peer_id, download_completed: false }
    }

    /// Whether another peer may be dialled: the download is not known to be
    /// complete, fewer than the cap are connected, and a peer is waiting.
    pub fn may_dial(&self, active_peers: usize, has_candidate: bool) -> (r: bool)
        ensures
            r == (!self.download_completed && active_peers < MAX_PEERS && has_candidate),
    {
        !self.download_completed && active_peers < MAX_PEERS && has_candidate
    }

    /// Takes the piece manager's answer on whether the download is complete.
    /// No answer means it has gone away, which leaves nothing to download.
    /// Once complete, it stays complete.
    pub fn record_completion(&mut self, answer: Option<bool>) -> (r: bool)
        ensures
            r == final(self).download_completed,
            r == (old(self).download_completed || match answer {
                Some(done) => done,
                None => true,
            }),
            final(self).info_hash == old(self).info_hash,
            final(self).peer_id == old(self).peer_id,
            final(self).peer_selection_strategy == old(self).peer_selection_strategy,
    {
        if self.download_completed {
            return true;
        }
        self.download_completed = match answer {
            Some(done) => done,
            None => true,
        };
        self.download_completed
    }
}

/// The peer manager's dialling loop as a state machine: the peers waiting to
/// be dialled, whether the download is known complete, and how many
/// connections are open. The caller waits for what [`Dialling::wake_at`]
/// names, dials what [`Dialling::dial`] hands out, and reports every
/// connection that ends.
pub struct Dialling {
    pub manager: PeerManager<RetryAfterDelayPeerSelectionStrategy>,
    /// Connections open, dialled or accepted.
    pub active: usize,
}

impl Dialling {
    /// Nothing open yet.
    pub fn new(manager: PeerManager<RetryAfterDelayPeerSelectionStrategy>) -> (r: Self)
        ensures
            r.manager == manager,
            r.active == 0,
    {
        Dialling { manager, active: 0 }
    }

    /// When to wake to dial: when the peer due first is due, as long as the
    /// download is not known complete and fewer than [`MAX_PEERS`] are
    /// connected. `None` means only another event can make a dial possible.
    pub fn wake_at(&self) -> (r: Option<u64>)
        ensures
            !(!self.manager.download_completed && self.active < MAX_PEERS
                && self.manager.peer_selection_strategy.candidates@.len() > 0) ==> r is None,
            (!self.manager.download_completed && self.active < MAX_PEERS
                && self.manager.peer_selection_strategy.candidates@.len() > 0) ==> exists|i: int|
                #![trigger self.manager.peer_selection_strategy.candidates@[i]]
                is_earliest(self.manager.peer_selection_strategy.candidates@, i) && r == Some(
                    self.manager.peer_selection_strategy.candidates@[i].next_instance,
                ),
    {
        let due = self.manager.peer_selection_strategy.next_due();
        if self.manager.may_dial(self.active, due.is_some()) {
            due
        } else {
            None
        }
    }

    /// A peer a source reported: queued to be dialled at once.
    pub fn peer_found(&mut self, peer: Peer, now: u64)
        requires
            now + RETRY_DELAY_MS <= u64::MAX,
        ensures
            final(self).active == old(self).active,
            final(self).manager.download_completed == old(self).manager.download_completed,
            final(self).manager.peer_selection_strategy.candidates@ == without_address(
                old(self).manager.peer_selection_strategy.candidates@,
                peer.address,
            ).push(PeerCandiate { peer, next_instance: now, is_retry: false }),
    {
        self.manager.peer_selection_strategy.push(peer, false, now);
    }

    /// A peer dialled us and was let in: one more connection open.
    pub fn accepted(&mut self)
        ensures
            final(self).active == old(self).active.wrapping_add(1),
            final(self).manager == old(self).manager,
    {
        self.active = self.active.wrapping_add(1);
    }

    /// A connection ended, however it ended: one fewer open, and a peer we
    /// dialled is queued again to be retried after the delay.
    pub fn ended(&mut self, dialled: Option<Peer>, now: u64)
        requires
            now + RETRY_DELAY_MS <= u64::MAX,
        ensures
            final(self).active == old(self).active.saturating_sub(1),
            final(self).manager.download_completed == old(self).manager.download_completed,
            dialled is None ==> final(self).manager == old(self).manager,
            dialled matches Some(p) ==> final(self).manager.peer_selection_strategy.candidates@ == without_address(
                old(self).manager.peer_selection_strategy.candidates@,
                p.address,
            ).push(PeerCandiate { peer: p, next_instance: (now + RETRY_DELAY_MS) as u64, is_retry: true }),
    {
        self.active = self.active.saturating_sub(1);
        match dialled {
            Some(p) => self.manager.peer_selection_strategy.push(p, true, now),
            None => {},
        }
    }

    /// The wake came: with the piece manager's answer on whether the download
    /// is complete (consulted only while it is not known to be), dials the
    /// peer due first, if the download is not complete, fewer than
    /// [`MAX_PEERS`] are connected and a peer is waiting. A dial counts as a
    /// connection open from the moment it starts.
    pub fn dial(&mut self, answer: Option<bool>) -> (r: Option<Peer>)
        ensures
            final(self).manager.download_completed == (old(self).manager.download_completed || match answer {
                Some(done) => done,
                None => true,
            }),
            final(self).manager.download_completed || old(self).active >= MAX_PEERS
                || old(self).manager.peer_selection_strategy.candidates@.len() == 0 ==> {
                &&& r is None
                &&& final(self).active == old(self).active
                &&& final(self).manager.peer_selection_strategy.candidates@
                    == old(self).manager.peer_selection_strategy.candidates@
            },
            !(final(self).manager.download_completed || old(self).active >= MAX_PEERS
                || old(self).manager.peer_selection_strategy.candidates@.len() == 0) ==> exists|i: int|
                #![trigger old(self).manager.peer_selection_strategy.candidates@[i]]
                {
                    &&& is_earliest(old(self).manager.peer_selection_strategy.candidates@, i)
                    &&& r == Some(old(self).manager.peer_selection_strategy.candidates@[i].peer)
                    &&& final(self).manager.peer_selection_strategy.candidates@
                        == old(self).manager.peer_selection_strategy.candidates@.remove(i)
                    &&& final(self).active == old(self).active + 1
                },
    {
        if self.manager.record_completion(answer) {
            return None;
        }
        if self.active >= MAX_PEERS {
            return None;
        }
        match self.manager.peer_selection_strategy.pop() {
            Some(attempt) => {
                self.active = self.active + 1;
                Some(attempt.peer)
            },
            None => None,
        }
    }
}

} // verus!
