use vstd::prelude::*;

use crate::wire_protocol::Bitfield;

verus! {

/// The counters of a [`DownloadStats`], as plain values.
pub struct StatsView {
    pub downloaded_bytes: u64,
    pub uploaded_bytes: u64,
    pub wasted_bytes: u64,
    pub verified_bytes: u64,
    pub resumed_bytes: u64,
    pub total_bytes: u64,
    pub completed_pieces: u32,
    pub resumed_pieces: u32,
    pub total_pieces: u32,
    pub in_flight_pieces: u32,
    pub hash_failures: u32,
    pub active_peers: usize,
}

/// Counters written wherever the work happens.
///
/// Every count wraps on overflow, as an atomic `fetch_add` would, except the
/// two that only ever move down by one: those saturate at zero so a release
/// that races ahead of its claim cannot wrap the count to its maximum.
#[derive(Debug, Default)]
pub struct DownloadStats {
    downloaded_bytes: u64,
    uploaded_bytes: u64,
    wasted_bytes: u64,
    verified_bytes: u64,
    /// Payload the store already held at startup, kept apart from
    /// `verified_bytes`, which is what this session fetched.
    resumed_bytes: u64,
    total_bytes: u64,
    completed_pieces: u32,
    resumed_pieces: u32,
    total_pieces: u32,
    in_flight_pieces: u32,
    hash_failures: u32,
    active_peers: usize,
}

impl View for DownloadStats {
    type V = StatsView;

    closed spec fn view(&self) -> StatsView {
        StatsView {
            downloaded_bytes: self.downloaded_bytes,
            uploaded_bytes: self.uploaded_bytes,
            wasted_bytes: self.wasted_bytes,
            verified_bytes: self.verified_bytes,
            resumed_bytes: self.resumed_bytes,
            total_bytes: self.total_bytes,
            completed_pieces: self.completed_pieces,
            resumed_pieces: self.resumed_pieces,
            total_pieces: self.total_pieces,
            in_flight_pieces: self.in_flight_pieces,
            hash_failures: self.hash_failures,
            active_peers: self.active_peers,
        }
    }
}

impl StatsView {
    /// Everything held: this session's work plus what the store already had.
    pub open spec fn held_bytes(self) -> u64 {
        self.verified_bytes.wrapping_add(self.resumed_bytes)
    }

    pub open spec fn held_pieces(self) -> u32 {
        self.completed_pieces.wrapping_add(self.resumed_pieces)
    }

    /// Payload still missing: the tracker's `left`.
    pub open spec fn remaining_bytes(self) -> u64 {
        self.total_bytes.saturating_sub(self.held_bytes())
    }

    /// Every piece accounted for, and never before the totals are known.
    pub open spec fn is_complete(self) -> bool {
        self.total_pieces > 0 && self.held_pieces() >= self.total_pieces
    }

    /// Every counter at zero, as a fresh download starts.
    pub open spec fn all_zero(self) -> bool {
        &&& self.downloaded_bytes == 0
        &&& self.uploaded_bytes == 0
        &&& self.wasted_bytes == 0
        &&& self.verified_bytes == 0
        &&& self.resumed_bytes == 0
        &&& self.total_bytes == 0
        &&& self.completed_pieces == 0
        &&& self.resumed_pieces == 0
        &&& self.total_pieces == 0
        &&& self.in_flight_pieces == 0
        &&& self.hash_failures == 0
        &&& self.active_peers == 0
    }
}

impl DownloadStats {
    /// Fresh counters, all zero.
    pub fn new() -> (s: Self)
        ensures
            s@.all_zero(),
    {
        DownloadStats {
            downloaded_bytes: 0,
            uploaded_bytes: 0,
            wasted_bytes: 0,
            verified_bytes: 0,
            resumed_bytes: 0,
            total_bytes: 0,
            completed_pieces: 0,
            resumed_pieces: 0,
            total_pieces: 0,
            in_flight_pieces: 0,
            hash_failures: 0,
            active_peers: 0,
        }
    }

    /// Payload received off the wire, worthless copies included.
    pub fn add_downloaded(&mut self, bytes: u64)
        ensures
            final(self)@ == (StatsView {
                downloaded_bytes: old(self)@.downloaded_bytes.wrapping_add(bytes),
                ..old(self)@
            }),
    {
        self.downloaded_bytes = self.downloaded_bytes.wrapping_add(bytes);
    }

    pub fn add_uploaded(&mut self, bytes: u64)
        ensures
            final(self)@ == (StatsView {
                uploaded_bytes: old(self)@.uploaded_bytes.wrapping_add(bytes),
                ..old(self)@
            }),
    {
        self.uploaded_bytes = self.uploaded_bytes.wrapping_add(bytes);
    }

    /// Bytes paid for and thrown away.
    pub fn add_wasted(&mut self, bytes: u64)
        ensures
            final(self)@ == (StatsView {
                wasted_bytes: old(self)@.wasted_bytes.wrapping_add(bytes),
                ..old(self)@
            }),
    {
        self.wasted_bytes = self.wasted_bytes.wrapping_add(bytes);
    }

    pub fn piece_verified(&mut self, bytes: u64)
        ensures
            final(self)@ == (StatsView {
                verified_bytes: old(self)@.verified_bytes.wrapping_add(bytes),
                completed_pieces: old(self)@.completed_pieces.wrapping_add(1),
                ..old(self)@
            }),
    {
        self.verified_bytes = self.verified_bytes.wrapping_add(bytes);
        self.completed_pieces = self.completed_pieces.wrapping_add(1);
    }

    pub fn piece_failed_hash(&mut self)
        ensures
            final(self)@ == (StatsView {
                hash_failures: old(self)@.hash_failures.wrapping_add(1),
                ..old(self)@
            }),
    {
        self.hash_failures = self.hash_failures.wrapping_add(1);
    }

    pub fn set_totals(&mut self, pieces: u32, bytes: u64)
        ensures
            final(self)@ == (StatsView { total_pieces: pieces, total_bytes: bytes, ..old(self)@ }),
    {
        self.total_pieces = pieces;
        self.total_bytes = bytes;
    }

    /// Records what a resumed store was found to hold.
    pub fn set_resumed(&mut self, pieces: u32, bytes: u64)
        ensures
            final(self)@ == (StatsView {
                resumed_pieces: pieces,
                resumed_bytes: bytes,
                ..old(self)@
            }),
    {
        self.resumed_pieces = pieces;
        self.resumed_bytes = bytes;
    }

    /// A piece gained its first holder.
    pub fn piece_claimed(&mut self)
        ensures
            final(self)@ == (StatsView {
                in_flight_pieces: old(self)@.in_flight_pieces.wrapping_add(1),
                ..old(self)@
            }),
    {
        self.in_flight_pieces = self.in_flight_pieces.wrapping_add(1);
    }

    /// A piece lost its last holder. Saturates at zero.
    pub fn piece_released(&mut self)
        ensures
            final(self)@ == (StatsView {
                in_flight_pieces: old(self)@.in_flight_pieces.saturating_sub(1),
                ..old(self)@
            }),
    {
        self.in_flight_pieces = self.in_flight_pieces.saturating_sub(1);
    }

    pub fn peer_connected(&mut self)
        ensures
            final(self)@ == (StatsView {
                active_peers: old(self)@.active_peers.wrapping_add(1),
                ..old(self)@
            }),
    {
        self.active_peers = self.active_peers.wrapping_add(1);
    }

    /// Saturates at zero, like `piece_released`.
    pub fn peer_disconnected(&mut self)
        ensures
            final(self)@ == (StatsView {
                active_peers: old(self)@.active_peers.saturating_sub(1),
                ..old(self)@
            }),
    {
        self.active_peers = self.active_peers.saturating_sub(1);
    }

    pub fn downloaded_bytes(&self) -> (r: u64)
        ensures
            r == self@.downloaded_bytes,
    {
        self.downloaded_bytes
    }

    pub fn uploaded_bytes(&self) -> (r: u64)
        ensures
            r == self@.uploaded_bytes,
    {
        self.uploaded_bytes
    }

    pub fn wasted_bytes(&self) -> (r: u64)
        ensures
            r == self@.wasted_bytes,
    {
        self.wasted_bytes
    }

    pub fn verified_bytes(&self) -> (r: u64)
        ensures
            r == self@.verified_bytes,
    {
        self.verified_bytes
    }

    pub fn total_bytes(&self) -> (r: u64)
        ensures
            r == self@.total_bytes,
    {
        self.total_bytes
    }

    pub fn held_bytes(&self) -> (r: u64)
        ensures
            r == self@.held_bytes(),
    {
        self.verified_bytes.wrapping_add(self.resumed_bytes)
    }

    pub fn held_pieces(&self) -> (r: u32)
        ensures
            r == self@.held_pieces(),
    {
        self.completed_pieces.wrapping_add(self.resumed_pieces)
    }

    pub fn remaining_bytes(&self) -> (r: u64)
        ensures
            r == self@.remaining_bytes(),
    {
        self.total_bytes.saturating_sub(self.held_bytes())
    }

    pub fn completed_pieces(&self) -> (r: u32)
        ensures
            r == self@.completed_pieces,
    {
        self.completed_pieces
    }

    pub fn total_pieces(&self) -> (r: u32)
        ensures
            r == self@.total_pieces,
    {
        self.total_pieces
    }

    pub fn in_flight_pieces(&self) -> (r: u32)
        ensures
            r == self@.in_flight_pieces,
    {
        self.in_flight_pieces
    }

    pub fn hash_failures(&self) -> (r: u32)
        ensures
            r == self@.hash_failures,
    {
        self.hash_failures
    }

    pub fn active_peers(&self) -> (r: usize)
        ensures
            r == self@.active_peers,
    {
        self.active_peers
    }

    pub fn is_complete(&self) -> (r: bool)
        ensures
            r == self@.is_complete(),
    {
        let total = self.total_pieces();
        total > 0 && self.held_pieces() >= total
    }
}

/// What we hold, as one coherent picture taken at one instant.
#[derive(Clone, Debug)]
pub struct PieceProgress {
    pub completed_pieces: u32,
    pub total_pieces: u32,
    /// Bytes of every piece held, those found in a resumed store included.
    pub verified_bytes: u64,
    pub total_bytes: u64,
    /// One bit per piece, set for the pieces we can serve.
    pub bitfield: Bitfield,
    /// Whether the payload has been written out of the store into its real
    /// shape.
    pub extracted: bool,
}

impl Default for PieceProgress {
    fn default() -> (p: Self)
        ensures
            p.completed_pieces == 0,
            p.total_pieces == 0,
            p.verified_bytes == 0,
            p.total_bytes == 0,
            p.bitfield@ == Seq::<u8>::empty(),
            !p.extracted,
    {
        PieceProgress {
            completed_pieces: 0,
            total_pieces: 0,
            verified_bytes: 0,
            total_bytes: 0,
            bitfield: Bitfield(Vec::new()),
            extracted: false,
        }
    }
}

#[derive(Clone, Copy, Debug, Default, PartialEq, Eq, Structural)]
pub enum DownloadState {
    /// No piece finished yet.
    #[default]
    Starting,
    Downloading,
    /// Every piece is verified, but the payload is still being written out of
    /// the store into the files the torrent describes.
    Finalizing,
    /// Everything is on disk in its real shape.
    Seeding,
}

/// The state a sample reports: seeding once every piece is held and the
/// payload is written out, finalizing while it is held but not yet written
/// out, starting before the first piece verifies, downloading otherwise.
pub open spec fn spec_state(stats: StatsView, extracted: bool, completed_pieces: u32) -> DownloadState {
    if stats.is_complete() {
        if extracted {
            DownloadState::Seeding
        } else {
            DownloadState::Finalizing
        }
    } else if completed_pieces == 0 {
        DownloadState::Starting
    } else {
        DownloadState::Downloading
    }
}

/// A sampled view of the whole download, published on a timer.
#[derive(Clone, Debug, Default)]
pub struct DownloadStatus {
    pub state: DownloadState,
    pub pieces: PieceProgress,
    pub downloaded_bytes: u64,
    pub uploaded_bytes: u64,
    pub wasted_bytes: u64,
    pub hash_failures: u32,
    pub in_flight_pieces: u32,
    pub active_peers: usize,
    /// Bytes per second over the last sampling interval.
    pub download_rate: u64,
    pub upload_rate: u64,
}

impl DownloadStatus {
    /// Takes one sample. Rates are measured against the counters of the
    /// previous sample, `interval_secs` apart (at least one second).
    pub fn sample(
        stats: &DownloadStats,
        pieces: PieceProgress,
        previous_downloaded: u64,
        previous_uploaded: u64,
        interval_secs: u64,
    ) -> (s: DownloadStatus)
        ensures
            s.state == spec_state(stats@, pieces.extracted, pieces.completed_pieces),
            s.pieces == pieces,
            s.downloaded_bytes == stats@.downloaded_bytes,
            s.uploaded_bytes == stats@.uploaded_bytes,
            s.wasted_bytes == stats@.wasted_bytes,
            s.hash_failures == stats@.hash_failures,
            s.in_flight_pieces == stats@.in_flight_pieces,
            s.active_peers == stats@.active_peers,
            s.download_rate == stats@.downloaded_bytes.saturating_sub(previous_downloaded) / (
            if interval_secs == 0 { 1 } else { interval_secs }),
            s.upload_rate == stats@.uploaded_bytes.saturating_sub(previous_uploaded) / (
            if interval_secs == 0 { 1 } else { interval_secs }),
    {
        let seconds = if interval_secs == 0 { 1 } else { interval_secs };
        let downloaded_bytes = stats.downloaded_bytes();
        let uploaded_bytes = stats.uploaded_bytes();
        let state = if stats.is_complete() {
            if pieces.extracted {
                DownloadState::Seeding
            } else {
                DownloadState::Finalizing
            }
        } else if pieces.completed_pieces == 0 {
            DownloadState::Starting
        } else {
            DownloadState::Downloading
        };
        DownloadStatus {
            state,
            pieces,
            downloaded_bytes,
            uploaded_bytes,
            wasted_bytes: stats.wasted_bytes(),
            hash_failures: stats.hash_failures(),
            in_flight_pieces: stats.in_flight_pieces(),
            active_peers: stats.active_peers(),
            download_rate: downloaded_bytes.saturating_sub(previous_downloaded) / seconds,
            upload_rate: uploaded_bytes.saturating_sub(previous_uploaded) / seconds,
        }
    }
}

/// One call that moves the counters, other than recording a resumed store:
/// each variant is the method of [`DownloadStats`] of the same meaning.
pub enum StatsOp {
    Downloaded(u64),
    Uploaded(u64),
    Wasted(u64),
    Verified(u64),
    FailedHash,
    Totals(u32, u64),
    Claimed,
    Released,
    Connected,
    Disconnected,
}

/// The counters after one call, as that method's contract gives them.
pub open spec fn apply_stats(s: StatsView, op: StatsOp) -> StatsView {
    match op {
        StatsOp::Downloaded(b) => StatsView { downloaded_bytes: s.downloaded_bytes.wrapping_add(b), ..s },
        StatsOp::Uploaded(b) => StatsView { uploaded_bytes: s.uploaded_bytes.wrapping_add(b), ..s },
        StatsOp::Wasted(b) => StatsView { wasted_bytes: s.wasted_bytes.wrapping_add(b), ..s },
        StatsOp::Verified(b) => StatsView {
            verified_bytes: s.verified_bytes.wrapping_add(b),
            completed_pieces: s.completed_pieces.wrapping_add(1),
            ..s
        },
        StatsOp::FailedHash => StatsView { hash_failures: s.hash_failures.wrapping_add(1), ..s },
        StatsOp::Totals(pieces, bytes) => StatsView { total_pieces: pieces, total_bytes: bytes, ..s },
        StatsOp::Claimed => StatsView { in_flight_pieces: s.in_flight_pieces.wrapping_add(1), ..s },
        StatsOp::Released => StatsView { in_flight_pieces: s.in_flight_pieces.saturating_sub(1), ..s },
        StatsOp::Connected => StatsView { active_peers: s.active_peers.wrapping_add(1), ..s },
        StatsOp::Disconnected => StatsView { active_peers: s.active_peers.saturating_sub(1), ..s },
    }
}

/// The counters after a run of calls, in order.
pub open spec fn run_stats(s: StatsView, ops: Seq<StatsOp>) -> StatsView
    decreases ops.len(),
{
    if ops.len() == 0 {
        s
    } else {
        run_stats(apply_stats(s, ops[0]), ops.drop_first())
    }
}

/// The bytes of every verified piece in a run of calls.
pub open spec fn verified_in(ops: Seq<StatsOp>) -> nat
    decreases ops.len(),
{
    if ops.len() == 0 {
        0
    } else {
        (match ops[0] {
            StatsOp::Verified(b) => b as nat,
            _ => 0,
        }) + verified_in(ops.drop_first())
    }
}

/// The counters once a resumed store was recorded, as
/// [`DownloadStats::set_resumed`] leaves them.
pub open spec fn resumed(s: StatsView, pieces: u32, bytes: u64) -> StatsView {
    StatsView { resumed_pieces: pieces, resumed_bytes: bytes, ..s }
}

proof fn lemma_run_stats(s: StatsView, ops: Seq<StatsOp>)
    requires
        s.verified_bytes + verified_in(ops) <= u64::MAX,
    ensures
        run_stats(s, ops).verified_bytes == s.verified_bytes + verified_in(ops),
        run_stats(s, ops).resumed_bytes == s.resumed_bytes,
        run_stats(s, ops).resumed_pieces == s.resumed_pieces,
    decreases ops.len(),
{
    if ops.len() > 0 {
        let t = apply_stats(s, ops[0]);
        match ops[0] {
            StatsOp::Verified(b) => {
                assert(t.verified_bytes == s.verified_bytes + b);
            },
            _ => {},
        }
        lemma_run_stats(t, ops.drop_first());
    }
}

/// Everything held is this session's verified work plus what the store
/// already had: from fresh counters, once a resumed store is recorded and
/// any run of other calls follows, the held bytes are the resumed bytes plus
/// those of every piece verified since, as long as no count wrapped.
pub proof fn law_held_is_verified_plus_resumed(s: StatsView, pieces: u32, bytes: u64, ops: Seq<StatsOp>)
    requires
        s.all_zero(),
        bytes + verified_in(ops) <= u64::MAX,
    ensures
        run_stats(resumed(s, pieces, bytes), ops).verified_bytes == verified_in(ops),
        run_stats(resumed(s, pieces, bytes), ops).resumed_bytes == bytes,
        run_stats(resumed(s, pieces, bytes), ops).held_bytes() == bytes + verified_in(ops),
{
    let t = resumed(s, pieces, bytes);
    lemma_run_stats(t, ops);
    let r = run_stats(t, ops);
    assert(r.verified_bytes + r.resumed_bytes <= u64::MAX);
    assert(r.held_bytes() == r.verified_bytes + r.resumed_bytes);
}

} // verus!
